//! How requests are answered.

use crate::conn;
use crate::conn::{ConnInner, MarkerSeq};
use crate::encode;
use crate::encode::EscapeSets;
use crate::listing;
use crate::listing::DirEntry;
use crate::paths;
use crate::range;
use crate::range::RangeKind;
use crate::reply;
use crate::reply::{Header, Reply, ReplyBody};
use crate::text;
use vstd::prelude::*;
use vstd::string::*;

verus! {

// ------------------------------------------------------------------------
// The name of a download
// ------------------------------------------------------------------------

/// A character of a file name, where only plain ASCII will do and the quote that
/// would end the name must not stand.
pub open spec fn plain_char(c: char) -> char {
    if ' ' <= c <= '~' && c != '"' && c != '\\' {
        c
    } else {
        '_'
    }
}

/// A file name in plain ASCII.
pub open spec fn plain_name(name: Seq<char>) -> Seq<char> {
    name.map_values(|c: char| plain_char(c))
}

/// The header by which a file is saved under its name rather than shown. Old
/// clients take the plain form, others the exact one.
pub open spec fn disposition(name: Seq<char>) -> Seq<char> {
    "attachment; filename=\""@ + plain_name(name) + "\"; filename*=UTF-8''"@ + encode::encoded(
        name,
        encode::disposition_bytes(),
    )
}

/// Writes the header by which a file is saved under its name.
pub fn content_disposition(sets: &EscapeSets, name: &str) -> (r: String)
    ensures
        r@ == disposition(name@),
{
    let exact = sets.encode_disposition(name);
    let mut plain = String::new();
    let chars = text::to_chars(name);
    let mut i: usize = 0;
    assert(plain@ =~= plain_name(name@.take(0)));
    while i < chars.len()
        invariant
            chars@ == name@,
            i <= chars@.len(),
            plain@ == plain_name(name@.take(i as int)),
        decreases chars.len() - i,
    {
        let c = chars[i];
        if ' ' <= c && c <= '~' && c != '"' && c != '\\' {
            plain.push(c);
        } else {
            plain.push('_');
        }
        i += 1;
        assert(plain@ =~= plain_name(name@.take(i as int)));
    }
    assert(name@.take(name@.len() as int) =~= name@);
    let mut s = String::new();
    s.append("attachment; filename=\"");
    s.append(plain.as_str());
    s.append("\"; filename*=UTF-8''");
    s.append(exact.as_str());
    assert(s@ =~= disposition(name@));
    s
}

// ------------------------------------------------------------------------
// Answering with a file
// ------------------------------------------------------------------------

/// The media type that `mime_guess` has for a file name, by what follows its
/// last dot.
pub uninterp spec fn guessed_media_type(name: Seq<char>) -> Option<Seq<char>>;

/// `mime_guess::from_path` and `MimeGuess::first_raw` look up the media type for
/// a file name in a table, by the extension; a name without a dot has none. Of
/// the table no more is said than that it gives the same type for the same name.
#[verifier::external_body]
fn guess_media_type(name: &str) -> (r: Option<&'static str>)
    ensures
        match r {
            Some(t) => guessed_media_type(name@) == Some(t@),
            None => guessed_media_type(name@) is None,
        },
        !name@.contains('.') ==> r is None,
{
    mime_guess::from_path(name).first_raw()
}

/// What came of opening a file.
#[derive(Clone, Copy, Debug, PartialEq, Eq, Structural)]
pub enum Opened {
    Yes,
    NotFound,
    Failed,
}

/// `bytes O-E/T`, for the `len` bytes from `offset` on of `total`.
pub open spec fn content_range(offset: u64, len: u64, total: u64) -> Seq<char> {
    "bytes "@ + text::decimal_digits(offset as nat) + "-"@ + text::decimal_digits(
        (offset + len - 1) as nat,
    ) + "/"@ + text::decimal_digits(total as nat)
}

/// `bytes */T`, for no bytes of `total`.
pub open spec fn no_content_range(total: u64) -> Seq<char> {
    "bytes */"@ + text::decimal_digits(total as nat)
}

/// A part is sent as such. One without bytes, as all of an empty file is, is not:
/// there are none to name in `Content-Range`.
pub open spec fn is_partial(kind: RangeKind) -> bool {
    kind matches RangeKind::Part(_, len) && len > 0
}

/// The status, and which bytes are sent: from where, and how many.
pub open spec fn selected(kind: RangeKind, total: u64) -> (u16, u64, u64) {
    if is_partial(kind) {
        (206, kind->Part_0, kind->Part_1)
    } else {
        (200, 0, total)
    }
}

/// The reply that sends a file, or a part of it, under `name`. For a request
/// that asks for the headers alone it has no body.
pub open spec fn download(
    name: Seq<char>,
    media_type: Option<Seq<char>>,
    kind: RangeKind,
    total: u64,
    head: bool,
    marker_value: u64,
) -> reply::Answer {
    let (status, offset, len) = selected(kind, total);
    let plain = reply::bare(status).with(
        Header::ContentType,
        match media_type {
            Some(t) => t,
            None => "application/octet-stream"@,
        },
    ).with(Header::AcceptRanges, "bytes"@).with(
        Header::ContentLength,
        text::decimal_digits(len as nat),
    ).with(Header::ContentDisposition, disposition(name)).with(
        Header::ConnMarker,
        text::decimal_digits(marker_value as nat),
    );
    let headed = if is_partial(kind) {
        plain.with(Header::ContentRange, content_range(offset, len, total))
    } else {
        plain
    };
    if head {
        headed
    } else {
        reply::Answer {
            body: reply::Payload::File(offset, len),
            ..headed.with(Header::Connection, "close"@)
        }
    }
}

/// The reply to a request for a file of `total` bytes, of which `kind` is asked
/// for.
pub open spec fn file_answer(
    opened: Opened,
    name: Seq<char>,
    media_type: Option<Seq<char>>,
    kind: RangeKind,
    total: u64,
    head: bool,
    marker_value: u64,
) -> reply::Answer {
    match opened {
        Opened::NotFound => reply::not_found(),
        Opened::Failed => reply::server_error(),
        Opened::Yes => match kind {
            RangeKind::Unsatisfiable => reply::bare(416).with(
                Header::ContentRange,
                no_content_range(total),
            ),
            _ => download(name, media_type, kind, total, head, marker_value),
        },
    }
}

/// The name under which a file is saved. One without a name has this one.
pub open spec fn saved_as(file_name: Option<Seq<char>>) -> Seq<char> {
    match file_name {
        Some(name) => name,
        None => "download"@,
    }
}

/// A text that may be missing.
pub open spec fn maybe(s: Option<&str>) -> Option<Seq<char>> {
    match s {
        Some(s) => Some(s@),
        None => None,
    }
}

/// Answers a request for a file, given its media type and the number of its marker.
pub fn file_reply(
    sets: &EscapeSets,
    opened: Opened,
    name: &str,
    media_type: Option<&str>,
    kind: RangeKind,
    total: u64,
    head: bool,
    marker_value: u64,
) -> (r: Reply)
    requires
        kind matches RangeKind::Part(offset, len) ==> offset + len <= u64::MAX,
    ensures
        r@ == file_answer(opened, name@, maybe(media_type), kind, total, head, marker_value),
{
    match opened {
        Opened::NotFound => return reply::error_page(404, "404 Not Found"),
        Opened::Failed => return reply::error_page(500, "500 Internal Server Error"),
        Opened::Yes => {},
    }
    let (status, offset, len): (u16, u64, u64) = match kind {
        RangeKind::Full => (200, 0, total),
        RangeKind::Part(offset, len) => if len > 0 {
            (206, offset, len)
        } else {
            (200, 0, total)
        },
        RangeKind::Unsatisfiable => {
            let mut none = String::from_str("bytes */");
            none.append(text::decimal(total).as_str());
            return Reply::new(416).header(Header::ContentRange, none);
        },
    };
    let media_type = match media_type {
        Some(t) => t,
        None => "application/octet-stream",
    };
    let mut r = Reply::new(status).header(
        Header::ContentType,
        String::from_str(media_type),
    ).header(Header::AcceptRanges, String::from_str("bytes")).header(
        Header::ContentLength,
        text::decimal(len),
    ).header(Header::ContentDisposition, content_disposition(sets, name)).header(
        Header::ConnMarker,
        text::decimal(marker_value),
    );
    if status == 206 {
        let mut part = String::from_str("bytes ");
        part.append(text::decimal(offset).as_str());
        part.append("-");
        part.append(text::decimal(offset + (len - 1)).as_str());
        part.append("/");
        part.append(text::decimal(total).as_str());
        assert(part@ =~= content_range(offset, len, total));
        r = r.header(Header::ContentRange, part);
    }
    if head {
        return r;
    }
    // the body goes past the HTTP machinery, which closes the connection for it
    r.header(Header::Connection, String::from_str("close")).body(ReplyBody::File(offset, len))
}

/// Answers a request for a file of `total` bytes that has been opened or not: draws
/// a fresh marker number, closes the barrier of the connection until the headers
/// with that marker are out, and puts the marker among them.
pub fn serve_file(
    sets: &EscapeSets,
    seq: &mut MarkerSeq,
    barrier: &mut ConnInner,
    opened: Opened,
    file_name: Option<&str>,
    range: Option<&str>,
    total: u64,
    head: bool,
) -> (r: Reply)
    ensures
        final(seq).upcoming() == conn::successor(old(seq).upcoming()),
        final(barrier)@ == old(barrier)@.armed(old(seq).upcoming()),
        final(barrier).waiting() == old(barrier).waiting(),
        r@ == file_answer(
            opened,
            saved_as(maybe(file_name)),
            guessed_media_type(saved_as(maybe(file_name))),
            range::requested_range(maybe(range), total),
            total,
            head,
            old(seq).upcoming(),
        ),
        // a name without a dot has no media type of its own
        !saved_as(maybe(file_name)).contains('.') ==> r@ == file_answer(
            opened,
            saved_as(maybe(file_name)),
            None,
            range::requested_range(maybe(range), total),
            total,
            head,
            old(seq).upcoming(),
        ),
{
    let marker_value: u64 = conn::begin_download(seq, barrier);
    let name = match file_name {
        Some(name) => name,
        None => "download",
    };
    let media_type = guess_media_type(name);
    let kind = range::parse_range(range, total);
    proof {
        range::law_part_lies_within_the_file(maybe(range), total);
    }
    file_reply(sets, opened, name, media_type, kind, total, head, marker_value)
}

// ------------------------------------------------------------------------
// From a request to an answer
// ------------------------------------------------------------------------

/// What a path leads to.
#[derive(Clone, Copy, Debug, PartialEq, Eq, Structural)]
pub enum FileKind {
    Dir,
    /// A file of that many bytes.
    File(u64),
    /// Neither: a device, a socket.
    Other,
}

impl FileKind {
    /// What the file system says of a path, in one word.
    pub fn of(is_dir: bool, is_file: bool, len: u64) -> (r: Self)
        ensures
            r == if is_dir {
                FileKind::Dir
            } else if is_file {
                FileKind::File(len)
            } else {
                FileKind::Other
            },
    {
        if is_dir {
            FileKind::Dir
        } else if is_file {
            FileKind::File(len)
        } else {
            FileKind::Other
        }
    }
}

/// What a request waits to be told.
pub enum EntryPhase {
    /// That it has come in.
    Start,
    /// Where its path leads, with all links followed.
    Resolving,
    /// What is there, at that path.
    Inspecting(Vec<u8>),
    /// What the directory holds.
    Listing,
    /// Nothing more.
    Done,
}

/// What a request is told.
pub enum EntryEvent {
    /// It has come in.
    Received,
    /// Its path leads there, with all links followed, or nowhere.
    Resolved(Option<Vec<u8>>),
    /// That is there, or nothing can be learnt of it.
    Inspected(Option<FileKind>),
    /// The directory holds these, or cannot be read.
    Listed(Option<Vec<DirEntry>>),
}

/// What is to be done for a request.
pub enum EntryAction {
    /// Answer it.
    Reply(Reply),
    /// Find out where that path leads, with all links followed.
    Resolve(Vec<u8>),
    /// Find out what is at that path.
    Inspect(Vec<u8>),
    /// Find out what the directory at that path holds.
    List(Vec<u8>),
    /// Answer it with the file at that path, of that many bytes.
    Serve(Vec<u8>, u64),
}

/// What a request waits for.
#[verifier::ext_equal]
pub enum Phase {
    Start,
    Resolving,
    Inspecting(Seq<u8>),
    Listing,
    Done,
}

/// What has happened.
#[verifier::ext_equal]
pub enum Event {
    Received,
    Resolved(Option<Seq<u8>>),
    Inspected(Option<FileKind>),
    Listed(Option<Seq<listing::Entry>>),
}

/// What is to be done.
#[verifier::ext_equal]
pub enum Action {
    Reply(reply::Answer),
    Resolve(Seq<u8>),
    Inspect(Seq<u8>),
    List(Seq<u8>),
    Serve(Seq<u8>, u64),
}

impl View for EntryPhase {
    type V = Phase;

    open spec fn view(&self) -> Phase {
        match self {
            EntryPhase::Start => Phase::Start,
            EntryPhase::Resolving => Phase::Resolving,
            EntryPhase::Inspecting(p) => Phase::Inspecting(p@),
            EntryPhase::Listing => Phase::Listing,
            EntryPhase::Done => Phase::Done,
        }
    }
}

impl View for EntryEvent {
    type V = Event;

    open spec fn view(&self) -> Event {
        match self {
            EntryEvent::Received => Event::Received,
            EntryEvent::Resolved(Some(p)) => Event::Resolved(Some(p@)),
            EntryEvent::Resolved(None) => Event::Resolved(None),
            EntryEvent::Inspected(kind) => Event::Inspected(*kind),
            EntryEvent::Listed(Some(entries)) => Event::Listed(Some(listing::views(entries@))),
            EntryEvent::Listed(None) => Event::Listed(None),
        }
    }
}

impl View for EntryAction {
    type V = Action;

    open spec fn view(&self) -> Action {
        match self {
            EntryAction::Reply(r) => Action::Reply(r@),
            EntryAction::Resolve(p) => Action::Resolve(p@),
            EntryAction::Inspect(p) => Action::Inspect(p@),
            EntryAction::List(p) => Action::List(p@),
            EntryAction::Serve(p, total) => Action::Serve(p@, *total),
        }
    }
}

/// Where a request for a directory is sent whose path lacks the slash at its end:
/// relative links on the page need it.
pub open spec fn with_slash(uri_path: Seq<char>) -> Seq<char> {
    text::without_trailing(uri_path, '?') + "/"@
}

/// The reply that sends a client elsewhere for good.
pub open spec fn moved(location: Seq<char>) -> reply::Answer {
    reply::bare(301).with(Header::Location, location)
}

/// The reply with the page for a directory.
pub open spec fn listed(uri_path: Seq<char>, entries: Seq<listing::Entry>) -> reply::Answer {
    reply::Answer {
        body: reply::Payload::Text(listing::page(uri_path, entries)),
        ..reply::bare(200).with(Header::ContentType, "text/html; charset=utf-8"@)
    }
}

/// Where a request goes whose path stands for `rel`.
pub open spec fn routed(root: Seq<u8>, rel: Seq<char>) -> (Phase, Action) {
    if paths::refused(rel) {
        (Phase::Done, Action::Reply(reply::forbidden()))
    } else {
        (Phase::Resolving, Action::Resolve(paths::target(root, rel)))
    }
}

/// What an event leads to, for a request for `uri_path` on a server of what is
/// below `root`.
pub open spec fn entry_step(root: Seq<u8>, uri_path: Seq<char>, phase: Phase, event: Event) -> (
    Phase,
    Action,
) {
    match event {
        Event::Received => routed(root, encode::decoded(uri_path)),
        Event::Resolved(None) => (Phase::Done, Action::Reply(reply::not_found())),
        Event::Resolved(Some(found)) => if paths::within(root, found) {
            (Phase::Inspecting(found), Action::Inspect(found))
        } else {
            // a link that leads out of the root is not followed
            (Phase::Done, Action::Reply(reply::forbidden()))
        },
        Event::Inspected(None) => (Phase::Done, Action::Reply(reply::not_found())),
        Event::Inspected(Some(FileKind::Dir)) => if uri_path.len() > 0 && uri_path.last() == '/' {
            (Phase::Listing, Action::List(phase->Inspecting_0))
        } else {
            (Phase::Done, Action::Reply(moved(with_slash(uri_path))))
        },
        Event::Inspected(Some(FileKind::File(total))) => (
            Phase::Done,
            Action::Serve(phase->Inspecting_0, total),
        ),
        Event::Inspected(Some(FileKind::Other)) => (
            Phase::Done,
            Action::Reply(reply::not_found()),
        ),
        Event::Listed(None) => (Phase::Done, Action::Reply(reply::server_error())),
        Event::Listed(Some(entries)) => (Phase::Done, Action::Reply(listed(uri_path, entries))),
    }
}

/// The event is one that a request waits for.
pub open spec fn awaits(phase: Phase, event: Event) -> bool {
    match phase {
        Phase::Start => event is Received,
        Phase::Resolving => event is Resolved,
        Phase::Inspecting(_) => event is Inspected,
        Phase::Listing => event is Listed,
        Phase::Done => false,
    }
}

/// The directory that is served, by its path with all links followed.
pub struct Root {
    pub path: Vec<u8>,
}

/// A request that is being answered.
pub struct EntryTask {
    pub uri_path: String,
    pub phase: EntryPhase,
}

impl EntryTask {
    /// A request for that path.
    pub fn new(uri_path: String) -> (r: Self)
        ensures
            r.uri_path == uri_path,
            r.phase@ == Phase::Start,
    {
        EntryTask { uri_path, phase: EntryPhase::Start }
    }

    /// Takes in what its path stands for, now that it is decoded, and decides what
    /// is to be done.
    pub fn route(&mut self, root: &Root, rel: &str) -> (action: EntryAction)
        ensures
            (final(self).phase@, action@) == routed(root.path@, rel@),
            final(self).uri_path == old(self).uri_path,
    {
        match paths::locate(&root.path, rel) {
            Some(target) => {
                self.phase = EntryPhase::Resolving;
                EntryAction::Resolve(target)
            },
            None => {
                self.phase = EntryPhase::Done;
                EntryAction::Reply(reply::error_page(403, "403 Forbidden"))
            },
        }
    }

    /// Takes in an event and decides what is to be done.
    pub fn entry(&mut self, root: &Root, sets: &EscapeSets, event: EntryEvent) -> (action:
        EntryAction)
        requires
            awaits(old(self).phase@, event@),
        ensures
            (final(self).phase@, action@) == entry_step(
                root.path@,
                old(self).uri_path@,
                old(self).phase@,
                event@,
            ),
            final(self).uri_path == old(self).uri_path,
    {
        match event {
            EntryEvent::Received => {
                let rel = encode::percent_decode(self.uri_path.as_str());
                self.route(root, rel.as_str())
            },
            EntryEvent::Resolved(found) => match found {
                None => {
                    self.phase = EntryPhase::Done;
                    EntryAction::Reply(reply::error_page(404, "404 Not Found"))
                },
                Some(found) => {
                    if !paths::starts_with(&found, &root.path) {
                        self.phase = EntryPhase::Done;
                        return EntryAction::Reply(reply::error_page(403, "403 Forbidden"));
                    }
                    let at = paths::copy_bytes(found.as_slice());
                    self.phase = EntryPhase::Inspecting(found);
                    EntryAction::Inspect(at)
                },
            },
            EntryEvent::Inspected(kind) => {
                let at = match &self.phase {
                    EntryPhase::Inspecting(at) => paths::copy_bytes(at.as_slice()),
                    _ => Vec::new(),
                };
                match kind {
                    None => {
                        self.phase = EntryPhase::Done;
                        EntryAction::Reply(reply::error_page(404, "404 Not Found"))
                    },
                    Some(FileKind::Dir) => {
                        let path = text::to_chars(self.uri_path.as_str());
                        if path.len() > 0 && path[path.len() - 1] == '/' {
                            self.phase = EntryPhase::Listing;
                            return EntryAction::List(at);
                        }
                        let mut location = text::from_chars(&text::trim_trailing(&path, '?'));
                        location.append("/");
                        self.phase = EntryPhase::Done;
                        EntryAction::Reply(Reply::new(301).header(Header::Location, location))
                    },
                    Some(FileKind::File(total)) => {
                        self.phase = EntryPhase::Done;
                        EntryAction::Serve(at, total)
                    },
                    Some(FileKind::Other) => {
                        self.phase = EntryPhase::Done;
                        EntryAction::Reply(reply::error_page(404, "404 Not Found"))
                    },
                }
            },
            EntryEvent::Listed(entries) => {
                self.phase = EntryPhase::Done;
                match entries {
                    None => EntryAction::Reply(
                        reply::error_page(500, "500 Internal Server Error"),
                    ),
                    Some(entries) => {
                        let page = listing::list_dir(sets, &entries, self.uri_path.as_str());
                        EntryAction::Reply(
                            Reply::new(200).header(
                                Header::ContentType,
                                String::from_str("text/html; charset=utf-8"),
                            ).body(ReplyBody::Text(page)),
                        )
                    },
                }
            },
        }
    }
}

// ------------------------------------------------------------------------
// Laws of the routing
// ------------------------------------------------------------------------

/// What a request waits for after a run of events.
pub open spec fn phase_after(root: Seq<u8>, uri_path: Seq<char>, events: Seq<Event>) -> Phase
    decreases events.len(),
{
    if events.len() == 0 {
        Phase::Start
    } else {
        entry_step(
            root,
            uri_path,
            phase_after(root, uri_path, events.drop_last()),
            events.last(),
        ).0
    }
}

/// Each event of the run is one that the request waits for when it comes.
pub open spec fn happens(root: Seq<u8>, uri_path: Seq<char>, events: Seq<Event>) -> bool
    decreases events.len(),
{
    events.len() == 0 || (happens(root, uri_path, events.drop_last()) && awaits(
        phase_after(root, uri_path, events.drop_last()),
        events.last(),
    ))
}

/// What the last event of a run leads to.
pub open spec fn outcome(root: Seq<u8>, uri_path: Seq<char>, events: Seq<Event>) -> Action {
    entry_step(
        root,
        uri_path,
        phase_after(root, uri_path, events.drop_last()),
        events.last(),
    ).1
}

/// Nothing outside the root is looked at, listed or served, wherever links lead:
/// whatever is done with a path, the path lies within the root and is the one
/// that the request was found to lead to. A page and a redirection too are sent
/// only for what does not climb and was found to lie within the root.
pub proof fn law_nothing_outside_the_root(root: Seq<u8>, uri_path: Seq<char>, events: Seq<Event>)
    requires
        events.len() > 0,
        happens(root, uri_path, events),
    ensures
        match outcome(root, uri_path, events) {
            Action::Inspect(p) => paths::within(root, p) && events.contains(
                Event::Resolved(Some(p)),
            ),
            Action::List(p) => paths::within(root, p) && events.contains(
                Event::Resolved(Some(p)),
            ),
            Action::Serve(p, _) => paths::within(root, p) && events.contains(
                Event::Resolved(Some(p)),
            ),
            Action::Resolve(p) => paths::within(root, p),
            Action::Reply(a) => a.status == 200 || a.status == 301 ==> {
                &&& !paths::refused(encode::decoded(uri_path))
                &&& found_within(root, events)
            },
        },
{
    let before = events.drop_last();
    lemma_inspected_lies_within(root, uri_path, before);
    assert(events[events.len() - 1] == events.last());
    if outcome(root, uri_path, events) is Resolve {
        paths::law_target_lies_within(root, encode::decoded(uri_path));
    }
    if phase_after(root, uri_path, before) is Inspecting {
        let p = phase_after(root, uri_path, before)->Inspecting_0;
        let k = choose|k: int| 0 <= k < before.len() && before[k] == Event::Resolved(Some(p));
        assert(events[k] == Event::Resolved(Some(p)));
        assert(paths::within(root, p));
    }
    if phase_after(root, uri_path, before) is Listing {
        lemma_found_within_extends(root, events);
    }
    if paths::refused(encode::decoded(uri_path)) {
        law_climbing_is_refused(root, uri_path, events);
    }
}

/// The request was found to lead to a place within the root.
pub open spec fn found_within(root: Seq<u8>, events: Seq<Event>) -> bool {
    exists|p: Seq<u8>| #[trigger]
        paths::within(root, p) && events.contains(Event::Resolved(Some(p)))
}

proof fn lemma_found_within_extends(root: Seq<u8>, events: Seq<Event>)
    requires
        events.len() > 0,
        found_within(root, events.drop_last()),
    ensures
        found_within(root, events),
{
    let before = events.drop_last();
    let p = choose|p: Seq<u8>| #[trigger]
        paths::within(root, p) && before.contains(Event::Resolved(Some(p)));
    let k = choose|k: int| 0 <= k < before.len() && before[k] == Event::Resolved(Some(p));
    assert(events[k] == Event::Resolved(Some(p)));
}

proof fn lemma_inspected_lies_within(root: Seq<u8>, uri_path: Seq<char>, events: Seq<Event>)
    requires
        happens(root, uri_path, events),
    ensures
        phase_after(root, uri_path, events) matches Phase::Inspecting(p) ==> paths::within(
            root,
            p,
        ) && events.contains(Event::Resolved(Some(p))),
        phase_after(root, uri_path, events) is Listing ==> found_within(root, events),
    decreases events.len(),
{
    if events.len() > 0 {
        let before = events.drop_last();
        lemma_inspected_lies_within(root, uri_path, before);
        assert(events[events.len() - 1] == events.last());
        if let Phase::Inspecting(p) = phase_after(root, uri_path, before) {
            assert(paths::within(root, p));
            lemma_found_within_extends(root, events);
        }
    }
}

/// A request that climbs is refused at once, before anything is looked at.
pub proof fn law_climbing_is_refused(root: Seq<u8>, uri_path: Seq<char>, events: Seq<Event>)
    requires
        paths::refused(encode::decoded(uri_path)),
        events.len() > 0,
        happens(root, uri_path, events),
    ensures
        events.len() == 1,
        outcome(root, uri_path, events) == Action::Reply(reply::forbidden()),
    decreases events.len(),
{
    let before = events.drop_last();
    if before.len() > 0 {
        law_climbing_is_refused(root, uri_path, before);
    }
}

/// A request is answered once, in four steps at the most: its phase is over
/// exactly when it has been answered or given to the file it asks for.
pub proof fn law_answered_once(root: Seq<u8>, uri_path: Seq<char>, events: Seq<Event>)
    requires
        events.len() > 0,
        happens(root, uri_path, events),
    ensures
        events.len() <= 4,
        phase_after(root, uri_path, events) == Phase::Done <==> (outcome(root, uri_path, events)
            is Reply || outcome(root, uri_path, events) is Serve),
{
    lemma_steps(root, uri_path, events.drop_last());
}

proof fn lemma_steps(root: Seq<u8>, uri_path: Seq<char>, events: Seq<Event>)
    requires
        happens(root, uri_path, events),
    ensures
        match phase_after(root, uri_path, events) {
            Phase::Start => events.len() == 0,
            Phase::Resolving => events.len() == 1,
            Phase::Inspecting(_) => events.len() == 2,
            Phase::Listing => events.len() == 3,
            Phase::Done => events.len() <= 4,
        },
    decreases events.len(),
{
    if events.len() > 0 {
        lemma_steps(root, uri_path, events.drop_last());
    }
}

/// A client that is sent on to the path of a directory is not sent on again.
pub proof fn law_sent_on_once(root: Seq<u8>, uri_path: Seq<char>, found: Seq<u8>)
    ensures
        entry_step(
            root,
            with_slash(uri_path),
            Phase::Inspecting(found),
            Event::Inspected(Some(FileKind::Dir)),
        ) == (Phase::Listing, Action::List(found)),
{
    reveal_strlit("/");
    assert(with_slash(uri_path).last() == '/');
}

/// What a step of a request is seen as is the step, with the same paths, numbers and
/// replies in it.
pub proof fn law_steps_are_seen_whole(
    at: Vec<u8>,
    total: u64,
    r: Reply,
    kind: Option<FileKind>,
    entries: Vec<DirEntry>,
)
    ensures
        EntryPhase::Inspecting(at)@ == Phase::Inspecting(at@),
        EntryEvent::Resolved(Some(at))@ == Event::Resolved(Some(at@)),
        EntryEvent::Resolved(None)@ == Event::Resolved(None),
        EntryEvent::Inspected(kind)@ == Event::Inspected(kind),
        EntryEvent::Listed(None)@ == Event::Listed(None),
        EntryEvent::Listed(Some(entries))@ == Event::Listed(
            Some(
                Seq::new(
                    entries@.len(),
                    |i: int|
                        listing::Entry {
                            name: entries@[i].name@,
                            is_dir: entries@[i].is_dir,
                            size: entries@[i].size,
                            modified: entries@[i].modified,
                        },
                ),
            ),
        ),
        EntryAction::Reply(r)@ == Action::Reply(r@),
        EntryAction::Resolve(at)@ == Action::Resolve(at@),
        EntryAction::Inspect(at)@ == Action::Inspect(at@),
        EntryAction::List(at)@ == Action::List(at@),
        EntryAction::Serve(at, total)@ == Action::Serve(at@, total),
{
    assert(listing::views(entries@) =~= Seq::new(
        entries@.len(),
        |i: int|
            listing::Entry {
                name: entries@[i].name@,
                is_dir: entries@[i].is_dir,
                size: entries@[i].size,
                modified: entries@[i].modified,
            },
    ));
}

/// Each step of a request awaits whatever can come of it.
pub proof fn law_takes_in_what_can_come(
    at: Seq<u8>,
    found: Option<Seq<u8>>,
    kind: Option<FileKind>,
    entries: Option<Seq<listing::Entry>>,
)
    ensures
        awaits(Phase::Start, Event::Received),
        awaits(Phase::Resolving, Event::Resolved(found)),
        awaits(Phase::Inspecting(at), Event::Inspected(kind)),
        awaits(Phase::Listing, Event::Listed(entries)),
{
}

proof fn lemma_what_has_happened(root: Seq<u8>, uri_path: Seq<char>, events: Seq<Event>)
    requires
        happens(root, uri_path, events),
    ensures
        match phase_after(root, uri_path, events) {
            Phase::Start => events.len() == 0,
            Phase::Resolving => events.len() == 1 && events[0] == Event::Received,
            Phase::Inspecting(p) => events.len() == 2 && events[1] == Event::Resolved(Some(p)),
            Phase::Listing => events.len() == 3 && events[2] == Event::Inspected(
                Some(FileKind::Dir),
            ),
            Phase::Done => true,
        },
    decreases events.len(),
{
    if events.len() > 0 {
        lemma_what_has_happened(root, uri_path, events.drop_last());
    }
}

/// A request is answered for what happened, and for nothing else. It is refused
/// only if its path climbs or holds a NUL, or if it leads out of the root; there is
/// nothing there only if nothing was found, or neither a file nor a directory; the
/// server fails only over a directory that cannot be read; and a client is sent on
/// only for a directory whose path lacks its slash. In all other cases the request
/// goes on, with the path that was found: to look at it, to list it, to send it.
pub proof fn law_answered_for_what_happened(
    root: Seq<u8>,
    uri_path: Seq<char>,
    events: Seq<Event>,
)
    requires
        events.len() > 0,
        happens(root, uri_path, events),
    ensures
        ({
            let rel = encode::decoded(uri_path);
            let done = outcome(root, uri_path, events);
            let ends_with_slash = uri_path.len() > 0 && uri_path.last() == '/';
            match events.last() {
                Event::Received => {
                    &&& events.len() == 1
                    &&& paths::climbs(rel) || rel.contains('\0') ==> done is Reply
                        && done->Reply_0.status == 403
                    &&& !paths::climbs(rel) && !rel.contains('\0') ==> done == Action::Resolve(
                        paths::target(root, rel),
                    )
                },
                Event::Resolved(found) => {
                    &&& events.len() == 2
                    &&& found is None ==> done is Reply && done->Reply_0.status == 404
                    &&& found matches Some(p) ==> {
                        &&& paths::within(root, p) ==> done == Action::Inspect(p)
                        &&& !paths::within(root, p) ==> done is Reply && done->Reply_0.status == 403
                    }
                },
                Event::Inspected(kind) => {
                    &&& events.len() == 3
                    &&& events[1] matches Event::Resolved(Some(p)) && {
                        &&& kind is None || kind == Some(FileKind::Other) ==> done is Reply
                            && done->Reply_0.status == 404
                        &&& kind matches Some(FileKind::File(total)) ==> done == Action::Serve(
                            p,
                            total,
                        )
                        &&& kind == Some(FileKind::Dir) && ends_with_slash ==> done == Action::List(
                            p,
                        )
                        &&& kind == Some(FileKind::Dir) && !ends_with_slash ==> done is Reply
                            && done->Reply_0.status == 301
                    }
                },
                Event::Listed(entries) => {
                    &&& events.len() == 4
                    &&& entries is None ==> done is Reply && done->Reply_0.status == 500
                    &&& entries is Some ==> done is Reply && done->Reply_0.status == 200
                },
            }
        }),
{
    lemma_what_has_happened(root, uri_path, events.drop_last());
    paths::law_refused_only_for_climbing_or_a_nul(encode::decoded(uri_path));
}

/// Whatever a path stands for once it is decoded: it is refused if it climbs or holds
/// a NUL, and looked for below the root otherwise.
pub proof fn law_routed_unless_it_climbs(root: Seq<u8>, rel: Seq<char>)
    ensures
        paths::climbs(rel) || rel.contains('\0') ==> routed(root, rel) == (
            Phase::Done,
            Action::Reply(reply::forbidden()),
        ),
        !paths::climbs(rel) && !rel.contains('\0') ==> routed(root, rel) == (
            Phase::Resolving,
            Action::Resolve(paths::target(root, rel)),
        ),
{
    paths::law_refused_only_for_climbing_or_a_nul(rel);
}

/// What a request that is not sent a file is sent: with a refusal or an error its
/// status in words, on a line of its own; with a directory its page; with a
/// redirection nothing but the place to go to, which is the path with a slash behind
/// it, and without any question marks at its end.
pub proof fn law_replies_say_what_is_the_matter(
    root: Seq<u8>,
    uri_path: Seq<char>,
    events: Seq<Event>,
)
    requires
        events.len() > 0,
        happens(root, uri_path, events),
    ensures
        outcome(root, uri_path, events) matches Action::Reply(a) ==> {
            let plain = seq![(Header::ContentType, "text/plain; charset=utf-8"@)];
            &&& a.status == 403 ==> a.headers == plain && a.body == reply::Payload::Text(
                "403 Forbidden"@ + "\n"@,
            )
            &&& a.status == 404 ==> a.headers == plain && a.body == reply::Payload::Text(
                "404 Not Found"@ + "\n"@,
            )
            &&& a.status == 500 ==> a.headers == plain && a.body == reply::Payload::Text(
                "500 Internal Server Error"@ + "\n"@,
            )
            &&& a.status == 301 ==> {
                &&& a.body == reply::Payload::Empty
                &&& a.headers.len() == 1
                &&& a.headers[0].0 == Header::Location
                &&& a.headers[0].1.len() > 0
                &&& a.headers[0].1.last() == '/'
                &&& a.headers[0].1.drop_last().is_prefix_of(uri_path)
                &&& forall|i: int|
                    a.headers[0].1.len() - 1 <= i < uri_path.len() ==> #[trigger] uri_path[i] == '?'
                &&& a.headers[0].1.len() > 1 ==> a.headers[0].1[a.headers[0].1.len() - 2] != '?'
            }
            &&& a.status == 200 ==> {
                &&& a.headers == seq![(Header::ContentType, "text/html; charset=utf-8"@)]
                &&& events.last() matches Event::Listed(Some(entries)) && a.body
                    == reply::Payload::Text(listing::page(uri_path, entries))
            }
        },
{
    law_answered_for_what_happened(root, uri_path, events);
    reveal_strlit("/");
    let n = text::law_trailing_are_taken_off(uri_path, '?');
    let location = with_slash(uri_path);
    assert(location.drop_last() =~= uri_path.take(n));
    assert(uri_path.take(uri_path.take(n).len() as int) =~= uri_path.take(n));
    if n > 0 {
        assert(location[n - 1] == uri_path[n - 1]);
    }
}

// ------------------------------------------------------------------------
// Laws of downloads
// ------------------------------------------------------------------------

/// The header of a download is text that a header may hold: printable ASCII. It
/// starts with `attachment`.
pub proof fn law_disposition_is_a_header(name: Seq<char>)
    ensures
        "attachment; filename=\""@.is_prefix_of(disposition(name)),
        forall|i: int|
            0 <= i < disposition(name).len() ==> ' ' <= #[trigger] disposition(name)[i] <= '~',
{
    reveal_strlit("attachment; filename=\"");
    reveal_strlit("\"; filename*=UTF-8''");
    let a = "attachment; filename=\""@;
    let p = plain_name(name);
    let b = "\"; filename*=UTF-8''"@;
    let bytes = vstd::utf8::encode_utf8(name);
    let set = encode::disposition_bytes();
    let e = encode::percent_encoded(bytes, set);
    let d = disposition(name);
    encode::law_encoded_text_is_plain(bytes, set);
    assert(d =~= a + p + b + e);
    assert(a =~= d.take(a.len() as int));
    assert forall|i: int| 0 <= i < d.len() implies ' ' <= #[trigger] d[i] <= '~' by {
        if i < a.len() {
            assert(d[i] == a[i]);
        } else if i < a.len() + p.len() {
            assert(d[i] == p[i - a.len()]);
        } else if i < a.len() + p.len() + b.len() {
            assert(d[i] == b[i - a.len() - p.len()]);
        } else {
            let c = e[i - a.len() - p.len() - b.len()];
            assert(d[i] == c);
            assert(c == encode::percent_encoded(bytes, set)[i - a.len() - p.len() - b.len()]);
            assert(0 <= (c as int) < 128);
        }
    }
}

/// The plain form of a name cannot end the quotes around it, has as many
/// characters as the name, and is the name where that is plain.
pub proof fn law_plain_name_stays_quoted(name: Seq<char>)
    ensures
        plain_name(name).len() == name.len(),
        !plain_name(name).contains('"'),
        !plain_name(name).contains('\\'),
        forall|i: int|
            0 <= i < name.len() && ' ' <= #[trigger] name[i] <= '~' && name[i] != '"' && name[i]
                != '\\' ==> plain_name(name)[i] == name[i],
{
}

/// A file is always sent to be saved, as the bytes that were asked for, with
/// their number in `Content-Length`; where it is a part, `Content-Range` tells
/// which, and they are bytes of the file.
pub proof fn law_downloads_say_what_they_send(
    name: Seq<char>,
    media_type: Option<Seq<char>>,
    header: Option<Seq<char>>,
    total: u64,
    marker_value: u64,
) -> (texts: (Seq<char>, Seq<char>, Seq<char>, Seq<char>))
    requires
        !(range::requested_range(header, total) is Unsatisfiable),
    ensures
        ({
            let kind = range::requested_range(header, total);
            let a = file_answer(Opened::Yes, name, media_type, kind, total, false, marker_value);
            let (status, offset, len) = selected(kind, total);
            &&& a.status == status
            &&& a.body == reply::Payload::File(offset, len)
            &&& offset + len <= total
            &&& a.has(Header::ContentLength, text::decimal_digits(len as nat))
            &&& a.has(Header::ContentDisposition, disposition(name))
            &&& a.has(Header::AcceptRanges, "bytes"@)
            &&& a.has(Header::ConnMarker, text::decimal_digits(marker_value as nat))
            &&& a.has(Header::Connection, "close"@)
            &&& kind is Full || total == 0 ==> status == 200 && offset == 0 && len == total
            &&& kind is Part && total > 0 ==> status == 206 && 0 < len && kind
                == RangeKind::Part(offset, len) && a.has(
                Header::ContentRange,
                content_range(offset, len, total),
            )
            &&& total > 0 ==> (kind matches RangeKind::Part(from, count) ==> {
                let (first, last, size, length) = texts;
                &&& a.has(
                    Header::ContentRange,
                    "bytes "@ + first + "-"@ + last + "/"@ + size,
                )
                &&& a.has(Header::ContentLength, length)
                &&& text::is_number(first, from as int)
                &&& text::is_number(last, from + count - 1)
                &&& text::is_number(size, total as int)
                &&& text::is_number(length, count as int)
                &&& from + count - 1 < total
                &&& a.body == reply::Payload::File(from, count)
            })
        }),
{
    let kind = range::requested_range(header, total);
    range::law_part_lies_within_the_file(header, total);
    let a = file_answer(Opened::Yes, name, media_type, kind, total, false, marker_value);
    let h = a.headers;
    assert(h[1].0 == Header::AcceptRanges);
    assert(h[2].0 == Header::ContentLength);
    assert(h[3].0 == Header::ContentDisposition);
    assert(h[4].0 == Header::ConnMarker);
    if is_partial(kind) {
        assert(h[5].0 == Header::ContentRange);
        assert(h[6].0 == Header::Connection);
    } else {
        assert(h[5].0 == Header::Connection);
    }
    let (first, last, size) = law_download_names_the_bytes_sent(
        name,
        media_type,
        kind,
        total,
        false,
        marker_value,
    );
    (first, last, size, h[2].1)
}

/// A range that starts behind the end of a file is refused with the size of the
/// file, whatever else there is to say.
pub proof fn law_range_behind_the_end_is_refused(
    name: Seq<char>,
    media_type: Option<Seq<char>>,
    start: u64,
    total: u64,
    head: bool,
    marker_value: u64,
)
    requires
        start >= total,
    ensures
        ({
            let header = "bytes="@ + (text::decimal_digits(start as nat) + seq!['-']);
            let kind = range::requested_range(Some(header), total);
            let a = file_answer(Opened::Yes, name, media_type, kind, total, head, marker_value);
            &&& a.status == 416
            &&& a.headers == seq![(Header::ContentRange, no_content_range(total))]
            &&& a.body == reply::Payload::Empty
        }),
{
    range::law_open_span(start, total);
}

/// A request for the headers alone is answered with those of the download, but
/// for the number of the marker, which no two replies share, and for `Connection`,
/// which only the download has; and with nothing else.
pub proof fn law_head_tells_what_a_download_sends(
    name: Seq<char>,
    media_type: Option<Seq<char>>,
    kind: RangeKind,
    total: u64,
    get_marker: u64,
    head_marker: u64,
)
    requires
        !(kind is Unsatisfiable),
    ensures
        ({
            let get = file_answer(Opened::Yes, name, media_type, kind, total, false, get_marker);
            let head = file_answer(Opened::Yes, name, media_type, kind, total, true, head_marker);
            &&& head.status == get.status
            &&& head.body == reply::Payload::Empty
            &&& forall|h: Header, value: Seq<char>|
                h != Header::ConnMarker && h != Header::Connection ==> (#[trigger] head.has(
                    h,
                    value,
                ) <==> get.has(h, value))
            &&& get.has(Header::Connection, "close"@)
            &&& forall|value: Seq<char>| !(#[trigger] head.has(Header::Connection, value))
            &&& head.has(Header::ConnMarker, text::decimal_digits(head_marker as nat))
            &&& get.has(Header::ConnMarker, text::decimal_digits(get_marker as nat))
        }),
{
    let get = file_answer(Opened::Yes, name, media_type, kind, total, false, get_marker);
    let head = file_answer(Opened::Yes, name, media_type, kind, total, true, head_marker);
    let n = head.headers.len() as int;
    let marked = (Header::ConnMarker, text::decimal_digits(get_marker as nat));
    assert(head.headers[4].0 == Header::ConnMarker);
    assert(get.headers =~= head.headers.update(4, marked).push((Header::Connection, "close"@)));
    assert(get.headers[n] == (Header::Connection, "close"@));
    assert(get.headers[4] == marked);
    assert forall|h: Header, value: Seq<char>|
        h != Header::ConnMarker && h != Header::Connection implies (#[trigger] head.has(h, value)
        <==> get.has(h, value)) by {
        if head.has(h, value) {
            let k = choose|k: int| 0 <= k < n && head.headers[k] == (h, value);
            assert(get.headers[k] == (h, value));
        }
        if get.has(h, value) {
            let k = choose|k: int| 0 <= k < n + 1 && get.headers[k] == (h, value);
            assert(head.headers[k] == (h, value));
        }
    }
}

/// A refused range is answered alike, whether the file or its headers are asked
/// for.
pub proof fn law_refused_range_is_answered_alike(
    name: Seq<char>,
    media_type: Option<Seq<char>>,
    total: u64,
    get_marker: u64,
    head_marker: u64,
)
    ensures
        file_answer(
            Opened::Yes,
            name,
            media_type,
            RangeKind::Unsatisfiable,
            total,
            false,
            get_marker,
        ) == file_answer(
            Opened::Yes,
            name,
            media_type,
            RangeKind::Unsatisfiable,
            total,
            true,
            head_marker,
        ),
{
}

/// The marker that a download is stamped with is the one that the barrier waits
/// for: the header line of the reply is the marker's.
pub proof fn law_download_carries_its_marker(
    name: Seq<char>,
    media_type: Option<Seq<char>>,
    kind: RangeKind,
    total: u64,
    head: bool,
    marker_value: u64,
)
    requires
        !(kind is Unsatisfiable),
    ensures
        ({
            let a = file_answer(Opened::Yes, name, media_type, kind, total, head, marker_value);
            exists|k: int|
                0 <= k < a.headers.len() && (#[trigger] a.headers[k]).0 == Header::ConnMarker
                    && conn::MARKER_HEADER@ + ": "@ + a.headers[k].1 + "\r\n"@
                    == conn::marker_text(marker_value)
        }),
{
    let a = file_answer(Opened::Yes, name, media_type, kind, total, head, marker_value);
    assert(a.headers[4].0 == Header::ConnMarker);
}

/// One number is drawn, waited for and stamped: the reply that a draw is made for,
/// if it sends a file, carries the very line that the barrier then waits for; the
/// barrier is closed; and no other draw gives that number, before all have come up.
pub proof fn law_one_number_is_drawn_armed_and_stamped(
    first: u64,
    draws: nat,
    barrier: conn::Barrier,
    opened: Opened,
    name: Seq<char>,
    media_type: Option<Seq<char>>,
    kind: RangeKind,
    total: u64,
    head: bool,
)
    ensures
        ({
            let v = conn::drawn(first, draws);
            let closed_barrier = barrier.armed(v);
            let a = file_answer(opened, name, media_type, kind, total, head, v);
            &&& !closed_barrier.head_written
            &&& !closed_barrier.head_complete
            &&& a.status == 200 || a.status == 206 ==> a.has(
                Header::ConnMarker,
                text::decimal_digits(v as nat),
            ) && closed_barrier.marker == vstd::utf8::encode_utf8(
                conn::MARKER_HEADER@ + ": "@ + text::decimal_digits(v as nat) + "\r\n"@,
            )
            &&& forall|other: nat|
                other != draws && -0x1_0000_0000_0000_0000 < other - draws
                    < 0x1_0000_0000_0000_0000 ==> #[trigger] conn::drawn(first, other) != v
        }),
{
    let v = conn::drawn(first, draws);
    let a = file_answer(opened, name, media_type, kind, total, head, v);
    if a.status == 200 || a.status == 206 {
        assert(a.headers[4].0 == Header::ConnMarker);
    }
    assert forall|other: nat|
        other != draws && -0x1_0000_0000_0000_0000 < other - draws
            < 0x1_0000_0000_0000_0000 implies #[trigger] conn::drawn(first, other) != v by {
        if other < draws {
            conn::law_marker_numbers_differ(first, other, draws);
        } else {
            conn::law_marker_numbers_differ(first, draws, other);
        }
    }
}

/// The header of a download gives its name back. What stands between the quotes of
/// `filename=` has as many characters as the name, and is the name wherever that is
/// plain; what follows `filename*=UTF-8''`, to the end, decodes to the name. Neither
/// part holds a quote, so the header comes apart in one way only.
pub proof fn law_disposition_gives_the_name_back(name: Seq<char>) -> (parts: (
    Seq<char>,
    Seq<char>,
))
    ensures
        ({
            let (plain, exact) = parts;
            &&& disposition(name) == "attachment; filename=\""@ + plain
                + "\"; filename*=UTF-8''"@ + exact
            &&& plain.len() == name.len()
            &&& forall|i: int|
                0 <= i < name.len() ==> #[trigger] plain[i] == if ' ' <= name[i] <= '~' && name[i]
                    != '"' && name[i] != '\\' {
                    name[i]
                } else {
                    '_'
                }
            &&& !plain.contains('"')
            &&& encode::decoded(exact) == name
            &&& !exact.contains('"')
            &&& !exact.contains('\'')
            &&& forall|i: int|
                0 <= i < exact.len() ==> #[trigger] exact[i] == '%' || encode::is_attr_char(
                    exact[i],
                )
        }),
{
    let plain = plain_name(name);
    let exact = encode::encoded(name, encode::disposition_bytes());
    law_plain_name_stays_quoted(name);
    encode::law_disposition_decodes(name);
    encode::law_disposition_is_of_rfc_5987(name);
    (plain, exact)
}

/// A reply that sends a file, or its headers alone, says what is sent, and in these
/// headers alone: a media type, which is that of the name if it has one; that parts
/// can be asked for; how many bytes are sent; the name; the marker. One that sends a
/// part has status 206, and its `Content-Range` reads `bytes `, the place of the
/// first byte that is sent, `-`, that of the last one, `/`, and the size of the file;
/// so the last less the first and one more is the number of bytes sent. One that
/// sends all of the file has status 200 and no such header.
pub proof fn law_download_names_the_bytes_sent(
    name: Seq<char>,
    media_type: Option<Seq<char>>,
    kind: RangeKind,
    total: u64,
    head: bool,
    marker_value: u64,
) -> (range: (Seq<char>, Seq<char>, Seq<char>))
    requires
        !(kind is Unsatisfiable),
        kind matches RangeKind::Part(offset, len) ==> offset + len <= u64::MAX,
    ensures
        ({
            let a = file_answer(Opened::Yes, name, media_type, kind, total, head, marker_value);
            let (first, last, size) = range;
            let part = kind matches RangeKind::Part(_, len) && len > 0;
            let offset: u64 = if part {
                kind->Part_0
            } else {
                0
            };
            let len: u64 = if part {
                kind->Part_1
            } else {
                total
            };
            let h = a.headers;
            &&& a.status == if part {
                206u16
            } else {
                200u16
            }
            &&& a.body == if head {
                reply::Payload::Empty
            } else {
                reply::Payload::File(offset, len)
            }
            &&& h.len() == 5 + (if part {
                1int
            } else {
                0
            }) + (if head {
                0int
            } else {
                1
            })
            &&& h[0] == (
                Header::ContentType,
                if media_type is Some {
                    media_type->0
                } else {
                    "application/octet-stream"@
                },
            )
            &&& h[1] == (Header::AcceptRanges, "bytes"@)
            &&& h[2].0 == Header::ContentLength && text::is_number(h[2].1, len as int)
            &&& h[3] == (Header::ContentDisposition, disposition(name))
            &&& h[4].0 == Header::ConnMarker && text::is_number(h[4].1, marker_value as int)
            &&& part ==> {
                &&& h[5] == (
                    Header::ContentRange,
                    "bytes "@ + first + "-"@ + last + "/"@ + size,
                )
                &&& text::is_number(first, offset as int)
                &&& text::is_number(last, offset + len - 1)
                &&& text::is_number(size, total as int)
                &&& text::digits_value(last) - text::digits_value(first) + 1
                    == text::digits_value(h[2].1)
                &&& offset + len <= total ==> text::digits_value(last) < text::digits_value(size)
            }
            &&& !head ==> h.last() == (Header::Connection, "close"@)
        }),
{
    let (status, offset, len) = selected(kind, total);
    text::law_decimal_is_a_number(len);
    text::law_decimal_is_a_number(marker_value);
    text::law_decimal_is_a_number(total);
    text::law_decimal_is_a_number(offset);
    if is_partial(kind) {
        text::law_decimal_is_a_number((offset + len - 1) as u64);
    }
    (
        text::decimal_digits(offset as nat),
        text::decimal_digits((offset + len - 1) as nat),
        text::decimal_digits(total as nat),
    )
}

/// A range that has no byte of the file is refused: with status 416, no body, and
/// one header, that reads `bytes */` and the size of the file.
pub proof fn law_refusal_names_the_size(
    name: Seq<char>,
    media_type: Option<Seq<char>>,
    total: u64,
    head: bool,
    marker_value: u64,
) -> (size: Seq<char>)
    ensures
        ({
            let a = file_answer(
                Opened::Yes,
                name,
                media_type,
                RangeKind::Unsatisfiable,
                total,
                head,
                marker_value,
            );
            &&& a.status == 416
            &&& a.body == reply::Payload::Empty
            &&& a.headers == seq![(Header::ContentRange, "bytes */"@ + size)]
            &&& text::is_number(size, total as int)
        }),
{
    text::law_decimal_is_a_number(total);
    text::decimal_digits(total as nat)
}

/// A file that is not there, or cannot be opened, is answered with the status for
/// that and its words, whatever part of it was asked for.
pub proof fn law_files_that_cannot_be_opened(
    opened: Opened,
    name: Seq<char>,
    media_type: Option<Seq<char>>,
    kind: RangeKind,
    total: u64,
    head: bool,
    marker_value: u64,
)
    requires
        opened != Opened::Yes,
    ensures
        ({
            let a = file_answer(opened, name, media_type, kind, total, head, marker_value);
            &&& opened == Opened::NotFound ==> a.status == 404 && a.body == reply::Payload::Text(
                "404 Not Found"@ + "\n"@,
            )
            &&& opened == Opened::Failed ==> a.status == 500 && a.body == reply::Payload::Text(
                "500 Internal Server Error"@ + "\n"@,
            )
            &&& a.headers == seq![(Header::ContentType, "text/plain; charset=utf-8"@)]
        }),
{
}

/// A file is saved under its name, and one without a name as `download`; a header is
/// read as it came.
pub proof fn law_names_and_headers_are_taken_as_they_are(name: Seq<char>, header: &str)
    ensures
        saved_as(Some(name)) == name,
        saved_as(None) == "download"@,
        maybe(Some(header)) == Some(header@),
        maybe(None) is None,
{
}

/// The two parts of a file that a download is cut into, where it was broken off, are
/// the file: the one that was asked for from the start to before `k`, and the one
/// that is asked for from `k` on.
pub proof fn law_broken_off_downloads_can_be_resumed(
    name: Seq<char>,
    media_type: Option<Seq<char>>,
    k: u64,
    total: u64,
    marker_value: u64,
    later_marker_value: u64,
)
    requires
        0 < k < total,
    ensures
        ({
            let begin = "bytes="@ + (text::decimal_digits(0) + seq!['-'] + text::decimal_digits(
                (k - 1) as nat,
            ));
            let resume = "bytes="@ + (text::decimal_digits(k as nat) + seq!['-']);
            let a = file_answer(
                Opened::Yes,
                name,
                media_type,
                range::requested_range(Some(begin), total),
                total,
                false,
                marker_value,
            );
            let b = file_answer(
                Opened::Yes,
                name,
                media_type,
                range::requested_range(Some(resume), total),
                total,
                false,
                later_marker_value,
            );
            &&& a.status == 206
            &&& b.status == 206
            &&& a.body == reply::Payload::File(0, k)
            &&& b.body == reply::Payload::File(k, (total - k) as u64)
        }),
{
    range::law_span(0, (k - 1) as u64, total);
    range::law_open_span(k, total);
}

} // verus!
