//! The body of a download, of which the kernel moves the bytes.
//!
//! `SendfileBody` knows which bytes of a file are still to be sent and decides
//! what is to be done next; whoever drives it makes the system calls and reports
//! what came of them.

use crate::conn;
use vstd::prelude::*;

verus! {

/// The systems whose `sendfile` is known, which differ in how it is called and
/// in what it returns.
#[derive(Clone, Copy, Debug, PartialEq, Eq, Structural)]
pub enum Platform {
    Linux,
    MacOs,
}

/// The most bytes that one call is asked to move. Linux moves no more in any
/// case.
pub open spec fn chunk_limit(platform: Platform) -> u64 {
    match platform {
        Platform::Linux => 0x7fff_f000,
        Platform::MacOs => 0x400_0000,
    }
}

/// The smaller of two numbers.
pub open spec fn least(a: u64, b: u64) -> u64 {
    if a <= b {
        a
    } else {
        b
    }
}

/// The most bytes that one call is asked to move.
pub fn max_chunk(platform: Platform) -> (r: u64)
    ensures
        r == chunk_limit(platform),
{
    match platform {
        Platform::Linux => 0x7fff_f000,
        Platform::MacOs => 0x400_0000,
    }
}

// ------------------------------------------------------------------------
// One call
// ------------------------------------------------------------------------

/// What one call is made with.
#[derive(Clone, Copy, Debug, PartialEq, Eq, Structural)]
pub struct SendfileCall {
    /// Where in the file the bytes start, in the signed form that the call takes.
    pub offset: i64,
    /// How many bytes it may move.
    pub count: u64,
}

/// What came of one call.
#[derive(Clone, Copy, Debug, PartialEq, Eq, Structural)]
pub enum SendOutcome {
    /// That many bytes are in the socket buffer; none if there was no room.
    Sent(u64),
    /// There was nothing to send: the file ends before the bytes asked for.
    Ended,
    /// The call failed.
    Failed,
}

/// The call that moves up to `len` bytes from `offset` on.
pub fn sendfile_call(platform: Platform, offset: u64, len: u64) -> (r: SendfileCall)
    ensures
        r.offset == offset as i64,
        r.count == least(len, chunk_limit(platform)),
        platform == Platform::Linux ==> r.count == if len <= 0x7fff_f000 {
            len
        } else {
            0x7fff_f000
        },
        platform == Platform::MacOs ==> r.count == if len <= 0x400_0000 {
            len
        } else {
            0x400_0000
        },
{
    let most: u64 = max_chunk(platform);
    let count: u64 = if len <= most {
        len
    } else {
        most
    };
    SendfileCall { offset: #[verifier::truncate] (offset as i64), count }
}

/// The error code by which a system says that a socket has no room: its `EAGAIN`.
pub open spec fn again_code(platform: Platform) -> i32 {
    match platform {
        Platform::Linux => 11,
        Platform::MacOs => 35,
    }
}

/// What the return value of a call for at least one byte, the number of bytes that
/// it reports through its length argument (macOS alone has one) and the error code
/// behind it amount to. Linux returns the number of bytes or a negative value.
/// macOS returns zero, or anything else with an error code, and tells the number
/// of bytes either way.
pub open spec fn send_outcome(
    platform: Platform,
    rc: i64,
    moved: i64,
    errno: Option<i32>,
) -> SendOutcome {
    let no_room = errno == Some(again_code(platform));
    match platform {
        Platform::Linux => if rc > 0 {
            SendOutcome::Sent(rc as u64)
        } else if rc == 0 {
            SendOutcome::Ended
        } else if no_room {
            SendOutcome::Sent(0)
        } else {
            SendOutcome::Failed
        },
        Platform::MacOs => if rc == 0 && moved == 0 {
            SendOutcome::Ended
        } else if rc == 0 || no_room {
            SendOutcome::Sent(moved as u64)
        } else {
            SendOutcome::Failed
        },
    }
}

/// The error code for a socket without room.
pub fn would_block_code(platform: Platform) -> (code: i32)
    ensures
        code == again_code(platform),
{
    match platform {
        Platform::Linux => 11,
        Platform::MacOs => 35,
    }
}

/// Reads what a call for at least one byte returned.
pub fn sendfile_once(platform: Platform, rc: i64, moved: i64, errno: Option<i32>) -> (r:
    SendOutcome)
    ensures
        r == send_outcome(platform, rc, moved, errno),
        platform == Platform::Linux ==> {
            &&& rc > 0 ==> r == SendOutcome::Sent(rc as u64)
            &&& rc == 0 ==> r == SendOutcome::Ended
            &&& rc < 0 && errno == Some(11i32) ==> r == SendOutcome::Sent(0)
            &&& rc < 0 && errno != Some(11i32) ==> r == SendOutcome::Failed
        },
        platform == Platform::MacOs ==> {
            &&& rc == 0 && moved == 0 ==> r == SendOutcome::Ended
            &&& rc == 0 && moved != 0 ==> r == SendOutcome::Sent(moved as u64)
            &&& rc != 0 && errno == Some(35i32) ==> r == SendOutcome::Sent(moved as u64)
            &&& rc != 0 && errno != Some(35i32) ==> r == SendOutcome::Failed
        },
{
    let again: i32 = would_block_code(platform);
    let no_room = match errno {
        Some(code) => code == again,
        None => false,
    };
    match platform {
        Platform::Linux => if rc > 0 {
            SendOutcome::Sent(rc as u64)
        } else if rc == 0 {
            SendOutcome::Ended
        } else if no_room {
            SendOutcome::Sent(0)
        } else {
            SendOutcome::Failed
        },
        Platform::MacOs => if rc == 0 && moved == 0 {
            SendOutcome::Ended
        } else if rc == 0 || no_room {
            SendOutcome::Sent(#[verifier::truncate] (moved as u64))
        } else {
            SendOutcome::Failed
        },
    }
}

/// No byte sent means a socket without room: the call failed, with the code for
/// that.
pub proof fn law_nothing_sent_means_no_room(
    platform: Platform,
    rc: i64,
    moved: i64,
    errno: Option<i32>,
)
    requires
        send_outcome(platform, rc, moved, errno) == SendOutcome::Sent(0),
    ensures
        rc != 0,
        errno == Some(again_code(platform)),
{
    assert(moved != 0 ==> moved as u64 != 0) by (bit_vector);
}

// ------------------------------------------------------------------------
// The body
// ------------------------------------------------------------------------

/// What a body waits to be told.
#[derive(Clone, Copy, Debug, PartialEq, Eq, Structural)]
pub enum FramePhase {
    /// That it is polled.
    Idle,
    /// Whether the headers are out, now that its task will be woken when they are.
    Registering,
    /// What came of a call that was asked to move so many bytes.
    Sending(u64),
    /// Whether the socket has room.
    Waiting,
}

/// What a body is told.
#[derive(Clone, Copy, Debug, PartialEq, Eq, Structural)]
pub enum FrameEvent {
    /// It is polled, and the headers are out or not.
    Polled(bool),
    /// Its task will be woken, and the headers are out by now or not.
    Registered(bool),
    /// The call has put so many bytes into the socket buffer.
    Sent(u64),
    /// The call has found that the file ends before the bytes asked for.
    Ended,
    /// The call has failed.
    SendFailed,
    /// The socket has room.
    Writable,
    /// The socket has no room yet; the task will be woken when it has.
    NotWritable,
    /// The wait for room has failed.
    WaitFailed,
}

/// What is to be done.
#[derive(Clone, Copy, Debug, PartialEq, Eq, Structural)]
pub enum FrameAction {
    /// Have the task woken when the headers are out, and look again if they are.
    RegisterWaker,
    /// Move bytes of the file into the socket buffer: from that offset (first),
    /// that many (second).
    Send(u64, u64),
    /// Find out if the socket has room.
    AwaitWritable,
    /// Report that the body has to wait.
    Pending,
    /// Report that the body is complete.
    Finished,
    /// Report the error that came up, or that the file has ended too early.
    Fail,
}

/// What is left of a range of bytes that is being sent.
#[derive(Clone, Copy, Debug, PartialEq, Eq, Structural)]
pub struct SendfileBody {
    pub platform: Platform,
    /// Where in the file the next byte is.
    pub offset: u64,
    /// How many bytes are left.
    pub remaining: u64,
    pub phase: FramePhase,
}

impl SendfileBody {
    /// The range does not wrap around, and a call under way was asked for what
    /// is left, as far as one call goes.
    pub open spec fn wf(self) -> bool {
        &&& self.offset + self.remaining <= u64::MAX
        &&& self.phase matches FramePhase::Sending(want) ==> want > 0 && want == self.chunk()
    }

    /// How many bytes the next call is asked to move.
    pub open spec fn chunk(self) -> u64 {
        least(self.remaining, chunk_limit(self.platform))
    }

    /// The event is one that the body waits for. No call moves more than it was
    /// asked to.
    pub open spec fn expects(self, event: FrameEvent) -> bool {
        match self.phase {
            FramePhase::Idle => event is Polled,
            FramePhase::Registering => event is Registered,
            FramePhase::Sending(want) => event is Ended || event is SendFailed || (
            event matches FrameEvent::Sent(sent) && sent <= want),
            FramePhase::Waiting => event is Writable || event is NotWritable || event is WaitFailed,
        }
    }

    /// In the given phase.
    pub open spec fn at(self, phase: FramePhase) -> SendfileBody {
        SendfileBody { phase, ..self }
    }

    /// With `sent` bytes fewer to go.
    pub open spec fn advanced(self, sent: u64) -> SendfileBody {
        SendfileBody {
            offset: (self.offset + sent) as u64,
            remaining: (self.remaining - sent) as u64,
            ..self
        }
    }

    /// Sending the next bytes, or done.
    pub open spec fn proceed(self) -> (SendfileBody, FrameAction) {
        if self.remaining == 0 {
            (self.at(FramePhase::Idle), FrameAction::Finished)
        } else {
            (
                self.at(FramePhase::Sending(self.chunk())),
                FrameAction::Send(self.offset, self.chunk()),
            )
        }
    }

    /// What an event leads to.
    pub open spec fn step(self, event: FrameEvent) -> (SendfileBody, FrameAction) {
        match event {
            FrameEvent::Polled(true) => self.proceed(),
            FrameEvent::Polled(false) => (
                self.at(FramePhase::Registering),
                FrameAction::RegisterWaker,
            ),
            FrameEvent::Registered(true) => self.proceed(),
            FrameEvent::Registered(false) => (self.at(FramePhase::Idle), FrameAction::Pending),
            FrameEvent::Sent(sent) => if sent == self.chunk() {
                self.advanced(sent).proceed()
            } else {
                // a call that moved fewer bytes than it could has filled the buffer
                (self.advanced(sent).at(FramePhase::Waiting), FrameAction::AwaitWritable)
            },
            // what was promised of the file is not there any more
            FrameEvent::Ended => (self.at(FramePhase::Idle), FrameAction::Fail),
            FrameEvent::SendFailed => (self.at(FramePhase::Idle), FrameAction::Fail),
            FrameEvent::Writable => self.proceed(),
            FrameEvent::NotWritable => (self.at(FramePhase::Idle), FrameAction::Pending),
            FrameEvent::WaitFailed => (self.at(FramePhase::Idle), FrameAction::Fail),
        }
    }

    /// A body of `len` bytes from `offset` on.
    pub fn new(platform: Platform, offset: u64, len: u64) -> (r: Self)
        requires
            offset + len <= u64::MAX,
        ensures
            r == (SendfileBody { platform, offset, remaining: len, phase: FramePhase::Idle }),
            r.wf(),
    {
        SendfileBody { platform, offset, remaining: len, phase: FramePhase::Idle }
    }

    fn go_on(&mut self) -> (action: FrameAction)
        requires
            old(self).offset + old(self).remaining <= u64::MAX,
        ensures
            (*final(self), action) == old(self).proceed(),
            final(self).wf(),
    {
        if self.remaining == 0 {
            self.phase = FramePhase::Idle;
            FrameAction::Finished
        } else {
            let most: u64 = max_chunk(self.platform);
            let want: u64 = if self.remaining <= most {
                self.remaining
            } else {
                most
            };
            self.phase = FramePhase::Sending(want);
            FrameAction::Send(self.offset, want)
        }
    }

    /// Takes in an event and decides what is to be done.
    pub fn poll_frame(&mut self, event: FrameEvent) -> (action: FrameAction)
        requires
            old(self).wf(),
            old(self).expects(event),
        ensures
            (*final(self), action) == old(self).step(event),
            final(self).wf(),
    {
        match event {
            FrameEvent::Polled(head_written) => {
                // file data must not overtake the response headers
                if !head_written {
                    self.phase = FramePhase::Registering;
                    return FrameAction::RegisterWaker;
                }
                self.go_on()
            },
            FrameEvent::Registered(head_written) => {
                if !head_written {
                    self.phase = FramePhase::Idle;
                    return FrameAction::Pending;
                }
                self.go_on()
            },
            FrameEvent::Sent(sent) => {
                let want: u64 = match self.phase {
                    FramePhase::Sending(want) => want,
                    _ => 0,
                };
                self.offset = self.offset + sent;
                self.remaining = self.remaining - sent;
                if sent < want {
                    self.phase = FramePhase::Waiting;
                    return FrameAction::AwaitWritable;
                }
                self.go_on()
            },
            FrameEvent::Writable => self.go_on(),
            FrameEvent::NotWritable => {
                self.phase = FramePhase::Idle;
                FrameAction::Pending
            },
            FrameEvent::Ended | FrameEvent::SendFailed | FrameEvent::WaitFailed => {
                self.phase = FramePhase::Idle;
                FrameAction::Fail
            },
        }
    }

    /// How many bytes of the body are still to come.
    pub fn size_hint(&self) -> (r: u64)
        ensures
            r == self.remaining,
    {
        self.remaining
    }
}

// ------------------------------------------------------------------------
// Laws
// ------------------------------------------------------------------------

/// The body after a run of events.
pub open spec fn after_events(body: SendfileBody, events: Seq<FrameEvent>) -> SendfileBody
    decreases events.len(),
{
    if events.len() == 0 {
        body
    } else {
        after_events(body, events.drop_last()).step(events.last()).0
    }
}

/// Each event of the run is one that the body waits for when it comes.
pub open spec fn possible(body: SendfileBody, events: Seq<FrameEvent>) -> bool
    decreases events.len(),
{
    events.len() == 0 || (possible(body, events.drop_last()) && after_events(
        body,
        events.drop_last(),
    ).expects(events.last()))
}

/// What the last event of a run leads to.
pub open spec fn last_action(body: SendfileBody, events: Seq<FrameEvent>) -> FrameAction {
    after_events(body, events.drop_last()).step(events.last()).1
}

/// How many bytes the calls of a run have moved.
pub open spec fn moved_by(events: Seq<FrameEvent>) -> int
    decreases events.len(),
{
    if events.len() == 0 {
        0
    } else {
        moved_by(events.drop_last()) + match events.last() {
            FrameEvent::Sent(sent) => sent as int,
            _ => 0,
        }
    }
}

/// The last look at the barrier found that the headers are out.
pub open spec fn headers_out(events: Seq<FrameEvent>) -> bool
    decreases events.len(),
{
    if events.len() == 0 {
        false
    } else {
        match events.last() {
            FrameEvent::Polled(out) => out,
            FrameEvent::Registered(out) => out,
            _ => headers_out(events.drop_last()),
        }
    }
}

/// Whatever happens, what is left is the range without the bytes that were
/// moved: none is skipped and none is sent twice.
pub proof fn law_what_is_left(body: SendfileBody, events: Seq<FrameEvent>)
    requires
        body.wf(),
        possible(body, events),
    ensures
        after_events(body, events).wf(),
        after_events(body, events).platform == body.platform,
        after_events(body, events).offset == body.offset + moved_by(events),
        after_events(body, events).remaining == body.remaining - moved_by(events),
        0 <= moved_by(events) <= body.remaining,
    decreases events.len(),
{
    if events.len() > 0 {
        law_what_is_left(body, events.drop_last());
    }
}

/// A call is made for the bytes that come next, and only for such as are in the
/// range: at least one, and no more than one call can move.
pub proof fn law_sends_what_comes_next(body: SendfileBody, events: Seq<FrameEvent>)
    requires
        body.wf(),
        events.len() > 0,
        possible(body, events),
    ensures
        last_action(body, events) matches FrameAction::Send(offset, want) ==> {
            &&& offset == body.offset + moved_by(events)
            &&& 0 < want <= chunk_limit(body.platform)
            &&& offset + want <= body.offset + body.remaining
        },
{
    law_what_is_left(body, events);
    law_what_is_left(body, events.drop_last());
}

/// The body is reported complete only when the whole range has been moved, and
/// from that moment on no call is made.
pub proof fn law_finished_means_all_of_it(body: SendfileBody, events: Seq<FrameEvent>)
    requires
        body.wf(),
        events.len() > 0,
        possible(body, events),
    ensures
        last_action(body, events) == FrameAction::Finished ==> moved_by(events)
            == body.remaining,
        moved_by(events) == body.remaining ==> !(last_action(body, events) is Send),
{
    law_what_is_left(body, events);
    law_what_is_left(body, events.drop_last());
}

/// No byte of the file is sent before the response headers are out.
pub proof fn law_headers_come_first(body: SendfileBody, events: Seq<FrameEvent>)
    requires
        body.wf(),
        body.phase == FramePhase::Idle,
        events.len() > 0,
        possible(body, events),
    ensures
        last_action(body, events) is Send ==> headers_out(events),
{
    lemma_phase(body, events.drop_last());
}

/// A body that is past the barrier got there by a look that found it open.
proof fn lemma_phase(body: SendfileBody, events: Seq<FrameEvent>)
    requires
        body.phase == FramePhase::Idle,
        possible(body, events),
    ensures
        after_events(body, events).phase is Sending || after_events(body, events).phase is Waiting
            ==> headers_out(events),
    decreases events.len(),
{
    if events.len() > 0 {
        lemma_phase(body, events.drop_last());
    }
}

/// What happens on a connection with a download: bytes are written to the socket,
/// or the body is told something.
pub enum Step {
    Write(Seq<u8>),
    Body(FrameEvent),
}

/// The writes among the steps.
pub open spec fn writes_of(steps: Seq<Step>) -> Seq<Seq<u8>>
    decreases steps.len(),
{
    if steps.len() == 0 {
        Seq::empty()
    } else {
        match steps.last() {
            Step::Write(bytes) => writes_of(steps.drop_last()).push(bytes),
            Step::Body(_) => writes_of(steps.drop_last()),
        }
    }
}

/// What the body is told among the steps.
pub open spec fn events_of(steps: Seq<Step>) -> Seq<FrameEvent>
    decreases steps.len(),
{
    if steps.len() == 0 {
        Seq::empty()
    } else {
        match steps.last() {
            Step::Write(_) => events_of(steps.drop_last()),
            Step::Body(event) => events_of(steps.drop_last()).push(event),
        }
    }
}

/// What the body is told of the headers is what the barrier says at that moment.
pub open spec fn barrier_is_asked(barrier: conn::Barrier, steps: Seq<Step>) -> bool
    decreases steps.len(),
{
    steps.len() == 0 || {
        let before = steps.drop_last();
        let open = barrier.after_writes(writes_of(before)).head_complete;
        &&& barrier_is_asked(barrier, before)
        &&& match steps.last() {
            Step::Body(FrameEvent::Polled(out)) => out == open,
            Step::Body(FrameEvent::Registered(out)) => out == open,
            _ => true,
        }
    }
}

/// File data never overtakes the headers of its response: when a call is made for
/// bytes of the file, the marker of the response has gone over the wire, and so
/// has the end of the headers at the end of its line or behind it, however writes
/// and polls came in between each other.
pub proof fn law_file_data_never_overtakes_the_headers(
    barrier: conn::Barrier,
    value: u64,
    body: SendfileBody,
    steps: Seq<Step>,
)
    requires
        body.wf(),
        body.phase == FramePhase::Idle,
        barrier_is_asked(barrier.armed(value), steps),
        events_of(steps).len() > 0,
        possible(body, events_of(steps)),
    ensures
        last_action(body, events_of(steps)) is Send ==> conn::head_is_out(
            conn::marker_bytes(value),
            barrier.carry + conn::joined(writes_of(steps)),
        ),
{
    if last_action(body, events_of(steps)) is Send {
        law_headers_come_first(body, events_of(steps));
        lemma_open_when_told(barrier.armed(value), steps);
        conn::law_opens_when_the_headers_are_out(barrier, value, writes_of(steps));
    }
}

/// While the end of the headers is not on the wire, a poll of a body ends with
/// nothing sent: it asks to be woken, and then it waits.
pub proof fn law_waits_for_the_end_of_the_headers(
    barrier: conn::Barrier,
    value: u64,
    body: SendfileBody,
    writes: Seq<Seq<u8>>,
)
    requires
        body.phase == FramePhase::Idle,
        writes.len() > 0,
        !conn::head_is_out(conn::marker_bytes(value), barrier.carry + conn::joined(writes)),
    ensures
        ({
            let out = barrier.armed(value).after_writes(writes).head_complete;
            let (asking, first) = body.step(FrameEvent::Polled(out));
            let (idle, second) = asking.step(FrameEvent::Registered(out));
            &&& first == FrameAction::RegisterWaker
            &&& second == FrameAction::Pending
            &&& idle == body
        }),
{
    conn::law_opens_when_the_headers_are_out(barrier, value, writes);
}

/// A barrier that was seen open is open.
proof fn lemma_open_when_told(barrier: conn::Barrier, steps: Seq<Step>)
    requires
        !barrier.head_complete,
        barrier_is_asked(barrier, steps),
        headers_out(events_of(steps)),
    ensures
        barrier.after_writes(writes_of(steps)).head_complete,
        writes_of(steps).len() > 0,
    decreases steps.len(),
{
    let before = steps.drop_last();
    match steps.last() {
        Step::Write(bytes) => {
            lemma_open_when_told(barrier, before);
            assert(writes_of(steps).drop_last() =~= writes_of(before));
        },
        Step::Body(event) => {
            assert(events_of(steps).drop_last() =~= events_of(before));
            if !(event is Polled || event is Registered) {
                lemma_open_when_told(barrier, before);
            }
        },
    }
}

/// A body takes in whatever can come of what it asked for: any answer about the
/// headers, any number of bytes up to what a call was asked to move, an end of the
/// file, a failure, a socket with room or without.
pub proof fn law_takes_in_what_can_come(body: SendfileBody, yes: bool, sent: u64)
    ensures
        body.phase == FramePhase::Idle ==> body.expects(FrameEvent::Polled(yes)),
        body.phase == FramePhase::Registering ==> body.expects(FrameEvent::Registered(yes)),
        body.phase matches FramePhase::Sending(want) ==> {
            &&& sent <= want ==> body.expects(FrameEvent::Sent(sent))
            &&& body.expects(FrameEvent::Ended)
            &&& body.expects(FrameEvent::SendFailed)
        },
        body.phase == FramePhase::Waiting ==> {
            &&& body.expects(FrameEvent::Writable)
            &&& body.expects(FrameEvent::NotWritable)
            &&& body.expects(FrameEvent::WaitFailed)
        },
{
}

/// A body reports a failure when it is told of one, and never else. It waits when
/// it is told that it has to, and never else: for the headers while they are not
/// out, for room when a call moved fewer bytes than it was asked to. Whenever the
/// way is free, and there is room, it sends what comes next, as much as one call
/// takes, or is done if nothing is left.
pub proof fn law_reacts_to_what_happens(body: SendfileBody, event: FrameEvent)
    requires
        body.wf(),
        body.expects(event),
    ensures
        ({
            let (next, action) = body.step(event);
            let most: int = if body.platform == Platform::Linux {
                0x7fff_f000
            } else {
                0x400_0000
            };
            let sent: int = match event {
                FrameEvent::Sent(n) => n as int,
                _ => 0,
            };
            let left = body.remaining - sent;
            let asked: int = if body.remaining <= most {
                body.remaining as int
            } else {
                most
            };
            let free = match event {
                FrameEvent::Polled(out) => out,
                FrameEvent::Registered(out) => out,
                FrameEvent::Sent(n) => n == asked,
                FrameEvent::Writable => true,
                _ => false,
            };
            &&& next.platform == body.platform
            &&& next.offset == body.offset + sent
            &&& next.remaining == left
            &&& action is Fail <==> event is Ended || event is SendFailed || event is WaitFailed
            &&& action is RegisterWaker <==> event == FrameEvent::Polled(false)
            &&& action is Pending <==> event == FrameEvent::Registered(false) || event
                is NotWritable
            &&& action is AwaitWritable <==> event is Sent && sent < asked
            &&& action is Finished <==> free && left == 0
            &&& action is Send <==> free && left > 0
            &&& action matches FrameAction::Send(offset, want) ==> {
                &&& offset == body.offset + sent
                &&& want == if left <= most {
                    left
                } else {
                    most
                }
                &&& next.phase == FramePhase::Sending(want)
            }
            &&& action is AwaitWritable ==> next.phase == FramePhase::Waiting
            &&& action is RegisterWaker ==> next.phase == FramePhase::Registering
            &&& action is Fail || action is Pending || action is Finished ==> next.phase
                == FramePhase::Idle
        }),
{
}

/// The way is free and the socket keeps taking bytes.
pub open spec fn goes_well(event: FrameEvent) -> bool {
    match event {
        FrameEvent::Polled(out) => out,
        FrameEvent::Sent(n) => n > 0,
        FrameEvent::Writable => true,
        _ => false,
    }
}

proof fn lemma_going_well(body: SendfileBody, events: Seq<FrameEvent>)
    requires
        body.wf(),
        body.phase == FramePhase::Idle,
        possible(body, events),
        forall|i: int| 0 <= i < events.len() ==> goes_well(#[trigger] events[i]),
        events.len() > 0,
    ensures
        ({
            let now = after_events(body, events);
            &&& now.phase matches FramePhase::Sending(_) ==> now.remaining > 0 && events.len()
                <= 2 * moved_by(events) + 1
            &&& now.phase == FramePhase::Waiting ==> now.remaining > 0 && events.len() <= 2
                * moved_by(events)
            &&& now.phase == FramePhase::Idle ==> now.remaining == 0 && last_action(body, events)
                == FrameAction::Finished
            &&& now.phase != FramePhase::Registering
            &&& now.phase != FramePhase::Idle ==> last_action(body, events) is Send || last_action(
                body,
                events,
            ) is AwaitWritable
        }),
    decreases events.len(),
{
    let before = events.drop_last();
    assert(goes_well(events[events.len() - 1]));
    assert(events[events.len() - 1] == events.last());
    law_what_is_left(body, before);
    law_what_is_left(body, events);
    if before.len() > 0 {
        assert forall|i: int| 0 <= i < before.len() implies goes_well(#[trigger] before[i]) by {
            assert(before[i] == events[i]);
        }
        lemma_going_well(body, before);
    } else {
        assert(moved_by(before) == 0);
    }
}

/// A download comes to its end: as long as the headers are out, no call fails and
/// the socket keeps taking bytes, the body never gives up and never waits for
/// nothing; it is finished exactly when all bytes have been moved; and that takes
/// no more than two events a byte, however few of them each call moves.
pub proof fn law_download_comes_to_its_end(body: SendfileBody, events: Seq<FrameEvent>)
    requires
        body.wf(),
        body.phase == FramePhase::Idle,
        possible(body, events),
        forall|i: int| 0 <= i < events.len() ==> goes_well(#[trigger] events[i]),
        events.len() > 0,
    ensures
        last_action(body, events) is Send || last_action(body, events) is AwaitWritable
            || last_action(body, events) is Finished,
        last_action(body, events) is Finished <==> moved_by(events) == body.remaining,
        events.len() > 2 * body.remaining ==> last_action(body, events) is Finished,
{
    lemma_going_well(body, events);
    law_what_is_left(body, events);
    law_what_is_left(body, events.drop_last());
    let now = after_events(body, events);
    if last_action(body, events) is Finished {
        assert(now.phase == FramePhase::Idle);
    }
}

} // verus!
