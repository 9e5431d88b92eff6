use mini_download_serve::conn::{next_marker_value, ConnInner, MarkerSeq, MARKER_HEADER};
use mini_download_serve::encode::EscapeSets;
use mini_download_serve::listing::DirEntry;
use mini_download_serve::range::RangeKind;
use mini_download_serve::reply::{error_page, Header, Reply, ReplyBody};
use mini_download_serve::web::{
    content_disposition, file_reply, EntryAction, EntryEvent, EntryPhase, EntryTask, FileKind,
    Opened, Root,
};

/// Answers with the given marker number, on a fresh connection.
fn serve_file(
    sets: &EscapeSets,
    opened: Opened,
    file_name: Option<&str>,
    range: Option<&str>,
    total: u64,
    head: bool,
    marker_value: u64,
) -> Reply {
    let mut seq = MarkerSeq::new();
    for _ in 0..marker_value {
        next_marker_value(&mut seq);
    }
    let mut barrier = ConnInner::new();
    let r = mini_download_serve::web::serve_file(
        sets, &mut seq, &mut barrier, opened, file_name, range, total, head,
    );
    assert_eq!(next_marker_value(&mut seq), marker_value + 1);
    assert!(!barrier.head_complete());
    r
}

fn root() -> Root {
    Root { path: b"/srv".to_vec() }
}

fn header(r: &Reply, h: Header) -> Option<&str> {
    r.headers.iter().find(|(name, _)| *name == h).map(|(_, v)| v.as_str())
}

fn is_message(r: &Reply, status: u16, text: &str) -> bool {
    r.status == status
        && header(r, Header::ContentType) == Some("text/plain; charset=utf-8")
        && matches!(&r.body, ReplyBody::Text(t) if t == text)
}

fn step(task: &mut EntryTask, event: EntryEvent) -> EntryAction {
    task.entry(&root(), &EscapeSets::new(), event)
}

fn reply(action: EntryAction) -> Reply {
    match action {
        EntryAction::Reply(r) => r,
        _ => panic!("not a reply"),
    }
}

/// Up to the look at what is there.
fn resolved(uri: &str) -> EntryTask {
    let mut t = EntryTask::new(uri.to_string());
    assert!(matches!(step(&mut t, EntryEvent::Received), EntryAction::Resolve(_)));
    let found = b"/srv/thing".to_vec();
    match step(&mut t, EntryEvent::Resolved(Some(found))) {
        EntryAction::Inspect(p) => assert_eq!(p, b"/srv/thing"),
        _ => panic!("not looked at"),
    }
    t
}

#[test]
fn names_are_saved_as_they_are() {
    let sets = EscapeSets::new();
    assert_eq!(
        content_disposition(&sets, "a.txt"),
        "attachment; filename=\"a.txt\"; filename*=UTF-8''a.txt"
    );
    assert_eq!(
        content_disposition(&sets, "\u{4e2d} \"x\\y\".zip"),
        "attachment; filename=\"_ _x_y_.zip\"; filename*=UTF-8''%E4%B8%AD%20%22x%5Cy%22.zip"
    );
    assert_eq!(
        content_disposition(&sets, "a@b"),
        "attachment; filename=\"a@b\"; filename*=UTF-8''a%40b"
    );
    assert_eq!(
        content_disposition(&sets, "\n\u{7f}\u{85}"),
        "attachment; filename=\"___\"; filename*=UTF-8''%0A%7F%C2%85"
    );
}

#[test]
fn dispositions_are_headers() {
    let sets = EscapeSets::new();
    for name in ["", "plain", "\u{0}\u{1f}\t", "\u{10ffff}\u{ffff}", "\"\\"] {
        let text = content_disposition(&sets, name);
        assert!(axum::http::HeaderValue::from_str(&text).is_ok());
        assert!(text.bytes().all(|b| (32..127).contains(&b)));
    }
}

#[test]
fn messages_are_plain_text() {
    assert!(is_message(&error_page(404, "404 Not Found"), 404, "404 Not Found\n"));
}

#[test]
fn a_whole_file_is_sent_to_be_saved() {
    let sets = EscapeSets::new();
    let r = serve_file(&sets, Opened::Yes, Some("pic.PNG"), None, 1000, false, 17);
    assert_eq!(r.status, 200);
    assert_eq!(
        r.headers,
        vec![
            (Header::ContentType, "image/png".to_string()),
            (Header::AcceptRanges, "bytes".to_string()),
            (Header::ContentLength, "1000".to_string()),
            (
                Header::ContentDisposition,
                "attachment; filename=\"pic.PNG\"; filename*=UTF-8''pic.PNG".to_string()
            ),
            (Header::ConnMarker, "17".to_string()),
            (Header::Connection, "close".to_string()),
        ]
    );
    assert!(matches!(r.body, ReplyBody::File(0, 1000)));
}

#[test]
fn a_part_of_a_file_is_told_apart() {
    let sets = EscapeSets::new();
    let r = serve_file(&sets, Opened::Yes, Some("a.txt"), Some("bytes=100-199"), 1000, false, 0);
    assert_eq!(r.status, 206);
    assert_eq!(header(&r, Header::ContentRange), Some("bytes 100-199/1000"));
    assert_eq!(header(&r, Header::ContentLength), Some("100"));
    assert!(matches!(r.body, ReplyBody::File(100, 100)));
}

#[test]
fn a_range_behind_the_end_is_refused() {
    let sets = EscapeSets::new();
    let r = serve_file(&sets, Opened::Yes, Some("a.txt"), Some("bytes=1000-"), 1000, false, 0);
    assert_eq!(r.status, 416);
    assert_eq!(r.headers, vec![(Header::ContentRange, "bytes */1000".to_string())]);
    assert!(matches!(r.body, ReplyBody::Empty));
}

#[test]
fn the_headers_alone_can_be_asked_for() {
    let sets = EscapeSets::new();
    let r = serve_file(&sets, Opened::Yes, Some("a.txt"), None, 5, true, 3);
    assert_eq!(r.status, 200);
    assert_eq!(header(&r, Header::ContentLength), Some("5"));
    assert_eq!(header(&r, Header::Connection), None);
    assert!(matches!(r.body, ReplyBody::Empty));
}

#[test]
fn an_empty_file_is_sent() {
    let sets = EscapeSets::new();
    let r = serve_file(&sets, Opened::Yes, Some("empty"), None, 0, false, 3);
    assert_eq!(header(&r, Header::ContentLength), Some("0"));
    assert!(matches!(r.body, ReplyBody::File(0, 0)));
}

#[test]
fn a_suffix_of_an_empty_file_is_all_of_it() {
    let sets = EscapeSets::new();
    let r = serve_file(&sets, Opened::Yes, Some("empty"), Some("bytes=-5"), 0, false, 3);
    assert_eq!(r.status, 200);
    assert_eq!(header(&r, Header::ContentLength), Some("0"));
    assert_eq!(header(&r, Header::ContentRange), None);
    assert!(matches!(r.body, ReplyBody::File(0, 0)));
}

#[test]
fn a_reply_opens_the_barrier_it_closed() {
    let sets = EscapeSets::new();
    let mut seq = MarkerSeq::new();
    let mut barrier = ConnInner::new();
    for _ in 0..3 {
        let r = mini_download_serve::web::serve_file(
            &sets, &mut seq, &mut barrier, Opened::Yes, Some("a"), None, 9, false,
        );
        assert!(!barrier.head_written());
        let value = header(&r, Header::ConnMarker).unwrap();
        barrier.note_write(format!("{MARKER_HEADER}: {value}\r\nconnection: close\r\n").as_bytes());
        assert!(!barrier.head_complete());
        barrier.note_write(b"\r\n");
        assert!(barrier.head_complete());
    }
}

#[test]
fn headers_are_the_same_for_head_and_get() {
    let sets = EscapeSets::new();
    for range in [None, Some("bytes=2-5"), Some("bytes=-3")] {
        let get = serve_file(&sets, Opened::Yes, Some("a.txt"), range, 10, false, 1);
        let head = serve_file(&sets, Opened::Yes, Some("a.txt"), range, 10, true, 2);
        assert_eq!(get.status, head.status);
        let rest = |r: &Reply| {
            r.headers
                .iter()
                .filter(|(h, _)| *h != Header::ConnMarker && *h != Header::Connection)
                .cloned()
                .collect::<Vec<_>>()
        };
        assert_eq!(rest(&get), rest(&head));
        assert_eq!(header(&get, Header::Connection), Some("close"));
        assert_eq!(header(&head, Header::Connection), None);
        assert_eq!(header(&head, Header::ConnMarker), Some("2"));
    }
}

#[test]
fn media_types_are_guessed_by_name() {
    let sets = EscapeSets::new();
    let of = |name: &str| {
        let r = serve_file(&sets, Opened::Yes, Some(name), None, 1, false, 0);
        header(&r, Header::ContentType).unwrap().to_string()
    };
    assert_eq!(of("a.html"), "text/html");
    assert_eq!(of("a.tar.gz"), "application/gzip");
    assert_eq!(of("a.no-such-extension"), "application/octet-stream");
    assert_eq!(of("Makefile"), "application/octet-stream");
    assert_eq!(of(".png"), "application/octet-stream");
}

#[test]
fn a_given_media_type_is_used() {
    let sets = EscapeSets::new();
    let r = file_reply(&sets, Opened::Yes, "x", Some("a/b"), RangeKind::Part(2, 3), 9, false, 1);
    assert_eq!(header(&r, Header::ContentType), Some("a/b"));
    assert_eq!(header(&r, Header::ContentRange), Some("bytes 2-4/9"));
}

#[test]
fn a_file_without_a_name_gets_one() {
    let sets = EscapeSets::new();
    let r = serve_file(&sets, Opened::Yes, None, None, 1, false, 0);
    assert_eq!(
        header(&r, Header::ContentDisposition),
        Some("attachment; filename=\"download\"; filename*=UTF-8''download")
    );
    assert_eq!(header(&r, Header::ContentType), Some("application/octet-stream"));
}

#[test]
fn a_file_that_cannot_be_opened_is_not_sent() {
    let sets = EscapeSets::new();
    let r = serve_file(&sets, Opened::NotFound, Some("a"), None, 1, false, 0);
    assert!(is_message(&r, 404, "404 Not Found\n"));
    let r = serve_file(&sets, Opened::Failed, Some("a"), None, 1, false, 0);
    assert!(is_message(&r, 500, "500 Internal Server Error\n"));
}

#[test]
fn requests_are_decoded_and_looked_for() {
    let mut t = EntryTask::new("/a%20b/c".to_string());
    match step(&mut t, EntryEvent::Received) {
        EntryAction::Resolve(p) => assert_eq!(p, b"/srv/a b/c"),
        _ => panic!("not looked for"),
    }
    assert!(matches!(t.phase, EntryPhase::Resolving));
}

#[test]
fn requests_that_climb_are_forbidden() {
    for uri in ["/../etc/passwd", "/%2e%2e/x", "/a/..%2fb", "/x%00"] {
        let mut t = EntryTask::new(uri.to_string());
        let r = reply(step(&mut t, EntryEvent::Received));
        assert!(is_message(&r, 403, "403 Forbidden\n"), "{uri}");
        assert!(matches!(t.phase, EntryPhase::Done));
    }
}

#[test]
fn a_given_path_is_routed() {
    let mut t = EntryTask::new("/x".to_string());
    assert!(matches!(t.route(&root(), "/y"), EntryAction::Resolve(p) if p == b"/srv/y"));
    let mut t = EntryTask::new("/x".to_string());
    assert!(is_message(&reply(t.route(&root(), "/../y")), 403, "403 Forbidden\n"));
}

#[test]
fn a_path_that_leads_nowhere_is_not_found() {
    let mut t = EntryTask::new("/none".to_string());
    step(&mut t, EntryEvent::Received);
    let r = reply(step(&mut t, EntryEvent::Resolved(None)));
    assert!(is_message(&r, 404, "404 Not Found\n"));
}

#[test]
fn a_link_out_of_the_root_is_forbidden() {
    for place in ["/etc/passwd", "/srv2/x", "/"] {
        let mut t = EntryTask::new("/link".to_string());
        step(&mut t, EntryEvent::Received);
        let r = reply(step(&mut t, EntryEvent::Resolved(Some(place.as_bytes().to_vec()))));
        assert!(is_message(&r, 403, "403 Forbidden\n"), "{place}");
    }
}

#[test]
fn a_file_is_served() {
    let mut t = resolved("/thing");
    match step(&mut t, EntryEvent::Inspected(Some(FileKind::File(42)))) {
        EntryAction::Serve(p, 42) => assert_eq!(p, b"/srv/thing"),
        _ => panic!("not served"),
    }
}

#[test]
fn what_is_neither_file_nor_directory_is_not_found() {
    let mut t = resolved("/thing");
    let r = reply(step(&mut t, EntryEvent::Inspected(Some(FileKind::Other))));
    assert!(is_message(&r, 404, "404 Not Found\n"));
    let mut t = resolved("/thing");
    let r = reply(step(&mut t, EntryEvent::Inspected(None)));
    assert!(is_message(&r, 404, "404 Not Found\n"));
}

#[test]
fn a_directory_without_a_slash_is_sent_on() {
    let mut t = resolved("/th%69ng");
    let r = reply(step(&mut t, EntryEvent::Inspected(Some(FileKind::Dir))));
    assert_eq!(r.status, 301);
    assert_eq!(r.headers, vec![(Header::Location, "/th%69ng/".to_string())]);
    assert!(matches!(r.body, ReplyBody::Empty));
}

#[test]
fn a_directory_is_listed() {
    let mut t = resolved("/thing/");
    match step(&mut t, EntryEvent::Inspected(Some(FileKind::Dir))) {
        EntryAction::List(p) => assert_eq!(p, b"/srv/thing"),
        _ => panic!("not listed"),
    }
    let entries = vec![DirEntry::new("f".to_string(), None)];
    let r = reply(step(&mut t, EntryEvent::Listed(Some(entries))));
    assert_eq!(r.status, 200);
    assert_eq!(header(&r, Header::ContentType), Some("text/html; charset=utf-8"));
    match r.body {
        ReplyBody::Text(page) => {
            assert!(page.contains("Index of /thing/"));
            assert!(page.contains("<a href=\"f\">f</a>"));
        }
        _ => panic!("no page"),
    }
}

#[test]
fn a_directory_that_cannot_be_read_is_an_error() {
    let mut t = resolved("/thing/");
    step(&mut t, EntryEvent::Inspected(Some(FileKind::Dir)));
    let r = reply(step(&mut t, EntryEvent::Listed(None)));
    assert!(is_message(&r, 500, "500 Internal Server Error\n"));
}

#[test]
fn what_is_there_has_a_kind() {
    assert_eq!(FileKind::of(true, false, 7), FileKind::Dir);
    assert_eq!(FileKind::of(false, true, 7), FileKind::File(7));
    assert_eq!(FileKind::of(false, false, 7), FileKind::Other);
}

#[test]
fn a_client_is_sent_on_once() {
    let mut t = resolved("/thing");
    let r = reply(step(&mut t, EntryEvent::Inspected(Some(FileKind::Dir))));
    let location = header(&r, Header::Location).unwrap().to_string();
    let mut t = resolved(&location);
    assert!(matches!(step(&mut t, EntryEvent::Inspected(Some(FileKind::Dir))), EntryAction::List(_)));
}
