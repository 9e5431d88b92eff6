use mini_download_serve::conn::{begin_download, find_bytes, next_marker_value, ConnInner, MarkerSeq, MARKER_HEADER};
use std::sync::atomic::{AtomicUsize, Ordering};
use std::sync::Arc;
use std::task::{Wake, Waker};

struct Counter(AtomicUsize);

impl Wake for Counter {
    fn wake(self: Arc<Self>) {
        self.0.fetch_add(1, Ordering::SeqCst);
    }
}

fn counter() -> (Arc<Counter>, Waker) {
    let c = Arc::new(Counter(AtomicUsize::new(0)));
    let w = Waker::from(c.clone());
    (c, w)
}

fn head(value: u64) -> Vec<u8> {
    format!("HTTP/1.1 200 OK\r\ncontent-length: 5\r\n{MARKER_HEADER}: {value}\r\nconnection: close\r\n\r\n")
        .into_bytes()
}

#[test]
fn marker_numbers_count_from_zero() {
    let mut seq = MarkerSeq::new();
    assert_eq!(next_marker_value(&mut seq), 0);
    assert_eq!(next_marker_value(&mut seq), 1);
    assert_eq!(next_marker_value(&mut seq), 2);
}

#[test]
fn patterns_are_found_where_they_stand() {
    let find = |p: &[u8], s: &[u8]| find_bytes(&p.to_vec(), &s.to_vec());
    assert_eq!(find(b"b", b"abc"), Some(1));
    assert_eq!(find(b"abc", b"abc"), Some(0));
    assert_eq!(find(b"aab", b"aaab"), Some(1));
    assert_eq!(find(b"ab", b"xabab"), Some(1));
    assert_eq!(find(b"", b""), Some(0));
    assert_eq!(find(b"abcd", b"abc"), None);
    assert_eq!(find(b"ac", b"abc"), None);
}

#[test]
fn a_download_begins_with_a_fresh_number_and_a_closed_barrier() {
    let mut seq = MarkerSeq::new();
    let mut c = ConnInner::new();
    for value in 0..3u64 {
        assert_eq!(begin_download(&mut seq, &mut c), value);
        assert!(!c.head_written());
        assert!(!c.head_complete());
        c.note_write(&head(value));
        assert!(c.head_written());
        assert!(c.head_complete());
    }
    assert_eq!(next_marker_value(&mut seq), 3);
}

#[test]
fn the_marker_alone_does_not_open_the_barrier() {
    let mut c = ConnInner::new();
    c.arm(7);
    c.note_write(b"HTTP/1.1 200 OK\r\nx-conn-marker: 7\r\n");
    assert!(c.head_written());
    assert!(!c.head_complete());
    c.note_write(b"connection: close\r\n");
    assert!(!c.head_complete());
    c.note_write(b"\r\n");
    assert!(c.head_complete());
}

#[test]
fn a_marker_line_can_be_the_last() {
    let mut c = ConnInner::new();
    c.arm(7);
    c.note_write(b"HTTP/1.1 200 OK\r\nx-conn-marker: 7\r\n");
    c.note_write(b"\r\n");
    assert!(c.head_complete());
}

#[test]
fn a_blank_line_before_the_marker_does_not_count() {
    let mut c = ConnInner::new();
    c.arm(7);
    c.note_write(b"HTTP/1.1 200 OK\r\n\r\nHTTP/1.1 200 OK\r\nx-conn-marker: 7\r\na: b\r\n");
    assert!(c.head_written());
    assert!(!c.head_complete());
}

#[test]
fn a_task_that_waits_past_the_marker_is_handed_out_at_the_end() {
    let (count, waker) = counter();
    let mut c = ConnInner::new();
    c.arm(5);
    c.register_waker(&waker);
    c.note_write(b"x-conn-marker: 5\r\n").unwrap().wake();
    c.register_waker(&waker);
    assert!(c.note_write(b"connection: close\r\n").is_none());
    c.note_write(b"\r\n").unwrap().wake();
    assert_eq!(count.0.load(Ordering::SeqCst), 2);
    assert!(c.note_write(b"\r\n\r\n").is_none());
}

#[test]
fn the_marker_is_seen() {
    let mut c = ConnInner::new();
    assert!(!c.head_written());
    c.arm(7);
    assert!(!c.head_written());
    c.note_write(b"HTTP/1.1 200 OK\r\n");
    assert!(!c.head_written());
    c.note_write(b"x-conn-marker: 7\r\n");
    assert!(c.head_written());
}

#[test]
fn the_marker_is_found_however_it_is_cut() {
    let bytes = head(12345);
    for step in 1..=bytes.len() {
        let mut c = ConnInner::new();
        c.arm(12345);
        for part in bytes.chunks(step) {
            c.note_write(part);
        }
        assert!(c.head_written() && c.head_complete(), "{step}");
    }
    for cut in 0..=bytes.len() {
        let mut c = ConnInner::new();
        c.arm(12345);
        c.note_write(&bytes[..cut]);
        c.note_write(&bytes[cut..]);
        assert!(c.head_written() && c.head_complete(), "{cut}");
    }
}

#[test]
fn only_the_bytes_that_were_written_count() {
    let bytes = head(3);
    let mut c = ConnInner::new();
    c.arm(3);
    c.note_partial_write(&bytes, 40);
    assert!(!c.head_written());
    c.note_partial_write(&bytes[40..], bytes.len() - 40);
    assert!(c.head_written());
}

#[test]
fn other_markers_do_not_open_it() {
    let mut c = ConnInner::new();
    c.arm(12);
    c.note_write(&head(1));
    c.note_write(&head(2));
    c.note_write(&head(112));
    c.note_write(&head(123));
    assert!(!c.head_written());
    c.note_write(&head(12));
    assert!(c.head_written());
}

#[test]
fn nothing_opens_it_while_there_is_no_download() {
    let mut c = ConnInner::new();
    c.note_write(&head(0));
    assert!(!c.head_written());
}

#[test]
fn it_stays_open_until_it_is_armed_again() {
    let mut c = ConnInner::new();
    c.arm(1);
    c.note_write(&head(1));
    c.note_write(b"something else");
    assert!(c.head_written());
    c.arm(2);
    assert!(!c.head_written());
    c.note_write(&head(1));
    assert!(!c.head_written());
    c.note_write(&head(2));
    assert!(c.head_written());
}

#[test]
fn the_waiting_task_is_handed_out_once() {
    let (count, waker) = counter();
    let mut c = ConnInner::new();
    c.arm(5);
    c.register_waker(&waker);
    assert!(c.note_write(b"HTTP/1.1 200 OK\r\n").is_none());
    match c.note_write(&head(5)) {
        Some(w) => w.wake(),
        None => panic!("no task was handed out"),
    }
    assert_eq!(count.0.load(Ordering::SeqCst), 1);
    assert!(c.note_write(&head(5)).is_none());
}

#[test]
fn a_later_task_takes_the_place_of_an_earlier_one() {
    let (first, first_waker) = counter();
    let (second, second_waker) = counter();
    let mut c = ConnInner::new();
    c.arm(5);
    c.register_waker(&first_waker);
    c.register_waker(&second_waker);
    c.note_write(&head(5)).unwrap().wake();
    assert_eq!(first.0.load(Ordering::SeqCst), 0);
    assert_eq!(second.0.load(Ordering::SeqCst), 1);
}

#[test]
fn a_handle_of_the_same_task_stays() {
    let (count, waker) = counter();
    let mut c = ConnInner::new();
    c.register_waker(&waker);
    let held = Arc::strong_count(&count);
    c.register_waker(&waker);
    assert_eq!(Arc::strong_count(&count), held);
    let (other, other_waker) = counter();
    c.register_unless(true, &other_waker);
    c.arm(1);
    c.note_write(&head(1)).unwrap().wake();
    assert_eq!(count.0.load(Ordering::SeqCst), 1);
    assert_eq!(other.0.load(Ordering::SeqCst), 0);
}

#[test]
fn stale_bytes_never_match() {
    let line = |v: u64| format!("{MARKER_HEADER}: {v}\r\n").into_bytes();
    let mut c = ConnInner::new();
    c.note_write(&line(9));
    // a download whose headers never came, cut off inside a marker line
    c.arm(5);
    c.note_write(b"HTTP/1.1 404 Not Found\r\n\r\nx-conn-marker: 1");
    c.arm(31);
    for earlier in [0, 1, 3, 5, 9, 13, 30] {
        c.note_write(&line(earlier));
        assert!(!c.head_written(), "{earlier}");
    }
    c.note_write(&line(31));
    assert!(c.head_written());
}
