use mini_download_serve::conn::ConnInner;
use mini_download_serve::sendfile::{
    max_chunk, sendfile_call, sendfile_once, would_block_code, FrameAction, FrameEvent, FramePhase, Platform,
    SendOutcome, SendfileBody, SendfileCall,
};

#[test]
fn one_call_moves_only_so_much() {
    assert_eq!(max_chunk(Platform::Linux), 0x7fff_f000);
    assert_eq!(max_chunk(Platform::MacOs), 64 * 1024 * 1024);
    assert_eq!(sendfile_call(Platform::Linux, 10, 20), SendfileCall { offset: 10, count: 20 });
    assert_eq!(
        sendfile_call(Platform::Linux, 0, u64::MAX),
        SendfileCall { offset: 0, count: 0x7fff_f000 }
    );
    assert_eq!(
        sendfile_call(Platform::MacOs, u64::MAX, 1 << 40),
        SendfileCall { offset: -1, count: 64 * 1024 * 1024 }
    );
}

#[test]
fn linux_returns_the_number_of_bytes() {
    assert_eq!(sendfile_once(Platform::Linux, 42, 0, None), SendOutcome::Sent(42));
    assert_eq!(sendfile_once(Platform::Linux, 1, 0, Some(11)), SendOutcome::Sent(1));
    assert_eq!(sendfile_once(Platform::Linux, -1, 0, Some(11)), SendOutcome::Sent(0));
    assert_eq!(sendfile_once(Platform::Linux, -1, 0, Some(35)), SendOutcome::Failed);
    assert_eq!(sendfile_once(Platform::Linux, -1, 0, Some(libc::EPIPE)), SendOutcome::Failed);
    assert_eq!(sendfile_once(Platform::Linux, -1, 0, None), SendOutcome::Failed);
}

#[test]
fn macos_tells_the_number_of_bytes_apart() {
    assert_eq!(sendfile_once(Platform::MacOs, 0, 42, None), SendOutcome::Sent(42));
    assert_eq!(sendfile_once(Platform::MacOs, -1, 17, Some(35)), SendOutcome::Sent(17));
    assert_eq!(sendfile_once(Platform::MacOs, -1, 0, Some(35)), SendOutcome::Sent(0));
    assert_eq!(sendfile_once(Platform::MacOs, -1, 17, Some(11)), SendOutcome::Failed);
    assert_eq!(sendfile_once(Platform::MacOs, -1, 17, None), SendOutcome::Failed);
}

#[test]
fn a_call_that_succeeds_with_nothing_is_at_the_end_of_the_file() {
    assert_eq!(sendfile_once(Platform::Linux, 0, 0, None), SendOutcome::Ended);
    assert_eq!(sendfile_once(Platform::Linux, 0, 0, Some(11)), SendOutcome::Ended);
    assert_eq!(sendfile_once(Platform::MacOs, 0, 0, None), SendOutcome::Ended);
}

#[test]
fn the_code_for_a_full_socket_is_that_of_the_system() {
    assert_eq!(would_block_code(Platform::Linux), 11);
    assert_eq!(would_block_code(Platform::MacOs), 35);
    let codes = [Platform::Linux, Platform::MacOs].map(would_block_code);
    assert!(codes.contains(&libc::EAGAIN));
}

#[test]
fn a_body_waits_for_the_headers() {
    let mut b = SendfileBody::new(Platform::Linux, 0, 10);
    assert_eq!(b.poll_frame(FrameEvent::Polled(false)), FrameAction::RegisterWaker);
    assert_eq!(b.poll_frame(FrameEvent::Registered(false)), FrameAction::Pending);
    assert_eq!(b.phase, FramePhase::Idle);
    assert_eq!(b.poll_frame(FrameEvent::Polled(false)), FrameAction::RegisterWaker);
    assert_eq!(b.poll_frame(FrameEvent::Registered(true)), FrameAction::Send(0, 10));
    assert_eq!(b.poll_frame(FrameEvent::Sent(10)), FrameAction::Finished);
}

#[test]
fn a_body_is_sent_piece_by_piece() {
    let mut b = SendfileBody::new(Platform::Linux, 100, 50);
    assert_eq!(b.size_hint(), 50);
    assert_eq!(b.poll_frame(FrameEvent::Polled(true)), FrameAction::Send(100, 50));
    assert_eq!(b.poll_frame(FrameEvent::Sent(20)), FrameAction::AwaitWritable);
    assert_eq!(b.size_hint(), 30);
    assert_eq!(b.poll_frame(FrameEvent::NotWritable), FrameAction::Pending);
    assert_eq!(b.poll_frame(FrameEvent::Polled(true)), FrameAction::Send(120, 30));
    assert_eq!(b.poll_frame(FrameEvent::Sent(0)), FrameAction::AwaitWritable);
    assert_eq!(b.poll_frame(FrameEvent::Writable), FrameAction::Send(120, 30));
    assert_eq!(b.poll_frame(FrameEvent::Sent(30)), FrameAction::Finished);
    assert_eq!(b.size_hint(), 0);
}

#[test]
fn a_large_body_takes_several_calls() {
    let mib: u64 = 1024 * 1024;
    let mut b = SendfileBody::new(Platform::MacOs, 0, 100 * mib);
    assert_eq!(b.poll_frame(FrameEvent::Polled(true)), FrameAction::Send(0, 64 * mib));
    assert_eq!(b.poll_frame(FrameEvent::Sent(64 * mib)), FrameAction::Send(64 * mib, 36 * mib));
    assert_eq!(b.poll_frame(FrameEvent::Sent(36 * mib)), FrameAction::Finished);
}

#[test]
fn a_partial_call_waits_even_for_the_last_bytes() {
    let mut b = SendfileBody::new(Platform::Linux, 0, 10);
    assert_eq!(b.poll_frame(FrameEvent::Polled(true)), FrameAction::Send(0, 10));
    assert_eq!(b.poll_frame(FrameEvent::Sent(9)), FrameAction::AwaitWritable);
    assert_eq!(b.poll_frame(FrameEvent::Writable), FrameAction::Send(9, 1));
}

#[test]
fn an_empty_body_is_complete_at_once() {
    let mut b = SendfileBody::new(Platform::Linux, 7, 0);
    assert_eq!(b.poll_frame(FrameEvent::Polled(true)), FrameAction::Finished);
}

#[test]
fn a_file_that_ends_too_early_is_a_failure() {
    let mut b = SendfileBody::new(Platform::Linux, 0, 10);
    b.poll_frame(FrameEvent::Polled(true));
    b.poll_frame(FrameEvent::Sent(4));
    assert_eq!(b.poll_frame(FrameEvent::Writable), FrameAction::Send(4, 6));
    assert_eq!(b.poll_frame(FrameEvent::Ended), FrameAction::Fail);
    assert_eq!(b.size_hint(), 6);
}

#[test]
fn failures_are_reported() {
    let mut b = SendfileBody::new(Platform::Linux, 0, 10);
    assert_eq!(b.poll_frame(FrameEvent::Polled(true)), FrameAction::Send(0, 10));
    assert_eq!(b.poll_frame(FrameEvent::SendFailed), FrameAction::Fail);
    let mut b = SendfileBody::new(Platform::Linux, 0, 10);
    b.poll_frame(FrameEvent::Polled(true));
    b.poll_frame(FrameEvent::Sent(1));
    assert_eq!(b.poll_frame(FrameEvent::WaitFailed), FrameAction::Fail);
    assert_eq!(b.offset, 1);
}

#[test]
fn file_data_waits_until_the_headers_are_out() {
    let mut c = ConnInner::new();
    c.arm(31);
    let head = b"HTTP/1.1 206 Partial Content\r\nx-conn-marker: 31\r\nconnection: close\r\n\r\n";
    let mut b = SendfileBody::new(Platform::Linux, 0, 4);
    for (i, byte) in head.iter().enumerate() {
        c.note_write(&[*byte]);
        if i + 1 < head.len() {
            assert_eq!(b.poll_frame(FrameEvent::Polled(c.head_complete())), FrameAction::RegisterWaker);
            assert_eq!(b.poll_frame(FrameEvent::Registered(c.head_complete())), FrameAction::Pending);
        }
    }
    assert_eq!(b.poll_frame(FrameEvent::Polled(c.head_complete())), FrameAction::Send(0, 4));
}
