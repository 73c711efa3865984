//! What happens between two polls of a connection.

use hyper_fast_path::framing::{DT_SYNC_FRAME_TYPE, FC_SYNC_FRAME_TYPE, PREFACE};
use hyper_fast_path::listener::{BeeperStream, ReadStep};
use hyper_fast_path::server::{reply, Action, Reply, RequestBody, ServeError, Turn};

fn frame(kind: u8, payload: &[u8]) -> Vec<u8> {
    let mut frame = vec![0, 0, payload.len() as u8, kind, 0, 0, 0, 0, 0];
    frame.extend_from_slice(payload);
    frame
}

/// A connection on which the fast path has reported 300 bytes and two updates.
fn reported() -> BeeperStream {
    let mut stream = BeeperStream::new();
    stream.flow_handle().add(300);
    stream.sync_handle().push(b"first".to_vec());
    stream.sync_handle().push(b"second!".to_vec());
    stream
}

#[test]
fn a_connection_without_reports_is_polled_right_away() {
    let mut stream = BeeperStream::new();
    let turn = Turn::begin(&mut stream);
    assert_eq!(turn.action(), Action::Accept);
}

#[test]
fn everything_reported_is_done_before_the_poll() {
    let mut stream = reported();
    let mut turn = Turn::begin(&mut stream);
    assert_eq!(turn.action(), Action::Consume { sent: 300 });
    turn.done(&mut stream, true);
    assert_eq!(turn.action(), Action::Prime { block: b"first" });
    turn.done(&mut stream, true);
    assert_eq!(turn.action(), Action::Prime { block: b"second!" });
    turn.done(&mut stream, true);
    assert_eq!(turn.action(), Action::Accept);
    turn.done(&mut stream, false);
    assert_eq!(turn.action(), Action::Accept);
    assert!(!stream.sync_handle().is_pending());
    assert_eq!(stream.flow_handle().take(), 0);
}

#[test]
fn updates_alone_are_applied_without_touching_the_window() {
    let mut stream = BeeperStream::new();
    stream.sync_handle().push(b"only".to_vec());
    let mut turn = Turn::begin(&mut stream);
    assert_eq!(turn.action(), Action::Prime { block: b"only" });
    turn.done(&mut stream, true);
    assert_eq!(turn.action(), Action::Accept);
}

#[test]
fn a_window_that_cannot_be_accounted_for_ends_the_connection() {
    let mut stream = reported();
    let mut turn = Turn::begin(&mut stream);
    turn.done(&mut stream, false);
    let fail = Action::Fail { error: ServeError::SendCapacity { sent: 300 } };
    assert_eq!(turn.action(), fail);
    turn.done(&mut stream, true);
    assert_eq!(turn.action(), fail);
    assert!(stream.sync_handle().is_pending());
}

#[test]
fn an_update_that_cannot_be_applied_ends_the_connection() {
    let mut stream = reported();
    let mut turn = Turn::begin(&mut stream);
    turn.done(&mut stream, true);
    turn.done(&mut stream, true);
    turn.done(&mut stream, false);
    let fail = Action::Fail { error: ServeError::DynamicTable { len: 7 } };
    assert_eq!(turn.action(), fail);
    turn.done(&mut stream, true);
    assert_eq!(turn.action(), fail);
}

#[test]
fn a_turn_lets_the_request_behind_an_update_through() {
    let mut input = PREFACE.to_vec();
    input.extend_from_slice(&frame(FC_SYNC_FRAME_TYPE, &4096u32.to_be_bytes()));
    input.extend_from_slice(&frame(DT_SYNC_FRAME_TYPE, b"the-update"));
    input.extend_from_slice(&frame(1, b"headers"));

    let mut stream = BeeperStream::new();
    assert!(matches!(stream.received(&input, 4096), ReadStep::Deliver(_)));
    assert!(matches!(stream.poll_read(4096), ReadStep::Wait));

    let mut turn = Turn::begin(&mut stream);
    assert_eq!(turn.action(), Action::Consume { sent: 4096 });
    turn.done(&mut stream, true);
    assert_eq!(turn.action(), Action::Prime { block: b"the-update" });
    turn.done(&mut stream, true);
    assert_eq!(turn.action(), Action::Accept);

    match stream.poll_read(4096) {
        ReadStep::Deliver(bytes) => assert_eq!(bytes, frame(1, b"headers")),
        _ => panic!("the request is not held up any more"),
    }
}

#[test]
fn collects_a_request_body_and_gives_its_window_back() {
    let mut body = RequestBody::new();
    assert_eq!(body.push(b"hello "), 6);
    assert_eq!(body.push(b""), 0);
    assert_eq!(body.push(b"world"), 5);
    assert_eq!(body.collected, b"hello world".to_vec());
}

#[test]
fn only_an_empty_response_ends_with_its_headers() {
    assert_eq!(reply(0), Reply::Headers);
    assert_eq!(reply(1), Reply::HeadersAndBody);
    assert_eq!(reply(65536), Reply::HeadersAndBody);
}
