use hyper_fast_path::framing::{DT_SYNC_FRAME_TYPE, FC_SYNC_FRAME_TYPE, PREFACE};
use hyper_fast_path::listener::{FlowHandle, Scanner, SyncHandle};

/// Renders an HTTP/2 frame of type `kind` around `payload`.
fn frame(kind: u8, payload: &[u8]) -> Vec<u8> {
    let mut f = Vec::new();
    f.extend_from_slice(&(payload.len() as u32).to_be_bytes()[1..]);
    f.push(kind);
    f.push(0);
    f.extend_from_slice(&0u32.to_be_bytes());
    f.extend_from_slice(payload);
    f
}

/// Feeds `chunks` through a scanner and returns what it passed on and what it
/// took out.
///
/// Updates are taken off the handle as they appear, which is what the
/// connection loop does after applying them and what lets the scanner carry on
/// past the barrier.
fn scan(chunks: &[&[u8]]) -> (Vec<u8>, Vec<Vec<u8>>) {
    let mut scanner = Scanner::new(SyncHandle::default(), FlowHandle::default());
    let mut blocks = Vec::new();

    for chunk in chunks {
        scanner.scan(chunk);

        while scanner.sync.is_pending() {
            blocks.extend(scanner.sync.take());
            scanner.resume();
        }
    }

    (scanner.out.into_iter().collect(), blocks)
}

#[test]
fn passes_a_stream_without_sync_frames_through_untouched() {
    let mut input = PREFACE.to_vec();
    input.extend_from_slice(&frame(0x04, b"settings"));
    input.extend_from_slice(&frame(0x01, b"headers"));

    let (out, blocks) = scan(&[&input]);

    assert_eq!(out, input);
    assert!(blocks.is_empty());
}

#[test]
fn takes_a_sync_frame_out_of_the_stream() {
    let mut input = PREFACE.to_vec();
    input.extend_from_slice(&frame(DT_SYNC_FRAME_TYPE, b"the-update"));
    input.extend_from_slice(&frame(0x01, b"headers"));

    let mut expected = PREFACE.to_vec();
    expected.extend_from_slice(&frame(0x01, b"headers"));

    let (out, blocks) = scan(&[&input]);

    assert_eq!(out, expected);
    assert_eq!(blocks, vec![b"the-update".to_vec()]);
}

#[test]
fn finds_a_sync_frame_split_across_reads() {
    let mut input = PREFACE.to_vec();
    input.extend_from_slice(&frame(DT_SYNC_FRAME_TYPE, b"the-update"));
    input.extend_from_slice(&frame(0x01, b"headers"));

    let mut expected = PREFACE.to_vec();
    expected.extend_from_slice(&frame(0x01, b"headers"));

    // one byte at a time is the worst case the scanner has to survive
    let chunks: Vec<&[u8]> = input.chunks(1).collect();
    let (out, blocks) = scan(&chunks);

    assert_eq!(out, expected);
    assert_eq!(blocks, vec![b"the-update".to_vec()]);
}

#[test]
fn keeps_several_sync_frames_in_order() {
    let mut input = PREFACE.to_vec();
    input.extend_from_slice(&frame(DT_SYNC_FRAME_TYPE, b"first"));
    input.extend_from_slice(&frame(0x01, b"headers"));
    input.extend_from_slice(&frame(DT_SYNC_FRAME_TYPE, b"second"));

    let (_, blocks) = scan(&[&input]);

    assert_eq!(blocks, vec![b"first".to_vec(), b"second".to_vec()]);
}

#[test]
fn keeps_an_empty_sync_frame_out_of_the_stream() {
    let mut input = PREFACE.to_vec();
    input.extend_from_slice(&frame(DT_SYNC_FRAME_TYPE, b""));
    input.extend_from_slice(&frame(0x01, b"headers"));

    let mut expected = PREFACE.to_vec();
    expected.extend_from_slice(&frame(0x01, b"headers"));

    let (out, blocks) = scan(&[&input]);

    assert_eq!(out, expected);
    assert_eq!(blocks, vec![Vec::<u8>::new()]);
}

/// Feeds `chunks` through a scanner and returns what it passed on and the bytes
/// it was told the fast path answered with.
fn scan_flow(chunks: &[&[u8]]) -> (Vec<u8>, u32) {
    let mut scanner = Scanner::new(SyncHandle::default(), FlowHandle::default());

    for chunk in chunks {
        scanner.scan(chunk);
    }

    let sent = scanner.flow.take();
    (scanner.out.into_iter().collect(), sent)
}

#[test]
fn takes_a_flow_control_frame_out_of_the_stream() {
    let mut input = PREFACE.to_vec();
    input.extend_from_slice(&frame(FC_SYNC_FRAME_TYPE, &4096u32.to_be_bytes()));
    input.extend_from_slice(&frame(0x01, b"headers"));

    let mut expected = PREFACE.to_vec();
    expected.extend_from_slice(&frame(0x01, b"headers"));

    let (out, sent) = scan_flow(&[&input]);

    assert_eq!(out, expected);
    assert_eq!(sent, 4096);
}

#[test]
fn finds_a_flow_control_frame_split_across_reads() {
    let mut input = PREFACE.to_vec();
    input.extend_from_slice(&frame(FC_SYNC_FRAME_TYPE, &4096u32.to_be_bytes()));
    input.extend_from_slice(&frame(0x01, b"headers"));

    let mut expected = PREFACE.to_vec();
    expected.extend_from_slice(&frame(0x01, b"headers"));

    let chunks: Vec<&[u8]> = input.chunks(1).collect();
    let (out, sent) = scan_flow(&chunks);

    assert_eq!(out, expected);
    assert_eq!(sent, 4096);
}

#[test]
fn adds_up_the_flow_control_frames_of_a_connection() {
    let mut input = PREFACE.to_vec();
    input.extend_from_slice(&frame(FC_SYNC_FRAME_TYPE, &4096u32.to_be_bytes()));
    input.extend_from_slice(&frame(0x01, b"headers"));
    input.extend_from_slice(&frame(FC_SYNC_FRAME_TYPE, &128u32.to_be_bytes()));

    let (_, sent) = scan_flow(&[&input]);

    assert_eq!(sent, 4224);
}

#[test]
fn ignores_a_malformed_flow_control_frame() {
    let mut input = PREFACE.to_vec();
    input.extend_from_slice(&frame(FC_SYNC_FRAME_TYPE, b"not-a-count"));
    input.extend_from_slice(&frame(0x01, b"headers"));

    let (out, sent) = scan_flow(&[&input]);

    // the framing cannot be trusted from here on, so scanning gives up and
    // nothing else is taken out of the stream
    assert!(out.ends_with(&frame(0x01, b"headers")));
    assert_eq!(sent, 0);
}

#[test]
fn leaves_a_non_http2_connection_alone() {
    let input = b"GET /index.html HTTP/1.1\r\nHost: x\r\n\r\n";

    let (out, blocks) = scan(&[input]);

    assert_eq!(out, input);
    assert!(blocks.is_empty());
}
