//! The read side of a connection, as its reader sees it.

use hyper_fast_path::framing::{DT_SYNC_FRAME_TYPE, FC_SYNC_FRAME_TYPE, PREFACE};
use hyper_fast_path::listener::{
    BeeperStream, FlowHandle, Protocol, ReadStep, Scanner, SyncHandle,
};

fn frame(kind: u8, payload: &[u8]) -> Vec<u8> {
    let len = payload.len();
    let mut frame = vec![(len >> 16) as u8, (len >> 8) as u8, len as u8, kind, 0, 0, 0, 0, 0];
    frame.extend_from_slice(payload);
    frame
}

fn request(update: Option<&[u8]>, payload: &[u8]) -> Vec<u8> {
    let mut input = PREFACE.to_vec();
    if let Some(block) = update {
        input.extend_from_slice(&frame(DT_SYNC_FRAME_TYPE, block));
    }
    input.extend_from_slice(&frame(1, payload));
    input
}

/// Reads everything there is to `input`, taking updates as they come up, with
/// reads of `room` bytes and chunks of `chunk` bytes.
fn read_all(input: &[u8], chunk: usize, room: usize) -> (Vec<u8>, Vec<Vec<u8>>, u32) {
    let mut stream = BeeperStream::new();
    let mut chunks = input.chunks(chunk);
    let mut out = Vec::new();
    let mut blocks = Vec::new();
    let mut sent = 0u32;
    let mut step = stream.poll_read(room);
    loop {
        step = match step {
            ReadStep::Deliver(bytes) => {
                assert!(!bytes.is_empty(), "an empty read stands for the end");
                out.extend_from_slice(&bytes);
                stream.poll_read(room)
            }
            ReadStep::Wait => {
                let taken = stream.sync_handle().take();
                assert!(!taken.is_empty());
                blocks.extend(taken);
                stream.poll_read(room)
            }
            ReadStep::Fetch => stream.received(chunks.next().unwrap_or(&[]), room),
            ReadStep::Eof => break,
        };
    }
    sent = sent.wrapping_add(stream.flow_handle().take());
    blocks.extend(stream.sync_handle().take());
    (out, blocks, sent)
}

#[test]
fn reads_with_the_sync_frame_removed() {
    let input = request(Some(b"the-update"), b"headers");
    let (out, blocks, sent) = read_all(&input, 4096, 4096);

    let mut expected = PREFACE.to_vec();
    expected.extend_from_slice(&frame(1, b"headers"));
    assert_eq!(out, expected);
    assert_eq!(blocks, vec![b"the-update".to_vec()]);
    assert_eq!(sent, 0);
}

#[test]
fn withholds_what_is_behind_an_update_until_it_is_taken() {
    let input = request(Some(b"the-update"), b"headers");
    let mut stream = BeeperStream::new();

    assert!(matches!(stream.poll_read(100), ReadStep::Fetch));
    match stream.received(&input, 100) {
        ReadStep::Deliver(bytes) => assert_eq!(bytes, PREFACE.to_vec()),
        _ => panic!("the preface is in front of the update"),
    }
    assert!(stream.sync_handle().is_pending());
    assert!(matches!(stream.poll_read(100), ReadStep::Wait));
    assert!(matches!(stream.poll_read(100), ReadStep::Wait));

    assert_eq!(stream.sync_handle().take(), vec![b"the-update".to_vec()]);
    match stream.poll_read(100) {
        ReadStep::Deliver(bytes) => assert_eq!(bytes, frame(1, b"headers")),
        _ => panic!("nothing is in the way of the request any more"),
    }
    assert!(matches!(stream.poll_read(100), ReadStep::Fetch));
    assert!(matches!(stream.received(&[], 100), ReadStep::Eof));
}

#[test]
fn resuming_stops_at_the_next_update() {
    let mut input = PREFACE.to_vec();
    input.extend_from_slice(&frame(DT_SYNC_FRAME_TYPE, b"first"));
    input.extend_from_slice(&frame(DT_SYNC_FRAME_TYPE, b"second"));
    input.extend_from_slice(&frame(1, b"headers"));
    let mut stream = BeeperStream::new();

    assert!(matches!(stream.received(&input, 100), ReadStep::Deliver(_)));
    assert!(matches!(stream.poll_read(100), ReadStep::Wait));
    assert_eq!(stream.sync_handle().take(), vec![b"first".to_vec()]);
    assert!(matches!(stream.poll_read(100), ReadStep::Wait));
    assert_eq!(stream.sync_handle().take(), vec![b"second".to_vec()]);
    assert!(matches!(stream.poll_read(100), ReadStep::Deliver(_)));
}

#[test]
fn the_split_into_chunks_and_reads_makes_no_difference() {
    let mut input = PREFACE.to_vec();
    input.extend_from_slice(&frame(4, b"settings"));
    input.extend_from_slice(&frame(FC_SYNC_FRAME_TYPE, &4096u32.to_be_bytes()));
    input.extend_from_slice(&frame(DT_SYNC_FRAME_TYPE, b"first"));
    input.extend_from_slice(&frame(1, b"headers"));
    input.extend_from_slice(&frame(0, b""));
    input.extend_from_slice(&frame(DT_SYNC_FRAME_TYPE, b""));
    input.extend_from_slice(&frame(FC_SYNC_FRAME_TYPE, &128u32.to_be_bytes()));
    input.extend_from_slice(&frame(1, b"more headers"));

    let mut expected = PREFACE.to_vec();
    expected.extend_from_slice(&frame(4, b"settings"));
    expected.extend_from_slice(&frame(1, b"headers"));
    expected.extend_from_slice(&frame(0, b""));
    expected.extend_from_slice(&frame(1, b"more headers"));

    for chunk in 1..=input.len() {
        for room in [1, 2, 7, 4096] {
            let (out, blocks, sent) = read_all(&input, chunk, room);
            assert_eq!(out, expected);
            assert_eq!(blocks, vec![b"first".to_vec(), Vec::new()]);
            assert_eq!(sent, 4224);
        }
    }
}

#[test]
fn the_count_wraps_around() {
    let mut input = PREFACE.to_vec();
    input.extend_from_slice(&frame(FC_SYNC_FRAME_TYPE, &u32::MAX.to_be_bytes()));
    input.extend_from_slice(&frame(FC_SYNC_FRAME_TYPE, &3u32.to_be_bytes()));
    let (out, blocks, sent) = read_all(&input, 4096, 4096);
    assert_eq!(out, PREFACE.to_vec());
    assert!(blocks.is_empty());
    assert_eq!(sent, 2);
}

#[test]
fn an_own_frame_that_makes_no_sense_ends_the_filtering() {
    let mut input = PREFACE.to_vec();
    input.extend_from_slice(&frame(FC_SYNC_FRAME_TYPE, b"five!"));
    input.extend_from_slice(&frame(DT_SYNC_FRAME_TYPE, b"an update"));

    let mut expected = PREFACE.to_vec();
    expected.extend_from_slice(b"five!");
    expected.extend_from_slice(&frame(DT_SYNC_FRAME_TYPE, b"an update"));

    let (out, blocks, sent) = read_all(&input, 4096, 4096);
    assert_eq!(out, expected);
    assert!(blocks.is_empty());
    assert_eq!(sent, 0);
}

#[test]
fn an_update_may_be_as_large_as_65536_bytes() {
    let block = vec![7u8; 65536];
    let mut input = PREFACE.to_vec();
    input.extend_from_slice(&frame(DT_SYNC_FRAME_TYPE, &block));
    let (out, blocks, _) = read_all(&input, 1000, 4096);
    assert_eq!(out, PREFACE.to_vec());
    assert_eq!(blocks, vec![block]);

    let block = vec![7u8; 65537];
    let mut input = PREFACE.to_vec();
    input.extend_from_slice(&frame(DT_SYNC_FRAME_TYPE, &block));
    let (out, blocks, _) = read_all(&input, 1000, 4096);
    assert_eq!(out.len(), PREFACE.len() + 65537);
    assert!(blocks.is_empty());
}

#[test]
fn tells_the_protocols_apart() {
    let mut stream = BeeperStream::new();
    assert_eq!(stream.protocol(), None);
    assert_eq!(stream.received_for_protocol(&PREFACE[..10]), None);
    assert_eq!(stream.received_for_protocol(&PREFACE[10..23]), None);
    assert_eq!(stream.received_for_protocol(&PREFACE[23..]), Some(Protocol::Http2));
    assert_eq!(stream.protocol(), Some(Protocol::Http2));
    match stream.poll_read(100) {
        ReadStep::Deliver(bytes) => assert_eq!(bytes, PREFACE.to_vec()),
        _ => panic!("what was read to find out about the protocol is kept"),
    }

    let mut stream = BeeperStream::new();
    assert_eq!(stream.received_for_protocol(b"P"), None);
    assert_eq!(stream.received_for_protocol(b"OST / HTTP/1.1"), Some(Protocol::Http1));
    match stream.poll_read(100) {
        ReadStep::Deliver(bytes) => assert_eq!(bytes, b"POST / HTTP/1.1".to_vec()),
        _ => panic!("what was read to find out about the protocol is kept"),
    }

    let mut stream = BeeperStream::new();
    assert_eq!(stream.received_for_protocol(b""), Some(Protocol::Http1));
}

#[test]
fn a_client_that_opened_with_the_preface_speaks_http2() {
    for own in [
        frame(FC_SYNC_FRAME_TYPE, b"not-a-count"),
        frame(DT_SYNC_FRAME_TYPE, &vec![0; 65537]),
        frame(DT_SYNC_FRAME_TYPE, b""),
    ] {
        let mut input = PREFACE.to_vec();
        input.extend_from_slice(&own);
        let mut stream = BeeperStream::new();
        assert_eq!(stream.received_for_protocol(&input), Some(Protocol::Http2));
        assert_eq!(stream.protocol(), Some(Protocol::Http2));
        assert_eq!(stream.received_for_protocol(b""), Some(Protocol::Http2));
    }
}

#[test]
fn hands_over_an_empty_update_at_the_end_of_the_input() {
    let mut input = PREFACE.to_vec();
    input.extend_from_slice(&frame(DT_SYNC_FRAME_TYPE, b""));

    let mut scanner = Scanner::new(SyncHandle::default(), FlowHandle::default());
    scanner.scan(&input);
    assert!(scanner.sync.is_pending());
    scanner.scan(&frame(1, b"headers"));
    assert_eq!(scanner.out.len(), PREFACE.len());
    assert_eq!(scanner.sync.take(), vec![Vec::<u8>::new()]);
    scanner.resume();
    assert_eq!(scanner.out.len(), PREFACE.len() + 16);

    for chunk in 1..=input.len() {
        let (out, blocks, _) = read_all(&input, chunk, 4096);
        assert_eq!(out, PREFACE.to_vec());
        assert_eq!(blocks, vec![Vec::<u8>::new()]);
    }
}

#[test]
fn passes_on_a_frame_header_that_is_cut_short() {
    let mut input = PREFACE.to_vec();
    input.extend_from_slice(&[0, 0, 0, 0x04]);
    for chunk in 1..=input.len() {
        for room in [1, 3, 4096] {
            let (out, blocks, sent) = read_all(&input, chunk, room);
            assert_eq!(out, input);
            assert!(blocks.is_empty());
            assert_eq!(sent, 0);
        }
    }
}

#[test]
fn passes_on_all_of_a_stream_but_what_is_known_to_be_an_own_frame() {
    for (kind, own) in [(1, false), (FC_SYNC_FRAME_TYPE, true), (DT_SYNC_FRAME_TYPE, true)] {
        let cut = frame(kind, b"four");
        for n in 0..cut.len() {
            let mut input = PREFACE.to_vec();
            input.extend_from_slice(&frame(DT_SYNC_FRAME_TYPE, b"update"));
            input.extend_from_slice(&frame(0, b"data"));
            input.extend_from_slice(&cut[..n]);

            let mut expected = PREFACE.to_vec();
            expected.extend_from_slice(&frame(0, b"data"));
            if !own || n <= 3 {
                expected.extend_from_slice(&cut[..n]);
            }

            let (out, blocks, sent) = read_all(&input, 7, 5);
            assert_eq!(out, expected);
            assert_eq!(blocks, vec![b"update".to_vec()]);
            assert_eq!(sent, 0);
        }
    }
}

#[test]
fn the_end_is_not_reported_before_what_is_in_front_of_it() {
    let mut stream = BeeperStream::new();
    stream.sync_handle().push(b"update".to_vec());
    assert!(matches!(stream.received(b"", 10), ReadStep::Wait));
    assert_eq!(stream.sync_handle().take(), vec![b"update".to_vec()]);
    assert!(matches!(stream.received(b"", 10), ReadStep::Eof));
    assert!(matches!(stream.received(b"", 10), ReadStep::Eof));
}

#[test]
fn delivers_no_more_than_there_is_room_for() {
    let mut stream = BeeperStream::new();
    match stream.received(b"GET / HTTP/1.1", 5) {
        ReadStep::Deliver(bytes) => assert_eq!(bytes, b"GET /".to_vec()),
        _ => panic!("there is something to deliver"),
    }
    assert_eq!(stream.drain_into(4), b" HTT".to_vec());
    assert_eq!(stream.drain_into(100), b"P/1.1".to_vec());
    assert_eq!(stream.drain_into(100), Vec::<u8>::new());
}

#[test]
fn a_handle_is_empty_once_it_is_taken_from() {
    let mut stream = BeeperStream::new();
    stream.sync_handle().push(b"a".to_vec());
    stream.sync_handle().push(b"b".to_vec());
    stream.flow_handle().add(7);
    stream.flow_handle().add(8);
    assert!(stream.sync_handle().is_pending());
    assert_eq!(stream.sync_handle().take(), vec![b"a".to_vec(), b"b".to_vec()]);
    assert!(!stream.sync_handle().is_pending());
    assert!(stream.sync_handle().take().is_empty());
    assert_eq!(stream.flow_handle().take(), 15);
    assert_eq!(stream.flow_handle().take(), 0);
}
