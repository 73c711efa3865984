//! The responses the fast path serves.

use hyper_fast_path::fast_path::{
    content_type, h2_frame, hpack_literal, huffman_encode, render_h2_response, render_response,
    DEFAULT_DUMMIES,
};
use hyper_fast_path::path::extension_of;
use std::path::Path;

#[test]
fn encodes_with_the_hpack_huffman_code() {
    assert_eq!(
        huffman_encode("Hello world!"),
        vec![198, 90, 40, 58, 158, 15, 101, 18, 127, 31]
    );
    assert_eq!(
        huffman_encode("www.example.com"),
        vec![0xf1, 0xe3, 0xc2, 0xe5, 0xf2, 0x3a, 0x6b, 0xa0, 0xab, 0x90, 0xf4, 0xff]
    );
    assert_eq!(huffman_encode(""), Vec::<u8>::new());
}

#[test]
fn finds_the_content_type_by_the_extension() {
    assert_eq!(content_type(b"/srv/index.html"), "text/html; charset=utf-8");
    assert_eq!(content_type(b"app.js"), "application/javascript");
    assert_eq!(content_type(b"a/b/style.css"), "text/css");
    assert_eq!(content_type(b"data.json"), "application/json");
    assert_eq!(content_type(b"8KB.txt"), "application/octet-stream");
    assert_eq!(content_type(b"html"), "application/octet-stream");
    assert_eq!(content_type(b".html"), "application/octet-stream");
    assert_eq!(content_type(b"index.HTML"), "application/octet-stream");
    assert_eq!(content_type(b"page.\xff"), "application/octet-stream");
    assert_eq!(content_type(b""), "application/octet-stream");
}

#[test]
fn takes_a_path_apart_like_the_standard_library() {
    let paths = [
        "", "/", "//", ".", "..", "/.", "/..", "./", "../", "a", "a.b", "a.b.c", ".a", "..a",
        "...", "a.", "a..", "a..b", "/a.b", "/a.b/", "/a.b//", "/a.b/.", "/a.b/./", "/a.b/..",
        "/a.b/c", "x/.a", "x/.a.b", "x/..", "x/../y.z", "x.y/.", "./x.y", ".//.", "a/./.", "é.ü",
        "a.b/././/./", "/.//", "foo.tar.gz", "x/...", "x/..b", "x/.b.",
    ];
    for path in paths {
        let expected = Path::new(path).extension().map(|ext| ext.as_encoded_bytes());
        assert_eq!(extension_of(path.as_bytes()), expected, "{path:?}");
    }

    // every path of up to six of these bytes
    let alphabet = b"/.ab";
    let mut level: Vec<Vec<u8>> = vec![Vec::new()];
    for _ in 0..6 {
        let mut next = Vec::new();
        for path in &level {
            for &b in alphabet {
                let mut longer = path.clone();
                longer.push(b);
                let text = String::from_utf8(longer.clone()).unwrap();
                let expected = Path::new(&text).extension().map(|ext| ext.as_encoded_bytes());
                assert_eq!(extension_of(&longer), expected, "{text:?}");
                next.push(longer);
            }
        }
        level = next;
    }
}

#[test]
fn renders_an_http1_response() {
    let resp = render_response(b"assets/index.html", b"<p>hi</p>");
    assert_eq!(
        resp,
        b"HTTP/1.1 200 OK\r\nContent-Length: 9\r\nContent-Type: text/html; charset=utf-8\r\n\
          Connection: keep-alive\r\n\r\n<p>hi</p>"
            .to_vec()
    );

    let resp = render_response(b"assets/8KB.txt", &vec![b'x'; 8192]);
    let head = b"HTTP/1.1 200 OK\r\nContent-Length: 8192\r\n\
                 Content-Type: application/octet-stream\r\nConnection: keep-alive\r\n\r\n";
    assert_eq!(&resp[..head.len()], &head[..]);
    assert_eq!(&resp[head.len()..], &vec![b'x'; 8192][..]);

    let resp = render_response(b"empty", b"");
    assert!(resp.starts_with(b"HTTP/1.1 200 OK\r\nContent-Length: 0\r\n"));
    assert!(resp.ends_with(b"\r\n\r\n"));
}

#[test]
fn encodes_a_header_as_a_literal() {
    assert_eq!(hpack_literal(28, "8192"), b"\x0f\x0d\x048192".to_vec());
    assert_eq!(hpack_literal(31, "text/css"), b"\x0f\x10\x08text/css".to_vec());
    assert_eq!(hpack_literal(15, ""), b"\x0f\x00\x00".to_vec());
}

#[test]
fn encodes_a_long_header_with_a_length_of_several_bytes() {
    let cases: [(usize, &[u8]); 6] = [
        (126, &[126]),
        (127, &[127, 0]),
        (200, &[0x7f, 0x49]),
        (254, &[127, 127]),
        (255, &[127, 0x80, 1]),
        (16511, &[127, 0x80, 0x80, 1]),
    ];
    for (len, length) in cases {
        let value = "a".repeat(len);
        let mut expected = vec![0x0f, 0x0d];
        expected.extend_from_slice(length);
        expected.extend_from_slice(value.as_bytes());
        assert_eq!(hpack_literal(28, &value), expected);
    }
    assert_eq!(hpack_literal(142, ""), vec![0x0f, 127, 0]);
    assert_eq!(hpack_literal(143, ""), vec![0x0f, 0x80, 1, 0]);
    assert_eq!(hpack_literal(255, ""), vec![0x0f, 0xf0, 1, 0]);
}

#[test]
fn renders_a_frame() {
    assert_eq!(
        h2_frame(1, 4, b"abc"),
        vec![0, 0, 3, 1, 4, 0, 0, 0, 0, b'a', b'b', b'c']
    );
    let frame = h2_frame(0, 1, &vec![9u8; 0x012345]);
    assert_eq!(frame[..9], [0x01, 0x23, 0x45, 0, 1, 0, 0, 0, 0]);
    assert_eq!(frame.len(), 9 + 0x012345);
}

/// The kind, flags, stream id and payload of each frame of `bytes`.
fn frames(bytes: &[u8]) -> Vec<(u8, u8, [u8; 4], Vec<u8>)> {
    let mut rest = bytes;
    let mut frames = Vec::new();
    while !rest.is_empty() {
        let len = (rest[0] as usize) << 16 | (rest[1] as usize) << 8 | rest[2] as usize;
        let id = [rest[5], rest[6], rest[7], rest[8]];
        frames.push((rest[3], rest[4], id, rest[9..9 + len].to_vec()));
        rest = &rest[9 + len..];
    }
    frames
}

#[test]
fn renders_an_http2_response() {
    let (resp, offs, len) = render_h2_response(b"a.css", b"body{}");
    let mut hdrs = vec![0x88];
    hdrs.extend_from_slice(b"\x0f\x0d\x016");
    hdrs.extend_from_slice(b"\x0f\x10\x08text/css");
    assert_eq!(
        frames(&resp),
        vec![(1, 4, [0; 4], hdrs.clone()), (0, 1, [0; 4], b"body{}".to_vec())]
    );
    assert_eq!(offs, vec![5, 9 + hdrs.len() as u32 + 5]);
    assert_eq!(len, 6);
}

#[test]
fn an_empty_body_still_ends_the_stream() {
    let (resp, offs, len) = render_h2_response(b"a.css", b"");
    let frames = frames(&resp);
    assert_eq!(frames.len(), 2);
    assert_eq!(frames[1], (0, 1, [0; 4], Vec::new()));
    assert_eq!(offs.len(), 2);
    assert_eq!(len, 0);
}

#[test]
fn a_large_body_is_split_into_frames() {
    for (size, expected) in [(16383, 1), (16384, 1), (16385, 2), (32768, 2), (131072, 8)] {
        let body: Vec<u8> = (0..size).map(|i: usize| i as u8).collect();
        let (resp, offs, len) = render_h2_response(b"/1KB.txt", &body);
        let frames = frames(&resp);
        assert_eq!(frames.len(), expected + 1);
        assert_eq!(offs.len(), expected + 1);
        assert_eq!(len, size);

        let mut carried = Vec::new();
        for (i, (kind, flags, _, payload)) in frames.iter().enumerate().skip(1) {
            assert_eq!(*kind, 0);
            assert_eq!(*flags, u8::from(i == expected));
            assert!(payload.len() <= 16384);
            carried.extend_from_slice(payload);
        }
        assert_eq!(carried, body);
    }
}

#[test]
fn patching_the_offsets_puts_every_frame_on_the_stream() {
    let body = vec![1u8; 40000];
    let (mut resp, offs, _) = render_h2_response(b"x.js", &body);
    let before = frames(&resp);
    for off in &offs {
        resp[*off as usize..*off as usize + 4].copy_from_slice(&77u32.to_be_bytes());
    }
    let after = frames(&resp);
    assert_eq!(before.len(), after.len());
    for (b, a) in before.iter().zip(&after) {
        assert_eq!(a.2, 77u32.to_be_bytes());
        assert_eq!((a.0, a.1, &a.3), (b.0, b.1, &b.3));
    }
}

#[test]
fn runs_on_1024_connections_by_default() {
    assert_eq!(DEFAULT_DUMMIES, 1024);
}
