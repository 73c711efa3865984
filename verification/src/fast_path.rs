//! The responses the fast path serves from the kernel.

use vstd::prelude::*;

use crate::frame;
use crate::frame::{Frame, DATA, END_HEADERS, END_STREAM, HEADERS};
use crate::path;
use crate::render_laws;
use crate::wire;

verus! {

/// The smallest `SETTINGS_MAX_FRAME_SIZE` a peer may announce, and so the
/// largest DATA frame that is safe to send without having seen its settings.
pub const MAX_FRAME_SIZE: usize = 16384;

/// The number of connections the fast path runs on at once unless told
/// otherwise.
pub const DEFAULT_DUMMIES: usize = 1024;

/// The HPACK Huffman code of a string.
pub uninterp spec fn huffman_code(text: Seq<u8>) -> Seq<u8>;

/// The error of [`httlib_huffman::encode`].
#[verifier::external_type_specification]
#[verifier::external_body]
pub struct ExEncoderError(httlib_huffman::EncoderError);

/// [`httlib_huffman::encode`] appends the HPACK Huffman code of `src` to `dst`.
/// Its table has a code for every byte, so it does not fail.
pub assume_specification[ httlib_huffman::encode ](src: &[u8], dst: &mut Vec<u8>) -> (r: Result<
    (),
    httlib_huffman::EncoderError,
>)
    ensures
        r is Ok,
        final(dst)@ == old(dst)@ + huffman_code(src@),
;

/// The bytes of a string.
pub open spec fn utf8(text: Seq<char>) -> Seq<u8> {
    vstd::utf8::encode_utf8(text)
}

/// Returns the HPACK Huffman code of `val`.
pub fn huffman_encode(val: &str) -> (res: Vec<u8>)
    ensures
        res@ == huffman_code(utf8(val@)),
{
    let mut res: Vec<u8> = Vec::new();
    httlib_huffman::encode(val.as_bytes(), &mut res).unwrap();
    assert(res@ =~= huffman_code(utf8(val@)));
    res
}

/// The value of the `Content-Type` header to serve the file at `file` with.
pub open spec fn content_type_of(file: Seq<u8>) -> Seq<char> {
    match path::extension(file) {
        Some(ext) => if ext == utf8("html"@) {
            "text/html; charset=utf-8"@
        } else if ext == utf8("js"@) {
            "application/javascript"@
        } else if ext == utf8("css"@) {
            "text/css"@
        } else if ext == utf8("json"@) {
            "application/json"@
        } else {
            "application/octet-stream"@
        },
        None => "application/octet-stream"@,
    }
}

/// Returns the value of the `Content-Type` header to serve the file at the path
/// `file` with, based on its extension.
pub fn content_type(file: &[u8]) -> (value: &'static str)
    ensures
        value@ == content_type_of(file@),
{
    match path::extension_of(file) {
        Some(ext) => if wire::same(ext, "html".as_bytes()) {
            "text/html; charset=utf-8"
        } else if wire::same(ext, "js".as_bytes()) {
            "application/javascript"
        } else if wire::same(ext, "css".as_bytes()) {
            "text/css"
        } else if wire::same(ext, "json".as_bytes()) {
            "application/json"
        } else {
            "application/octet-stream"
        },
        None => "application/octet-stream",
    }
}

/// The head of the HTTP/1.1 response that carries `len` bytes of the file at
/// `file`.
pub open spec fn response_head(file: Seq<u8>, len: nat) -> Seq<char> {
    "HTTP/1.1 200 OK\r\nContent-Length: "@ + wire::decimal(len) + "\r\nContent-Type: "@
        + content_type_of(file) + "\r\nConnection: keep-alive\r\n\r\n"@
}

/// The HTTP/1.1 response that carries `body`, the contents of the file at
/// `file`.
pub open spec fn response(file: Seq<u8>, body: Seq<u8>) -> Seq<u8> {
    utf8(response_head(file, body.len())) + body
}

/// Renders the full HTTP/1.1 response (status line, headers and body) that the
/// fast path will serve verbatim whenever the file at `file`, with the contents
/// `body`, is requested.
pub fn render_response(file: &[u8], body: &[u8]) -> (resp: Vec<u8>)
    ensures
        resp@ == response(file@, body@),
{
    let mut head: String = String::from_str("HTTP/1.1 200 OK\r\nContent-Length: ");
    let len: String = wire::render_decimal(body.len());
    head.append(len.as_str());
    head.append("\r\nContent-Type: ");
    head.append(content_type(file));
    head.append("\r\nConnection: keep-alive\r\n\r\n");
    let mut resp: Vec<u8> = Vec::new();
    wire::append(&mut resp, head.as_str().as_bytes());
    wire::append(&mut resp, body);
    assert(resp@ =~= response(file@, body@));
    resp
}

/// What an HPACK integer goes on with behind a full prefix, from which `n` is left:
/// seven bits at a time, the low ones first.
pub open spec fn hpack_rest(n: nat) -> Seq<u8>
    decreases n,
{
    if n < 128 {
        seq![n as u8]
    } else {
        seq![(128 + n % 128) as u8] + hpack_rest(n / 128)
    }
}

/// The length of a string that is not Huffman coded, as an HPACK integer with a
/// prefix of seven bits.
pub open spec fn hpack_length(len: nat) -> Seq<u8> {
    if len < 127 {
        seq![len as u8]
    } else {
        seq![127u8] + hpack_rest((len - 127) as nat)
    }
}

/// A header as an HPACK literal without indexing. The name is the `name_idx`th
/// of the table, which is past what fits a prefix of four bits.
pub open spec fn hpack_field(name_idx: int, value: Seq<u8>) -> Seq<u8> {
    seq![0x0Fu8] + hpack_rest((name_idx - 15) as nat) + hpack_length(value.len()) + value
}

/// Appends what an HPACK integer goes on with behind a full prefix.
fn append_rest(out: &mut Vec<u8>, n: usize)
    ensures
        final(out)@ == old(out)@ + hpack_rest(n as nat),
{
    let mut left: usize = n;
    while left >= 128
        invariant
            out@ + hpack_rest(left as nat) == old(out)@ + hpack_rest(n as nat),
        decreases left,
    {
        let ghost before = out@;
        out.push((128 + left % 128) as u8);
        assert(out@ + hpack_rest((left / 128) as nat) =~= before + hpack_rest(left as nat));
        left = left / 128;
    }
    let ghost before = out@;
    out.push(left as u8);
    assert(out@ =~= before + hpack_rest(left as nat));
}

/// Encodes a header as an HPACK literal without indexing, taking the name from
/// the static table. Not indexing keeps the client's dynamic table untouched,
/// which it has to be: the server never sees this response, so its own encoder
/// would not know about the entry.
pub fn hpack_literal(name_idx: u8, value: &str) -> (out: Vec<u8>)
    requires
        name_idx >= 15,
    ensures
        out@ == hpack_field(name_idx as int, utf8(value@)),
{
    let bytes = value.as_bytes();
    let len: usize = bytes.len();
    let mut out: Vec<u8> = Vec::new();
    out.push(0x0F);
    append_rest(&mut out, (name_idx - 15) as usize);
    if len < 127 {
        out.push(len as u8);
    } else {
        out.push(127);
        append_rest(&mut out, len - 127);
    }
    wire::append(&mut out, bytes);
    assert(out@ =~= hpack_field(name_idx as int, utf8(value@)));
    out
}

/// The stream id of a frame that is not on a stream yet.
pub open spec fn no_stream() -> Seq<u8> {
    seq![0u8, 0, 0, 0]
}

/// Renders a frame with a zeroed stream id.
pub fn h2_frame(kind: u8, flags: u8, payload: &[u8]) -> (out: Vec<u8>)
    ensures
        out@ == (Frame { kind, flags, stream: no_stream(), payload: payload@ }).bytes(),
{
    let n: usize = payload.len();
    let mut out: Vec<u8> = Vec::new();
    out.push((n / 65536 % 256) as u8);
    out.push((n / 256 % 256) as u8);
    out.push((n % 256) as u8);
    out.push(kind);
    out.push(flags);
    // the stream id is only known once a request comes in, the fast path patches
    // it into the frame header before serving
    out.push(0);
    out.push(0);
    out.push(0);
    out.push(0);
    wire::append(&mut out, payload);
    assert(out@ =~= (Frame { kind, flags, stream: no_stream(), payload: payload@ }).bytes());
    out
}

/// The header block of the HTTP/2 response that carries `len` bytes of the file
/// at `file`.
pub open spec fn h2_headers(file: Seq<u8>, len: nat) -> Seq<u8> {
    seq![0x88u8] + hpack_field(28, utf8(wire::decimal(len))) + hpack_field(
        31,
        utf8(content_type_of(file)),
    )
}

/// The number of DATA frames a body of `len` bytes needs. An empty one still
/// needs a frame to end the stream with.
pub open spec fn chunk_count(len: nat) -> nat {
    if len == 0 {
        1
    } else {
        (len + MAX_FRAME_SIZE - 1) as nat / (MAX_FRAME_SIZE as nat)
    }
}

/// The part of `body` that the `i`th DATA frame carries.
pub open spec fn chunk(body: Seq<u8>, i: int) -> Seq<u8> {
    let start = i * MAX_FRAME_SIZE;
    let end = start + MAX_FRAME_SIZE;
    body.subrange(
        start,
        if end < body.len() {
            end
        } else {
            body.len() as int
        },
    )
}

/// The `i`th DATA frame of a response. The last one ends the stream.
pub open spec fn data_frame(body: Seq<u8>, i: int) -> Frame {
    Frame {
        kind: DATA,
        flags: if i + 1 == chunk_count(body.len()) {
            END_STREAM
        } else {
            0
        },
        stream: no_stream(),
        payload: chunk(body, i),
    }
}

/// The HEADERS frame of a response.
pub open spec fn headers_frame(file: Seq<u8>, len: nat) -> Frame {
    Frame {
        kind: HEADERS,
        flags: END_HEADERS,
        stream: no_stream(),
        payload: h2_headers(file, len),
    }
}

/// The frames of the HTTP/2 response that carries `body`, the contents of the
/// file at `file`.
pub open spec fn h2_frames(file: Seq<u8>, body: Seq<u8>) -> Seq<Frame> {
    seq![headers_frame(file, body.len())] + Seq::new(
        chunk_count(body.len()),
        |i: int| data_frame(body, i),
    )
}

/// Where the stream id of the `i`th of `frames` is once they are on the wire, at
/// offset 5 of its header.
pub open spec fn stream_id_offset(frames: Seq<Frame>, i: int) -> nat {
    frame::concat(frames.take(i)).len() + 5
}

/// The spots of the stream ids in `frames`, cut to 32 bits.
pub open spec fn stream_id_offsets(frames: Seq<Frame>) -> Seq<u32> {
    Seq::new(frames.len(), |i: int| (stream_id_offset(frames, i) % 0x1_0000_0000) as u32)
}

/// Renders the same response as [`render_response`] as an HTTP/2 HEADERS frame
/// followed by as many DATA frames as the body needs. Every frame carries a
/// zeroed stream id; the returned offsets point at the spots the fast path has to
/// patch it into. They are cut to 32 bits, which is more than any response that
/// is small enough for the fast path needs.
///
/// The body's length is returned alongside them: it is the part of the response
/// that is flow controlled, and so what the fast path has to have room for in the
/// client's windows before it may answer with it.
pub fn render_h2_response(file: &[u8], body: &[u8]) -> (r: (Vec<u8>, Vec<u32>, usize))
    ensures
        r.0@ == frame::concat(h2_frames(file@, body@)),
        r.1@ == stream_id_offsets(h2_frames(file@, body@)),
        r.2 == body@.len(),
        r.2 == render_laws::payloads(h2_frames(file@, body@).skip(1)).len(),
{
    proof {
        render_laws::law_flow_controlled(file@, body@);
    }
    let ghost frames = h2_frames(file@, body@);
    let len: usize = body.len();
    // :status: 200 is a static table entry of its own, so it can be referenced as
    // an indexed field
    let mut hdrs: Vec<u8> = Vec::new();
    hdrs.push(0x88);
    let text: String = wire::render_decimal(len);
    let length: Vec<u8> = hpack_literal(28, text.as_str());
    wire::append(&mut hdrs, &length);
    let kind: Vec<u8> = hpack_literal(31, content_type(file));
    wire::append(&mut hdrs, &kind);
    assert(hdrs@ =~= h2_headers(file@, body@.len()));
    let mut resp: Vec<u8> = h2_frame(HEADERS, END_HEADERS, &hdrs);
    let mut sid_offs: Vec<u32> = Vec::new();
    sid_offs.push(5);
    proof {
        assert(frames.take(1) =~= frames.take(0).push(frames[0]));
        assert(frames.take(0) =~= Seq::<Frame>::empty());
        frame::lemma_concat_push(frames.take(0), frames[0]);
        assert(frame::concat(frames.take(0)) == Seq::<u8>::empty());
        assert(resp@ =~= frame::concat(frames.take(1)));
        assert(stream_id_offset(frames, 0) == 5);
    }
    // an empty body still needs a frame of its own to carry END_STREAM
    let count: usize = if len == 0 {
        1
    } else if len % MAX_FRAME_SIZE == 0 {
        len / MAX_FRAME_SIZE
    } else {
        len / MAX_FRAME_SIZE + 1
    };
    for i in 0..count
        invariant
            len == body@.len(),
            count == chunk_count(body@.len()),
            frames == h2_frames(file@, body@),
            resp@ == frame::concat(frames.take(i + 1)),
            sid_offs@.len() == i + 1,
            forall|j: int|
                0 <= j <= i ==> sid_offs@[j] == #[trigger] stream_id_offset(frames, j)
                    % 0x1_0000_0000,
    {
        let start: usize = i * MAX_FRAME_SIZE;
        let end: usize = if len - start > MAX_FRAME_SIZE {
            start + MAX_FRAME_SIZE
        } else {
            len
        };
        let flags: u8 = if i + 1 == count {
            END_STREAM
        } else {
            0x00
        };
        let off: u64 = (resp.len() as u64 % 0x1_0000_0000 + 5) % 0x1_0000_0000;
        sid_offs.push(off as u32);
        let data: Vec<u8> = h2_frame(DATA, flags, &body[start..end]);
        wire::append(&mut resp, &data);
        proof {
            assert(frames[i + 1] == data_frame(body@, i as int));
            assert(frames.take(i + 2) =~= frames.take(i + 1).push(frames[i + 1]));
            frame::lemma_concat_push(frames.take(i + 1), frames[i + 1]);
            assert(off == stream_id_offset(frames, i + 1) % 0x1_0000_0000);
        }
    }
    proof {
        assert(frames.take(count + 1) =~= frames);
        assert(sid_offs@ =~= stream_id_offsets(frames));
    }
    (resp, sid_offs, len)
}

} // verus!
