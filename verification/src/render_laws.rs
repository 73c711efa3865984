//! What holds of the responses the fast path serves.

use vstd::prelude::*;

use crate::fast_path;
use crate::fast_path::MAX_FRAME_SIZE;
use crate::frame;
use crate::frame::{Frame, DATA, END_STREAM};
use crate::path;
use crate::wire;

verus! {

/// `bytes` with `id` written over the four bytes at `off`.
pub open spec fn put(bytes: Seq<u8>, off: int, id: Seq<u8>) -> Seq<u8> {
    bytes.take(off) + id + bytes.skip(off + 4)
}

/// `bytes` with `id` written over the four bytes at each of `offs`.
pub open spec fn patch(bytes: Seq<u8>, offs: Seq<u32>, id: Seq<u8>) -> Seq<u8>
    decreases offs.len(),
{
    if offs.len() == 0 {
        bytes
    } else {
        put(patch(bytes, offs.drop_last(), id), offs.last() as int, id)
    }
}

/// `frames` on the stream `id`.
pub open spec fn on_stream(frames: Seq<Frame>, id: Seq<u8>) -> Seq<Frame> {
    frames.map_values(|f: Frame| Frame { stream: id, ..f })
}

proof fn lemma_patch_front(a: Seq<u8>, b: Seq<u8>, offs: Seq<u32>, id: Seq<u8>)
    requires
        id.len() == 4,
        forall|i: int| 0 <= i < offs.len() ==> #[trigger] offs[i] + 4 <= a.len(),
    ensures
        patch(a, offs, id).len() == a.len(),
        patch(a + b, offs, id) == patch(a, offs, id) + b,
    decreases offs.len(),
{
    if offs.len() > 0 {
        let front = offs.drop_last();
        assert(forall|i: int| 0 <= i < front.len() ==> #[trigger] front[i] == offs[i]);
        lemma_patch_front(a, b, front, id);
        let p = patch(a, front, id);
        assert(put(p + b, offs.last() as int, id) =~= put(p, offs.last() as int, id) + b);
    }
}

proof fn lemma_patch_frame(front: Seq<u8>, f: Frame, id: Seq<u8>)
    requires
        f.stream.len() == 4,
        id.len() == 4,
    ensures
        put(front + f.bytes(), (front.len() + 5) as int, id) == front + (Frame { stream: id, ..f }).bytes(),
{
    assert(put(front + f.bytes(), (front.len() + 5) as int, id) =~= front + (Frame {
        stream: id,
        ..f
    }).bytes());
}

proof fn lemma_concat_take(frames: Seq<Frame>, i: int, j: int)
    requires
        0 <= i <= j <= frames.len(),
    ensures
        frame::concat(frames.take(i)).len() <= frame::concat(frames.take(j)).len(),
    decreases j - i,
{
    if i < j {
        lemma_concat_take(frames, i, j - 1);
        assert(frames.take(j) =~= frames.take(j - 1).push(frames[j - 1]));
        frame::lemma_concat_push(frames.take(j - 1), frames[j - 1]);
    }
}

proof fn lemma_offset(frames: Seq<Frame>, i: int)
    requires
        0 <= i < frames.len(),
        frames[i].stream.len() == 4,
    ensures
        fast_path::stream_id_offset(frames, i) + 4 <= frame::concat(frames).len(),
{
    assert(frames.take(i + 1) =~= frames.take(i).push(frames[i]));
    frame::lemma_concat_push(frames.take(i), frames[i]);
    lemma_concat_take(frames, i + 1, frames.len() as int);
    assert(frames.take(frames.len() as int) =~= frames);
}

/// The spots of the stream ids are exact as long as a response is short of 4GiB.
pub proof fn law_offsets_exact(frames: Seq<Frame>, i: int)
    requires
        0 <= i < frames.len(),
        frames[i].stream.len() == 4,
        frame::concat(frames).len() <= u32::MAX,
    ensures
        fast_path::stream_id_offsets(frames)[i] == fast_path::stream_id_offset(frames, i),
{
    lemma_offset(frames, i);
}

/// Patching a stream id into a response at the spots that come with it puts
/// every one of its frames on that stream, and changes nothing else.
pub proof fn law_patch(frames: Seq<Frame>, id: Seq<u8>)
    requires
        forall|i: int| 0 <= i < frames.len() ==> (#[trigger] frames[i]).stream.len() == 4,
        id.len() == 4,
        frame::concat(frames).len() <= u32::MAX,
    ensures
        patch(frame::concat(frames), fast_path::stream_id_offsets(frames), id) == frame::concat(
            on_stream(frames, id),
        ),
    decreases frames.len(),
{
    let offs = fast_path::stream_id_offsets(frames);
    if frames.len() == 0 {
        assert(on_stream(frames, id) =~= frames);
    } else {
        let front = frames.drop_last();
        let f = frames.last();
        let bytes = frame::concat(front);
        assert(front.push(f) =~= frames);
        assert forall|i: int| 0 <= i < front.len() implies offs[i]
            == #[trigger] fast_path::stream_id_offsets(front)[i] && offs[i] + 4 <= bytes.len() by {
            assert(front.take(i) =~= frames.take(i));
            assert(front[i] == frames[i]);
            lemma_offset(front, i);
        }
        assert(offs.drop_last() =~= fast_path::stream_id_offsets(front));
        assert(frames.take(front.len() as int) =~= front);
        law_offsets_exact(frames, front.len() as int);
        assert(forall|i: int| 0 <= i < front.len() ==> #[trigger] front[i] == frames[i]);
        law_patch(front, id);
        lemma_patch_front(bytes, f.bytes(), offs.drop_last(), id);
        lemma_patch_frame(patch(bytes, offs.drop_last(), id), f, id);
        assert(on_stream(frames, id) =~= on_stream(front, id).push(Frame { stream: id, ..f }));
        frame::lemma_concat_push(on_stream(front, id), Frame { stream: id, ..f });
    }
}

/// The payloads of `frames`, one after the other.
pub open spec fn payloads(frames: Seq<Frame>) -> Seq<u8>
    decreases frames.len(),
{
    if frames.len() == 0 {
        Seq::empty()
    } else {
        payloads(frames.drop_last()) + frames.last().payload
    }
}

proof fn lemma_chunks(body: Seq<u8>, n: nat)
    requires
        n <= fast_path::chunk_count(body.len()),
    ensures
        ({
            let end = n * MAX_FRAME_SIZE;
            payloads(Seq::new(n, |i: int| fast_path::data_frame(body, i))) == body.take(
                if end < body.len() {
                    end
                } else {
                    body.len() as int
                },
            )
        }),
    decreases n,
{
    let frames = Seq::new(n, |i: int| fast_path::data_frame(body, i));
    if n == 0 {
        assert(body.take(0) =~= payloads(frames));
    } else {
        let before = (n - 1) as nat;
        lemma_chunks(body, before);
        assert(frames.drop_last() =~= Seq::new(
            before,
            |i: int| fast_path::data_frame(body, i),
        ));
        let end = n * MAX_FRAME_SIZE;
        assert(payloads(frames) =~= body.take(
            if end < body.len() {
                end
            } else {
                body.len() as int
            },
        ));
    }
}

/// The DATA frames of a response carry its body, none of them more than a peer
/// has to accept, and the last one alone ends the stream.
pub proof fn law_data_frames(file: Seq<u8>, body: Seq<u8>)
    ensures
        ({
            let data = fast_path::h2_frames(file, body).skip(1);
            &&& data.len() > 0
            &&& payloads(data) == body
            &&& forall|i: int|
                0 <= i < data.len() ==> {
                    &&& (#[trigger] data[i]).kind == DATA
                    &&& data[i].payload.len() <= MAX_FRAME_SIZE
                    &&& data[i].flags == if i == data.len() - 1 {
                        END_STREAM
                    } else {
                        0
                    }
                }
        }),
{
    let n = fast_path::chunk_count(body.len());
    let data = fast_path::h2_frames(file, body).skip(1);
    assert(data =~= Seq::new(n, |i: int| fast_path::data_frame(body, i)));
    lemma_chunks(body, n);
    assert(body.take(body.len() as int) =~= body);
}

/// What a decoder makes of the bytes behind a full prefix: what is left of the
/// integer, and the bytes behind it.
pub open spec fn hpack_read_rest(bytes: Seq<u8>) -> Option<(int, Seq<u8>)>
    decreases bytes.len(),
{
    if bytes.len() == 0 {
        None
    } else if bytes[0] < 128 {
        Some((bytes[0] as int, bytes.skip(1)))
    } else {
        match hpack_read_rest(bytes.skip(1)) {
            Some((high, rest)) => Some((bytes[0] - 128 + 128 * high, rest)),
            None => None,
        }
    }
}

/// What a decoder makes of a string that is not Huffman coded and that nothing is
/// behind.
pub open spec fn hpack_read_string(bytes: Seq<u8>) -> Option<Seq<u8>> {
    if bytes.len() == 0 || bytes[0] >= 128 {
        None
    } else {
        let length = if bytes[0] < 127 {
            Some((bytes[0] as int, bytes.skip(1)))
        } else {
            match hpack_read_rest(bytes.skip(1)) {
                Some((n, rest)) => Some((127 + n, rest)),
                None => None,
            }
        };
        match length {
            Some((len, value)) => if len == value.len() {
                Some(value)
            } else {
                None
            },
            None => None,
        }
    }
}

/// What a decoder makes of a header field that it takes for an HPACK literal
/// without indexing, with a name index past what fits the prefix and a value that
/// is not Huffman coded.
pub open spec fn hpack_decode(field: Seq<u8>) -> Option<(int, Seq<u8>)> {
    if field.len() == 0 || field[0] != 0x0F {
        None
    } else {
        match hpack_read_rest(field.skip(1)) {
            Some((n, rest)) => match hpack_read_string(rest) {
                Some(value) => Some((15 + n, value)),
                None => None,
            },
            None => None,
        }
    }
}

proof fn lemma_read_rest(n: nat, behind: Seq<u8>)
    ensures
        hpack_read_rest(fast_path::hpack_rest(n) + behind) == Some((n as int, behind)),
    decreases n,
{
    let bytes = fast_path::hpack_rest(n) + behind;
    if n < 128 {
        assert(bytes.skip(1) =~= behind);
    } else {
        lemma_read_rest(n / 128, behind);
        assert(bytes.skip(1) =~= fast_path::hpack_rest(n / 128) + behind);
    }
}

/// A decoder reads back the header that was encoded, whatever its name's index and
/// however long its value.
pub proof fn law_hpack_literal(name_idx: int, value: Seq<u8>)
    requires
        name_idx >= 15,
    ensures
        hpack_decode(fast_path::hpack_field(name_idx, value)) == Some((name_idx, value)),
{
    let field = fast_path::hpack_field(name_idx, value);
    let string = fast_path::hpack_length(value.len()) + value;
    assert(field.skip(1) =~= fast_path::hpack_rest((name_idx - 15) as nat) + string);
    lemma_read_rest((name_idx - 15) as nat, string);
    if value.len() < 127 {
        assert(string.skip(1) =~= value);
    } else {
        let left = (value.len() - 127) as nat;
        assert(string.skip(1) =~= fast_path::hpack_rest(left) + value);
        lemma_read_rest(left, value);
    }
}

/// The HTTP/2 rendering of a response carries the same headers as the HTTP/1.1
/// one: behind the status 200, a decoder reads back the body's length (28 is the
/// static table's `content-length`) and its type (31 is `content-type`).
pub proof fn law_h2_headers(file: Seq<u8>, len: nat)
    ensures
        ({
            let block = fast_path::h2_headers(file, len);
            let length = fast_path::utf8(wire::decimal(len));
            let kind = fast_path::utf8(fast_path::content_type_of(file));
            let split = 1 + fast_path::hpack_field(28, length).len();
            &&& block[0] == 0x88
            &&& hpack_decode(block.subrange(1, split as int)) == Some((28int, length))
            &&& hpack_decode(block.skip(split as int)) == Some((31int, kind))
        }),
{
    let block = fast_path::h2_headers(file, len);
    let length = fast_path::utf8(wire::decimal(len));
    let kind = fast_path::utf8(fast_path::content_type_of(file));
    let split = 1 + fast_path::hpack_field(28, length).len();
    law_hpack_literal(28, length);
    law_hpack_literal(31, kind);
    assert(block.subrange(1, split as int) =~= fast_path::hpack_field(28, length));
    assert(block.skip(split as int) =~= fast_path::hpack_field(31, kind));
}

/// A response opens with one HEADERS frame, which ends its header block and nothing
/// else, and goes on with DATA frames alone. Of all its frames, the last one alone ends
/// the stream, and none of them is on a stream yet.
pub proof fn law_h2_frames(file: Seq<u8>, body: Seq<u8>, i: int)
    requires
        0 <= i < fast_path::h2_frames(file, body).len(),
    ensures
        ({
            let frames = fast_path::h2_frames(file, body);
            &&& frames.len() >= 2
            &&& frames[0].kind == 1
            &&& frames[0].flags == 4
            &&& frames[0].payload == fast_path::h2_headers(file, body.len())
            &&& i > 0 ==> frames[i].kind == 0
            &&& i > 0 ==> frames[i].flags == if i == frames.len() - 1 {
                1u8
            } else {
                0u8
            }
            &&& frames[i].stream == seq![0u8, 0, 0, 0]
        }),
{
}

/// A body takes no more DATA frames than it has to: all of them but the last carry as
/// much as they may, and the last one carries something, unless there is nothing to
/// carry.
pub proof fn law_full_frames(file: Seq<u8>, body: Seq<u8>, i: int)
    requires
        1 <= i < fast_path::h2_frames(file, body).len(),
    ensures
        ({
            let frames = fast_path::h2_frames(file, body);
            &&& i < frames.len() - 1 ==> frames[i].payload.len() == 16384
            &&& frames[i].payload.len() <= 16384
            &&& frames[i].payload.len() == 0 ==> body.len() == 0 && frames.len() == 2
            &&& body.len() == 0 ==> frames.len() == 2
        }),
{
    let n = fast_path::chunk_count(body.len()) as int;
    let k = i - 1;
    assert(fast_path::h2_frames(file, body)[i] == fast_path::data_frame(body, k));
    if body.len() > 0 {
        assert((n - 1) * MAX_FRAME_SIZE < body.len() <= n * MAX_FRAME_SIZE);
    }
}

/// What is flow controlled of a response is what its DATA frames carry, and that is its
/// body.
pub proof fn law_flow_controlled(file: Seq<u8>, body: Seq<u8>)
    ensures
        payloads(fast_path::h2_frames(file, body).skip(1)).len() == body.len(),
{
    law_data_frames(file, body);
}

/// The frames of a response are all that there is to it on the wire, and they can be
/// told apart there: each is as long as its length says.
pub proof fn law_h2_wire(file: Seq<u8>, body: Seq<u8>, i: int)
    requires
        0 <= i < fast_path::h2_frames(file, body).len(),
        fast_path::h2_headers(file, body.len()).len() < 0x100_0000,
    ensures
        ({
            let frames = fast_path::h2_frames(file, body);
            let bytes = frame::concat(frames);
            let at = frame::concat(frames.take(i)).len() as int;
            let len = frames[i].payload.len();
            &&& at + 9 + len <= bytes.len()
            &&& bytes[at] * 0x1_0000 + bytes[at + 1] * 0x100 + bytes[at + 2] == len
            &&& bytes[at + 3] == frames[i].kind
            &&& bytes[at + 4] == frames[i].flags
            &&& bytes.subrange(at + 5, at + 9) == frames[i].stream
            &&& bytes.subrange(at + 9, at + 9 + len) == frames[i].payload
            &&& fast_path::stream_id_offset(frames, i) == at + 5
        }),
{
    let frames = fast_path::h2_frames(file, body);
    let f = frames[i];
    let front = frames.take(i);
    let rest = frames.skip(i + 1);
    let at = frame::concat(front).len() as int;
    law_h2_frames(file, body, i);
    if i > 0 {
        law_full_frames(file, body, i);
    }
    assert(frames =~= front + (seq![f] + rest));
    frame::law_concat(front, seq![f] + rest, f);
    frame::law_concat(seq![f], rest, f);
    frame::law_frame_layout(f);
    let bytes = frame::concat(frames);
    let b = f.bytes();
    assert(bytes =~= frame::concat(front) + (b + frame::concat(rest)));
    assert(forall|k: int| 0 <= k < b.len() ==> bytes[at + k] == #[trigger] b[k]);
    assert(bytes[at + 0] == b[0]);
    assert(bytes.subrange(at + 5, at + 9) =~= b.subrange(5, 9));
    assert(bytes.subrange(at + 9, at + 9 + f.payload.len()) =~= b.skip(9));
}

/// The bytes of a text are those that it is decoded from, and one for each character as
/// long as they are all ASCII.
pub proof fn law_utf8(text: Seq<char>)
    ensures
        vstd::utf8::decode_utf8(fast_path::utf8(text)) == text,
        vstd::utf8::is_ascii_chars(text) ==> fast_path::utf8(text) == Seq::new(
            text.len(),
            |i: int| text[i] as u8,
        ),
{
    vstd::utf8::encode_utf8_decode_utf8(text);
    if vstd::utf8::is_ascii_chars(text) {
        vstd::utf8::is_ascii_chars_encode_utf8(text);
        assert(fast_path::utf8(text) =~= Seq::new(text.len(), |i: int| text[i] as u8));
    }
}

proof fn lemma_extensions()
    ensures
        fast_path::utf8("html"@) == seq![104u8, 116, 109, 108],
        fast_path::utf8("js"@) == seq![106u8, 115],
        fast_path::utf8("css"@) == seq![99u8, 115, 115],
        fast_path::utf8("json"@) == seq![106u8, 115, 111, 110],
{
    reveal_strlit("html");
    reveal_strlit("js");
    reveal_strlit("css");
    reveal_strlit("json");
    law_utf8("html"@);
    law_utf8("js"@);
    law_utf8("css"@);
    law_utf8("json"@);
    assert(fast_path::utf8("html"@) =~= seq![104u8, 116, 109, 108]);
    assert(fast_path::utf8("js"@) =~= seq![106u8, 115]);
    assert(fast_path::utf8("css"@) =~= seq![99u8, 115, 115]);
    assert(fast_path::utf8("json"@) =~= seq![106u8, 115, 111, 110]);
}

/// A file is served as what the last part of its name says, wherever it is: `html`,
/// `js`, `css` and `json` are known, and everything else is a stream of bytes.
pub proof fn law_content_type(dir: Seq<u8>, stem: Seq<u8>, ext: Seq<u8>)
    requires
        path::is_dir(dir),
        stem.len() > 0,
        path::without(stem, 47),
        path::without(ext, 47),
        path::without(ext, 46),
        ext.len() > 0 || stem != seq![46u8],
    ensures
        ({
            let kind = fast_path::content_type_of(dir + stem.push(46) + ext);
            &&& ext == seq![104u8, 116, 109, 108] ==> kind == "text/html; charset=utf-8"@
            &&& ext == seq![106u8, 115] ==> kind == "application/javascript"@
            &&& ext == seq![99u8, 115, 115] ==> kind == "text/css"@
            &&& ext == seq![106u8, 115, 111, 110] ==> kind == "application/json"@
            &&& ext != seq![104u8, 116, 109, 108] && ext != seq![106u8, 115] && ext != seq![
                99u8,
                115,
                115,
            ] && ext != seq![106u8, 115, 111, 110] ==> kind == "application/octet-stream"@
        }),
{
    path::law_extension(dir, stem, ext);
    lemma_extensions();
    assert(seq![104u8, 116, 109, 108].len() == 4);
    assert(seq![106u8, 115].len() == 2);
    assert(seq![99u8, 115, 115].len() == 3);
    assert(seq![106u8, 115, 111, 110][0] == 106);
    assert(seq![104u8, 116, 109, 108][0] == 104);
}

/// A file without an extension is served as a stream of bytes.
pub proof fn law_no_content_type(file: Seq<u8>)
    requires
        path::extension(file) is None,
    ensures
        fast_path::content_type_of(file) == "application/octet-stream"@,
{
}

/// Where the line that `i` is in ends, or the text does.
pub open spec fn line_end(text: Seq<char>, i: int) -> int
    decreases text.len() - i,
{
    if i + 1 >= text.len() {
        text.len() as int
    } else if text[i] == '\r' && text[i + 1] == '\n' {
        i
    } else {
        line_end(text, i + 1)
    }
}

/// The lines of a text, which are ended by a carriage return and a line feed.
pub open spec fn lines(text: Seq<char>) -> Seq<Seq<char>>
    decreases text.len(),
    via lines_decrease
{
    let end = line_end(text, 0);
    if end >= text.len() {
        seq![text]
    } else {
        seq![text.take(end)] + lines(text.skip(end + 2))
    }
}

#[via_fn]
proof fn lines_decrease(text: Seq<char>) {
    lemma_line_end(text, 0);
}

proof fn lemma_line_end(text: Seq<char>, i: int)
    requires
        0 <= i,
    ensures
        line_end(text, i) < text.len() ==> line_end(text, i) + 1 < text.len(),
        i <= text.len() ==> 0 <= line_end(text, i),
    decreases text.len() - i,
{
    if i + 1 < text.len() && !(text[i] == '\r' && text[i + 1] == '\n') {
        lemma_line_end(text, i + 1);
    }
}

/// Whether a text is all on one line.
pub open spec fn one_line(text: Seq<char>) -> bool {
    forall|i: int| 0 <= i < text.len() ==> #[trigger] text[i] != '\r'
}

proof fn lemma_end_of(line: Seq<char>, rest: Seq<char>, i: int)
    requires
        one_line(line),
        0 <= i <= line.len(),
    ensures
        line_end(line + seq!['\r', '\n'] + rest, i) == line.len(),
    decreases line.len() - i,
{
    let text = line + seq!['\r', '\n'] + rest;
    if i < line.len() {
        assert(text[i] == line[i]);
        lemma_end_of(line, rest, i + 1);
    } else {
        assert(text[i] == '\r' && text[i + 1] == '\n');
    }
}

proof fn lemma_lines(line: Seq<char>, rest: Seq<char>)
    requires
        one_line(line),
    ensures
        lines(line + seq!['\r', '\n'] + rest) == seq![line] + lines(rest),
{
    let text = line + seq!['\r', '\n'] + rest;
    lemma_end_of(line, rest, 0);
    assert(text.take(line.len() as int) =~= line);
    assert(text.skip(line.len() as int + 2) =~= rest);
}

proof fn lemma_content_type(file: Seq<u8>)
    ensures
        one_line(fast_path::content_type_of(file)),
        vstd::utf8::is_ascii_chars(fast_path::content_type_of(file)),
{
    reveal_strlit("text/html; charset=utf-8");
    reveal_strlit("application/javascript");
    reveal_strlit("text/css");
    reveal_strlit("application/json");
    reveal_strlit("application/octet-stream");
}

proof fn lemma_head(file: Seq<u8>, len: nat)
    ensures
        ({
            let end = seq!['\r', '\n'];
            fast_path::response_head(file, len) == "HTTP/1.1 200 OK"@ + end + (
            "Content-Length: "@ + wire::decimal(len) + end + ("Content-Type: "@
                + fast_path::content_type_of(file) + end + ("Connection: keep-alive"@ + end + (
            Seq::<char>::empty() + end + Seq::<char>::empty()))))
        }),
        one_line("HTTP/1.1 200 OK"@),
        one_line("Content-Length: "@ + wire::decimal(len)),
        one_line("Content-Type: "@ + fast_path::content_type_of(file)),
        one_line("Connection: keep-alive"@),
        vstd::utf8::is_ascii_chars(fast_path::response_head(file, len)),
{
    let end = seq!['\r', '\n'];
    reveal_strlit("HTTP/1.1 200 OK\r\nContent-Length: ");
    reveal_strlit("\r\nContent-Type: ");
    reveal_strlit("\r\nConnection: keep-alive\r\n\r\n");
    reveal_strlit("HTTP/1.1 200 OK");
    reveal_strlit("Content-Length: ");
    reveal_strlit("Content-Type: ");
    reveal_strlit("Connection: keep-alive");
    wire::law_decimal(len);
    lemma_content_type(file);
    assert("HTTP/1.1 200 OK\r\nContent-Length: "@ =~= "HTTP/1.1 200 OK"@ + end
        + "Content-Length: "@);
    assert("\r\nContent-Type: "@ =~= end + "Content-Type: "@);
    assert("\r\nConnection: keep-alive\r\n\r\n"@ =~= end + "Connection: keep-alive"@ + end + end);
    assert(fast_path::response_head(file, len) =~= "HTTP/1.1 200 OK"@ + end + (
    "Content-Length: "@ + wire::decimal(len) + end + ("Content-Type: "@
        + fast_path::content_type_of(file) + end + ("Connection: keep-alive"@ + end + (
    Seq::<char>::empty() + end + Seq::<char>::empty())))));
}

/// The head of an HTTP/1.1 response is made of its status, the three headers and an
/// empty line, and nothing else.
pub proof fn law_response_head(file: Seq<u8>, len: nat)
    ensures
        lines(fast_path::response_head(file, len)) == seq![
            "HTTP/1.1 200 OK"@,
            "Content-Length: "@ + wire::decimal(len),
            "Content-Type: "@ + fast_path::content_type_of(file),
            "Connection: keep-alive"@,
            Seq::<char>::empty(),
            Seq::<char>::empty(),
        ],
{
    let end = seq!['\r', '\n'];
    let none = Seq::<char>::empty();
    let status = "HTTP/1.1 200 OK"@;
    let length = "Content-Length: "@ + wire::decimal(len);
    let kind = "Content-Type: "@ + fast_path::content_type_of(file);
    let keep = "Connection: keep-alive"@;
    lemma_head(file, len);
    lemma_lines(none, none);
    lemma_lines(keep, none + end + none);
    lemma_lines(kind, keep + end + (none + end + none));
    lemma_lines(length, kind + end + (keep + end + (none + end + none)));
    lemma_lines(
        status,
        length + end + (kind + end + (keep + end + (none + end + none))),
    );
    assert(line_end(none, 0) >= none.len());
    assert(lines(none) == seq![none]);
    assert(lines(fast_path::response_head(file, len)) =~= seq![
        status,
        length,
        kind,
        keep,
        none,
        none,
    ]);
}

/// An HTTP/1.1 response is its head, a byte for each character of it, and the body, all
/// of it and nothing behind it.
pub proof fn law_response(file: Seq<u8>, body: Seq<u8>)
    ensures
        ({
            let head = fast_path::response_head(file, body.len());
            let resp = fast_path::response(file, body);
            &&& resp.len() == head.len() + body.len()
            &&& forall|i: int| 0 <= i < head.len() ==> #[trigger] resp[i] == head[i] as u8
            &&& resp.skip(head.len() as int) == body
        }),
{
    let head = fast_path::response_head(file, body.len());
    lemma_head(file, body.len());
    law_utf8(head);
    assert(fast_path::response(file, body).skip(head.len() as int) =~= body);
}

/// A name that fits a byte behind the prefix takes one, and so does a length below 127.
/// An integer never takes more bytes than it has to.
pub proof fn law_hpack_short(n: nat)
    ensures
        n < 128 ==> fast_path::hpack_rest(n) == seq![n as u8],
        n < 127 ==> fast_path::hpack_length(n) == seq![n as u8],
        fast_path::hpack_rest(n).len() > 1 ==> fast_path::hpack_rest(n).last() != 0,
    decreases n,
{
    if n >= 128 {
        law_hpack_short(n / 128);
        if n / 128 < 128 {
            assert(fast_path::hpack_rest(n).last() == (n / 128) as u8);
        } else {
            assert(fast_path::hpack_rest(n).last() == fast_path::hpack_rest(n / 128).last());
        }
    }
}

} // verus!
