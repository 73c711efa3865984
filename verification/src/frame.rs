//! HTTP/2 frames.

use vstd::prelude::*;

use crate::wire;

verus! {

/// The frame type of a DATA frame.
pub const DATA: u8 = 0x00;

/// The frame type of a HEADERS frame.
pub const HEADERS: u8 = 0x01;

/// The flag that ends a stream.
pub const END_STREAM: u8 = 0x01;

/// The flag that ends a header block.
pub const END_HEADERS: u8 = 0x04;

/// An HTTP/2 frame.
#[verifier::ext_equal]
pub struct Frame {
    pub kind: u8,
    pub flags: u8,
    /// The four bytes of the stream id.
    pub stream: Seq<u8>,
    pub payload: Seq<u8>,
}

impl Frame {
    /// The frame's header. Its length field holds the low 24 bits of the
    /// payload's length.
    pub open spec fn header(self) -> Seq<u8> {
        wire::be24_bytes(self.payload.len() as int) + seq![self.kind, self.flags] + self.stream
    }

    /// The frame as it is put on the wire.
    pub open spec fn bytes(self) -> Seq<u8> {
        self.header() + self.payload
    }
}

/// Frames as they are put on the wire, one after the other.
pub open spec fn concat(frames: Seq<Frame>) -> Seq<u8>
    decreases frames.len(),
{
    if frames.len() == 0 {
        Seq::empty()
    } else {
        concat(frames.drop_last()) + frames.last().bytes()
    }
}

/// A length that fits its field can be read back.
pub proof fn lemma_header(f: Frame)
    requires
        f.stream.len() == 4,
        f.payload.len() < 0x100_0000,
    ensures
        f.header().len() == 9,
        wire::be24_value(f.header()) == f.payload.len(),
        f.header()[3] == f.kind,
        f.header()[4] == f.flags,
        f.header().skip(5) == f.stream,
{
    assert(f.header().skip(5) =~= f.stream);
}

/// One more frame is put on the wire behind the others.
pub proof fn lemma_concat_push(frames: Seq<Frame>, f: Frame)
    ensures
        concat(frames.push(f)) == concat(frames) + f.bytes(),
{
    assert(frames.push(f).drop_last() =~= frames);
}

/// A frame is a length of three bytes, the high one first, its kind, its flags, the
/// stream it is on and its payload, with nothing else in between or behind.
pub proof fn law_frame_layout(f: Frame)
    requires
        f.stream.len() == 4,
        f.payload.len() < 0x100_0000,
    ensures
        ({
            let b = f.bytes();
            &&& b.len() == 9 + f.payload.len()
            &&& b[0] * 0x1_0000 + b[1] * 0x100 + b[2] == f.payload.len()
            &&& b[3] == f.kind
            &&& b[4] == f.flags
            &&& b.subrange(5, 9) == f.stream
            &&& b.skip(9) == f.payload
        }),
{
    wire::law_be24(f.payload.len() as int);
    assert(f.bytes().subrange(5, 9) =~= f.stream);
    assert(f.bytes().skip(9) =~= f.payload);
}

/// Frames go on the wire in order and without gaps: those of two runs follow each
/// other as the runs do, and one alone is its own bytes.
pub proof fn law_concat(a: Seq<Frame>, b: Seq<Frame>, f: Frame)
    ensures
        concat(a + b) == concat(a) + concat(b),
        concat(seq![f]) == f.bytes(),
    decreases b.len(),
{
    assert(seq![f].drop_last() =~= Seq::<Frame>::empty());
    assert(concat(seq![f].drop_last()) =~= Seq::<u8>::empty());
    assert(concat(seq![f]) =~= f.bytes());
    if b.len() == 0 {
        assert(a + b =~= a);
        assert(concat(a) + concat(b) =~= concat(a));
    } else {
        assert((a + b).drop_last() =~= a + b.drop_last());
        law_concat(a, b.drop_last(), f);
        assert(concat(a + b) =~= concat(a) + concat(b));
    }
}

/// The kinds of the frames of a response, and the flags on them, are those of HTTP/2.
pub proof fn law_frame_kinds()
    ensures
        DATA == 0,
        HEADERS == 1,
        END_STREAM == 1,
        END_HEADERS == 4,
{
}

} // verus!
