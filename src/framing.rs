//! Envelopes around canonical encodings: the magic-and-version frame, and
//! length-prefixed frames for streams.
use vstd::prelude::*;
use vstd::slice::slice_subrange;
use crate::canonical::{lemma_error_offset, lemma_round_trip};
use crate::decode::{decode, decode_spec, derr};
use crate::encode::{enc, encode_value};
use crate::error::{DecodeError, DecodeErrorKind};
use crate::value::{Value, ValueModel};

verus! {

pub const STRATA_VERSION: u8 = 0x01;

/// Largest payload of a stream frame: 16 MiB.
pub const MAX_FRAME_BYTES: usize = 16777216;

/// The frame header: the ASCII magic "STRATA1" and the version byte.
pub open spec fn frame_header() -> Seq<u8> {
    seq![0x53u8, 0x54, 0x52, 0x41, 0x54, 0x41, 0x31, STRATA_VERSION]
}

/// A value in its framed form: header, then canonical encoding.
pub fn encode_framed(value: &Value) -> (r: Vec<u8>)
    ensures
        r@ == frame_header() + enc(value@),
{
    let mut out: Vec<u8> = Vec::new();
    out.push(0x53);
    out.push(0x54);
    out.push(0x52);
    out.push(0x41);
    out.push(0x54);
    out.push(0x41);
    out.push(0x31);
    out.push(STRATA_VERSION);
    let mut body = encode_value(value);
    let ghost head = out@;
    out.append(&mut body);
    assert(head =~= frame_header());
    out
}

/// The frame header checked from position `i` on: the first byte that
/// differs from the header is rejected as a tag, and input that ends
/// inside the header is cut short.
pub open spec fn header_check(b: Seq<u8>, i: int) -> Result<(), DecodeError>
    decreases 8 - i,
{
    if i < 0 || i >= 8 {
        Ok(())
    } else if i >= b.len() {
        Err(derr(DecodeErrorKind::UnexpectedEOF, b.len() as int))
    } else if b[i] != frame_header()[i] {
        Err(derr(DecodeErrorKind::InvalidTag(b[i]), i + 1))
    } else {
        header_check(b, i + 1)
    }
}

/// What a framed input decodes to: after the header, one value that takes
/// up the rest, with error offsets counted from the start of the frame.
pub open spec fn framed_spec(b: Seq<u8>) -> Result<ValueModel, DecodeError> {
    match header_check(b, 0) {
        Err(e) => Err(e),
        Ok(_) => match decode_spec(b.subrange(8, b.len() as int), true) {
            Ok(v) => Ok(v),
            Err(e) => Err(DecodeError { kind: e.kind, offset: (e.offset + 8) as usize }),
        },
    }
}

/// Decodes a framed value: the magic and the version are checked before
/// the payload is decoded.
pub fn decode_framed(input: &[u8]) -> (r: Result<Value, DecodeError>)
    ensures
        match framed_spec(input@) {
            Ok(v) => r matches Ok(w) && w@ == v,
            Err(e) => r == Err::<Value, DecodeError>(e),
        },
{
    let header: [u8; 8] = [0x53, 0x54, 0x52, 0x41, 0x54, 0x41, 0x31, STRATA_VERSION];
    assert(header@ =~= frame_header());
    let mut i: usize = 0;
    while i < 8
        invariant
            0 <= i <= 8,
            i <= input@.len(),
            header@ == frame_header(),
            header_check(input@, 0) == header_check(input@, i as int),
        decreases 8 - i,
    {
        if i >= input.len() {
            return Err(DecodeError { kind: DecodeErrorKind::UnexpectedEOF, offset: input.len() });
        }
        assert(i < input@.len());
        if input[i] != header[i] {
            return Err(DecodeError { kind: DecodeErrorKind::InvalidTag(input[i]), offset: i + 1 });
        }
        i = i + 1;
    }
    let n = input.len();
    let payload = slice_subrange(input, 8, n);
    proof {
        lemma_error_offset(payload@);
    }
    match decode(payload) {
        Ok(v) => Ok(v),
        Err(e) => Err(DecodeError { kind: e.kind, offset: e.offset + 8 }),
    }
}

/// Decoding a framed encoding of a well-formed value gives the value back.
pub proof fn lemma_framed_round_trip(v: ValueModel)
    requires
        v.wf(),
        enc(v).len() <= usize::MAX,
    ensures
        framed_spec(frame_header() + enc(v)) == Ok::<ValueModel, DecodeError>(v),
{
    let b = frame_header() + enc(v);
    assert(b.subrange(0, 8) =~= frame_header());
    assert forall|i: int| 0 <= i <= 8 implies header_check(b, i) == Ok::<(), DecodeError>(()) by {
        lemma_header_ok(b, i);
    }
    assert(b.subrange(8, b.len() as int) =~= enc(v));
    lemma_round_trip(v);
}

proof fn lemma_header_ok(b: Seq<u8>, i: int)
    requires
        0 <= i <= 8,
        b.len() >= 8,
        b.subrange(0, 8) == frame_header(),
    ensures
        header_check(b, i) == Ok::<(), DecodeError>(()),
    decreases 8 - i,
{
    if i < 8 {
        assert(b[i] == b.subrange(0, 8)[i]);
        lemma_header_ok(b, i + 1);
    }
}

/// The big-endian bytes of a 32-bit length.
pub open spec fn be32(n: nat) -> Seq<u8> {
    seq![
        (n / 0x100_0000 % 0x100) as u8,
        (n / 0x1_0000 % 0x100) as u8,
        (n / 0x100 % 0x100) as u8,
        (n % 0x100) as u8,
    ]
}

/// Appends one stream frame: the payload's length as a big-endian 32-bit
/// number, then the payload. Empty payloads and payloads over 16 MiB are
/// not valid frames.
pub fn write_frame(buf: &mut Vec<u8>, payload: &[u8])
    requires
        0 < payload@.len() <= MAX_FRAME_BYTES,
    ensures
        final(buf)@ == old(buf)@ + be32(payload@.len()) + payload@,
{
    let len = payload.len();
    buf.push((len / 0x100_0000 % 0x100) as u8);
    buf.push((len / 0x1_0000 % 0x100) as u8);
    buf.push((len / 0x100 % 0x100) as u8);
    buf.push((len % 0x100) as u8);
    buf.extend_from_slice(payload);
    assert(buf@ =~= old(buf)@ + be32(payload@.len()) + payload@);
}

} // verus!
