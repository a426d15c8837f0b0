//! The strict single-pass decoder, and the byte-level rules it follows.
use vstd::prelude::*;
use vstd::slice::{slice_subrange, slice_to_vec};
use vstd::utf8::{decode_utf8, encode_utf8, valid_utf8};
use crate::encode::{TAG_BYTES, TAG_FALSE, TAG_INT, TAG_LIST, TAG_MAP, TAG_NULL, TAG_STRING, TAG_TRUE};
use crate::error::{DecodeError, DecodeErrorKind};
use crate::value::{key_lt, map_insert, Value, ValueMap, ValueModel};
use crate::order::bytes_lt;
use crate::varint::{encode_sleb128, encode_uleb128, sleb, uleb};

verus! {

/// `core::str::Utf8Error`, the error of `from_utf8`, carried opaquely.
#[verifier::external_type_specification]
#[verifier::external_body]
pub struct ExUtf8Error(core::str::Utf8Error);

/// Relies on `core::str::from_utf8`: it accepts exactly the valid UTF-8
/// byte strings and returns the text they encode.
pub assume_specification[ core::str::from_utf8 ](v: &[u8]) -> (r: Result<
    &str,
    core::str::Utf8Error,
>)
    ensures
        r is Ok <==> valid_utf8(v@),
        r matches Ok(s) ==> s@ == decode_utf8(v@),
;

pub open spec fn derr(kind: DecodeErrorKind, offset: int) -> DecodeError {
    DecodeError { kind, offset: offset as usize }
}

/// The seven-bit groups of an unsigned varint from position `q` on, where
/// `k` groups came before: their value (before reduction to 64 bits) and
/// how many bytes they take. A tenth group that is not the last is
/// rejected.
pub open spec fn uleb_groups(b: Seq<u8>, q: int, k: nat) -> Result<(nat, nat), DecodeError>
    decreases 9 - k,
{
    if q < 0 || q >= b.len() {
        Err(derr(DecodeErrorKind::UnexpectedEOF, q))
    } else if b[q] < 128 {
        Ok((b[q] as nat, 1))
    } else if k >= 9 {
        Err(derr(DecodeErrorKind::InvalidVarint, q + 1))
    } else {
        match uleb_groups(b, q + 1, k + 1) {
            Ok((v, c)) => Ok((((b[q] - 128) + 128 * v) as nat, c + 1)),
            Err(e) => Err(e),
        }
    }
}

/// The sign-extended value of the last group of a signed varint, `k`
/// groups in. In the tenth group only the lowest bit is left in 64 bits.
pub open spec fn sext(byte: u8, k: nat) -> int {
    if k >= 9 {
        -(byte % 2)
    } else if byte >= 64 {
        byte - 128
    } else {
        byte as int
    }
}

/// As `uleb_groups`, for a signed varint.
pub open spec fn sleb_groups(b: Seq<u8>, q: int, k: nat) -> Result<(int, nat), DecodeError>
    decreases 9 - k,
{
    if q < 0 || q >= b.len() {
        Err(derr(DecodeErrorKind::UnexpectedEOF, q))
    } else if b[q] < 128 {
        Ok((sext(b[q], k), 1))
    } else if k >= 9 {
        Err(derr(DecodeErrorKind::InvalidVarint, q + 1))
    } else {
        match sleb_groups(b, q + 1, k + 1) {
            Ok((v, c)) => Ok(((b[q] - 128) + 128 * v, c + 1)),
            Err(e) => Err(e),
        }
    }
}

/// An unsigned varint at `q`: its value in 64 bits and its length. With
/// `canon`, a varint that is not in its shortest form is rejected too.
pub open spec fn read_uleb(b: Seq<u8>, q: int, canon: bool) -> Result<(u64, nat), DecodeError> {
    match uleb_groups(b, q, 0) {
        Ok((v, c)) => {
            let x = v % 0x1_0000_0000_0000_0000;
            if canon && b.subrange(q, q + c) != uleb(x) {
                Err(derr(DecodeErrorKind::InvalidVarint, q + c))
            } else {
                Ok((x as u64, c))
            }
        },
        Err(e) => Err(e),
    }
}

/// A signed varint at `q`: its value and its length.
pub open spec fn read_sleb(b: Seq<u8>, q: int, canon: bool) -> Result<(i64, nat), DecodeError> {
    match sleb_groups(b, q, 0) {
        Ok((v, c)) => {
            if canon && b.subrange(q, q + c) != sleb(v) {
                Err(derr(DecodeErrorKind::InvalidVarint, q + c))
            } else {
                Ok((v as i64, c))
            }
        },
        Err(e) => Err(e),
    }
}

/// A byte length at `q` and that many bytes after it: the bytes, and the
/// length of the whole. A length beyond the input's end is rejected at the
/// position where the bytes would start.
pub open spec fn read_chunk(b: Seq<u8>, q: int, canon: bool) -> Result<(Seq<u8>, nat), DecodeError> {
    match read_uleb(b, q, canon) {
        Ok((n, c)) => {
            let e = q + c;
            if n > b.len() - e {
                Err(derr(DecodeErrorKind::UnexpectedEOF, e))
            } else {
                Ok((b.subrange(e, e + n), (c + n) as nat))
            }
        },
        Err(x) => Err(x),
    }
}

/// The length of the longest prefix of `bs` no longer than `j` that is
/// valid UTF-8.
pub open spec fn valid_prefix_len(bs: Seq<u8>, j: int) -> int
    decreases j,
{
    if j <= 0 {
        0
    } else if valid_utf8(bs.subrange(0, j)) {
        j
    } else {
        valid_prefix_len(bs, j - 1)
    }
}

pub proof fn lemma_valid_prefix_len(bs: Seq<u8>, j: int)
    ensures
        0 <= valid_prefix_len(bs, j),
        j >= 0 ==> valid_prefix_len(bs, j) <= j,
    decreases j,
{
    if j > 0 {
        lemma_valid_prefix_len(bs, j - 1);
    }
}

/// A string body at `q` (after its tag): its text and length. Invalid
/// UTF-8 is reported where the longest valid prefix of the bytes ends,
/// that is at the first byte that cannot continue them.
pub open spec fn read_text(b: Seq<u8>, q: int, canon: bool) -> Result<(Seq<char>, nat), DecodeError> {
    match read_chunk(b, q, canon) {
        Ok((bs, c)) => if valid_utf8(bs) {
            Ok((decode_utf8(bs), c))
        } else {
            Err(
                derr(
                    DecodeErrorKind::InvalidUtf8,
                    q + c - bs.len() + valid_prefix_len(bs, bs.len() as int),
                ),
            )
        },
        Err(x) => Err(x),
    }
}

/// A count at `q` that is no more than the bytes left after it.
pub open spec fn read_count(b: Seq<u8>, q: int, canon: bool) -> Result<(nat, nat), DecodeError> {
    match read_uleb(b, q, canon) {
        Ok((n, c)) => if n > b.len() - (q + c) {
            Err(derr(DecodeErrorKind::UnexpectedEOF, q + c))
        } else {
            Ok((n as nat, c))
        },
        Err(x) => Err(x),
    }
}

pub open spec fn rem(b: Seq<u8>, p: nat) -> nat {
    if p < b.len() {
        (b.len() - p) as nat
    } else {
        0
    }
}

/// The value encoded at position `p`: the value and how many bytes it
/// takes, or the first error met. With `canon`, varints must be in their
/// shortest form and map keys strictly ascending.
pub open spec fn dec(b: Seq<u8>, p: nat, canon: bool) -> Result<(ValueModel, nat), DecodeError>
    decreases rem(b, p), 0nat,
{
    if p >= b.len() {
        Err(derr(DecodeErrorKind::UnexpectedEOF, p as int))
    } else {
        let tag = b[p as int];
        let q: int = p as int + 1;
        if tag == TAG_NULL {
            Ok((ValueModel::Null, 1))
        } else if tag == TAG_FALSE {
            Ok((ValueModel::Bool(false), 1))
        } else if tag == TAG_TRUE {
            Ok((ValueModel::Bool(true), 1))
        } else if tag == TAG_INT {
            match read_sleb(b, q, canon) {
                Ok((i, c)) => Ok((ValueModel::Int(i), 1 + c)),
                Err(x) => Err(x),
            }
        } else if tag == TAG_STRING {
            match read_text(b, q, canon) {
                Ok((s, c)) => Ok((ValueModel::Str(s), 1 + c)),
                Err(x) => Err(x),
            }
        } else if tag == TAG_BYTES {
            match read_chunk(b, q, canon) {
                Ok((bs, c)) => Ok((ValueModel::Bytes(bs), 1 + c)),
                Err(x) => Err(x),
            }
        } else if tag == TAG_LIST {
            match read_count(b, q, canon) {
                Ok((n, c)) => match dec_items(b, (q + c) as nat, n, canon) {
                    Ok((items, c2)) => Ok((ValueModel::List(items), 1 + c + c2)),
                    Err(x) => Err(x),
                },
                Err(x) => Err(x),
            }
        } else if tag == TAG_MAP {
            match read_count(b, q, canon) {
                Ok((n, c)) => match dec_entries(b, (q + c) as nat, n, seq![], canon) {
                    Ok((es, c2)) => Ok((ValueModel::Mapping(es), 1 + c + c2)),
                    Err(x) => Err(x),
                },
                Err(x) => Err(x),
            }
        } else {
            Err(derr(DecodeErrorKind::InvalidTag(tag), q))
        }
    }
}

/// `n` values one after another from `p`.
pub open spec fn dec_items(b: Seq<u8>, p: nat, n: nat, canon: bool) -> Result<
    (Seq<ValueModel>, nat),
    DecodeError,
>
    decreases rem(b, p), n + 1,
{
    if n == 0 {
        Ok((seq![], 0))
    } else {
        match dec(b, p, canon) {
            Ok((v, c)) => match dec_items(b, p + c, (n - 1) as nat, canon) {
                Ok((vs, c2)) => Ok((seq![v] + vs, c + c2)),
                Err(x) => Err(x),
            },
            Err(x) => Err(x),
        }
    }
}

/// How many leading bytes `a` and `b` share, counting from `i`.
pub open spec fn common_len(a: Seq<u8>, b: Seq<u8>, i: int) -> int
    decreases a.len() - i,
{
    if 0 <= i < a.len() && i < b.len() && a[i] == b[i] {
        common_len(a, b, i + 1)
    } else {
        i
    }
}

/// Where, within the bytes of key `k`, it is found not to come after the
/// key `prev`: just past the first byte below `prev`'s, or just past its
/// last byte where it equals `prev` or is a prefix of it.
pub open spec fn key_fault(prev: Seq<char>, k: Seq<char>) -> int {
    let d = common_len(encode_utf8(prev), encode_utf8(k), 0);
    if d + 1 < encode_utf8(k).len() {
        d + 1
    } else {
        encode_utf8(k).len() as int
    }
}

/// `n` key/value pairs from `p`, each bound in turn into `acc`, so that a
/// later duplicate key wins. A key must be encoded as a string.
pub open spec fn dec_entries(
    b: Seq<u8>,
    p: nat,
    n: nat,
    acc: Seq<(Seq<char>, ValueModel)>,
    canon: bool,
) -> Result<(Seq<(Seq<char>, ValueModel)>, nat), DecodeError>
    decreases rem(b, p), 0nat,
{
    if n == 0 {
        Ok((acc, 0))
    } else if p >= b.len() {
        Err(derr(DecodeErrorKind::UnexpectedEOF, p as int))
    } else if b[p as int] != TAG_STRING {
        Err(derr(DecodeErrorKind::InvalidTag(b[p as int]), p as int + 1))
    } else {
        match read_text(b, p as int + 1, canon) {
            Ok((k, c1)) => if canon && acc.len() > 0 && !key_lt(acc.last().0, k) {
                Err(
                    derr(
                        DecodeErrorKind::InvalidTag(TAG_STRING),
                        p as int + 1 + c1 - encode_utf8(k).len() + key_fault(acc.last().0, k),
                    ),
                )
            } else {
                match dec(b, p + 1 + c1, canon) {
                    Ok((v, c2)) => match dec_entries(
                        b,
                        p + 1 + c1 + c2,
                        (n - 1) as nat,
                        map_insert(acc, k, v),
                        canon,
                    ) {
                        Ok((es, c3)) => Ok((es, 1 + c1 + c2 + c3)),
                        Err(x) => Err(x),
                    },
                    Err(x) => Err(x),
                }
            },
            Err(x) => Err(x),
        }
    }
}

/// What a whole input decodes to: one value and nothing after it.
pub open spec fn decode_spec(b: Seq<u8>, canon: bool) -> Result<ValueModel, DecodeError> {
    match dec(b, 0, canon) {
        Ok((v, c)) => if c < b.len() {
            Err(derr(DecodeErrorKind::TrailingBytes, c as int))
        } else {
            Ok(v)
        },
        Err(x) => Err(x),
    }
}

pub open spec fn pow128(k: nat) -> nat
    decreases k,
{
    if k == 0 {
        1
    } else {
        128 * pow128((k - 1) as nat)
    }
}

proof fn lemma_pow128(k: nat)
    requires
        k <= 9,
    ensures
        k <= 8 ==> pow128(k) <= 0x100_0000_0000_0000,
        k == 9 ==> pow128(k) == 0x8000_0000_0000_0000,
        pow128(k) >= 1,
{
    reveal_with_fuel(pow128, 10);
    assert(k == 0 || k == 1 || k == 2 || k == 3 || k == 4 || k == 5 || k == 6 || k == 7 || k == 8
        || k == 9);
}

/// `r` read after `k` groups with `acc` and `scale` already taken in.
pub open spec fn lift_u(r: Result<(nat, nat), DecodeError>, acc: nat, scale: nat, k: nat) -> Result<
    (nat, nat),
    DecodeError,
> {
    match r {
        Ok((v, c)) => Ok((acc + scale * v, c + k)),
        Err(e) => Err(e),
    }
}

pub open spec fn lift_s(r: Result<(int, nat), DecodeError>, acc: nat, scale: nat, k: nat) -> Result<
    (int, nat),
    DecodeError,
> {
    match r {
        Ok((v, c)) => Ok((acc + scale * v, c + k)),
        Err(e) => Err(e),
    }
}

proof fn lemma_group_step(acc: int, scale: int, g: int, v: int)
    ensures
        acc + scale * (g + 128 * v) == (acc + scale * g) + (scale * 128) * v,
{
    assert(scale * (g + 128 * v) == scale * g + (scale * 128) * v) by (nonlinear_arith);
}

proof fn lemma_group_bound(acc: int, scale: int, g: int)
    requires
        0 <= acc < scale,
        0 <= g < 128,
    ensures
        0 <= acc + scale * g < scale * 128,
{
    assert(0 <= scale * g <= scale * 127) by (nonlinear_arith)
        requires
            0 <= g < 128,
            scale > 0,
    ;
}

proof fn lemma_top_bit(acc: int, byte: int)
    requires
        0 <= acc < 0x8000_0000_0000_0000,
        0 <= byte < 128,
    ensures
        (acc + 0x8000_0000_0000_0000 * byte) % 0x1_0000_0000_0000_0000 == acc + 0x8000_0000_0000_0000
            * (byte % 2),
{
    let h = byte / 2;
    assert(byte == 2 * h + byte % 2);
    assert(acc + 0x8000_0000_0000_0000 * byte == (acc + 0x8000_0000_0000_0000 * (byte % 2))
        + 0x1_0000_0000_0000_0000 * h) by (nonlinear_arith)
        requires
            byte == 2 * h + byte % 2,
    ;
    vstd::arithmetic::div_mod::lemma_mod_multiples_vanish(
        h,
        acc + 0x8000_0000_0000_0000 * (byte % 2),
        0x1_0000_0000_0000_0000,
    );
    vstd::arithmetic::div_mod::lemma_small_mod(
        (acc + 0x8000_0000_0000_0000 * (byte % 2)) as nat,
        0x1_0000_0000_0000_0000,
    );
}

/// A decoder over one input, reading from a current offset.
pub struct Decoder<'a> {
    input: &'a [u8],
    offset: usize,
    canon: bool,
}

impl<'a> Decoder<'a> {
    /// The input.
    pub closed spec fn bytes(&self) -> Seq<u8> {
        self.input@
    }

    /// The current offset.
    pub closed spec fn pos(&self) -> nat {
        self.offset as nat
    }

    /// Whether the decoder also rejects what is not in canonical form.
    pub closed spec fn strict(&self) -> bool {
        self.canon
    }

    /// A decoder at the start of `input` that rejects what is not in
    /// canonical form: varints not in their shortest form and map keys not
    /// in strictly ascending order.
    pub fn new(input: &'a [u8]) -> (d: Self)
        ensures
            d.bytes() == input@,
            d.pos() == 0,
            d.bytes().len() <= usize::MAX,
            d.strict(),
    {
        let n = input.len();
        assert(input@.len() == n);
        Decoder { input, offset: 0, canon: true }
    }

    /// A decoder at the start of `input` that tolerates varints longer than
    /// needed and map keys in any order (a later duplicate key wins).
    pub fn new_lenient(input: &'a [u8]) -> (d: Self)
        ensures
            d.bytes() == input@,
            d.pos() == 0,
            d.bytes().len() <= usize::MAX,
            !d.strict(),
    {
        let n = input.len();
        assert(input@.len() == n);
        Decoder { input, offset: 0, canon: false }
    }

    fn err(&self, kind: DecodeErrorKind) -> (e: DecodeError)
        ensures
            e == derr(kind, self.offset as int),
    {
        DecodeError { kind, offset: self.offset }
    }

    fn remaining(&self) -> (r: usize)
        requires
            self.offset <= self.input@.len(),
        ensures
            r == self.input@.len() - self.offset,
    {
        self.input.len() - self.offset
    }

    fn read_byte(&mut self) -> (r: Result<u8, DecodeError>)
        requires
            old(self).offset <= old(self).input@.len(),
        ensures
            final(self).input == old(self).input,
            final(self).canon == old(self).canon,
            final(self).offset <= final(self).input@.len(),
            old(self).offset < old(self).input@.len() ==> r == Ok::<u8, DecodeError>(
                old(self).input@[old(self).offset as int],
            ) && final(self).offset == old(self).offset + 1,
            old(self).offset >= old(self).input@.len() ==> r == Err::<u8, DecodeError>(
                derr(DecodeErrorKind::UnexpectedEOF, old(self).offset as int),
            ) && final(self).offset == old(self).offset,
    {
        if self.offset >= self.input.len() {
            return Err(self.err(DecodeErrorKind::UnexpectedEOF));
        }
        let byte = self.input[self.offset];
        self.offset = self.offset + 1;
        Ok(byte)
    }

    fn read_slice(&mut self, len: usize) -> (r: Result<&'a [u8], DecodeError>)
        requires
            old(self).offset <= old(self).input@.len(),
        ensures
            final(self).input == old(self).input,
            final(self).canon == old(self).canon,
            final(self).offset <= final(self).input@.len(),
            len <= old(self).input@.len() - old(self).offset ==> (r matches Ok(s) && s@
                == old(self).input@.subrange(old(self).offset as int, old(self).offset + len)
                && final(self).offset == old(self).offset + len),
            len > old(self).input@.len() - old(self).offset ==> r == Err::<&'a [u8], DecodeError>(
                derr(DecodeErrorKind::UnexpectedEOF, old(self).offset as int),
            ),
    {
        let n = self.input.len();
        if n - self.offset < len {
            return Err(self.err(DecodeErrorKind::UnexpectedEOF));
        }
        let slice = slice_subrange(self.input, self.offset, self.offset + len);
        self.offset = self.offset + len;
        Ok(slice)
    }

    fn decode_uleb128_groups(&mut self) -> (r: Result<u64, DecodeError>)
        requires
            old(self).offset <= old(self).input@.len(),
        ensures
            final(self).input == old(self).input,
            final(self).canon == old(self).canon,
            final(self).offset <= final(self).input@.len(),
            match read_uleb(old(self).input@, old(self).offset as int, false) {
                Ok((v, c)) => r == Ok::<u64, DecodeError>(v) && final(self).offset == old(self).offset
                    + c,
                Err(e) => r == Err::<u64, DecodeError>(e),
            },
    {
        let ghost b = self.input@;
        let ghost start = self.offset as int;
        let mut result: u64 = 0;
        let mut scale: u64 = 1;
        let mut k: usize = 0;
        loop
            invariant
                self.input@ == b,
                self.input == old(self).input,
                self.canon == old(self).canon,
                start == old(self).offset,
                k <= 9,
                self.offset == start + k,
                self.offset <= b.len(),
                scale == pow128(k as nat),
                result < scale,
                uleb_groups(b, start, 0) == lift_u(
                    uleb_groups(b, start + k, k as nat),
                    result as nat,
                    scale as nat,
                    k as nat,
                ),
            decreases 9 - k,
        {
            proof {
                lemma_pow128(k as nat);
            }
            let byte = match self.read_byte() {
                Ok(x) => x,
                Err(e) => {
                    return Err(e);
                },
            };
            if byte < 128 {
                proof {
                    lemma_group_bound(result as int, scale as int, byte as int);
                    if k == 9 {
                        lemma_top_bit(result as int, byte as int);
                    }
                }
                let add: u64 = if k == 9 {
                    scale * ((byte % 2) as u64)
                } else {
                    scale * (byte as u64)
                };
                return Ok(result + add);
            }
            if k >= 9 {
                return Err(self.err(DecodeErrorKind::InvalidVarint));
            }
            proof {
                lemma_group_step(result as int, scale as int, byte - 128, 0);
                lemma_group_bound(result as int, scale as int, byte - 128);
                lemma_pow128((k + 1) as nat);
                match uleb_groups(b, start + k + 1, (k + 1) as nat) {
                    Ok((v, c)) => {
                        lemma_group_step(result as int, scale as int, byte - 128, v as int);
                    },
                    Err(_) => {},
                }
            }
            result = result + scale * ((byte - 128) as u64);
            scale = scale * 128;
            k = k + 1;
        }
    }

    fn decode_sleb128_groups(&mut self) -> (r: Result<i64, DecodeError>)
        requires
            old(self).offset <= old(self).input@.len(),
        ensures
            final(self).input == old(self).input,
            final(self).canon == old(self).canon,
            final(self).offset <= final(self).input@.len(),
            match read_sleb(old(self).input@, old(self).offset as int, false) {
                Ok((v, c)) => r == Ok::<i64, DecodeError>(v) && final(self).offset == old(self).offset
                    + c,
                Err(e) => r == Err::<i64, DecodeError>(e),
            },
            sleb_groups(old(self).input@, old(self).offset as int, 0) matches Ok((v, c))
                ==> i64::MIN <= v <= i64::MAX,
    {
        let ghost b = self.input@;
        let ghost start = self.offset as int;
        let mut result: u64 = 0;
        let mut scale: u64 = 1;
        let mut k: usize = 0;
        loop
            invariant
                self.input@ == b,
                self.input == old(self).input,
                self.canon == old(self).canon,
                start == old(self).offset,
                k <= 9,
                self.offset == start + k,
                self.offset <= b.len(),
                scale == pow128(k as nat),
                result < scale,
                sleb_groups(b, start, 0) == lift_s(
                    sleb_groups(b, start + k, k as nat),
                    result as nat,
                    scale as nat,
                    k as nat,
                ),
            decreases 9 - k,
        {
            proof {
                lemma_pow128(k as nat);
            }
            let byte = match self.read_byte() {
                Ok(x) => x,
                Err(e) => {
                    return Err(e);
                },
            };
            if byte < 128 {
                let ext: i64 = if k == 9 {
                    -((byte % 2) as i64)
                } else if byte >= 64 {
                    byte as i64 - 128
                } else {
                    byte as i64
                };
                assert(ext == sext(byte, k as nat));
                proof {
                    if k < 9 {
                        assert(-64 * (scale as int) <= (scale as int) * (ext as int) < 64
                            * scale) by (nonlinear_arith)
                            requires
                                -64 <= ext < 64,
                                scale > 0,
                        ;
                    } else {
                        if byte % 2 == 0 {
                            assert(ext == 0);
                        } else {
                            assert(ext == -1);
                        }
                    }
                }
                proof {
                    assert(-0x20_0000_0000_0000_0000 <= (scale as int) * (ext as int)
                        <= 0x20_0000_0000_0000_0000) by (nonlinear_arith)
                        requires
                            0 < scale <= 0x8000_0000_0000_0000,
                            -64 <= ext < 64,
                    ;
                }
                let total: i128 = result as i128 + (scale as i128) * (ext as i128);
                return Ok(total as i64);
            }
            if k >= 9 {
                return Err(self.err(DecodeErrorKind::InvalidVarint));
            }
            proof {
                lemma_group_bound(result as int, scale as int, byte - 128);
                lemma_pow128((k + 1) as nat);
                match sleb_groups(b, start + k + 1, (k + 1) as nat) {
                    Ok((v, c)) => {
                        lemma_group_step(result as int, scale as int, byte - 128, v);
                    },
                    Err(_) => {},
                }
            }
            result = result + scale * ((byte - 128) as u64);
            scale = scale * 128;
            k = k + 1;
        }
    }

    fn decode_uleb128(&mut self) -> (r: Result<u64, DecodeError>)
        requires
            old(self).offset <= old(self).input@.len(),
        ensures
            final(self).input == old(self).input,
            final(self).canon == old(self).canon,
            final(self).offset <= final(self).input@.len(),
            match read_uleb(old(self).input@, old(self).offset as int, old(self).canon) {
                Ok((v, c)) => r == Ok::<u64, DecodeError>(v) && final(self).offset == old(self).offset
                    + c,
                Err(e) => r == Err::<u64, DecodeError>(e),
            },
    {
        let start = self.offset;
        let v = match self.decode_uleb128_groups() {
            Ok(v) => v,
            Err(e) => {
                return Err(e);
            },
        };
        if self.canon {
            let mut shortest: Vec<u8> = Vec::new();
            encode_uleb128(v, &mut shortest);
            assert(shortest@ =~= uleb(v as nat));
            if !same_bytes(shortest.as_slice(), slice_subrange(self.input, start, self.offset)) {
                return Err(self.err(DecodeErrorKind::InvalidVarint));
            }
        }
        Ok(v)
    }

    fn decode_sleb128(&mut self) -> (r: Result<i64, DecodeError>)
        requires
            old(self).offset <= old(self).input@.len(),
        ensures
            final(self).input == old(self).input,
            final(self).canon == old(self).canon,
            final(self).offset <= final(self).input@.len(),
            match read_sleb(old(self).input@, old(self).offset as int, old(self).canon) {
                Ok((v, c)) => r == Ok::<i64, DecodeError>(v) && final(self).offset == old(self).offset
                    + c,
                Err(e) => r == Err::<i64, DecodeError>(e),
            },
    {
        let start = self.offset;
        let v = match self.decode_sleb128_groups() {
            Ok(v) => v,
            Err(e) => {
                return Err(e);
            },
        };
        if self.canon {
            let mut shortest: Vec<u8> = Vec::new();
            encode_sleb128(v, &mut shortest);
            assert(shortest@ =~= sleb(v as int));
            if !same_bytes(shortest.as_slice(), slice_subrange(self.input, start, self.offset)) {
                return Err(self.err(DecodeErrorKind::InvalidVarint));
            }
        }
        Ok(v)
    }

    fn decode_chunk(&mut self) -> (r: Result<&'a [u8], DecodeError>)
        requires
            old(self).offset <= old(self).input@.len(),
        ensures
            final(self).input == old(self).input,
            final(self).canon == old(self).canon,
            final(self).offset <= final(self).input@.len(),
            match read_chunk(old(self).input@, old(self).offset as int, old(self).canon) {
                Ok((bs, c)) => (r matches Ok(s) && s@ == bs) && final(self).offset == old(self).offset
                    + c,
                Err(e) => r == Err::<&'a [u8], DecodeError>(e),
            },
    {
        let len = match self.decode_uleb128() {
            Ok(n) => n,
            Err(e) => {
                return Err(e);
            },
        };
        if len > self.remaining() as u64 {
            return Err(self.err(DecodeErrorKind::UnexpectedEOF));
        }
        self.read_slice(len as usize)
    }

    fn decode_text(&mut self) -> (r: Result<String, DecodeError>)
        requires
            old(self).offset <= old(self).input@.len(),
        ensures
            final(self).input == old(self).input,
            final(self).canon == old(self).canon,
            final(self).offset <= final(self).input@.len(),
            match read_text(old(self).input@, old(self).offset as int, old(self).canon) {
                Ok((t, c)) => (r matches Ok(s) && s@ == t) && final(self).offset == old(self).offset
                    + c,
                Err(e) => r == Err::<String, DecodeError>(e),
            },
            r matches Ok(s) ==> old(self).offset + encode_utf8(s@).len() <= final(self).offset,
    {
        let bytes = match self.decode_chunk() {
            Ok(b) => b,
            Err(e) => {
                return Err(e);
            },
        };
        match core::str::from_utf8(bytes) {
            Ok(s) => {
                proof {
                    vstd::utf8::decode_utf8_encode_utf8(bytes@);
                }
                Ok(s.to_owned())
            },
            Err(_) => {
                let good = valid_prefix(bytes);
                proof {
                    lemma_valid_prefix_len(bytes@, bytes@.len() as int);
                }
                Err(
                    DecodeError {
                        kind: DecodeErrorKind::InvalidUtf8,
                        offset: self.offset - bytes.len() + good,
                    },
                )
            },
        }
    }

    fn decode_count(&mut self) -> (r: Result<usize, DecodeError>)
        requires
            old(self).offset <= old(self).input@.len(),
        ensures
            final(self).input == old(self).input,
            final(self).canon == old(self).canon,
            final(self).offset <= final(self).input@.len(),
            match read_count(old(self).input@, old(self).offset as int, old(self).canon) {
                Ok((n, c)) => r == Ok::<usize, DecodeError>(n as usize) && n <= usize::MAX
                    && final(self).offset == old(self).offset + c,
                Err(e) => r == Err::<usize, DecodeError>(e),
            },
    {
        let n = match self.decode_uleb128() {
            Ok(n) => n,
            Err(e) => {
                return Err(e);
            },
        };
        if n > self.remaining() as u64 {
            return Err(self.err(DecodeErrorKind::UnexpectedEOF));
        }
        Ok(n as usize)
    }

    /// Decodes the value at the current offset and moves past it.
    pub fn decode_value(&mut self) -> (r: Result<Value, DecodeError>)
        requires
            old(self).pos() <= old(self).bytes().len(),
        ensures
            final(self).bytes() == old(self).bytes(),
            final(self).strict() == old(self).strict(),
            final(self).pos() <= final(self).bytes().len(),
            match dec(old(self).bytes(), old(self).pos(), old(self).strict()) {
                Ok((v, c)) => (r matches Ok(w) && w@ == v) && final(self).pos() == old(self).pos()
                    + c,
                Err(e) => r == Err::<Value, DecodeError>(e),
            },
        decreases old(self).bytes().len() - old(self).pos(), 0nat,
    {
        let ghost b = self.input@;
        proof {
            reveal_with_fuel(<Value as View>::view, 2);
        }
        let tag = match self.read_byte() {
            Ok(t) => t,
            Err(e) => {
                return Err(e);
            },
        };
        if tag == TAG_NULL {
            Ok(Value::Null)
        } else if tag == TAG_FALSE {
            Ok(Value::Bool(false))
        } else if tag == TAG_TRUE {
            Ok(Value::Bool(true))
        } else if tag == TAG_INT {
            match self.decode_sleb128() {
                Ok(n) => Ok(Value::Int(n)),
                Err(e) => Err(e),
            }
        } else if tag == TAG_STRING {
            match self.decode_text() {
                Ok(s) => Ok(Value::String(s)),
                Err(e) => Err(e),
            }
        } else if tag == TAG_BYTES {
            match self.decode_chunk() {
                Ok(bs) => Ok(Value::Bytes(slice_to_vec(bs))),
                Err(e) => Err(e),
            }
        } else if tag == TAG_LIST {
            let count = match self.decode_count() {
                Ok(n) => n,
                Err(e) => {
                    return Err(e);
                },
            };
            let ghost e = self.offset as nat;
            match self.decode_list(count) {
                Ok(items) => {
                    let v = Value::List(items);
                    proof {
                        reveal_with_fuel(<Value as View>::view, 2);
                        match dec_items(b, e, count as nat, self.canon) {
                            Ok((vs, c)) => {
                                assert(v@->List_0 =~= vs);
                            },
                            Err(_) => {},
                        }
                    }
                    Ok(v)
                },
                Err(e) => Err(e),
            }
        } else if tag == TAG_MAP {
            let count = match self.decode_count() {
                Ok(n) => n,
                Err(e) => {
                    return Err(e);
                },
            };
            match self.decode_map(count) {
                Ok(m) => Ok(Value::Mapping(m)),
                Err(e) => Err(e),
            }
        } else {
            Err(self.err(DecodeErrorKind::InvalidTag(tag)))
        }
    }

    fn decode_list(&mut self, count: usize) -> (r: Result<Vec<Value>, DecodeError>)
        requires
            old(self).offset <= old(self).input@.len(),
        ensures
            final(self).input == old(self).input,
            final(self).canon == old(self).canon,
            final(self).offset <= final(self).input@.len(),
            match dec_items(old(self).input@, old(self).offset as nat, count as nat, old(self).canon) {
                Ok((vs, c)) => (r matches Ok(items) && items@.len() == vs.len() && forall|j: int|
                    0 <= j < vs.len() ==> (#[trigger] items@[j])@ == vs[j]) && final(self).offset
                    == old(self).offset + c,
                Err(e) => r == Err::<Vec<Value>, DecodeError>(e),
            },
        decreases old(self).bytes().len() - old(self).pos(), 1nat,
    {
        let ghost b = self.input@;
        let ghost start = self.offset as nat;
        let ghost mut pre: Seq<ValueModel> = seq![];
        let mut items: Vec<Value> = Vec::new();
        let mut i: usize = 0;
        while i < count
            invariant
                self.input == old(self).input,
                self.canon == old(self).canon,
                self.input@ == b,
                start == old(self).offset,
                start <= self.offset <= b.len(),
                i <= count,
                items@.len() == i,
                pre.len() == i,
                forall|j: int| 0 <= j < i ==> (#[trigger] items@[j])@ == pre[j],
                dec_items(b, start, count as nat, self.canon) == match dec_items(
                    b,
                    self.offset as nat,
                    (count - i) as nat,
                    self.canon,
                ) {
                    Ok((vs, c)) => Ok((pre + vs, (self.offset - start + c) as nat)),
                    Err(x) => Err(x),
                },
            decreases count - i,
        {
            let ghost cur = self.offset as nat;
            let v = match self.decode_value() {
                Ok(v) => v,
                Err(e) => {
                    return Err(e);
                },
            };
            proof {
                match dec(b, cur, self.canon) {
                    Ok((vm, c)) => {
                        match dec_items(b, cur + c, (count - i - 1) as nat, self.canon) {
                            Ok((vs, c2)) => {
                                assert(pre + (seq![vm] + vs) =~= pre.push(vm) + vs);
                            },
                            Err(_) => {},
                        }
                    },
                    Err(_) => {},
                }
                pre = pre.push(v@);
            }
            items.push(v);
            i = i + 1;
        }
        proof {
            assert(pre + seq![] =~= pre);
        }
        Ok(items)
    }

    fn decode_map(&mut self, count: usize) -> (r: Result<ValueMap, DecodeError>)
        requires
            old(self).offset <= old(self).input@.len(),
        ensures
            final(self).input == old(self).input,
            final(self).canon == old(self).canon,
            final(self).offset <= final(self).input@.len(),
            match dec_entries(old(self).input@, old(self).offset as nat, count as nat, seq![], old(self).canon) {
                Ok((es, c)) => (r matches Ok(m) && m@ == es) && final(self).offset == old(self).offset
                    + c,
                Err(e) => r == Err::<ValueMap, DecodeError>(e),
            },
        decreases old(self).bytes().len() - old(self).pos(), 1nat,
    {
        let ghost b = self.input@;
        let ghost start = self.offset as nat;
        let mut map = ValueMap::new();
        let mut i: usize = 0;
        while i < count
            invariant
                self.input == old(self).input,
                self.canon == old(self).canon,
                self.input@ == b,
                start == old(self).offset,
                start <= self.offset <= b.len(),
                i <= count,
                dec_entries(b, start, count as nat, seq![], self.canon) == match dec_entries(
                    b,
                    self.offset as nat,
                    (count - i) as nat,
                    map@,
                    self.canon,
                ) {
                    Ok((es, c)) => Ok((es, (self.offset - start + c) as nat)),
                    Err(x) => Err(x),
                },
            decreases count - i,
        {
            let tag = match self.read_byte() {
                Ok(t) => t,
                Err(e) => {
                    return Err(e);
                },
            };
            if tag != TAG_STRING {
                return Err(self.err(DecodeErrorKind::InvalidTag(tag)));
            }
            let key = match self.decode_text() {
                Ok(k) => k,
                Err(e) => {
                    return Err(e);
                },
            };
            if self.canon {
                if let Some(e) = key_order_error(&map, &key, self.offset) {
                    return Err(e);
                }
            }
            let value = match self.decode_value() {
                Ok(v) => v,
                Err(e) => {
                    return Err(e);
                },
            };
            map.insert(key, value);
            i = i + 1;
        }
        Ok(map)
    }
}

/// Decodes one value that must take up the whole input and be in
/// canonical form: every varint in its shortest form (else
/// `InvalidVarint`) and every map's keys strictly ascending, so no key
/// repeated (else `InvalidTag(0x20)` just after the offending key's tag).
/// What this accepts is exactly the encoding of the value it returns.
pub fn decode(input: &[u8]) -> (r: Result<Value, DecodeError>)
    ensures
        match decode_spec(input@, true) {
            Ok(v) => r matches Ok(w) && w@ == v,
            Err(e) => r == Err::<Value, DecodeError>(e),
        },
{
    decode_with(Decoder::new(input))
}

/// Decodes one value that must take up the whole input, tolerating what
/// earlier producers may have written: varints longer than needed, and map
/// keys in any order, where a later duplicate key wins. The map that comes
/// back is in canonical key order.
pub fn decode_lenient(input: &[u8]) -> (r: Result<Value, DecodeError>)
    ensures
        match decode_spec(input@, false) {
            Ok(v) => r matches Ok(w) && w@ == v,
            Err(e) => r == Err::<Value, DecodeError>(e),
        },
{
    decode_with(Decoder::new_lenient(input))
}

fn decode_with(mut decoder: Decoder) -> (r: Result<Value, DecodeError>)
    requires
        decoder.offset == 0,
    ensures
        match decode_spec(decoder.input@, decoder.canon) {
            Ok(v) => r matches Ok(w) && w@ == v,
            Err(e) => r == Err::<Value, DecodeError>(e),
        },
{
    let value = match decoder.decode_value() {
        Ok(v) => v,
        Err(e) => {
            return Err(e);
        },
    };
    if decoder.remaining() != 0 {
        return Err(DecodeError { kind: DecodeErrorKind::TrailingBytes, offset: decoder.offset });
    }
    Ok(value)
}

/// In canonical reading, the error for `key` (whose bytes end at `end`)
/// if it does not come after the last key of `map`.
fn key_order_error(map: &ValueMap, key: &String, end: usize) -> (r: Option<DecodeError>)
    requires
        encode_utf8(key@).len() <= end,
    ensures
        r is Some <==> (map@.len() > 0 && !key_lt(map@.last().0, key@)),
        r matches Some(e) ==> e == derr(
            DecodeErrorKind::InvalidTag(TAG_STRING),
            end - encode_utf8(key@).len() + key_fault(map@.last().0, key@),
        ),
{
    let n = map.len();
    if n == 0 {
        return None;
    }
    let (last, _) = map.entry(n - 1);
    let kb = key.as_str().as_bytes();
    if bytes_lt(last.as_str().as_bytes(), kb) {
        return None;
    }
    let fault = fault_in_key(last.as_str().as_bytes(), kb);
    Some(DecodeError { kind: DecodeErrorKind::InvalidTag(TAG_STRING), offset: end - kb.len() + fault })
}

/// The length of the longest prefix of `bytes` that is valid UTF-8.
fn valid_prefix(bytes: &[u8]) -> (r: usize)
    ensures
        r == valid_prefix_len(bytes@, bytes@.len() as int),
{
    let mut j = bytes.len();
    while j > 0
        invariant
            j <= bytes@.len(),
            valid_prefix_len(bytes@, bytes@.len() as int) == valid_prefix_len(bytes@, j as int),
        decreases j,
    {
        let head = slice_subrange(bytes, 0, j);
        if core::str::from_utf8(head).is_ok() {
            return j;
        }
        j = j - 1;
    }
    0
}

/// Where, within key bytes `k`, they are found not to come after `prev`.
fn fault_in_key(prev: &[u8], k: &[u8]) -> (r: usize)
    ensures
        r == (if common_len(prev@, k@, 0) + 1 < k@.len() {
            common_len(prev@, k@, 0) + 1
        } else {
            k@.len() as int
        }),
        r <= k@.len(),
{
    let mut i: usize = 0;
    while i < prev.len() && i < k.len() && prev[i] == k[i]
        invariant
            0 <= i <= prev@.len(),
            i <= k@.len(),
            common_len(prev@, k@, 0) == common_len(prev@, k@, i as int),
        decreases prev.len() - i,
    {
        i = i + 1;
    }
    if i < k.len() && i + 1 < k.len() {
        i + 1
    } else {
        k.len()
    }
}

fn same_bytes(a: &[u8], b: &[u8]) -> (r: bool)
    ensures
        r == (a@ == b@),
{
    if a.len() != b.len() {
        return false;
    }
    let mut i: usize = 0;
    while i < a.len()
        invariant
            a@.len() == b@.len(),
            0 <= i <= a@.len(),
            forall|j: int| 0 <= j < i ==> a@[j] == b@[j],
        decreases a.len() - i,
    {
        if a[i] != b[i] {
            return false;
        }
        i = i + 1;
    }
    assert(a@ =~= b@);
    true
}

} // verus!
