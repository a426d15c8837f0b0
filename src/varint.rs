//! LEB128 variable-length integers: the unsigned form for lengths and
//! counts, the signed form for `Int` payloads.
use vstd::prelude::*;

verus! {

/// Canonical unsigned LEB128 bytes of `n`: seven-bit groups, low group
/// first, every byte but the last with its high bit set.
pub open spec fn uleb(n: nat) -> Seq<u8>
    decreases n,
{
    if n < 128 {
        seq![n as u8]
    } else {
        seq![(n % 128 + 128) as u8] + uleb(n / 128)
    }
}

pub open spec fn abs(i: int) -> nat {
    if i < 0 {
        (-i) as nat
    } else {
        i as nat
    }
}

/// True when the group `low` (in 0..128) with remaining value `rest` is the
/// last byte of a signed encoding: its bit 6 already gives the sign of what
/// is left.
pub open spec fn sleb_last(low: int, rest: int) -> bool {
    (rest == 0 && low < 64) || (rest == -1 && low >= 64)
}

/// Canonical signed LEB128 bytes of `i`.
pub open spec fn sleb(i: int) -> Seq<u8>
    decreases abs(i),
{
    let low = i % 128;
    let rest = i / 128;
    if sleb_last(low, rest) {
        seq![low as u8]
    } else {
        proof {
            lemma_sleb_step(i);
        }
        seq![(low + 128) as u8] + sleb(rest)
    }
}

pub proof fn lemma_sleb_step(i: int)
    requires
        !sleb_last(i % 128, i / 128),
    ensures
        abs(i / 128) < abs(i),
{
    assert(i == 128 * (i / 128) + i % 128) by (nonlinear_arith);
    assert(0 <= i % 128 < 128);
}

/// Appends the unsigned LEB128 form of `value` to `out`.
pub fn encode_uleb128(value: u64, out: &mut Vec<u8>)
    ensures
        final(out)@ == old(out)@ + uleb(value as nat),
{
    let ghost start = out@;
    let mut v = value;
    loop
        invariant_except_break
            out@ + uleb(v as nat) == start + uleb(value as nat),
        ensures
            out@ == start + uleb(value as nat),
        decreases v,
    {
        let byte = (v % 128) as u8;
        if v < 128 {
            out.push(byte);
            assert(out@ =~= start + uleb(value as nat));
            break;
        }
        out.push(byte + 128);
        let ghost prev = v;
        v = v / 128;
        assert(out@ + uleb(v as nat) =~= start + uleb(value as nat)) by {
            assert(uleb(prev as nat) == seq![(prev % 128 + 128) as u8] + uleb(v as nat));
        }
    }
}

/// Appends the signed LEB128 form of `value` to `out`.
pub fn encode_sleb128(value: i64, out: &mut Vec<u8>)
    ensures
        final(out)@ == old(out)@ + sleb(value as int),
{
    let ghost start = out@;
    let mut v = value;
    loop
        invariant_except_break
            out@ + sleb(v as int) == start + sleb(value as int),
        ensures
            out@ == start + sleb(value as int),
        decreases abs(v as int),
    {
        let low: i64 = match v.checked_rem_euclid(128) {
            Some(r) => r,
            None => 0,
        };
        let rest: i64 = match v.checked_div_euclid(128) {
            Some(q) => q,
            None => 0,
        };
        assert(low == v % 128 && rest == v / 128);
        if (rest == 0 && low < 64) || (rest == -1 && low >= 64) {
            out.push(low as u8);
            assert(out@ =~= start + sleb(value as int));
            break;
        }
        out.push((low + 128) as u8);
        let ghost prev = v;
        proof {
            lemma_sleb_step(prev as int);
        }
        v = rest;
        assert(out@ + sleb(v as int) =~= start + sleb(value as int)) by {
            assert(sleb(prev as int) == seq![(low + 128) as u8] + sleb(v as int));
        }
    }
}

} // verus!
