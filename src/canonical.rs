//! Laws of the codec: what the encoder and the decoder guarantee together.
use vstd::prelude::*;
use vstd::utf8::{decode_utf8, encode_utf8, valid_utf8};
use crate::decode::{
    dec, dec_entries, dec_items, decode_spec, pow128, read_chunk, read_count, read_sleb,
    read_text, read_uleb, rem, sleb_groups, uleb_groups, common_len, lemma_valid_prefix_len,
};
use crate::encode::{enc, enc_entries, enc_items, enc_str, TAG_STRING};
use crate::value::{key_lt, keys_sorted, lemma_map_insert_sorted, map_get, map_insert, ValueModel};
use crate::varint::{lemma_sleb_step, sleb, sleb_last, uleb};
use crate::order::{lemma_key_asymmetric, lemma_key_irreflexive, lemma_key_transitive};

verus! {

broadcast use vstd::utf8::group_utf8_lib;

/// `x` stands in `b` at position `p`.
pub open spec fn at(b: Seq<u8>, p: int, x: Seq<u8>) -> bool {
    0 <= p && p + x.len() <= b.len() && b.subrange(p, p + x.len()) == x
}

proof fn lemma_at_split(b: Seq<u8>, p: int, x: Seq<u8>, y: Seq<u8>)
    requires
        at(b, p, x + y),
    ensures
        at(b, p, x),
        at(b, p + x.len(), y),
{
    let whole = b.subrange(p, p + (x + y).len());
    assert(whole == x + y);
    assert(b.subrange(p, p + x.len()) =~= whole.subrange(0, x.len() as int));
    assert(whole.subrange(0, x.len() as int) =~= x);
    assert(b.subrange(p + x.len(), p + x.len() + y.len()) =~= whole.subrange(
        x.len() as int,
        (x.len() + y.len()) as int,
    ));
    assert(whole.subrange(x.len() as int, (x.len() + y.len()) as int) =~= y);
}

proof fn lemma_uleb_groups(b: Seq<u8>, q: int, n: nat, k: nat)
    requires
        k <= 9,
        n < 2 * pow128((9 - k) as nat),
        at(b, q, uleb(n)),
    ensures
        uleb_groups(b, q, k) == Ok::<(nat, nat), crate::error::DecodeError>((n, uleb(n).len())),
    decreases n,
{
    assert(b[q] == uleb(n)[0]);
    if n >= 128 {
        let rest = uleb(n / 128);
        assert(uleb(n) == seq![(n % 128 + 128) as u8] + rest);
        if k >= 9 {
            assert(pow128(0) == 1) by {
                reveal_with_fuel(pow128, 1);
            }
        }
        assert(pow128((9 - k) as nat) == 128 * pow128((9 - (k + 1)) as nat));
        lemma_at_split(b, q, seq![(n % 128 + 128) as u8], rest);
        lemma_uleb_groups(b, q + 1, n / 128, k + 1);
    }
}

/// Reading back the unsigned varint of any 64-bit number.
pub proof fn lemma_read_uleb(b: Seq<u8>, q: int, n: u64, canon: bool)
    requires
        at(b, q, uleb(n as nat)),
    ensures
        read_uleb(b, q, canon) == Ok::<(u64, nat), crate::error::DecodeError>(
            (n, uleb(n as nat).len()),
        ),
{
    assert(2 * pow128(9) == 0x1_0000_0000_0000_0000) by {
        reveal_with_fuel(pow128, 10);
    }
    lemma_uleb_groups(b, q, n as nat, 0);
}

proof fn lemma_sleb_groups(b: Seq<u8>, q: int, i: int, k: nat)
    requires
        k <= 9,
        -pow128((9 - k) as nat) <= i < pow128((9 - k) as nat),
        at(b, q, sleb(i)),
    ensures
        sleb_groups(b, q, k) == Ok::<(int, nat), crate::error::DecodeError>((i, sleb(i).len())),
    decreases 9 - k,
{
    assert(b[q] == sleb(i)[0]);
    let low = i % 128;
    let rest = i / 128;
    if k == 9 {
        assert(pow128(0) == 1) by {
            reveal_with_fuel(pow128, 1);
        }
    }
    if !sleb_last(low, rest) {
        lemma_sleb_step(i);
        let tail = sleb(rest);
        assert(sleb(i) == seq![(low + 128) as u8] + tail);
        assert(pow128((9 - k) as nat) == 128 * pow128((9 - (k + 1)) as nat));
        lemma_at_split(b, q, seq![(low + 128) as u8], tail);
        lemma_sleb_groups(b, q + 1, rest, k + 1);
    }
}

/// Reading back the signed varint of any 64-bit integer.
pub proof fn lemma_read_sleb(b: Seq<u8>, q: int, i: i64, canon: bool)
    requires
        at(b, q, sleb(i as int)),
    ensures
        read_sleb(b, q, canon) == Ok::<(i64, nat), crate::error::DecodeError>(
            (i, sleb(i as int).len()),
        ),
{
    assert(pow128(9) == 0x8000_0000_0000_0000) by {
        reveal_with_fuel(pow128, 10);
    }
    lemma_sleb_groups(b, q, i as int, 0);
}

proof fn lemma_read_text(b: Seq<u8>, q: int, t: Seq<char>, canon: bool)
    requires
        at(b, q, uleb(encode_utf8(t).len()) + encode_utf8(t)),
        b.len() < 0x1_0000_0000_0000_0000,
    ensures
        read_text(b, q, canon) == Ok::<(Seq<char>, nat), crate::error::DecodeError>(
            (t, (uleb(encode_utf8(t).len()) + encode_utf8(t)).len()),
        ),
{
    let bs = encode_utf8(t);
    let n = bs.len();
    lemma_at_split(b, q, uleb(n), bs);
    lemma_read_uleb(b, q, n as u64, canon);
}

proof fn lemma_read_chunk(b: Seq<u8>, q: int, bs: Seq<u8>, canon: bool)
    requires
        at(b, q, uleb(bs.len()) + bs),
        b.len() < 0x1_0000_0000_0000_0000,
    ensures
        read_chunk(b, q, canon) == Ok::<(Seq<u8>, nat), crate::error::DecodeError>(
            (bs, (uleb(bs.len()) + bs).len()),
        ),
{
    lemma_at_split(b, q, uleb(bs.len()), bs);
    lemma_read_uleb(b, q, bs.len() as u64, canon);
}

proof fn lemma_enc_len(v: ValueModel)
    ensures
        enc(v).len() >= 1,
{
}

proof fn lemma_enc_items_len(items: Seq<ValueModel>, n: nat)
    requires
        n <= items.len(),
    ensures
        enc_items(items, n).len() >= n,
    decreases n,
{
    if n > 0 {
        lemma_enc_items_len(items, (n - 1) as nat);
        lemma_enc_len(items[n - 1]);
    }
}

proof fn lemma_enc_entries_len(es: Seq<(Seq<char>, ValueModel)>, n: nat)
    requires
        n <= es.len(),
    ensures
        enc_entries(es, n).len() >= n,
    decreases n,
{
    if n > 0 {
        lemma_enc_entries_len(es, (n - 1) as nat);
    }
}

proof fn lemma_enc_items_mono(items: Seq<ValueModel>, j: nat, n: nat)
    requires
        j <= n <= items.len(),
    ensures
        enc_items(items, j).len() <= enc_items(items, n).len(),
    decreases n,
{
    if j < n {
        lemma_enc_items_mono(items, j, (n - 1) as nat);
    }
}

proof fn lemma_enc_entries_mono(es: Seq<(Seq<char>, ValueModel)>, j: nat, n: nat)
    requires
        j <= n <= es.len(),
    ensures
        enc_entries(es, j).len() <= enc_entries(es, n).len(),
    decreases n,
{
    if j < n {
        lemma_enc_entries_mono(es, j, (n - 1) as nat);
    }
}

/// Where item `j` sits within the encodings of the first `n` items.
proof fn lemma_items_at(b: Seq<u8>, p: int, items: Seq<ValueModel>, n: nat, j: nat)
    requires
        j < n <= items.len(),
        at(b, p, enc_items(items, n)),
    ensures
        at(b, p + enc_items(items, j).len(), enc(items[j as int])),
        enc_items(items, j + 1).len() == enc_items(items, j).len() + enc(items[j as int]).len(),
    decreases n,
{
    lemma_at_split(b, p, enc_items(items, (n - 1) as nat), enc(items[n - 1]));
    if j < n - 1 {
        lemma_items_at(b, p, items, (n - 1) as nat, j);
    }
}

/// Where entry `j` sits within the encodings of the first `n` entries.
proof fn lemma_entries_at(b: Seq<u8>, p: int, es: Seq<(Seq<char>, ValueModel)>, n: nat, j: nat)
    requires
        j < n <= es.len(),
        at(b, p, enc_entries(es, n)),
    ensures
        at(
            b,
            p + enc_entries(es, j).len(),
            enc_str(es[j as int].0) + enc(es[j as int].1),
        ),
        enc_entries(es, j + 1).len() == enc_entries(es, j).len() + enc_str(es[j as int].0).len()
            + enc(es[j as int].1).len(),
    decreases n,
{
    let last = enc_str(es[n - 1].0) + enc(es[n - 1].1);
    assert(enc_entries(es, n) == enc_entries(es, (n - 1) as nat) + last) by {
        assert(enc_entries(es, n) =~= enc_entries(es, (n - 1) as nat) + last);
    }
    lemma_at_split(b, p, enc_entries(es, (n - 1) as nat), last);
    if j < n - 1 {
        lemma_entries_at(b, p, es, (n - 1) as nat, j);
    }
}

/// Binding a key above every key present appends it.
proof fn lemma_map_insert_last(acc: Seq<(Seq<char>, ValueModel)>, k: Seq<char>, v: ValueModel)
    requires
        forall|i: int| 0 <= i < acc.len() ==> key_lt(#[trigger] acc[i].0, k),
    ensures
        map_insert(acc, k, v) == acc.push((k, v)),
    decreases acc.len(),
{
    if acc.len() > 0 {
        let rest = acc.drop_first();
        lemma_key_irreflexive(k);
        lemma_key_asymmetric(acc[0].0, k);
        assert forall|i: int| 0 <= i < rest.len() implies key_lt(#[trigger] rest[i].0, k) by {
            assert(rest[i] == acc[i + 1]);
        }
        lemma_map_insert_last(rest, k, v);
        assert(seq![acc[0]] + rest.push((k, v)) =~= acc.push((k, v)));
    }
}

/// Decoding the encoding of a well-formed value gives the value back and
/// takes exactly its bytes.
pub proof fn lemma_dec_enc(b: Seq<u8>, p: nat, v: ValueModel, canon: bool)
    requires
        v.wf(),
        at(b, p as int, enc(v)),
        b.len() < 0x1_0000_0000_0000_0000,
    ensures
        dec(b, p, canon) == Ok::<(ValueModel, nat), crate::error::DecodeError>((v, enc(v).len())),
    decreases v, 1nat,
{
    let e = enc(v);
    assert(b[p as int] == e[0]);
    let q: int = p as int + 1;
    match v {
        ValueModel::Int(i) => {
            lemma_at_split(b, p as int, seq![e[0]], sleb(i as int));
            lemma_read_sleb(b, q, i, canon);
        },
        ValueModel::Str(t) => {
            assert(e == seq![TAG_STRING] + (uleb(encode_utf8(t).len()) + encode_utf8(t)));
            lemma_at_split(b, p as int, seq![TAG_STRING], uleb(encode_utf8(t).len()) + encode_utf8(t));
            lemma_read_text(b, q, t, canon);
        },
        ValueModel::Bytes(bs) => {
            assert(e == seq![e[0]] + (uleb(bs.len()) + bs));
            lemma_at_split(b, p as int, seq![e[0]], uleb(bs.len()) + bs);
            lemma_read_chunk(b, q, bs, canon);
        },
        ValueModel::List(_) => {
            lemma_dec_enc_list(b, p, v, canon);
        },
        ValueModel::Mapping(_) => {
            lemma_dec_enc_map(b, p, v, canon);
        },
        _ => {},
    }
}

proof fn lemma_dec_enc_list(b: Seq<u8>, p: nat, v: ValueModel, canon: bool)
    requires
        v is List,
        v.wf(),
        at(b, p as int, enc(v)),
        b.len() < 0x1_0000_0000_0000_0000,
    ensures
        dec(b, p, canon) == Ok::<(ValueModel, nat), crate::error::DecodeError>((v, enc(v).len())),
    decreases v, 0nat,
{
    let e = enc(v);
    assert(b[p as int] == e[0]);
    let q: int = p as int + 1;
    let items = v->List_0;
    let n = items.len();
    let body = enc_items(items, n);
    assert(e == seq![e[0]] + uleb(n) + body);
    lemma_at_split(b, p as int, seq![e[0]] + uleb(n), body);
    lemma_at_split(b, p as int, seq![e[0]], uleb(n));
    lemma_enc_items_len(items, n);
    lemma_read_uleb(b, q, n as u64, canon);
    let start = (q + uleb(n).len()) as nat;
    assert(read_count(b, q, canon) == Ok::<(nat, nat), crate::error::DecodeError>(
        (n, uleb(n).len()),
    ));
    lemma_dec_items_enc(b, start, items, 0, canon);
    assert(items.subrange(0, n as int) =~= items);
}

proof fn lemma_dec_enc_map(b: Seq<u8>, p: nat, v: ValueModel, canon: bool)
    requires
        v is Mapping,
        v.wf(),
        at(b, p as int, enc(v)),
        b.len() < 0x1_0000_0000_0000_0000,
    ensures
        dec(b, p, canon) == Ok::<(ValueModel, nat), crate::error::DecodeError>((v, enc(v).len())),
    decreases v, 0nat,
{
    let e = enc(v);
    assert(b[p as int] == e[0]);
    let q: int = p as int + 1;
    let es = v->Mapping_0;
    let n = es.len();
    let body = enc_entries(es, n);
    assert(e == seq![e[0]] + uleb(n) + body);
    lemma_at_split(b, p as int, seq![e[0]] + uleb(n), body);
    lemma_at_split(b, p as int, seq![e[0]], uleb(n));
    lemma_enc_entries_len(es, n);
    lemma_read_uleb(b, q, n as u64, canon);
    let start = (q + uleb(n).len()) as nat;
    assert(read_count(b, q, canon) == Ok::<(nat, nat), crate::error::DecodeError>(
        (n, uleb(n).len()),
    ));
    assert(es.subrange(0, 0) =~= seq![]);
    lemma_dec_entries_enc(b, start, es, 0, canon);
    assert(es.subrange(0, n as int) =~= es);
}

proof fn lemma_dec_items_enc(b: Seq<u8>, p: nat, items: Seq<ValueModel>, j: nat, canon: bool)
    requires
        j <= items.len(),
        forall|i: int| 0 <= i < items.len() ==> (#[trigger] items[i]).wf(),
        at(b, p as int, enc_items(items, items.len())),
        b.len() < 0x1_0000_0000_0000_0000,
    ensures
        dec_items(
            b,
            p + enc_items(items, j).len(),
            (items.len() - j) as nat,
            canon,
        ) == Ok::<(Seq<ValueModel>, nat), crate::error::DecodeError>(
            (
                items.subrange(j as int, items.len() as int),
                (enc_items(items, items.len()).len() - enc_items(items, j).len()) as nat,
            ),
        ),
    decreases items, items.len() - j,
{
    let n = items.len();
    if j < n {
        lemma_items_at(b, p as int, items, n, j);
        assert(decreases_to!(items => items[j as int]));
        lemma_dec_enc(b, p + enc_items(items, j).len(), items[j as int], canon);
        lemma_dec_items_enc(b, p, items, j + 1, canon);
        lemma_enc_items_mono(items, j + 1, n);
        let here = p + enc_items(items, j).len();
        let len_j = enc(items[j as int]).len();
        assert(here + len_j == p + enc_items(items, j + 1).len());
        assert(dec_items(b, here, (n - j) as nat, canon) == match dec_items(
            b,
            here + len_j,
            (n - j - 1) as nat,
            canon,
        ) {
            Ok((vs, c2)) => Ok::<(Seq<ValueModel>, nat), crate::error::DecodeError>(
                (seq![items[j as int]] + vs, len_j + c2),
            ),
            Err(x) => Err(x),
        });
        assert(seq![items[j as int]] + items.subrange(j as int + 1, n as int) =~= items.subrange(
            j as int,
            n as int,
        ));
    } else {
        assert(items.subrange(j as int, n as int) =~= seq![]);
    }
}

proof fn lemma_entry_key(b: Seq<u8>, pos: int, k: Seq<char>, v: ValueModel, canon: bool)
    requires
        at(b, pos, enc_str(k) + enc(v)),
        b.len() < 0x1_0000_0000_0000_0000,
    ensures
        pos < b.len(),
        b[pos] == TAG_STRING,
        read_text(b, pos + 1, canon) == Ok::<(Seq<char>, nat), crate::error::DecodeError>(
            (k, (enc_str(k).len() - 1) as nat),
        ),
        at(b, pos + enc_str(k).len(), enc(v)),
{
    lemma_at_split(b, pos, enc_str(k), enc(v));
    let ks = enc_str(k);
    let tail = uleb(encode_utf8(k).len()) + encode_utf8(k);
    assert(ks =~= seq![TAG_STRING] + tail);
    lemma_at_split(b, pos, seq![TAG_STRING], tail);
    assert(b.subrange(pos, pos + 1)[0] == b[pos]);
    lemma_read_text(b, pos + 1, k, canon);
}

#[verifier::rlimit(40)]
proof fn lemma_dec_entries_enc(
    b: Seq<u8>,
    p: nat,
    es: Seq<(Seq<char>, ValueModel)>,
    j: nat,
    canon: bool,
)
    requires
        j <= es.len(),
        keys_sorted(es),
        forall|i: int| 0 <= i < es.len() ==> (#[trigger] es[i]).1.wf(),
        at(b, p as int, enc_entries(es, es.len())),
        b.len() < 0x1_0000_0000_0000_0000,
    ensures
        dec_entries(
            b,
            p + enc_entries(es, j).len(),
            (es.len() - j) as nat,
            es.subrange(0, j as int),
            canon,
        ) == Ok::<(Seq<(Seq<char>, ValueModel)>, nat), crate::error::DecodeError>(
            (es, (enc_entries(es, es.len()).len() - enc_entries(es, j).len()) as nat),
        ),
    decreases es, es.len() - j,
{
    let n = es.len();
    if j < n {
        let pos: int = p as int + enc_entries(es, j).len();
        let (k, v) = es[j as int];
        lemma_entries_at(b, p as int, es, n, j);
        let ks = enc_str(k);
        lemma_entry_key(b, pos, k, v, canon);
        let acc = es.subrange(0, j as int);
        assert forall|i: int| 0 <= i < acc.len() implies key_lt(#[trigger] acc[i].0, k) by {
            assert(acc[i] == es[i]);
        }
        lemma_map_insert_last(acc, k, v);
        assert(acc.push((k, v)) =~= es.subrange(0, j as int + 1));
        assert(decreases_to!(es => es[j as int]));
        assert(decreases_to!(es[j as int] => es[j as int].1));
        lemma_dec_enc(b, (pos + ks.len()) as nat, v, canon);
        lemma_dec_entries_enc(b, p, es, j + 1, canon);
        lemma_enc_entries_mono(es, j + 1, n);
    } else {
        assert(es.subrange(0, j as int) =~= es);
    }
}

/// Round trip: decoding the canonical encoding of a well-formed value
/// gives the value back, also under the stricter canonical reading.
pub proof fn lemma_round_trip(v: ValueModel)
    requires
        v.wf(),
        enc(v).len() <= usize::MAX,
    ensures
        decode_spec(enc(v), false) == Ok::<ValueModel, crate::error::DecodeError>(v),
        decode_spec(enc(v), true) == Ok::<ValueModel, crate::error::DecodeError>(v),
{
    let b = enc(v);
    assert(b.subrange(0, b.len() as int) =~= b);
    lemma_dec_enc(b, 0, v, false);
    lemma_dec_enc(b, 0, v, true);
}

/// Distinct well-formed values have distinct encodings, so the hash of
/// two different values is taken over different bytes.
pub proof fn lemma_encode_injective(a: ValueModel, b: ValueModel)
    requires
        a.wf(),
        b.wf(),
        enc(a) == enc(b),
        enc(a).len() <= usize::MAX,
    ensures
        a == b,
{
    lemma_round_trip(a);
    lemma_round_trip(b);
}

/// Encoding is a function of the value: equal values encode to the same
/// bytes, map entries included, which are always in ascending key order.
pub proof fn lemma_encode_deterministic(a: ValueModel, b: ValueModel)
    requires
        a == b,
    ensures
        enc(a) == enc(b),
{
}

proof fn lemma_at_join(b: Seq<u8>, p: int, x: Seq<u8>, y: Seq<u8>)
    requires
        at(b, p, x),
        at(b, p + x.len(), y),
    ensures
        at(b, p, x + y),
{
    assert(b.subrange(p, p + (x + y).len()) =~= b.subrange(p, p + x.len()) + b.subrange(
        p + x.len(),
        p + x.len() + y.len(),
    ));
}

proof fn lemma_uleb_groups_bounds(b: Seq<u8>, q: int, k: nat)
    ensures
        uleb_groups(b, q, k) matches Ok((v, c)) ==> 0 <= q && q + c <= b.len() && c >= 1,
    decreases 9 - k,
{
    if 0 <= q < b.len() && b[q] >= 128 && k < 9 {
        lemma_uleb_groups_bounds(b, q + 1, k + 1);
    }
}

proof fn lemma_sleb_groups_bounds(b: Seq<u8>, q: int, k: nat)
    requires
        k <= 9,
    ensures
        sleb_groups(b, q, k) matches Ok((v, c)) ==> 0 <= q && q + c <= b.len() && c >= 1 && -pow128(
            (9 - k) as nat,
        ) <= v < pow128((9 - k) as nat),
    decreases 9 - k,
{
    reveal_with_fuel(pow128, 2);
    if 0 <= q < b.len() {
        if b[q] >= 128 && k < 9 {
            lemma_sleb_groups_bounds(b, q + 1, k + 1);
            assert(pow128((9 - k) as nat) == 128 * pow128((9 - (k + 1)) as nat));
        } else if b[q] < 128 && k < 9 {
            assert(pow128((9 - k) as nat) >= 128) by {
                assert(pow128((9 - k) as nat) == 128 * pow128((9 - (k + 1)) as nat));
                assert(pow128((9 - (k + 1)) as nat) >= 1) by {
                    lemma_pow128_pos((9 - (k + 1)) as nat);
                }
            }
        }
    }
}

proof fn lemma_pow128_pos(k: nat)
    ensures
        pow128(k) >= 1,
    decreases k,
{
    if k > 0 {
        lemma_pow128_pos((k - 1) as nat);
    }
}

proof fn lemma_uleb_canon(b: Seq<u8>, q: int)
    requires
        read_uleb(b, q, true) is Ok,
    ensures
        read_uleb(b, q, false) == read_uleb(b, q, true),
        at(b, q, uleb(read_uleb(b, q, true)->Ok_0.0 as nat)),
        read_uleb(b, q, true)->Ok_0.1 == uleb(read_uleb(b, q, true)->Ok_0.0 as nat).len(),
{
    lemma_uleb_groups_bounds(b, q, 0);
}

proof fn lemma_sleb_canon(b: Seq<u8>, q: int)
    requires
        read_sleb(b, q, true) is Ok,
    ensures
        read_sleb(b, q, false) == read_sleb(b, q, true),
        at(b, q, sleb(read_sleb(b, q, true)->Ok_0.0 as int)),
        read_sleb(b, q, true)->Ok_0.1 == sleb(read_sleb(b, q, true)->Ok_0.0 as int).len(),
{
    lemma_sleb_groups_bounds(b, q, 0);
    assert(pow128(9) == 0x8000_0000_0000_0000) by {
        reveal_with_fuel(pow128, 10);
    }
}

proof fn lemma_text_canon(b: Seq<u8>, q: int)
    requires
        read_text(b, q, true) is Ok,
    ensures
        read_text(b, q, false) == read_text(b, q, true),
        ({
            let (t, c) = read_text(b, q, true)->Ok_0;
            let x = uleb(encode_utf8(t).len()) + encode_utf8(t);
            at(b, q, x) && c == x.len()
        }),
{
    lemma_uleb_canon(b, q);
    let (n, c0) = read_uleb(b, q, true)->Ok_0;
    let e = q + c0;
    let bs = b.subrange(e, e + n);
    assert(encode_utf8(decode_utf8(bs)) == bs);
    assert(at(b, e, bs));
    lemma_at_join(b, q, uleb(n as nat), bs);
}

proof fn lemma_chunk_canon(b: Seq<u8>, q: int)
    requires
        read_chunk(b, q, true) is Ok,
    ensures
        read_chunk(b, q, false) == read_chunk(b, q, true),
        ({
            let (bs, c) = read_chunk(b, q, true)->Ok_0;
            let x = uleb(bs.len()) + bs;
            at(b, q, x) && c == x.len()
        }),
{
    lemma_uleb_canon(b, q);
    let (n, c0) = read_uleb(b, q, true)->Ok_0;
    let e = q + c0;
    let bs = b.subrange(e, e + n);
    assert(at(b, e, bs));
    lemma_at_join(b, q, uleb(n as nat), bs);
}

proof fn lemma_enc_items_cons(v: ValueModel, vs: Seq<ValueModel>, k: nat)
    requires
        k <= vs.len(),
    ensures
        enc_items(seq![v] + vs, k + 1) == enc(v) + enc_items(vs, k),
    decreases k,
{
    let s = seq![v] + vs;
    if k == 0 {
        assert(enc_items(s, 1) == enc_items(s, 0) + enc(s[0]));
        assert(enc_items(s, 1) =~= enc(v) + enc_items(vs, 0));
    } else {
        lemma_enc_items_cons(v, vs, (k - 1) as nat);
        assert(s[k as int] == vs[k - 1]);
        assert(enc_items(s, k + 1) =~= enc(v) + enc_items(vs, k));
    }
}

proof fn lemma_enc_entries_prefix(a: Seq<(Seq<char>, ValueModel)>, b: Seq<(Seq<char>, ValueModel)>, n: nat)
    requires
        n <= a.len(),
        n <= b.len(),
        a.subrange(0, n as int) == b.subrange(0, n as int),
    ensures
        enc_entries(a, n) == enc_entries(b, n),
    decreases n,
{
    if n > 0 {
        assert(a[n - 1] == a.subrange(0, n as int)[n - 1]);
        assert(b[n - 1] == b.subrange(0, n as int)[n - 1]);
        assert(a.subrange(0, n - 1) =~= a.subrange(0, n as int).subrange(0, n - 1));
        assert(b.subrange(0, n - 1) =~= b.subrange(0, n as int).subrange(0, n - 1));
        lemma_enc_entries_prefix(a, b, (n - 1) as nat);
    }
}

/// What the canonical reading accepts at `p` is the encoding of a
/// well-formed value, and the ordinary reading gives the same.
pub proof fn lemma_enc_dec(b: Seq<u8>, p: nat)
    requires
        dec(b, p, true) is Ok,
    ensures
        dec(b, p, false) == dec(b, p, true),
        ({
            let (v, c) = dec(b, p, true)->Ok_0;
            at(b, p as int, enc(v)) && c == enc(v).len() && v.wf()
        }),
    decreases rem(b, p), 0nat,
{
    let tag = b[p as int];
    let q: int = p as int + 1;
    let (v, c) = dec(b, p, true)->Ok_0;
    assert(at(b, p as int, seq![tag])) by {
        assert(b.subrange(p as int, p as int + 1) =~= seq![tag]);
    }
    if tag == 0x10 {
        lemma_sleb_canon(b, q);
        lemma_at_join(b, p as int, seq![tag], sleb(v->Int_0 as int));
    } else if tag == 0x20 {
        lemma_text_canon(b, q);
        let t = v->Str_0;
        lemma_at_join(b, p as int, seq![tag], uleb(encode_utf8(t).len()) + encode_utf8(t));
        assert(enc(v) =~= seq![tag] + (uleb(encode_utf8(t).len()) + encode_utf8(t)));
    } else if tag == 0x21 {
        lemma_chunk_canon(b, q);
        let bs = v->Bytes_0;
        lemma_at_join(b, p as int, seq![tag], uleb(bs.len()) + bs);
        assert(enc(v) =~= seq![tag] + (uleb(bs.len()) + bs));
    } else if tag == 0x30 {
        lemma_uleb_canon(b, q);
        let (n, c0) = read_count(b, q, true)->Ok_0;
        let e = (q + c0) as nat;
        lemma_items_canon(b, e, n);
        let items = v->List_0;
        lemma_at_join(b, p as int, seq![tag], uleb(n));
        lemma_at_join(b, p as int, seq![tag] + uleb(n), enc_items(items, items.len()));
    } else if tag == 0x40 {
        lemma_uleb_canon(b, q);
        let (n, c0) = read_count(b, q, true)->Ok_0;
        let e = (q + c0) as nat;
        lemma_entries_canon(b, e, n, seq![]);
        let es = v->Mapping_0;
        let (_, c2) = dec_entries(b, e, n, seq![], true)->Ok_0;
        assert(enc_entries(es, es.len()) =~= b.subrange(e as int, e as int + c2));
        assert(at(b, e as int, enc_entries(es, es.len())));
        lemma_at_join(b, p as int, seq![tag], uleb(n));
        lemma_at_join(b, p as int, seq![tag] + uleb(n), enc_entries(es, es.len()));
    }
}

proof fn lemma_items_canon(b: Seq<u8>, p: nat, n: nat)
    requires
        dec_items(b, p, n, true) is Ok,
        p <= b.len(),
    ensures
        dec_items(b, p, n, false) == dec_items(b, p, n, true),
        ({
            let (vs, c) = dec_items(b, p, n, true)->Ok_0;
            &&& vs.len() == n
            &&& at(b, p as int, enc_items(vs, n))
            &&& c == enc_items(vs, n).len()
            &&& forall|i: int| 0 <= i < vs.len() ==> (#[trigger] vs[i]).wf()
        }),
    decreases rem(b, p), n + 1,
{
    if n == 0 {
        assert(b.subrange(p as int, p as int) =~= seq![]);
    } else {
        lemma_enc_dec(b, p);
        let (v, c) = dec(b, p, true)->Ok_0;
        lemma_items_canon(b, p + c, (n - 1) as nat);
        let (vs, c2) = dec_items(b, p + c, (n - 1) as nat, true)->Ok_0;
        lemma_enc_items_cons(v, vs, (n - 1) as nat);
        lemma_at_join(b, p as int, enc(v), enc_items(vs, (n - 1) as nat));
        let all = seq![v] + vs;
        assert forall|i: int| 0 <= i < all.len() implies (#[trigger] all[i]).wf() by {
            if i > 0 {
                assert(all[i] == vs[i - 1]);
            }
        }
    }
}

proof fn lemma_entry_bytes(b: Seq<u8>, p: int, k: Seq<char>, v: ValueModel)
    requires
        0 <= p < b.len(),
        b[p] == TAG_STRING,
        at(b, p + 1, uleb(encode_utf8(k).len()) + encode_utf8(k)),
        at(b, p + enc_str(k).len(), enc(v)),
    ensures
        at(b, p, enc_str(k) + enc(v)),
{
    let kx = uleb(encode_utf8(k).len()) + encode_utf8(k);
    assert(at(b, p, seq![TAG_STRING])) by {
        assert(b.subrange(p, p + 1) =~= seq![TAG_STRING]);
    }
    lemma_at_join(b, p, seq![TAG_STRING], kx);
    assert(enc_str(k) =~= seq![TAG_STRING] + kx);
    lemma_at_join(b, p, enc_str(k), enc(v));
}

/// Appending an entry whose key is above every key so far.
proof fn lemma_acc_step(acc: Seq<(Seq<char>, ValueModel)>, k: Seq<char>, v: ValueModel)
    requires
        keys_sorted(acc),
        forall|i: int| 0 <= i < acc.len() ==> (#[trigger] acc[i]).1.wf(),
        v.wf(),
        acc.len() > 0 ==> key_lt(acc.last().0, k),
    ensures
        map_insert(acc, k, v) == acc.push((k, v)),
        keys_sorted(acc.push((k, v))),
        forall|i: int| 0 <= i < acc.len() + 1 ==> (#[trigger] acc.push((k, v))[i]).1.wf(),
        enc_entries(acc.push((k, v)), acc.len() + 1) == enc_entries(acc, acc.len()) + enc_str(k)
            + enc(v),
        acc.push((k, v)).subrange(0, acc.len() as int) == acc,
{
    assert forall|i: int| 0 <= i < acc.len() implies key_lt(#[trigger] acc[i].0, k) by {
        if i < acc.len() - 1 {
            lemma_key_transitive(acc[i].0, acc[acc.len() - 1].0, k);
        }
    }
    lemma_map_insert_last(acc, k, v);
    let acc2 = acc.push((k, v));
    assert forall|i: int| 0 <= i < acc2.len() implies (#[trigger] acc2[i]).1.wf() by {
        if i < acc.len() {
            assert(acc2[i] == acc[i]);
        }
    }
    assert(acc2.subrange(0, acc.len() as int) =~= acc);
    assert(acc.subrange(0, acc.len() as int) =~= acc);
    lemma_enc_entries_prefix(acc2, acc, acc.len());
}

#[verifier::rlimit(60)]
proof fn lemma_entries_canon(b: Seq<u8>, p: nat, n: nat, acc: Seq<(Seq<char>, ValueModel)>)
    requires
        dec_entries(b, p, n, acc, true) is Ok,
        p <= b.len(),
        keys_sorted(acc),
        forall|i: int| 0 <= i < acc.len() ==> (#[trigger] acc[i]).1.wf(),
    ensures
        dec_entries(b, p, n, acc, false) == dec_entries(b, p, n, acc, true),
        ({
            let (es, c) = dec_entries(b, p, n, acc, true)->Ok_0;
            &&& p + c <= b.len()
            &&& es.len() == acc.len() + n
            &&& es.subrange(0, acc.len() as int) == acc
            &&& keys_sorted(es)
            &&& forall|i: int| 0 <= i < es.len() ==> (#[trigger] es[i]).1.wf()
            &&& enc_entries(es, es.len()) == enc_entries(acc, acc.len()) + b.subrange(
                p as int,
                p as int + c,
            )
        }),
    decreases rem(b, p), 0nat,
{
    if n == 0 {
        assert(enc_entries(acc, acc.len()) =~= enc_entries(acc, acc.len()) + b.subrange(
            p as int,
            p as int,
        ));
        assert(acc.subrange(0, acc.len() as int) =~= acc);
    } else {
        lemma_text_canon(b, p as int + 1);
        let (k, c1) = read_text(b, p as int + 1, true)->Ok_0;
        let pv = (p + 1 + c1) as nat;
        lemma_enc_dec(b, pv);
        let (v, c2) = dec(b, pv, true)->Ok_0;
        lemma_acc_step(acc, k, v);
        let acc2 = acc.push((k, v));
        let rest_at = (pv + c2) as nat;
        lemma_entries_canon(b, rest_at, (n - 1) as nat, acc2);
        let (es, c3) = dec_entries(b, rest_at, (n - 1) as nat, acc2, true)->Ok_0;
        assert(es.subrange(0, acc.len() as int) =~= es.subrange(0, acc2.len() as int).subrange(
            0,
            acc.len() as int,
        ));
        lemma_entry_bytes(b, p as int, k, v);
        let x = enc_str(k) + enc(v);
        assert(b.subrange(p as int, p as int + 1 + c1 + c2 + c3) =~= x + b.subrange(
            rest_at as int,
            rest_at as int + c3,
        ));
    }
}

/// Canonicality: an input that decodes with every varint in its shortest
/// form and every map's keys in ascending order is exactly the encoding
/// of the value it decodes to, and the ordinary reading agrees.
pub proof fn lemma_canonical(b: Seq<u8>)
    requires
        decode_spec(b, true) is Ok,
    ensures
        decode_spec(b, false) == decode_spec(b, true),
        enc(decode_spec(b, true)->Ok_0) == b,
        (decode_spec(b, true)->Ok_0).wf(),
{
    lemma_enc_dec(b, 0);
    let (v, c) = dec(b, 0, true)->Ok_0;
    assert(b.subrange(0, b.len() as int) =~= b);
}

proof fn lemma_uleb_offsets(b: Seq<u8>, q: int, canon: bool)
    requires
        0 <= q <= b.len(),
        b.len() <= usize::MAX,
    ensures
        read_uleb(b, q, canon) matches Ok((x, c)) ==> q + c <= b.len(),
        read_uleb(b, q, canon) matches Err(e) ==> e.offset <= b.len(),
{
    lemma_uleb_groups_bounds(b, q, 0);
    lemma_uleb_groups_err(b, q, 0);
}

proof fn lemma_uleb_groups_err(b: Seq<u8>, q: int, k: nat)
    requires
        0 <= q <= b.len(),
        b.len() <= usize::MAX,
    ensures
        uleb_groups(b, q, k) matches Err(e) ==> e.offset <= b.len(),
    decreases 9 - k,
{
    if q < b.len() && b[q] >= 128 && k < 9 {
        lemma_uleb_groups_err(b, q + 1, k + 1);
    }
}

proof fn lemma_sleb_groups_err(b: Seq<u8>, q: int, k: nat)
    requires
        0 <= q <= b.len(),
        b.len() <= usize::MAX,
    ensures
        sleb_groups(b, q, k) matches Err(e) ==> e.offset <= b.len(),
    decreases 9 - k,
{
    if q < b.len() && b[q] >= 128 && k < 9 {
        lemma_sleb_groups_err(b, q + 1, k + 1);
    }
}

proof fn lemma_text_offsets(b: Seq<u8>, q: int, canon: bool)
    requires
        0 <= q <= b.len(),
        b.len() <= usize::MAX,
    ensures
        read_chunk(b, q, canon) matches Ok((x, c)) ==> q + c <= b.len(),
        read_chunk(b, q, canon) matches Err(e) ==> e.offset <= b.len(),
        read_text(b, q, canon) matches Ok((x, c)) ==> q + c <= b.len(),
        read_text(b, q, canon) matches Err(e) ==> e.offset <= b.len(),
        read_count(b, q, canon) matches Ok((n, c)) ==> q + c + n <= b.len(),
        read_count(b, q, canon) matches Err(e) ==> e.offset <= b.len(),
        read_text(b, q, canon) matches Ok((t, c)) ==> encode_utf8(t).len() <= c,
{
    lemma_uleb_offsets(b, q, canon);
    if read_chunk(b, q, canon) is Ok {
        let (bs, c) = read_chunk(b, q, canon)->Ok_0;
        lemma_valid_prefix_len(bs, bs.len() as int);
        if valid_utf8(bs) {
            assert(encode_utf8(decode_utf8(bs)) == bs);
        }
    }
}

proof fn lemma_common_len(a: Seq<u8>, b: Seq<u8>, i: int)
    requires
        0 <= i,
    ensures
        i <= common_len(a, b, i),
    decreases a.len() - i,
{
    if i < a.len() && i < b.len() && a[i] == b[i] {
        lemma_common_len(a, b, i + 1);
    }
}

/// Bounds on what decoding from `p` reports: a value ends within the
/// input, and an error's offset lies within it.
proof fn lemma_dec_offsets(b: Seq<u8>, p: nat, canon: bool)
    requires
        p <= b.len(),
        b.len() <= usize::MAX,
    ensures
        dec(b, p, canon) matches Ok((v, c)) ==> p + c <= b.len(),
        dec(b, p, canon) matches Err(e) ==> e.offset <= b.len(),
    decreases rem(b, p), 0nat,
{
    if p < b.len() {
        let q: int = p as int + 1;
        let tag = b[p as int];
        if tag == 0x10 {
            lemma_sleb_groups_bounds(b, q, 0);
            lemma_sleb_groups_err(b, q, 0);
        } else if tag == 0x20 || tag == 0x21 {
            lemma_text_offsets(b, q, canon);
        } else if tag == 0x30 {
            lemma_text_offsets(b, q, canon);
            if read_count(b, q, canon) is Ok {
                let (n, c) = read_count(b, q, canon)->Ok_0;
                lemma_items_offsets(b, (q + c) as nat, n, canon);
            }
        } else if tag == 0x40 {
            lemma_text_offsets(b, q, canon);
            if read_count(b, q, canon) is Ok {
                let (n, c) = read_count(b, q, canon)->Ok_0;
                lemma_entries_offsets(b, (q + c) as nat, n, seq![], canon);
            }
        }
    }
}

proof fn lemma_items_offsets(b: Seq<u8>, p: nat, n: nat, canon: bool)
    requires
        p <= b.len(),
        b.len() <= usize::MAX,
    ensures
        dec_items(b, p, n, canon) matches Ok((v, c)) ==> p + c <= b.len(),
        dec_items(b, p, n, canon) matches Err(e) ==> e.offset <= b.len(),
    decreases rem(b, p), n + 1,
{
    if n > 0 {
        lemma_dec_offsets(b, p, canon);
        if dec(b, p, canon) is Ok {
            let (v, c) = dec(b, p, canon)->Ok_0;
            lemma_items_offsets(b, p + c, (n - 1) as nat, canon);
        }
    }
}

proof fn lemma_entries_offsets(
    b: Seq<u8>,
    p: nat,
    n: nat,
    acc: Seq<(Seq<char>, ValueModel)>,
    canon: bool,
)
    requires
        p <= b.len(),
        b.len() <= usize::MAX,
    ensures
        dec_entries(b, p, n, acc, canon) matches Ok((v, c)) ==> p + c <= b.len(),
        dec_entries(b, p, n, acc, canon) matches Err(e) ==> e.offset <= b.len(),
    decreases rem(b, p), 0nat,
{
    if n > 0 && p < b.len() && b[p as int] == TAG_STRING {
        lemma_text_offsets(b, p as int + 1, canon);
        if read_text(b, p as int + 1, canon) is Ok {
            let (k, c1) = read_text(b, p as int + 1, canon)->Ok_0;
            if acc.len() > 0 {
                lemma_common_len(encode_utf8(acc.last().0), encode_utf8(k), 0);
            }
            let pv = (p + 1 + c1) as nat;
            lemma_dec_offsets(b, pv, canon);
            if dec(b, pv, canon) is Ok {
                let (v, c2) = dec(b, pv, canon)->Ok_0;
                lemma_entries_offsets(b, pv + c2, (n - 1) as nat, map_insert(acc, k, v), canon);
            }
        }
    }
}

/// A rejected input is rejected at an offset within it, in the canonical
/// reading and in the lenient one.
pub proof fn lemma_error_offset(b: Seq<u8>)
    requires
        b.len() <= usize::MAX,
    ensures
        decode_spec(b, true) matches Err(e) ==> e.offset <= b.len(),
        decode_spec(b, false) matches Err(e) ==> e.offset <= b.len(),
{
    lemma_dec_offsets(b, 0, true);
    lemma_dec_offsets(b, 0, false);
}

/// Looking up after binding `k` to `v`: `v` for `k`, as before for every
/// other key.
pub proof fn lemma_map_get_insert(
    es: Seq<(Seq<char>, ValueModel)>,
    k: Seq<char>,
    v: ValueModel,
    k2: Seq<char>,
)
    ensures
        map_get(map_insert(es, k, v), k2) == if k2 == k {
            Some(v)
        } else {
            map_get(es, k2)
        },
    decreases es.len(),
{
    let r = map_insert(es, k, v);
    if es.len() == 0 {
        assert(r[0] == (k, v));
        assert(r.drop_first() =~= es);
    } else if es[0].0 == k {
        assert(r[0] == (k, v));
        assert(r.drop_first() =~= es.drop_first());
    } else if key_lt(k, es[0].0) {
        assert(r[0] == (k, v));
        assert(r.drop_first() =~= es);
    } else {
        lemma_map_get_insert(es.drop_first(), k, v, k2);
        assert(r[0] == es[0]);
        assert(r.drop_first() =~= map_insert(es.drop_first(), k, v));
    }
}

proof fn lemma_map_get_found(es: Seq<(Seq<char>, ValueModel)>, k: Seq<char>, j: int)
    requires
        keys_sorted(es),
        0 <= j < es.len(),
        es[j].0 == k,
    ensures
        map_get(es, k) == Some(es[j].1),
    decreases es.len(),
{
    if j > 0 {
        if es[0].0 == k {
            lemma_key_irreflexive(k);
        }
        let t = es.drop_first();
        assert(t[j - 1] == es[j]);
        lemma_map_get_found(t, k, j - 1);
    }
}

proof fn lemma_map_get_some(es: Seq<(Seq<char>, ValueModel)>, k: Seq<char>)
    requires
        map_get(es, k) is Some,
    ensures
        exists|j: int| 0 <= j < es.len() && es[j].0 == k,
    decreases es.len(),
{
    if es[0].0 != k {
        let t = es.drop_first();
        lemma_map_get_some(t, k);
        let j = choose|j: int| 0 <= j < t.len() && t[j].0 == k;
        assert(es[j + 1] == t[j]);
    }
}

/// Entries in ascending key order are fixed by what they bind: two such
/// sequences that agree on every lookup are the same, and so are their
/// encodings.
pub proof fn lemma_same_bindings(a: Seq<(Seq<char>, ValueModel)>, b: Seq<(Seq<char>, ValueModel)>)
    requires
        keys_sorted(a),
        keys_sorted(b),
        forall|k: Seq<char>| map_get(a, k) == map_get(b, k),
    ensures
        a == b,
        enc(ValueModel::Mapping(a)) == enc(ValueModel::Mapping(b)),
    decreases a.len() + b.len(),
{
    if a.len() == 0 && b.len() == 0 {
        assert(a =~= b);
    } else if a.len() == 0 {
        lemma_map_get_found(b, b[0].0, 0);
        assert(map_get(a, b[0].0) is None);
    } else if b.len() == 0 {
        lemma_map_get_found(a, a[0].0, 0);
        assert(map_get(b, a[0].0) is None);
    } else {
        let ka = a[0].0;
        let kb = b[0].0;
        lemma_map_get_found(a, ka, 0);
        lemma_map_get_found(b, kb, 0);
        assert(map_get(b, ka) is Some);
        assert(map_get(a, kb) is Some);
        lemma_map_get_some(b, ka);
        lemma_map_get_some(a, kb);
        let jb = choose|j: int| 0 <= j < b.len() && b[j].0 == ka;
        let ja = choose|j: int| 0 <= j < a.len() && a[j].0 == kb;
        if ka != kb {
            if jb > 0 && ja > 0 {
                lemma_key_asymmetric(kb, ka);
            }
        }
        assert(ka == kb);
        assert(a[0] == b[0]);
        let ta = a.drop_first();
        let tb = b.drop_first();
        assert forall|k: Seq<char>| map_get(ta, k) == map_get(tb, k) by {
            if k == ka {
                assert forall|j: int| 0 <= j < ta.len() implies (#[trigger] ta[j]).0 != k by {
                    assert(ta[j] == a[j + 1]);
                    lemma_key_irreflexive(k);
                }
                assert forall|j: int| 0 <= j < tb.len() implies (#[trigger] tb[j]).0 != k by {
                    assert(tb[j] == b[j + 1]);
                    lemma_key_irreflexive(k);
                }
                crate::value::lemma_map_get_absent(ta, k);
                crate::value::lemma_map_get_absent(tb, k);
            } else {
                assert(map_get(a, k) == map_get(b, k));
            }
        }
        lemma_same_bindings(ta, tb);
        assert(a =~= seq![a[0]] + ta);
        assert(b =~= seq![b[0]] + tb);
    }
}

/// Binding two different keys gives the same map in either order.
pub proof fn lemma_insert_commutes(
    es: Seq<(Seq<char>, ValueModel)>,
    k1: Seq<char>,
    v1: ValueModel,
    k2: Seq<char>,
    v2: ValueModel,
)
    requires
        keys_sorted(es),
        k1 != k2,
    ensures
        map_insert(map_insert(es, k1, v1), k2, v2) == map_insert(map_insert(es, k2, v2), k1, v1),
{
    lemma_map_insert_sorted(es, k1, v1);
    lemma_map_insert_sorted(es, k2, v2);
    lemma_map_insert_sorted(map_insert(es, k1, v1), k2, v2);
    lemma_map_insert_sorted(map_insert(es, k2, v2), k1, v1);
    let a = map_insert(map_insert(es, k1, v1), k2, v2);
    let b = map_insert(map_insert(es, k2, v2), k1, v1);
    assert forall|k: Seq<char>| map_get(a, k) == map_get(b, k) by {
        lemma_map_get_insert(map_insert(es, k1, v1), k2, v2, k);
        lemma_map_get_insert(es, k1, v1, k);
        lemma_map_get_insert(map_insert(es, k2, v2), k1, v1, k);
        lemma_map_get_insert(es, k2, v2, k);
    }
    lemma_same_bindings(a, b);
}

/// Binding a key twice leaves only the later value: the last write wins.
pub proof fn lemma_insert_overwrites(
    es: Seq<(Seq<char>, ValueModel)>,
    k: Seq<char>,
    v1: ValueModel,
    v2: ValueModel,
)
    requires
        keys_sorted(es),
    ensures
        map_insert(map_insert(es, k, v1), k, v2) == map_insert(es, k, v2),
{
    lemma_map_insert_sorted(es, k, v1);
    lemma_map_insert_sorted(es, k, v2);
    lemma_map_insert_sorted(map_insert(es, k, v1), k, v2);
    let a = map_insert(map_insert(es, k, v1), k, v2);
    let b = map_insert(es, k, v2);
    assert forall|k2: Seq<char>| map_get(a, k2) == map_get(b, k2) by {
        lemma_map_get_insert(map_insert(es, k, v1), k, v2, k2);
        lemma_map_get_insert(es, k, v1, k2);
        lemma_map_get_insert(es, k, v2, k2);
    }
    lemma_same_bindings(a, b);
}

pub proof fn lemma_insert_wf(acc: Seq<(Seq<char>, ValueModel)>, k: Seq<char>, v: ValueModel)
    requires
        keys_sorted(acc),
        forall|i: int| 0 <= i < acc.len() ==> (#[trigger] acc[i]).1.wf(),
        v.wf(),
    ensures
        keys_sorted(map_insert(acc, k, v)),
        forall|i: int|
            0 <= i < map_insert(acc, k, v).len() ==> (#[trigger] map_insert(acc, k, v)[i]).1.wf(),
{
    lemma_map_insert_sorted(acc, k, v);
    let r = map_insert(acc, k, v);
    assert forall|i: int| 0 <= i < r.len() implies (#[trigger] r[i]).1.wf() by {
        if r[i] != (k, v) {
            let l = choose|l: int| 0 <= l < acc.len() && acc[l] == r[i];
        }
    }
}

proof fn lemma_dec_wf(b: Seq<u8>, p: nat, canon: bool)
    ensures
        dec(b, p, canon) matches Ok((v, c)) ==> v.wf(),
    decreases rem(b, p), 0nat,
{
    if p < b.len() {
        let q: int = p as int + 1;
        let tag = b[p as int];
        if tag == 0x30 && read_count(b, q, canon) is Ok {
            let (n, c) = read_count(b, q, canon)->Ok_0;
            lemma_uleb_groups_bounds(b, q, 0);
            lemma_items_wf(b, (q + c) as nat, n, canon);
        } else if tag == 0x40 && read_count(b, q, canon) is Ok {
            let (n, c) = read_count(b, q, canon)->Ok_0;
            lemma_uleb_groups_bounds(b, q, 0);
            lemma_entries_wf(b, (q + c) as nat, n, seq![], canon);
        }
    }
}

proof fn lemma_items_wf(b: Seq<u8>, p: nat, n: nat, canon: bool)
    ensures
        dec_items(b, p, n, canon) matches Ok((vs, c)) ==> forall|i: int|
            0 <= i < vs.len() ==> (#[trigger] vs[i]).wf(),
    decreases rem(b, p), n + 1,
{
    if n > 0 {
        lemma_dec_wf(b, p, canon);
        if dec(b, p, canon) is Ok {
            let (v, c) = dec(b, p, canon)->Ok_0;
            lemma_items_wf(b, p + c, (n - 1) as nat, canon);
            if dec_items(b, p + c, (n - 1) as nat, canon) is Ok {
                let (vs, c2) = dec_items(b, p + c, (n - 1) as nat, canon)->Ok_0;
                let all = seq![v] + vs;
                assert forall|i: int| 0 <= i < all.len() implies (#[trigger] all[i]).wf() by {
                    if i > 0 {
                        assert(all[i] == vs[i - 1]);
                    }
                }
            }
        }
    }
}

proof fn lemma_entries_wf(
    b: Seq<u8>,
    p: nat,
    n: nat,
    acc: Seq<(Seq<char>, ValueModel)>,
    canon: bool,
)
    requires
        keys_sorted(acc),
        forall|i: int| 0 <= i < acc.len() ==> (#[trigger] acc[i]).1.wf(),
    ensures
        dec_entries(b, p, n, acc, canon) matches Ok((es, c)) ==> ValueModel::Mapping(es).wf(),
    decreases rem(b, p), 0nat,
{
    if n > 0 && p < b.len() && b[p as int] == TAG_STRING && read_text(b, p as int + 1, canon) is Ok {
        let (k, c1) = read_text(b, p as int + 1, canon)->Ok_0;
        let pv = (p + 1 + c1) as nat;
        lemma_dec_wf(b, pv, canon);
        if dec(b, pv, canon) is Ok {
            let (v, c2) = dec(b, pv, canon)->Ok_0;
            lemma_insert_wf(acc, k, v);
            lemma_entries_wf(b, pv + c2, (n - 1) as nat, map_insert(acc, k, v), canon);
        }
    }
}

/// What the decoder accepts is well formed: every map in it has its keys
/// in ascending order, whatever order the input had them in.
pub proof fn lemma_decoded_wf(b: Seq<u8>)
    ensures
        decode_spec(b, true) matches Ok(v) ==> v.wf(),
        decode_spec(b, false) matches Ok(v) ==> v.wf(),
{
    lemma_dec_wf(b, 0, true);
    lemma_dec_wf(b, 0, false);
}

} // verus!
