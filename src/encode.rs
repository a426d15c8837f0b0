//! The canonical encoder: one byte sequence for each value.
use vstd::prelude::*;
use vstd::utf8::encode_utf8;
use crate::error::EncodeError;
use crate::value::{Value, ValueModel};
use crate::varint::{encode_sleb128, encode_uleb128, sleb, uleb};

verus! {

pub const TAG_NULL: u8 = 0x00;
pub const TAG_FALSE: u8 = 0x01;
pub const TAG_TRUE: u8 = 0x02;
pub const TAG_INT: u8 = 0x10;
pub const TAG_STRING: u8 = 0x20;
pub const TAG_BYTES: u8 = 0x21;
pub const TAG_LIST: u8 = 0x30;
pub const TAG_MAP: u8 = 0x40;

/// A string as it is encoded, also as a map key: tag, byte length, UTF-8.
pub open spec fn enc_str(s: Seq<char>) -> Seq<u8> {
    seq![TAG_STRING] + uleb(encode_utf8(s).len()) + encode_utf8(s)
}

/// The canonical encoding of a value.
pub open spec fn enc(v: ValueModel) -> Seq<u8>
    decreases v, 0nat,
{
    match v {
        ValueModel::Null => seq![TAG_NULL],
        ValueModel::Bool(b) => if b {
            seq![TAG_TRUE]
        } else {
            seq![TAG_FALSE]
        },
        ValueModel::Int(i) => seq![TAG_INT] + sleb(i as int),
        ValueModel::Str(s) => enc_str(s),
        ValueModel::Bytes(b) => seq![TAG_BYTES] + uleb(b.len()) + b,
        ValueModel::List(items) => seq![TAG_LIST] + uleb(items.len()) + enc_items(
            items,
            items.len(),
        ),
        ValueModel::Mapping(es) => seq![TAG_MAP] + uleb(es.len()) + enc_entries(es, es.len()),
    }
}

/// The encodings of the first `n` items, one after another.
pub open spec fn enc_items(items: Seq<ValueModel>, n: nat) -> Seq<u8>
    decreases items, n,
{
    if n == 0 || n > items.len() {
        seq![]
    } else {
        enc_items(items, (n - 1) as nat) + enc(items[n - 1])
    }
}

/// The first `n` entries, each as its key's string encoding followed by
/// its value's encoding.
pub open spec fn enc_entries(es: Seq<(Seq<char>, ValueModel)>, n: nat) -> Seq<u8>
    decreases es, n,
{
    if n == 0 || n > es.len() {
        seq![]
    } else {
        enc_entries(es, (n - 1) as nat) + enc_str(es[n - 1].0) + enc(es[n - 1].1)
    }
}

fn encode_str_into(s: &String, out: &mut Vec<u8>)
    ensures
        final(out)@ == old(out)@ + enc_str(s@),
{
    let bytes = s.as_str().as_bytes();
    out.push(TAG_STRING);
    encode_uleb128(bytes.len() as u64, out);
    let ghost mid = out@;
    out.extend_from_slice(bytes);
    assert(out@ =~= mid + bytes@);
    assert(out@ =~= old(out)@ + enc_str(s@));
}

/// Appends the canonical encoding of `value` to `out`.
fn encode_into(value: &Value, out: &mut Vec<u8>)
    ensures
        final(out)@ == old(out)@ + enc(value@),
        value@.wf(),
    decreases value@, 1nat,
{
    let ghost start = out@;
    match value {
        Value::Null => {
            out.push(TAG_NULL);
        },
        Value::Bool(b) => {
            if *b {
                out.push(TAG_TRUE);
            } else {
                out.push(TAG_FALSE);
            }
        },
        Value::Int(number) => {
            out.push(TAG_INT);
            encode_sleb128(*number, out);
        },
        Value::String(s) => {
            encode_str_into(s, out);
        },
        Value::Bytes(bytes) => {
            out.push(TAG_BYTES);
            encode_uleb128(bytes.len() as u64, out);
            let ghost mid = out@;
            out.extend_from_slice(bytes.as_slice());
            assert(out@ =~= mid + bytes@);
        },
        Value::List(_) => {
            encode_list_into(value, out);
        },
        Value::Mapping(_) => {
            encode_map_into(value, out);
        },
    }
    assert(out@ =~= start + enc(value@));
}

fn encode_list_into(value: &Value, out: &mut Vec<u8>)
    requires
        value is List,
    ensures
        final(out)@ == old(out)@ + enc(value@),
        value@.wf(),
    decreases value@, 0nat,
{
    let ghost start = out@;
    let items = match value {
        Value::List(items) => items,
        _ => {
            return ;
        },
    };
    let ghost ms = value@->List_0;
    proof {
        reveal_with_fuel(<Value as View>::view, 2);
    }
    assert(ms.len() == items.len());
    assert(forall|j: int| 0 <= j < items.len() ==> ms[j] == (#[trigger] items[j])@);
    out.push(TAG_LIST);
    encode_uleb128(items.len() as u64, out);
    let ghost head = out@;
    let mut i: usize = 0;
    while i < items.len()
        invariant
            0 <= i <= items.len(),
            ms.len() == items.len(),
            value@ == ValueModel::List(ms),
            forall|j: int| 0 <= j < items.len() ==> ms[j] == (#[trigger] items[j])@,
            out@ == head + enc_items(ms, i as nat),
            forall|j: int| 0 <= j < i ==> (#[trigger] ms[j]).wf(),
        decreases items.len() - i,
    {
        assert(decreases_to!(value@ => value@->List_0));
        assert(decreases_to!(ms => ms[i as int]));
        assert(decreases_to!(value@ => ms[i as int]));
        encode_into(&items[i], out);
        i = i + 1;
        assert(out@ =~= head + enc_items(ms, i as nat));
    }
    assert(out@ =~= start + enc(value@));
}

fn encode_map_into(value: &Value, out: &mut Vec<u8>)
    requires
        value is Mapping,
    ensures
        final(out)@ == old(out)@ + enc(value@),
        value@.wf(),
    decreases value@, 0nat,
{
    let ghost start = out@;
    let map = match value {
        Value::Mapping(map) => map,
        _ => {
            return ;
        },
    };
    let n = map.len();
    let ghost es = map@;
    assert(value@ == ValueModel::Mapping(es));
    out.push(TAG_MAP);
    encode_uleb128(n as u64, out);
    let ghost head = out@;
    let mut i: usize = 0;
    while i < n
        invariant
            0 <= i <= n,
            n == es.len(),
            es == map@,
            value@ == ValueModel::Mapping(es),
            out@ == head + enc_entries(es, i as nat),
            forall|j: int| 0 <= j < i ==> (#[trigger] es[j]).1.wf(),
        decreases n - i,
    {
        let (k, v) = map.entry(i);
        assert(decreases_to!(value@ => value@->Mapping_0));
        assert(decreases_to!(es => es[i as int]));
        assert(decreases_to!(es[i as int] => es[i as int].1));
        assert(decreases_to!(value@ => es[i as int].1));
        encode_str_into(k, out);
        encode_into(v, out);
        i = i + 1;
        assert(out@ =~= head + enc_entries(es, i as nat));
    }
    assert(out@ =~= start + enc(value@));
}

/// The canonical encoding of `value`.
pub fn encode_value(value: &Value) -> (r: Vec<u8>)
    ensures
        r@ == enc(value@),
        value@.wf(),
{
    let mut out = Vec::new();
    encode_into(value, &mut out);
    assert(out@ =~= enc(value@));
    out
}

/// The canonical encoding of `value`. The value types here cannot hold a
/// duplicate key, invalid UTF-8 or an out-of-range integer, so this never
/// fails.
pub fn encode(value: &Value) -> (r: Result<Vec<u8>, EncodeError>)
    ensures
        r matches Ok(b) && b@ == enc(value@),
        value@.wf(),
{
    Ok(encode_value(value))
}

} // verus!
