//! The value algebra: seven variants, with maps kept in canonical key order.
use vstd::prelude::*;
use vstd::utf8::encode_utf8;
use crate::order::{
    bytes_lt, lemma_key_asymmetric, lemma_key_irreflexive, lemma_key_total, lemma_key_transitive,
};

verus! {

/// An in-memory Strata value.
#[derive(Debug, PartialEq, Eq)]
pub enum Value {
    Null,
    Bool(bool),
    Int(i64),
    String(String),
    Bytes(Vec<u8>),
    List(Vec<Value>),
    Mapping(ValueMap),
}

/// A map from string keys to values. Its entries are kept in strictly
/// ascending order of the keys' UTF-8 bytes, so a key appears at most once
/// and iteration order is the canonical order.
#[derive(Debug, PartialEq, Eq)]
pub struct ValueMap {
    entries: Vec<(String, Value)>,
}

/// The mathematical form of a value: what the codec's contracts speak of.
pub enum ValueModel {
    Null,
    Bool(bool),
    Int(i64),
    Str(Seq<char>),
    Bytes(Seq<u8>),
    List(Seq<ValueModel>),
    Mapping(Seq<(Seq<char>, ValueModel)>),
}

/// Lexicographic order on byte strings, comparing from index `i` on.
pub open spec fn lex_lt_from(a: Seq<u8>, b: Seq<u8>, i: int) -> bool
    decreases a.len() - i,
{
    if i < 0 || i >= a.len() {
        0 <= i < b.len()
    } else if i >= b.len() {
        false
    } else if a[i] != b[i] {
        a[i] < b[i]
    } else {
        lex_lt_from(a, b, i + 1)
    }
}

/// Lexicographic order on byte strings: a proper prefix comes first.
pub open spec fn lex_lt(a: Seq<u8>, b: Seq<u8>) -> bool {
    lex_lt_from(a, b, 0)
}

/// Key order: lexicographic on the keys' UTF-8 bytes.
pub open spec fn key_lt(a: Seq<char>, b: Seq<char>) -> bool {
    lex_lt(encode_utf8(a), encode_utf8(b))
}

/// Entries in strictly ascending key order.
pub open spec fn keys_sorted(es: Seq<(Seq<char>, ValueModel)>) -> bool {
    forall|i: int, j: int| 0 <= i < j < es.len() ==> key_lt(#[trigger] es[i].0, #[trigger] es[j].0)
}

/// `es` with `k` bound to `v`: the entry for `k` is replaced if there is
/// one, else a new entry goes before the first greater key.
pub open spec fn map_insert(es: Seq<(Seq<char>, ValueModel)>, k: Seq<char>, v: ValueModel) -> Seq<
    (Seq<char>, ValueModel),
>
    decreases es.len(),
{
    if es.len() == 0 {
        seq![(k, v)]
    } else if es[0].0 == k {
        seq![(k, v)] + es.drop_first()
    } else if key_lt(k, es[0].0) {
        seq![(k, v)] + es
    } else {
        seq![es[0]] + map_insert(es.drop_first(), k, v)
    }
}

/// The value bound to `k`, if any.
pub open spec fn map_get(es: Seq<(Seq<char>, ValueModel)>, k: Seq<char>) -> Option<ValueModel>
    decreases es.len(),
{
    if es.len() == 0 {
        None
    } else if es[0].0 == k {
        Some(es[0].1)
    } else {
        map_get(es.drop_first(), k)
    }
}

impl ValueModel {
    /// Every map inside the value, at any depth, has its keys in strictly
    /// ascending order.
    pub open spec fn wf(self) -> bool
        decreases self,
    {
        match self {
            ValueModel::List(items) => forall|i: int|
                0 <= i < items.len() ==> (#[trigger] items[i]).wf(),
            ValueModel::Mapping(es) => keys_sorted(es) && forall|i: int|
                0 <= i < es.len() ==> (#[trigger] es[i]).1.wf(),
            _ => true,
        }
    }
}

impl View for Value {
    type V = ValueModel;

    open spec fn view(&self) -> ValueModel
        decreases self,
    {
        match self {
            Value::Null => ValueModel::Null,
            Value::Bool(b) => ValueModel::Bool(*b),
            Value::Int(i) => ValueModel::Int(*i),
            Value::String(s) => ValueModel::Str(s@),
            Value::Bytes(b) => ValueModel::Bytes(b@),
            Value::List(items) => ValueModel::List(
                Seq::new(
                    items.len() as nat,
                    |i: int|
                        if 0 <= i < items.len() {
                            items[i].view()
                        } else {
                            ValueModel::Null
                        },
                ),
            ),
            Value::Mapping(m) => ValueModel::Mapping(m.view()),
        }
    }
}

impl View for ValueMap {
    type V = Seq<(Seq<char>, ValueModel)>;

    closed spec fn view(&self) -> Seq<(Seq<char>, ValueModel)>
        decreases self,
    {
        Seq::new(
            self.entries.len() as nat,
            |i: int|
                if 0 <= i < self.entries.len() {
                    (self.entries[i].0@, self.entries[i].1.view())
                } else {
                    (Seq::empty(), ValueModel::Null)
                },
        )
    }
}

impl ValueMap {
    spec fn view_of(es: Vec<(String, Value)>) -> Seq<(Seq<char>, ValueModel)> {
        ValueMap { entries: es }@
    }
}

/// Where `k` goes in sorted entries `es`: `i` is the first position whose
/// key is not below `k`. Inserting replaces the entry there if it holds `k`,
/// else puts a new one there; looking up finds the entry there or nothing.
pub proof fn lemma_map_insert_at(
    es: Seq<(Seq<char>, ValueModel)>,
    k: Seq<char>,
    v: ValueModel,
    i: int,
)
    requires
        keys_sorted(es),
        0 <= i <= es.len(),
        forall|j: int| 0 <= j < i ==> key_lt(#[trigger] es[j].0, k),
        i < es.len() ==> !key_lt(es[i].0, k),
    ensures
        i < es.len() && es[i].0 == k ==> map_insert(es, k, v) == es.update(i, (k, v)),
        i < es.len() && es[i].0 == k ==> map_get(es, k) == Some(es[i].1),
        !(i < es.len() && es[i].0 == k) ==> map_insert(es, k, v) == es.insert(i, (k, v)),
        !(i < es.len() && es[i].0 == k) ==> map_get(es, k) is None,
        i < es.len() && es[i].0 != k ==> key_lt(k, es[i].0),
    decreases i,
{
    if i < es.len() && es[i].0 != k {
        lemma_key_total(es[i].0, k);
    }
    if i == 0 {
        if es.len() == 0 {
            assert(seq![(k, v)] =~= es.insert(0, (k, v)));
        } else if es[0].0 == k {
            assert(seq![(k, v)] + es.drop_first() =~= es.update(0, (k, v)));
        } else {
            assert(seq![(k, v)] + es =~= es.insert(0, (k, v)));
            assert forall|j: int| 0 <= j < es.len() implies es[j].0 != k by {
                if j > 0 {
                    lemma_key_transitive(k, es[0].0, es[j].0);
                    lemma_key_irreflexive(k);
                }
            }
            lemma_map_get_absent(es, k);
        }
    } else {
        let rest = es.drop_first();
        lemma_key_asymmetric(es[0].0, k);
        lemma_key_irreflexive(k);
        assert(keys_sorted(rest));
        assert forall|j: int| 0 <= j < i - 1 implies key_lt(#[trigger] rest[j].0, k) by {
            assert(rest[j] == es[j + 1]);
        }
        lemma_map_insert_at(rest, k, v, i - 1);
        if i < es.len() && es[i].0 == k {
            assert(seq![es[0]] + rest.update(i - 1, (k, v)) =~= es.update(i, (k, v)));
        } else {
            assert(seq![es[0]] + rest.insert(i - 1, (k, v)) =~= es.insert(i, (k, v)));
        }
    }
}

pub proof fn lemma_map_get_absent(es: Seq<(Seq<char>, ValueModel)>, k: Seq<char>)
    requires
        forall|j: int| 0 <= j < es.len() ==> (#[trigger] es[j]).0 != k,
    ensures
        map_get(es, k) is None,
    decreases es.len(),
{
    if es.len() > 0 {
        let rest = es.drop_first();
        assert forall|j: int| 0 <= j < rest.len() implies (#[trigger] rest[j]).0 != k by {
            assert(rest[j] == es[j + 1]);
        }
        lemma_map_get_absent(rest, k);
    }
}

/// Inserting into sorted entries keeps them sorted; every entry of the
/// result is the new one or an entry that was there.
pub proof fn lemma_map_insert_sorted(es: Seq<(Seq<char>, ValueModel)>, k: Seq<char>, v: ValueModel)
    requires
        keys_sorted(es),
    ensures
        keys_sorted(map_insert(es, k, v)),
        forall|j: int|
            0 <= j < map_insert(es, k, v).len() ==> #[trigger] map_insert(es, k, v)[j] == (k, v)
                || exists|l: int| 0 <= l < es.len() && es[l] == map_insert(es, k, v)[j],
{
    let i = map_insert_pos(es, k);
    lemma_map_insert_pos(es, k);
    lemma_map_insert_at(es, k, v, i);
    let r = map_insert(es, k, v);
    if i < es.len() && es[i].0 == k {
        assert forall|j: int| 0 <= j < r.len() implies #[trigger] r[j] == (k, v) || exists|
            l: int,
        | 0 <= l < es.len() && es[l] == r[j] by {
            if j != i {
                assert(es[j] == r[j]);
            }
        }
    } else {
        assert forall|a: int, b: int| 0 <= a < b < r.len() implies key_lt(
            #[trigger] r[a].0,
            #[trigger] r[b].0,
        ) by {
            if b == i {
                assert(r[a] == es[a]);
            } else if a == i {
                assert(r[b] == es[b - 1]);
                if b - 1 > i {
                    lemma_key_transitive(k, es[i].0, es[b - 1].0);
                }
            } else if a < i && b > i {
                assert(r[a] == es[a]);
                assert(r[b] == es[b - 1]);
            } else if b < i {
                assert(r[a] == es[a]);
                assert(r[b] == es[b]);
            } else {
                assert(r[a] == es[a - 1]);
                assert(r[b] == es[b - 1]);
            }
        }
        assert forall|j: int| 0 <= j < r.len() implies #[trigger] r[j] == (k, v) || exists|
            l: int,
        | 0 <= l < es.len() && es[l] == r[j] by {
            if j < i {
                assert(es[j] == r[j]);
            } else if j > i {
                assert(es[j - 1] == r[j]);
            }
        }
    }
}

/// The first position in `es` whose key is not below `k`.
pub open spec fn map_insert_pos(es: Seq<(Seq<char>, ValueModel)>, k: Seq<char>) -> int
    decreases es.len(),
{
    if es.len() == 0 || !key_lt(es[0].0, k) {
        0
    } else {
        1 + map_insert_pos(es.drop_first(), k)
    }
}

pub proof fn lemma_map_insert_pos(es: Seq<(Seq<char>, ValueModel)>, k: Seq<char>)
    ensures
        0 <= map_insert_pos(es, k) <= es.len(),
        forall|j: int| 0 <= j < map_insert_pos(es, k) ==> key_lt(#[trigger] es[j].0, k),
        map_insert_pos(es, k) < es.len() ==> !key_lt(es[map_insert_pos(es, k)].0, k),
    decreases es.len(),
{
    if es.len() > 0 && key_lt(es[0].0, k) {
        let rest = es.drop_first();
        lemma_map_insert_pos(rest, k);
        assert forall|j: int| 0 <= j < map_insert_pos(es, k) implies key_lt(
            #[trigger] es[j].0,
            k,
        ) by {
            if j > 0 {
                assert(es[j] == rest[j - 1]);
            }
        }
    }
}

impl ValueMap {
    #[verifier::type_invariant]
    spec fn sorted(&self) -> bool {
        keys_sorted(self@)
    }

    proof fn lemma_view_index(&self, i: int)
        requires
            0 <= i < self.entries.len(),
        ensures
            self@.len() == self.entries.len(),
            self@[i] == (self.entries[i].0@, self.entries[i].1@),
    {
    }

    /// An empty map.
    pub fn new() -> (m: ValueMap)
        ensures
            m@ == Seq::<(Seq<char>, ValueModel)>::empty(),
    {
        let m = ValueMap { entries: Vec::new() };
        assert(m@ =~= Seq::<(Seq<char>, ValueModel)>::empty());
        m
    }

    /// The number of entries; they are in strictly ascending key order.
    pub fn len(&self) -> (r: usize)
        ensures
            r == self@.len(),
            keys_sorted(self@),
    {
        proof {
            use_type_invariant(self);
        }
        self.entries.len()
    }

    /// The key and value of the entry at position `i` in key order.
    pub fn entry(&self, i: usize) -> (r: (&String, &Value))
        requires
            i < self@.len(),
        ensures
            r.0@ == self@[i as int].0,
            r.1@ == self@[i as int].1,
    {
        proof {
            self.lemma_view_index(i as int);
        }
        (&self.entries[i].0, &self.entries[i].1)
    }

    /// The first position whose key is not below `key`, and whether the
    /// entry there holds `key`.
    fn find(&self, key: &str) -> (r: (usize, bool))
        ensures
            r.0 == map_insert_pos(self@, key@),
            r.1 == (r.0 < self@.len() && self@[r.0 as int].0 == key@),
    {
        proof {
            use_type_invariant(self);
            lemma_map_insert_pos(self@, key@);
        }
        let kb = key.as_bytes();
        let n = self.entries.len();
        let mut i: usize = 0;
        while i < n && bytes_lt(self.entries[i].0.as_str().as_bytes(), kb)
            invariant
                0 <= i <= n,
                n == self@.len(),
                kb@ == encode_utf8(key@),
                keys_sorted(self@),
                forall|j: int| 0 <= j < i ==> key_lt(#[trigger] self@[j].0, key@),
            decreases n - i,
        {
            proof {
                self.lemma_view_index(i as int);
            }
            i = i + 1;
        }
        if i < n {
            proof {
                self.lemma_view_index(i as int);
            }
        }
        proof {
            lemma_pos_unique(self@, key@, i as int);
        }
        if i < n && !bytes_lt(kb, self.entries[i].0.as_str().as_bytes()) {
            proof {
                if self@[i as int].0 != key@ {
                    lemma_key_total(self@[i as int].0, key@);
                }
            }
            (i, true)
        } else {
            proof {
                if i < n {
                    lemma_key_irreflexive(key@);
                }
            }
            (i, false)
        }
    }

    /// Binds `key` to `value`, replacing an earlier binding of `key`, which
    /// is returned.
    pub fn insert(&mut self, key: String, value: Value) -> (r: Option<Value>)
        ensures
            final(self)@ == map_insert(old(self)@, key@, value@),
            match r {
                Some(o) => map_get(old(self)@, key@) == Some(o@),
                None => map_get(old(self)@, key@) is None,
            },
    {
        let (i, found) = self.find(key.as_str());
        proof {
            use_type_invariant(&*self);
            lemma_map_insert_pos(self@, key@);
            lemma_map_insert_at(self@, key@, value@, i as int);
            lemma_map_insert_sorted(self@, key@, value@);
        }
        let ghost before = self@;
        let ghost target = map_insert(before, key@, value@);
        let mut es: Vec<(String, Value)> = Vec::new();
        std::mem::swap(&mut self.entries, &mut es);
        proof {
            assert(ValueMap::view_of(es) == before);
        }
        let ghost old_es = es;
        let r = if found {
            let (_, ov) = es.remove(i);
            es.insert(i, (key, value));
            Some(ov)
        } else {
            es.insert(i, (key, value));
            None
        };
        proof {
            let nv = ValueMap::view_of(es);
            let ov = ValueMap::view_of(old_es);
            assert forall|j: int| 0 <= j < nv.len() implies nv[j] == target[j] by {
                if j < i {
                    assert(es[j] == old_es[j]);
                } else if j > i {
                    if found {
                        assert(es[j] == old_es[j]);
                    } else {
                        assert(es[j] == old_es[j - 1]);
                    }
                }
            }
            assert(nv =~= target);
        }
        std::mem::swap(&mut self.entries, &mut es);
        r
    }

    /// The value bound to `key`, if any.
    pub fn get(&self, key: &str) -> (r: Option<&Value>)
        ensures
            match r {
                Some(v) => map_get(self@, key@) == Some(v@),
                None => map_get(self@, key@) is None,
            },
    {
        let (i, found) = self.find(key);
        proof {
            use_type_invariant(self);
            lemma_map_insert_pos(self@, key@);
            lemma_map_insert_at(self@, key@, ValueModel::Null, i as int);
        }
        if found {
            proof {
                self.lemma_view_index(i as int);
            }
            Some(&self.entries[i].1)
        } else {
            None
        }
    }

    /// Whether `key` is bound.
    pub fn contains_key(&self, key: &str) -> (r: bool)
        ensures
            r == map_get(self@, key@) is Some,
    {
        let (i, found) = self.find(key);
        proof {
            use_type_invariant(self);
            lemma_map_insert_pos(self@, key@);
            lemma_map_insert_at(self@, key@, ValueModel::Null, i as int);
        }
        found
    }
}

proof fn lemma_pos_unique(es: Seq<(Seq<char>, ValueModel)>, k: Seq<char>, i: int)
    requires
        0 <= i <= es.len(),
        forall|j: int| 0 <= j < i ==> key_lt(#[trigger] es[j].0, k),
        i < es.len() ==> !key_lt(es[i].0, k),
    ensures
        i == map_insert_pos(es, k),
    decreases es.len(),
{
    if es.len() > 0 && key_lt(es[0].0, k) {
        let rest = es.drop_first();
        assert forall|j: int| 0 <= j < i - 1 implies key_lt(#[trigger] rest[j].0, k) by {
            assert(rest[j] == es[j + 1]);
        }
        if i - 1 < rest.len() {
            assert(rest[i - 1] == es[i]);
        }
        lemma_pos_unique(rest, k, i - 1);
    }
}

} // verus!
