//! A map kept as a vector of entries in strictly increasing key order.
//!
//! Keys are compared by the bytes they stand for, so enumeration is always
//! in lexicographic order and two maps with the same contents are stored
//! identically.

use vstd::prelude::*;
use crate::byte_order::Order;
use crate::byte_order::compare_bytes;
use crate::byte_order::lemma_lex_lt_asymmetric;
use crate::byte_order::lemma_lex_lt_transitive;
use crate::byte_order::lemma_lex_total;
use crate::byte_order::lex_lt;

verus! {

/// A key that is ordered by a byte string.
pub trait OrderedKey {
    /// The bytes that identify and order the key.
    spec fn key(&self) -> Seq<u8>;

    /// The bytes that identify and order the key.
    fn key_bytes(&self) -> (r: &[u8])
        ensures
            r@ == self.key(),
    ;
}

/// The bytes that order a name: its UTF-8 encoding.
pub open spec fn name_key(name: Seq<char>) -> Seq<u8> {
    vstd::utf8::encode_utf8(name)
}

/// Different names have different keys.
pub proof fn lemma_name_key_injective(a: Seq<char>, b: Seq<char>)
    requires
        name_key(a) == name_key(b),
    ensures
        a == b,
{
    vstd::utf8::encode_utf8_decode_utf8(a);
    vstd::utf8::encode_utf8_decode_utf8(b);
}

impl OrderedKey for String {
    open spec fn key(&self) -> Seq<u8> {
        name_key(self@)
    }

    fn key_bytes(&self) -> (r: &[u8]) {
        self.as_str().as_bytes()
    }
}

/// The keys of a sequence of entries, in order.
pub open spec fn keys_of<K: OrderedKey, V>(s: Seq<(K, V)>) -> Seq<Seq<u8>> {
    Seq::new(s.len(), |i: int| s[i].0.key())
}

/// Each key comes strictly before every later one.
pub open spec fn strictly_increasing(keys: Seq<Seq<u8>>) -> bool {
    forall|i: int, j: int|
        0 <= i < j < keys.len() ==> lex_lt(#[trigger] keys[i], #[trigger] keys[j])
}

/// Some entry of `s` has the key `k`.
pub open spec fn has_key<K: OrderedKey, V>(s: Seq<(K, V)>, k: Seq<u8>) -> bool {
    exists|i: int| 0 <= i < s.len() && #[trigger] keys_of(s)[i] == k
}

/// The position of an entry of `s` with the key `k`.
pub open spec fn index_of<K: OrderedKey, V>(s: Seq<(K, V)>, k: Seq<u8>) -> int {
    choose|i: int| 0 <= i < s.len() && #[trigger] keys_of(s)[i] == k
}

/// The finite map that a sequence of entries stands for.
pub open spec fn to_map<K: OrderedKey, V>(s: Seq<(K, V)>) -> Map<Seq<u8>, V> {
    Map::new(|k: Seq<u8>| has_key(s, k), |k: Seq<u8>| s[index_of(s, k)].1)
}

/// In a strictly increasing sequence the entry at `i` is the one and only
/// entry under its key.
pub proof fn lemma_entry_at<K: OrderedKey, V>(s: Seq<(K, V)>, i: int)
    requires
        strictly_increasing(keys_of(s)),
        0 <= i < s.len(),
    ensures
        has_key(s, s[i].0.key()),
        index_of(s, s[i].0.key()) == i,
        to_map(s).contains_key(s[i].0.key()),
        to_map(s)[s[i].0.key()] == s[i].1,
{
    let k = s[i].0.key();
    let j = index_of(s, k);
    if j < i {
        lemma_lex_lt_asymmetric(keys_of(s)[j], keys_of(s)[i]);
    } else if i < j {
        lemma_lex_lt_asymmetric(keys_of(s)[i], keys_of(s)[j]);
    }
}

/// A key below every key of `s` from some position on, and above every key
/// before it, is no key of `s`.
proof fn lemma_gap_has_no_key<K: OrderedKey, V>(s: Seq<(K, V)>, pos: int, k: Seq<u8>)
    requires
        0 <= pos <= s.len(),
        forall|j: int| 0 <= j < pos ==> lex_lt(#[trigger] keys_of(s)[j], k),
        forall|j: int| pos <= j < s.len() ==> lex_lt(k, #[trigger] keys_of(s)[j]),
    ensures
        !has_key(s, k),
{
    if has_key(s, k) {
        let j = index_of(s, k);
        if j < pos {
            lemma_lex_lt_asymmetric(keys_of(s)[j], k);
        } else {
            lemma_lex_lt_asymmetric(k, keys_of(s)[j]);
        }
    }
}

/// Putting a new entry into the gap where its key belongs keeps the order
/// and adds exactly that entry to the map.
pub proof fn lemma_insert_entry<K: OrderedKey, V>(s: Seq<(K, V)>, pos: int, e: (K, V))
    requires
        strictly_increasing(keys_of(s)),
        0 <= pos <= s.len(),
        forall|j: int| 0 <= j < pos ==> lex_lt(#[trigger] keys_of(s)[j], e.0.key()),
        forall|j: int|
            pos <= j < s.len() ==> lex_lt(e.0.key(), #[trigger] keys_of(s)[j]),
    ensures
        strictly_increasing(keys_of(s.insert(pos, e))),
        to_map(s.insert(pos, e)) == to_map(s).insert(e.0.key(), e.1),
{
    let t = s.insert(pos, e);
    let ek = e.0.key();
    assert forall|i: int, j: int| 0 <= i < j < t.len() implies lex_lt(
        #[trigger] keys_of(t)[i],
        #[trigger] keys_of(t)[j],
    ) by {
        let si = if i < pos { i } else { i - 1 };
        let sj = if j < pos { j } else { j - 1 };
        if i == pos {
            assert(keys_of(t)[j] == keys_of(s)[sj]);
        } else if j == pos {
            assert(keys_of(t)[i] == keys_of(s)[si]);
        } else {
            assert(keys_of(t)[i] == keys_of(s)[si]);
            assert(keys_of(t)[j] == keys_of(s)[sj]);
        }
    }
    assert forall|k: Seq<u8>| to_map(t).contains_key(k) <==> to_map(s).insert(ek, e.1).contains_key(
        k,
    ) by {
        if has_key(t, k) {
            let j = index_of(t, k);
            if j != pos {
                let sj = if j < pos { j } else { j - 1 };
                assert(keys_of(s)[sj] == k);
            }
        }
        if has_key(s, k) {
            let j = index_of(s, k);
            let tj = if j < pos { j } else { j + 1 };
            assert(keys_of(t)[tj] == k);
        }
        if k == ek {
            assert(keys_of(t)[pos] == k);
        }
    }
    assert forall|k: Seq<u8>| to_map(t).contains_key(k) implies to_map(t)[k] == to_map(s).insert(
        ek,
        e.1,
    )[k] by {
        if k == ek {
            lemma_entry_at(t, pos);
        } else {
            let j = index_of(s, k);
            let tj = if j < pos { j } else { j + 1 };
            lemma_entry_at(s, j);
            lemma_entry_at(t, tj);
        }
    }
}

/// Putting an entry in the place of one with the same key keeps the order
/// and changes the map at that key only.
pub proof fn lemma_replace_entry<K: OrderedKey, V>(s: Seq<(K, V)>, pos: int, e: (K, V))
    requires
        strictly_increasing(keys_of(s)),
        0 <= pos < s.len(),
        s[pos].0.key() == e.0.key(),
    ensures
        strictly_increasing(keys_of(s.update(pos, e))),
        to_map(s.update(pos, e)) == to_map(s).insert(e.0.key(), e.1),
{
    let t = s.update(pos, e);
    let ek = e.0.key();
    assert(keys_of(t) =~= keys_of(s));
    assert forall|k: Seq<u8>| to_map(t).contains_key(k) <==> to_map(s).insert(ek, e.1).contains_key(
        k,
    ) by {
        if k == ek {
            assert(keys_of(t)[pos] == k);
        }
    }
    assert forall|k: Seq<u8>| to_map(t).contains_key(k) implies to_map(t)[k] == to_map(s).insert(
        ek,
        e.1,
    )[k] by {
        let j = index_of(t, k);
        lemma_entry_at(t, j);
        lemma_entry_at(t, pos);
        lemma_entry_at(s, j);
    }
}

/// Taking an entry out keeps the order and removes exactly its key from
/// the map.
pub proof fn lemma_remove_entry<K: OrderedKey, V>(s: Seq<(K, V)>, pos: int)
    requires
        strictly_increasing(keys_of(s)),
        0 <= pos < s.len(),
    ensures
        strictly_increasing(keys_of(s.remove(pos))),
        to_map(s.remove(pos)) == to_map(s).remove(s[pos].0.key()),
{
    let t = s.remove(pos);
    let ek = s[pos].0.key();
    assert forall|i: int, j: int| 0 <= i < j < t.len() implies lex_lt(
        #[trigger] keys_of(t)[i],
        #[trigger] keys_of(t)[j],
    ) by {
        let si = if i < pos { i } else { i + 1 };
        let sj = if j < pos { j } else { j + 1 };
        assert(keys_of(t)[i] == keys_of(s)[si]);
        assert(keys_of(t)[j] == keys_of(s)[sj]);
    }
    assert forall|k: Seq<u8>| to_map(t).contains_key(k) <==> to_map(s).remove(ek).contains_key(
        k,
    ) by {
        if has_key(t, k) {
            let j = index_of(t, k);
            let sj = if j < pos { j } else { j + 1 };
            lemma_entry_at(s, sj);
            lemma_entry_at(s, pos);
        }
        if has_key(s, k) && k != ek {
            let j = index_of(s, k);
            let tj = if j < pos { j } else { j - 1 };
            assert(keys_of(t)[tj] == k);
        }
    }
    assert forall|k: Seq<u8>| to_map(t).contains_key(k) implies to_map(t)[k] == to_map(s).remove(
        ek,
    )[k] by {
        let j = index_of(t, k);
        let sj = if j < pos { j } else { j + 1 };
        lemma_entry_at(t, j);
        lemma_entry_at(s, sj);
    }
}

/// `names` lists the members of `keys`, each once, in increasing order.
/// There is one such list for a set, so this fixes the list.
pub open spec fn enumerates(names: Seq<Seq<u8>>, keys: Set<Seq<u8>>) -> bool {
    &&& strictly_increasing(names)
    &&& forall|j: int| 0 <= j < names.len() ==> keys.contains(#[trigger] names[j])
    &&& forall|k: Seq<u8>|
        keys.contains(k) ==> exists|j: int| 0 <= j < names.len() && #[trigger] names[j] == k
}

/// The keys found at increasing positions of a sorted sequence of entries
/// list a set if they all belong to it and none of its members is left out.
pub proof fn lemma_selection_enumerates<K: OrderedKey, V>(
    s: Seq<(K, V)>,
    picked: Seq<int>,
    names: Seq<Seq<u8>>,
    keys: Set<Seq<u8>>,
)
    requires
        strictly_increasing(keys_of(s)),
        names.len() == picked.len(),
        forall|j: int| 0 <= j < picked.len() ==> 0 <= #[trigger] picked[j] < s.len(),
        forall|i: int, j: int| 0 <= i < j < picked.len() ==> #[trigger] picked[i] < #[trigger] picked[j],
        forall|j: int| 0 <= j < picked.len() ==> #[trigger] names[j] == keys_of(s)[picked[j]],
        forall|j: int| 0 <= j < picked.len() ==> keys.contains(#[trigger] names[j]),
        forall|k: Seq<u8>|
            keys.contains(k) ==> exists|j: int| 0 <= j < names.len() && #[trigger] names[j] == k,
    ensures
        enumerates(names, keys),
{
    assert forall|i: int, j: int| 0 <= i < j < names.len() implies lex_lt(
        #[trigger] names[i],
        #[trigger] names[j],
    ) by {}
}

/// Two lists of the same set are the same list.
pub proof fn lemma_enumerates_unique(a: Seq<Seq<u8>>, b: Seq<Seq<u8>>, keys: Set<Seq<u8>>)
    requires
        enumerates(a, keys),
        enumerates(b, keys),
    ensures
        a == b,
    decreases a.len(),
{
    if a.len() == 0 {
        if b.len() > 0 {
            assert(keys.contains(b[0]));
        }
    } else if b.len() == 0 {
        assert(keys.contains(a[0]));
    } else {
        let x = a.last();
        let y = b.last();
        if x != y {
            lemma_lex_lt_asymmetric(x, y);
        }
        let rest = keys.remove(x);
        assert forall|k: Seq<u8>| rest.contains(k) implies exists|p: int|
            0 <= p < a.drop_last().len() && #[trigger] a.drop_last()[p] == k by {
            let p = choose|p: int| 0 <= p < a.len() && #[trigger] a[p] == k;
            assert(a.drop_last()[p] == k);
        }
        assert forall|k: Seq<u8>| rest.contains(k) implies exists|p: int|
            0 <= p < b.drop_last().len() && #[trigger] b.drop_last()[p] == k by {
            let p = choose|p: int| 0 <= p < b.len() && #[trigger] b[p] == k;
            assert(b.drop_last()[p] == k);
        }
        assert forall|p: int| 0 <= p < a.drop_last().len() implies rest.contains(
            #[trigger] a.drop_last()[p],
        ) by {
            lemma_lex_lt_asymmetric(a[p], x);
        }
        assert forall|p: int| 0 <= p < b.drop_last().len() implies rest.contains(
            #[trigger] b.drop_last()[p],
        ) by {
            lemma_lex_lt_asymmetric(b[p], y);
        }
        assert(strictly_increasing(a.drop_last())) by {
            assert forall|p: int, q: int| 0 <= p < q < a.drop_last().len() implies lex_lt(
                #[trigger] a.drop_last()[p],
                #[trigger] a.drop_last()[q],
            ) by {}
        }
        assert(strictly_increasing(b.drop_last())) by {
            assert forall|p: int, q: int| 0 <= p < q < b.drop_last().len() implies lex_lt(
                #[trigger] b.drop_last()[p],
                #[trigger] b.drop_last()[q],
            ) by {}
        }
        lemma_enumerates_unique(a.drop_last(), b.drop_last(), rest);
    }
}

/// The union of the sets that `f` gives for the first `n` entries.
pub open spec fn prefix_union<K, V>(
    s: Seq<(K, V)>,
    n: int,
    f: spec_fn((K, V)) -> Set<Seq<u8>>,
) -> Set<Seq<u8>>
    decreases n,
{
    if n <= 0 || n > s.len() {
        Set::empty()
    } else {
        prefix_union(s, n - 1, f).union(f(s[n - 1]))
    }
}

/// A value is in the union for the first `n` entries exactly when it is
/// in the set of one of them.
pub proof fn lemma_prefix_union_contains<K, V>(
    s: Seq<(K, V)>,
    n: int,
    f: spec_fn((K, V)) -> Set<Seq<u8>>,
    v: Seq<u8>,
)
    requires
        0 <= n <= s.len(),
    ensures
        prefix_union(s, n, f).contains(v) <==> exists|p: int|
            0 <= p < n && (#[trigger] f(s[p])).contains(v),
    decreases n,
{
    if n > 0 {
        lemma_prefix_union_contains(s, n - 1, f, v);
    }
}

/// `name` is one of the first `n` names of the list.
pub open spec fn among_first(names: Seq<Seq<u8>>, n: int, name: Seq<u8>) -> bool {
    exists|u: int| 0 <= u < n && u < names.len() && #[trigger] names[u] == name
}

/// A sequence of entries is empty exactly when its map has no key.
pub proof fn lemma_some_key<K: OrderedKey, V>(s: Seq<(K, V)>)
    ensures
        s.len() > 0 <==> exists|k: Seq<u8>| #[trigger] to_map(s).contains_key(k),
{
    if s.len() > 0 {
        assert(keys_of(s)[0] == s[0].0.key());
        assert(to_map(s).contains_key(s[0].0.key()));
    }
}

/// Two sequences of entries with the same keys in the same places stand
/// for maps with the same keys, and each key has in both the value of
/// the same place.
pub proof fn lemma_same_keys<K: OrderedKey, V>(s: Seq<(K, V)>, t: Seq<(K, V)>)
    requires
        strictly_increasing(keys_of(s)),
        keys_of(s) == keys_of(t),
    ensures
        strictly_increasing(keys_of(t)),
        to_map(s).dom() == to_map(t).dom(),
        forall|i: int|
            0 <= i < s.len() ==> to_map(s)[#[trigger] keys_of(s)[i]] == s[i].1 && to_map(
                t,
            )[keys_of(s)[i]] == t[i].1,
{
    assert(s.len() == keys_of(s).len());
    assert forall|k: Seq<u8>| to_map(s).contains_key(k) <==> to_map(t).contains_key(k) by {}
    assert forall|i: int| 0 <= i < s.len() implies to_map(s)[#[trigger] keys_of(s)[i]] == s[i].1
        && to_map(t)[keys_of(s)[i]] == t[i].1 by {
        lemma_entry_at(s, i);
        lemma_entry_at(t, i);
    }
}

impl<K: OrderedKey + Clone, V: Clone> Clone for SortedMap<K, V> {
    /// A map with a clone of each entry, in the same order.
    fn clone(&self) -> (r: Self)
        ensures
            r.entries().len() == self.entries().len(),
            forall|i: int|
                0 <= i < self.entries().len() ==> cloned::<K>(
                    (#[trigger] self.entries()[i]).0,
                    r.entries()[i].0,
                ) && cloned::<V>(self.entries()[i].1, r.entries()[i].1),
    {
        let mut entries: Vec<(K, V)> = Vec::new();
        let mut i: usize = 0;
        while i < self.entries.len()
            invariant
                i <= self.entries.len(),
                entries.len() == i,
                forall|j: int|
                    0 <= j < i ==> cloned::<K>((#[trigger] self.entries[j]).0, entries[j].0)
                        && cloned::<V>(self.entries[j].1, entries[j].1),
            decreases self.entries.len() - i,
        {
            let key = self.entries[i].0.clone();
            let value = self.entries[i].1.clone();
            entries.push((key, value));
            i += 1;
        }
        SortedMap { entries }
    }
}

/// A map from byte-ordered keys to values, stored in key order.
#[derive(Debug, PartialEq, Eq)]
pub struct SortedMap<K, V> {
    entries: Vec<(K, V)>,
}

impl<K: OrderedKey, V> SortedMap<K, V> {
    /// The entries in key order.
    pub closed spec fn entries(&self) -> Seq<(K, V)> {
        self.entries@
    }

    /// The keys are strictly increasing, so no key occurs twice.
    pub open spec fn wf(&self) -> bool {
        strictly_increasing(keys_of(self.entries()))
    }

    /// The map from key bytes to values.
    pub open spec fn view(&self) -> Map<Seq<u8>, V> {
        to_map(self.entries())
    }

    /// The empty map.
    pub fn new() -> (r: Self)
        ensures
            r.wf(),
            r.entries() == Seq::<(K, V)>::empty(),
            r@ == Map::<Seq<u8>, V>::empty(),
    {
        let r = SortedMap { entries: Vec::new() };
        r
    }

    /// The number of entries.
    pub fn len(&self) -> (r: usize)
        ensures
            r == self.entries().len(),
    {
        self.entries.len()
    }

    /// Whether the map has no entry.
    pub fn is_empty(&self) -> (r: bool)
        ensures
            r == (self.entries().len() == 0),
    {
        self.entries.len() == 0
    }

    /// The key of the entry at position `i` in key order.
    pub fn key_at(&self, i: usize) -> (r: &K)
        requires
            i < self.entries().len(),
        ensures
            *r == self.entries()[i as int].0,
    {
        &self.entries[i].0
    }

    /// The value of the entry at position `i` in key order.
    pub fn value_at(&self, i: usize) -> (r: &V)
        requires
            i < self.entries().len(),
        ensures
            *r == self.entries()[i as int].1,
    {
        &self.entries[i].1
    }

    /// Finds where `key` is or would be: the position of the first entry
    /// whose key is not below `key`, and whether that entry has the key.
    pub fn find(&self, key: &[u8]) -> (r: (usize, bool))
        requires
            self.wf(),
        ensures
            r.0 <= self.entries().len(),
            r.1 == self@.contains_key(key@),
            r.1 ==> r.0 < self.entries().len() && self.entries()[r.0 as int].0.key() == key@,
            forall|j: int|
                0 <= j < r.0 ==> lex_lt(
                    #[trigger] keys_of(self.entries())[j],
                    key@,
                ),
            forall|j: int|
                r.0 + (if r.1 { 1int } else { 0int }) <= j < self.entries().len()
                    ==> lex_lt(key@, #[trigger] keys_of(self.entries())[j]),
    {
        let ghost s = self.entries();
        let mut i: usize = 0;
        while i < self.entries.len()
            invariant
                s == self.entries(),
                self.wf(),
                i <= s.len(),
                forall|j: int| 0 <= j < i ==> lex_lt(#[trigger] keys_of(s)[j], key@),
            decreases s.len() - i,
        {
            let order = compare_bytes(self.entries[i].0.key_bytes(), key);
            let ghost ki = keys_of(s)[i as int];
            proof {
                lemma_lex_total(ki, key@);
            }
            match order {
                Order::Less => {},
                Order::Equal => {
                    proof {
                        lemma_entry_at(s, i as int);
                    }
                    return (i, true);
                },
                Order::Greater => {
                    proof {
                        assert forall|j: int| i <= j < s.len() implies lex_lt(
                            key@,
                            #[trigger] keys_of(s)[j],
                        ) by {
                            if i < j {
                                lemma_lex_lt_transitive(key@, ki, keys_of(s)[j]);
                            }
                        }
                        lemma_gap_has_no_key(s, i as int, key@);
                    }
                    return (i, false);
                },
            }
            i += 1;
        }
        proof {
            lemma_gap_has_no_key(s, i as int, key@);
        }
        (i, false)
    }

    /// Whether the map has an entry under `key`.
    pub fn contains_key(&self, key: &[u8]) -> (r: bool)
        requires
            self.wf(),
        ensures
            r == self@.contains_key(key@),
    {
        self.find(key).1
    }

    /// The value stored under `key`, if any.
    pub fn get(&self, key: &[u8]) -> (r: Option<&V>)
        requires
            self.wf(),
        ensures
            match r {
                Some(v) => self@.contains_key(key@) && *v == self@[key@],
                None => !self@.contains_key(key@),
            },
    {
        let (i, found) = self.find(key);
        if found {
            proof {
                lemma_entry_at(self.entries(), i as int);
            }
            Some(&self.entries[i].1)
        } else {
            None
        }
    }

    /// Stores `value` under `key` and hands back the value that was there.
    pub fn insert(&mut self, key: K, value: V) -> (r: Option<V>)
        requires
            old(self).wf(),
        ensures
            final(self).wf(),
            final(self)@ == old(self)@.insert(key.key(), value),
            match r {
                Some(v) => old(self)@.contains_key(key.key()) && v == old(self)@[key.key()],
                None => !old(self)@.contains_key(key.key()),
            },
    {
        let ghost s = self.entries();
        let (i, found) = self.find(key.key_bytes());
        if found {
            proof {
                lemma_entry_at(s, i as int);
                lemma_replace_entry(s, i as int, (key, value));
            }
            self.entries.push((key, value));
            let previous = self.entries.swap_remove(i);
            proof {
                assert(self.entries() =~= s.update(i as int, (key, value)));
            }
            Some(previous.1)
        } else {
            proof {
                lemma_insert_entry(s, i as int, (key, value));
            }
            self.entries.insert(i, (key, value));
            None
        }
    }

    /// Removes the entry under `key` and hands back its value.
    pub fn remove(&mut self, key: &[u8]) -> (r: Option<V>)
        requires
            old(self).wf(),
        ensures
            final(self).wf(),
            final(self)@ == old(self)@.remove(key@),
            match r {
                Some(v) => old(self)@.contains_key(key@) && v == old(self)@[key@],
                None => !old(self)@.contains_key(key@),
            },
    {
        let ghost s = self.entries();
        let (i, found) = self.find(key);
        if found {
            proof {
                lemma_entry_at(s, i as int);
                lemma_remove_entry(s, i as int);
            }
            let previous = self.entries.remove(i);
            Some(previous.1)
        } else {
            None
        }
    }
}

} // verus!
