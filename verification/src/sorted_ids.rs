//! Lists of commit ids kept in increasing order, read as multisets.
//!
//! A list in increasing order is the one canonical way to store a multiset,
//! so two lists that stand for the same multiset hold the same ids in the
//! same places.

use vstd::prelude::*;
use vstd::multiset::Multiset;
use crate::backend::CommitId;
use crate::byte_order::Order;
use crate::byte_order::compare_bytes;
use crate::byte_order::lemma_lex_lt_asymmetric;
use crate::byte_order::lemma_lex_lt_transitive;
use crate::byte_order::lemma_lex_total;
use crate::byte_order::lex_le;
use crate::byte_order::lex_lt;
use crate::byte_order::order_of;

verus! {

/// The multiset of ids that a list holds.
pub open spec fn bag(s: Seq<CommitId>) -> Multiset<Seq<u8>>
    decreases s.len(),
{
    if s.len() == 0 {
        Multiset::empty()
    } else {
        bag(s.drop_last()).insert(s.last()@)
    }
}

/// Each id is equal to or comes before every later one.
pub open spec fn increasing(s: Seq<CommitId>) -> bool {
    forall|i: int, j: int|
        0 <= i < j < s.len() ==> lex_le(#[trigger] s[i]@, #[trigger] s[j]@)
}

/// No id of `a` is an id of `b`.
pub open spec fn disjoint(a: Seq<CommitId>, b: Seq<CommitId>) -> bool {
    forall|i: int, j: int| 0 <= i < a.len() && 0 <= j < b.len() ==> #[trigger] a[i]@ != #[trigger] b[j]@
}

/// The ids of two lists, place by place.
pub open spec fn same_ids(a: Seq<CommitId>, b: Seq<CommitId>) -> bool {
    &&& a.len() == b.len()
    &&& forall|i: int| 0 <= i < a.len() ==> #[trigger] a[i]@ == b[i]@
}

/// A list with one more id holds that id once more.
pub proof fn lemma_bag_push(s: Seq<CommitId>, c: CommitId)
    ensures
        bag(s.push(c)) == bag(s).insert(c@),
{
    assert(s.push(c).drop_last() =~= s);
}

/// A list of one id holds just that id.
pub proof fn lemma_bag_single(s: Seq<CommitId>)
    requires
        s.len() == 1,
    ensures
        bag(s) == Multiset::singleton(s[0]@),
{
    broadcast use vstd::multiset::group_multiset_axioms;

    assert(bag(s.drop_last()) =~= Multiset::empty());
}

/// The first `i + 1` ids of a list are the first `i` and the id at `i`.
pub proof fn lemma_bag_take(s: Seq<CommitId>, i: int)
    requires
        0 <= i < s.len(),
    ensures
        bag(s.take(i + 1)) == bag(s.take(i)).insert(s[i]@),
{
    assert(s.take(i + 1).drop_last() =~= s.take(i));
}

/// The multiset counts an id exactly when the list holds it, and is as
/// large as the list is long.
pub proof fn lemma_bag_contains(s: Seq<CommitId>, v: Seq<u8>)
    ensures
        bag(s).count(v) > 0 <==> exists|i: int| 0 <= i < s.len() && #[trigger] s[i]@ == v,
        bag(s).len() == s.len(),
    decreases s.len(),
{
    broadcast use vstd::multiset::group_multiset_axioms;

    if s.len() > 0 {
        let t = s.drop_last();
        lemma_bag_contains(t, v);
        if exists|i: int| 0 <= i < s.len() && #[trigger] s[i]@ == v {
            let i = choose|i: int| 0 <= i < s.len() && #[trigger] s[i]@ == v;
            if i < t.len() {
                assert(t[i]@ == v);
            }
        }
    }
}

/// Lists with the same ids in the same places hold the same multiset.
pub proof fn lemma_same_ids_same_bag(a: Seq<CommitId>, b: Seq<CommitId>)
    requires
        same_ids(a, b),
    ensures
        bag(a) == bag(b),
    decreases a.len(),
{
    if a.len() > 0 {
        lemma_same_ids_same_bag(a.drop_last(), b.drop_last());
    }
}

/// Two increasing lists that hold the same multiset hold the same ids in
/// the same places.
pub proof fn lemma_increasing_unique(a: Seq<CommitId>, b: Seq<CommitId>)
    requires
        increasing(a),
        increasing(b),
        bag(a) == bag(b),
    ensures
        same_ids(a, b),
    decreases a.len(),
{
    broadcast use vstd::multiset::group_multiset_axioms;

    lemma_bag_contains(a, arbitrary());
    lemma_bag_contains(b, arbitrary());
    if a.len() > 0 {
        let x = a.last()@;
        let y = b.last()@;
        lemma_bag_contains(a, y);
        lemma_bag_contains(b, x);
        assert(lex_le(y, x)) by {}
        assert(lex_le(x, y)) by {}
        if x != y {
            lemma_lex_lt_asymmetric(x, y);
        }
        assert(bag(a.drop_last()) =~= bag(a).remove(x));
        assert(bag(b.drop_last()) =~= bag(b).remove(y));
        lemma_increasing_unique(a.drop_last(), b.drop_last());
        assert forall|k: int| 0 <= k < a.len() implies #[trigger] a[k]@ == b[k]@ by {
            if k < a.len() - 1 {
                assert(a.drop_last()[k]@ == b.drop_last()[k]@);
            }
        }
    }
}

/// Adding an id that is not below the last one keeps a list increasing.
pub proof fn lemma_push_increasing(s: Seq<CommitId>, c: CommitId)
    requires
        increasing(s),
        s.len() > 0 ==> lex_le(s.last()@, c@),
    ensures
        increasing(s.push(c)),
{
    let t = s.push(c);
    assert forall|i: int, j: int| 0 <= i < j < t.len() implies lex_le(
        #[trigger] t[i]@,
        #[trigger] t[j]@,
    ) by {
        if j == s.len() {
            if i < s.len() - 1 {
                if lex_lt(s[i]@, s.last()@) && lex_lt(
                    s.last()@,
                    c@,
                ) {
                    lemma_lex_lt_transitive(s[i]@, s.last()@, c@);
                }
            }
        }
    }
}

/// Compares two ids by their bytes.
pub fn compare_ids(a: &CommitId, b: &CommitId) -> (r: Order)
    ensures
        r == order_of(a@, b@),
{
    compare_bytes(a.as_bytes(), b.as_bytes())
}

/// A copy of a list of ids.
pub fn clone_ids(ids: &Vec<CommitId>) -> (r: Vec<CommitId>)
    ensures
        same_ids(r@, ids@),
{
    let mut out: Vec<CommitId> = Vec::new();
    let mut i: usize = 0;
    while i < ids.len()
        invariant
            i <= ids.len(),
            out.len() == i,
            forall|k: int| 0 <= k < i ==> #[trigger] out[k]@ == ids[k]@,
        decreases ids.len() - i,
    {
        out.push(ids[i].clone());
        i += 1;
    }
    out
}

/// Merges two increasing lists into one increasing list that holds every
/// id of both, as often as both together hold it.
pub fn merge_sorted(a: &Vec<CommitId>, b: &Vec<CommitId>) -> (r: Vec<CommitId>)
    requires
        increasing(a@),
        increasing(b@),
    ensures
        increasing(r@),
        bag(r@) == bag(a@).add(bag(b@)),
{
    broadcast use vstd::multiset::group_multiset_axioms;

    let mut out: Vec<CommitId> = Vec::new();
    let mut i: usize = 0;
    let mut j: usize = 0;
    while i < a.len() || j < b.len()
        invariant
            i <= a.len(),
            j <= b.len(),
            increasing(a@),
            increasing(b@),
            increasing(out@),
            bag(out@) == bag(a@.take(i as int)).add(bag(b@.take(j as int))),
            out.len() > 0 && i < a.len() ==> lex_le(out@.last()@, a[i as int]@),
            out.len() > 0 && j < b.len() ==> lex_le(out@.last()@, b[j as int]@),
        decreases (a.len() - i) + (b.len() - j),
    {
        let take_a = if j >= b.len() {
            true
        } else if i >= a.len() {
            false
        } else {
            proof {
                lemma_lex_total(a[i as int]@, b[j as int]@);
            }
            match compare_ids(&a[i], &b[j]) {
                Order::Greater => false,
                _ => true,
            }
        };
        let ghost before = out@;
        if take_a {
            let c = a[i].clone();
            proof {
                lemma_push_increasing(before, c);
                lemma_bag_push(before, c);
                lemma_bag_take(a@, i as int);
            }
            out.push(c);
            i += 1;
        } else {
            let c = b[j].clone();
            proof {
                lemma_push_increasing(before, c);
                lemma_bag_push(before, c);
                lemma_bag_take(b@, j as int);
            }
            out.push(c);
            j += 1;
        }
    }
    proof {
        assert(a@.take(i as int) =~= a@);
        assert(b@.take(j as int) =~= b@);
    }
    out
}

/// Puts a list of ids into increasing order.
pub fn sort_ids(ids: &Vec<CommitId>) -> (r: Vec<CommitId>)
    ensures
        increasing(r@),
        bag(r@) == bag(ids@),
{
    broadcast use vstd::multiset::group_multiset_axioms;

    let mut out: Vec<CommitId> = Vec::new();
    let mut i: usize = 0;
    while i < ids.len()
        invariant
            i <= ids.len(),
            increasing(out@),
            bag(out@) == bag(ids@.take(i as int)),
        decreases ids.len() - i,
    {
        let mut single: Vec<CommitId> = Vec::new();
        single.push(ids[i].clone());
        proof {
            lemma_bag_push(Seq::<CommitId>::empty(), single[0]);
            lemma_bag_take(ids@, i as int);
        }
        out = merge_sorted(&out, &single);
        i += 1;
    }
    proof {
        assert(ids@.take(i as int) =~= ids@);
    }
    out
}

/// What is left of `pos` and of `neg` once every id that both hold has been
/// struck from both, as often as both hold it.
pub fn cancel(pos: &Vec<CommitId>, neg: &Vec<CommitId>) -> (r: (Vec<CommitId>, Vec<CommitId>))
    requires
        increasing(pos@),
        increasing(neg@),
    ensures
        increasing(r.0@),
        increasing(r.1@),
        disjoint(r.0@, r.1@),
        bag(r.0@) == bag(pos@).sub(bag(neg@)),
        bag(r.1@) == bag(neg@).sub(bag(pos@)),
{
    broadcast use vstd::multiset::group_multiset_axioms;

    let mut adds: Vec<CommitId> = Vec::new();
    let mut removes: Vec<CommitId> = Vec::new();
    let mut i: usize = 0;
    let mut j: usize = 0;
    while i < pos.len() || j < neg.len()
        invariant
            i <= pos.len(),
            j <= neg.len(),
            increasing(pos@),
            increasing(neg@),
            increasing(adds@),
            increasing(removes@),
            disjoint(adds@, removes@),
            bag(adds@).add(bag(neg@.take(j as int))) == bag(pos@.take(i as int)).add(bag(removes@)),
            adds.len() > 0 && i < pos.len() ==> lex_le(
                adds@.last()@,
                pos[i as int]@,
            ),
            removes.len() > 0 && j < neg.len() ==> lex_le(
                removes@.last()@,
                neg[j as int]@,
            ),
            forall|x: int, k: int|
                0 <= x < adds.len() && j <= k < neg.len() ==> lex_lt(
                    #[trigger] adds[x]@,
                    #[trigger] neg[k]@,
                ),
            forall|y: int, k: int|
                0 <= y < removes.len() && i <= k < pos.len() ==> lex_lt(
                    #[trigger] removes[y]@,
                    #[trigger] pos[k]@,
                ),
        decreases (pos.len() - i) + (neg.len() - j),
    {
        let order = if j >= neg.len() {
            Order::Less
        } else if i >= pos.len() {
            Order::Greater
        } else {
            proof {
                lemma_lex_total(pos[i as int]@, neg[j as int]@);
            }
            compare_ids(&pos[i], &neg[j])
        };
        let ghost adds0 = adds@;
        let ghost removes0 = removes@;
        let ghost left0 = bag(adds@).add(bag(neg@.take(j as int)));
        let ghost right0 = bag(pos@.take(i as int)).add(bag(removes@));
        proof {
            if i < pos.len() {
                lemma_bag_take(pos@, i as int);
            }
            if j < neg.len() {
                lemma_bag_take(neg@, j as int);
            }
        }
        match order {
            Order::Equal => {
                proof {
                    assert forall|x: int, k: int|
                        0 <= x < adds.len() && j + 1 <= k < neg.len() implies lex_lt(
                        #[trigger] adds[x]@,
                        #[trigger] neg[k]@,
                    ) by {}
                    if i + 1 < pos.len() && adds.len() > 0 {
                        lemma_le_chain(adds@.last()@, pos[i as int]@, pos[i + 1]@);
                    }
                    if j + 1 < neg.len() && removes.len() > 0 {
                        lemma_le_chain(removes@.last()@, neg[j as int]@, neg[j + 1]@);
                    }
                }
                i += 1;
                j += 1;
            },
            Order::Less => {
                let c = pos[i].clone();
                proof {
                    lemma_push_increasing(adds0, c);
                    lemma_bag_push(adds0, c);
                    assert forall|k: int| j <= k < neg.len() implies lex_lt(
                        c@,
                        #[trigger] neg[k]@,
                    ) by {
                        if j < k {
                            lemma_lt_le(c@, neg[j as int]@, neg[k]@);
                        }
                    }
                    assert forall|y: int| 0 <= y < removes0.len() implies #[trigger] removes0[y]@
                        != c@ by {
                        lemma_lex_lt_asymmetric(removes0[y]@, pos[i as int]@);
                    }
                }
                adds.push(c);
                i += 1;
            },
            Order::Greater => {
                let c = neg[j].clone();
                proof {
                    lemma_push_increasing(removes0, c);
                    lemma_bag_push(removes0, c);
                    assert forall|k: int| i <= k < pos.len() implies lex_lt(
                        c@,
                        #[trigger] pos[k]@,
                    ) by {
                        if i < k {
                            lemma_lt_le(c@, pos[i as int]@, pos[k]@);
                        }
                    }
                    assert forall|x: int| 0 <= x < adds0.len() implies #[trigger] adds0[x]@
                        != c@ by {
                        lemma_lex_lt_asymmetric(adds0[x]@, neg[j as int]@);
                    }
                }
                removes.push(c);
                j += 1;
            },
        }
        proof {
            assert forall|v: Seq<u8>|
                bag(adds@).add(bag(neg@.take(j as int))).count(v) == bag(pos@.take(i as int)).add(
                    bag(removes@),
                ).count(v) by {
                assert(left0.count(v) == right0.count(v));
            }
        }
    }
    proof {
        assert(pos@.take(i as int) =~= pos@);
        assert(neg@.take(j as int) =~= neg@);
        assert forall|v: Seq<u8>| bag(adds@).count(v) == 0 || bag(removes@).count(v) == 0 by {
            lemma_bag_contains(adds@, v);
            lemma_bag_contains(removes@, v);
        }
        assert forall|v: Seq<u8>|
            bag(adds@).count(v) == bag(pos@).sub(bag(neg@)).count(v) && bag(removes@).count(v)
                == bag(neg@).sub(bag(pos@)).count(v) by {
            assert(bag(adds@).add(bag(neg@)).count(v) == bag(pos@).add(bag(removes@)).count(v));
        }
    }
    (adds, removes)
}

proof fn lemma_le_chain(a: Seq<u8>, b: Seq<u8>, c: Seq<u8>)
    requires
        lex_le(a, b),
        lex_le(b, c),
    ensures
        lex_le(a, c),
{
    if lex_lt(a, b) && lex_lt(b, c) {
        lemma_lex_lt_transitive(a, b, c);
    }
}

proof fn lemma_lt_le(a: Seq<u8>, b: Seq<u8>, c: Seq<u8>)
    requires
        lex_lt(a, b),
        lex_le(b, c),
    ensures
        lex_lt(a, c),
{
    if lex_lt(b, c) {
        lemma_lex_lt_transitive(a, b, c);
    }
}

/// The set of ids that a list holds.
pub open spec fn ids_in(s: Seq<CommitId>) -> Set<Seq<u8>> {
    Set::new(|v: Seq<u8>| exists|i: int| 0 <= i < s.len() && #[trigger] s[i]@ == v)
}

/// The ids that a list holds are the ids that its multiset counts.
pub proof fn lemma_ids_in_bag(s: Seq<CommitId>)
    ensures
        ids_in(s) == bag(s).dom(),
{
    assert forall|v: Seq<u8>| ids_in(s).contains(v) <==> bag(s).dom().contains(v) by {
        lemma_bag_contains(s, v);
    }
}

/// A list joined to another holds the ids of both.
pub proof fn lemma_ids_in_concat(a: Seq<CommitId>, b: Seq<CommitId>)
    ensures
        ids_in(a + b) == ids_in(a).union(ids_in(b)),
{
    let c = a + b;
    assert forall|v: Seq<u8>| ids_in(c).contains(v) <==> ids_in(a).union(ids_in(b)).contains(v) by {
        if ids_in(a).contains(v) {
            let i = choose|i: int| 0 <= i < a.len() && #[trigger] a[i]@ == v;
            assert(c[i]@ == v);
        }
        if ids_in(b).contains(v) {
            let i = choose|i: int| 0 <= i < b.len() && #[trigger] b[i]@ == v;
            assert(c[a.len() + i]@ == v);
        }
    }
}

/// A list with one more id holds that id besides its own.
pub proof fn lemma_ids_in_push(s: Seq<CommitId>, c: CommitId)
    ensures
        ids_in(s.push(c)) == ids_in(s).insert(c@),
{
    let t = s.push(c);
    assert forall|v: Seq<u8>| ids_in(t).contains(v) <==> ids_in(s).insert(c@).contains(v) by {
        if ids_in(s).contains(v) {
            let i = choose|i: int| 0 <= i < s.len() && #[trigger] s[i]@ == v;
            assert(t[i]@ == v);
        }
        if v == c@ {
            assert(t[s.len() as int]@ == v);
        }
    }
}

} // verus!
