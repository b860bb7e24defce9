//! Three-way merge of reference targets.

use vstd::prelude::*;
use vstd::multiset::Multiset;
use crate::byte_order::Order;
use crate::byte_order::compare_bytes;
use crate::byte_order::lemma_lex_lt_asymmetric;
use crate::byte_order::lemma_lex_lt_transitive;
use crate::byte_order::lemma_lex_total;
use crate::byte_order::lex_lt;
use crate::ref_target::RefTarget;
use crate::ref_target::RemoteRef;
use crate::ref_target::TargetModel;
use crate::sorted_ids::cancel;
use crate::sorted_ids::merge_sorted;
use crate::sorted_map::enumerates;
use crate::sorted_map::name_key;
use crate::sorted_map::strictly_increasing;
use crate::str_util::names_of;

verus! {

/// The merge of two sides that both started from `base`.
///
/// Sides that say the same merge to what they say. Otherwise every commit
/// counts as often as the two sides add it beyond the base and is removed
/// as often as they remove it beyond the base: what one side alone changed
/// is taken over, and what the sides changed differently stays in the
/// result as a conflict.
pub open spec fn merge_spec(base: TargetModel, side1: TargetModel, side2: TargetModel)
    -> TargetModel {
    if side1 == side2 {
        side1
    } else {
        TargetModel::normalized(
            side1.adds.add(side2.adds).add(base.removes),
            side1.removes.add(side2.removes).add(base.adds),
        )
    }
}

/// Merges the targets that two sides gave a reference whose target was
/// `base` when both started.
pub fn merge_ref_targets(base: &RefTarget, side1: &RefTarget, side2: &RefTarget) -> (r: RefTarget)
    requires
        base.wf(),
        side1.wf(),
        side2.wf(),
    ensures
        r.wf(),
        r@ == merge_spec(base@, side1@, side2@),
{
    if side1.same_target(side2) {
        return side1.clone();
    }
    let (base_adds, base_removes) = base.to_parts();
    let (adds1, removes1) = side1.to_parts();
    let (adds2, removes2) = side2.to_parts();
    let side_adds = merge_sorted(&adds1, &adds2);
    let pos = merge_sorted(&side_adds, &base_removes);
    let side_removes = merge_sorted(&removes1, &removes2);
    let neg = merge_sorted(&side_removes, &base_adds);
    let (adds, removes) = cancel(&pos, &neg);
    RefTarget::from_sorted_parts(adds, removes)
}

/// The merge does not depend on which side is named first.
pub proof fn lemma_merge_commutative(base: TargetModel, a: TargetModel, b: TargetModel)
    ensures
        merge_spec(base, a, b) == merge_spec(base, b, a),
{
    broadcast use vstd::multiset::group_multiset_axioms;

    if a != b {
        let pos1 = a.adds.add(b.adds).add(base.removes);
        let pos2 = b.adds.add(a.adds).add(base.removes);
        let neg1 = a.removes.add(b.removes).add(base.adds);
        let neg2 = b.removes.add(a.removes).add(base.adds);
        assert(pos1 =~= pos2);
        assert(neg1 =~= neg2);
    }
}

/// Where neither side changed anything the merge is the target itself.
pub proof fn lemma_merge_idempotent(t: TargetModel)
    ensures
        merge_spec(t, t, t) == t,
{
}

/// Where one side left the base as it was, the merge is what the other
/// side made of it.
pub proof fn lemma_merge_one_side_unchanged(base: TargetModel, other: TargetModel)
    requires
        other.wf(),
    ensures
        merge_spec(base, base, other) == other,
        merge_spec(base, other, base) == other,
{
    broadcast use vstd::multiset::group_multiset_axioms;

    lemma_merge_commutative(base, base, other);
    if base != other {
        let m = merge_spec(base, base, other);
        assert(m.adds =~= other.adds);
        assert(m.removes =~= other.removes);
    }
}

/// Where the sides moved a reference from the commit `base` to two
/// different commits, the merge is a conflict that adds both and removes
/// `base`.
pub proof fn lemma_merge_diverged(base: Seq<u8>, id1: Seq<u8>, id2: Seq<u8>)
    requires
        id1 != id2,
        base != id1,
        base != id2,
    ensures
        merge_spec(
            TargetModel::resolved(base),
            TargetModel::resolved(id1),
            TargetModel::resolved(id2),
        ) == (TargetModel {
            adds: Multiset::singleton(id1).add(Multiset::singleton(id2)),
            removes: Multiset::singleton(base),
        }),
        merge_spec(
            TargetModel::resolved(base),
            TargetModel::resolved(id1),
            TargetModel::resolved(id2),
        ).has_conflict(),
{
    broadcast use vstd::multiset::group_multiset_axioms;

    let m = merge_spec(
        TargetModel::resolved(base),
        TargetModel::resolved(id1),
        TargetModel::resolved(id2),
    );
    assert(m.adds =~= Multiset::singleton(id1).add(Multiset::singleton(id2)));
    assert(m.removes =~= Multiset::singleton(base));
}

/// Where the sides gave a reference that did not exist two different
/// commits, the merge is a conflict that adds both and removes nothing.
pub proof fn lemma_merge_diverged_from_absent(id1: Seq<u8>, id2: Seq<u8>)
    requires
        id1 != id2,
    ensures
        merge_spec(
            TargetModel::absent(),
            TargetModel::resolved(id1),
            TargetModel::resolved(id2),
        ) == (TargetModel {
            adds: Multiset::singleton(id1).add(Multiset::singleton(id2)),
            removes: Multiset::empty(),
        }),
        merge_spec(
            TargetModel::absent(),
            TargetModel::resolved(id1),
            TargetModel::resolved(id2),
        ).has_conflict(),
{
    broadcast use vstd::multiset::group_multiset_axioms;

    let m = merge_spec(
        TargetModel::absent(),
        TargetModel::resolved(id1),
        TargetModel::resolved(id2),
    );
    assert(m.adds =~= Multiset::singleton(id1).add(Multiset::singleton(id2)));
    assert(m.removes =~= Multiset::empty());
}

/// The merge of well-formed targets names no commit on both sides.
pub proof fn lemma_merge_wf(base: TargetModel, a: TargetModel, b: TargetModel)
    requires
        a.wf(),
    ensures
        merge_spec(base, a, b).wf(),
{
    broadcast use vstd::multiset::group_multiset_axioms;

}

/// A local bookmark and the remote bookmark of the same name.
#[derive(Clone, Copy, Debug, PartialEq, Eq)]
pub struct LocalAndRemoteRef<'a> {
    pub local_target: &'a RefTarget,
    pub remote_ref: &'a RemoteRef,
}

/// The name `k` stands at no place of the list.
pub open spec fn not_named<'a, T>(list: Seq<(&'a str, T)>, k: Seq<u8>) -> bool {
    forall|i: int| 0 <= i < list.len() ==> #[trigger] names_of(list)[i] != k
}

/// The set of the names of a list.
pub open spec fn name_set<'a, T>(list: Seq<(&'a str, T)>) -> Set<Seq<u8>> {
    Set::new(
        |k: Seq<u8>|
            exists|i: int| 0 <= i < list.len() && #[trigger] names_of(list)[i] == k,
    )
}

proof fn lemma_lt_chain(a: Seq<u8>, b: Seq<u8>, c: Seq<u8>)
    requires
        lex_lt(a, b),
        lex_lt(b, c) || b == c,
    ensures
        lex_lt(a, c),
{
    if b != c {
        lemma_lex_lt_transitive(a, b, c);
    }
}

/// Joins a list of local targets and a list of remote bookmarks, both in
/// the order of their names, into one list in that order. Each name of
/// either list appears once, with the local target and the remote
/// bookmark of that name; where one of them is missing the absent one
/// stands in.
pub fn iter_named_local_remote_refs<'a>(
    locals: Vec<(&'a str, &'a RefTarget)>,
    remotes: Vec<(&'a str, &'a RemoteRef)>,
) -> (r: Vec<(&'a str, (&'a RefTarget, &'a RemoteRef))>)
    requires
        strictly_increasing(names_of(locals@)),
        strictly_increasing(names_of(remotes@)),
    ensures
        enumerates(
            names_of(r@),
            name_set(locals@).union(name_set(remotes@)),
        ),
        forall|j: int, i: int|
            0 <= j < r.len() && 0 <= i < locals.len() && #[trigger] names_of(r@)[j]
                == #[trigger] names_of(locals@)[i] ==> r[j].1.0 == locals[i].1,
        forall|j: int|
            0 <= j < r.len() && not_named(locals@, #[trigger] names_of(r@)[j])
                ==> r[j].1.0.wf() && r[j].1.0@ == TargetModel::absent(),
        forall|j: int, i: int|
            0 <= j < r.len() && 0 <= i < remotes.len() && #[trigger] names_of(r@)[j]
                == #[trigger] names_of(remotes@)[i] ==> r[j].1.1 == remotes[i].1,
        forall|j: int|
            0 <= j < r.len() && not_named(remotes@, #[trigger] names_of(r@)[j])
                ==> r[j].1.1.wf() && r[j].1.1@.target == TargetModel::absent()
                && !r[j].1.1@.tracking,
{
    let ghost ln = names_of(locals@);
    let ghost rn = names_of(remotes@);
    let mut out: Vec<(&'a str, (&'a RefTarget, &'a RemoteRef))> = Vec::new();
    let mut a: usize = 0;
    let mut b: usize = 0;
    // For each place of `out`, where its name stands in each list, or -1.
    let ghost mut li: Seq<int> = Seq::empty();
    let ghost mut ri: Seq<int> = Seq::empty();
    // For each place of each list up to `a` and `b`, where its name stands in `out`.
    let ghost mut lpos: Seq<int> = Seq::empty();
    let ghost mut rpos: Seq<int> = Seq::empty();
    while a < locals.len() || b < remotes.len()
        invariant
            a <= locals.len(),
            b <= remotes.len(),
            ln == names_of(locals@),
            rn == names_of(remotes@),
            strictly_increasing(ln),
            strictly_increasing(rn),
            li.len() == out.len(),
            ri.len() == out.len(),
            lpos.len() == a,
            rpos.len() == b,
            strictly_increasing(names_of(out@)),
            forall|j: int|
                0 <= j < out.len() && a < locals.len() ==> lex_lt(
                    #[trigger] names_of(out@)[j],
                    ln[a as int],
                ),
            forall|j: int|
                0 <= j < out.len() && b < remotes.len() ==> lex_lt(
                    #[trigger] names_of(out@)[j],
                    rn[b as int],
                ),
            forall|j: int|
                0 <= j < out.len() ==> (#[trigger] li[j] == -1 && out[j].1.0.wf() && out[j].1.0@
                    == TargetModel::absent() && forall|i: int|
                    0 <= i < a ==> #[trigger] ln[i] != names_of(out@)[j]) || (0
                    <= li[j] < a && ln[li[j]] == names_of(out@)[j] && out[j].1.0
                    == locals[li[j]].1),
            forall|j: int|
                0 <= j < out.len() ==> (#[trigger] ri[j] == -1 && out[j].1.1.wf()
                    && out[j].1.1@.target == TargetModel::absent() && !out[j].1.1@.tracking
                    && forall|i: int|
                    0 <= i < b ==> #[trigger] rn[i] != names_of(out@)[j]) || (0
                    <= ri[j] < b && rn[ri[j]] == names_of(out@)[j] && out[j].1.1
                    == remotes[ri[j]].1),
            forall|j: int| 0 <= j < out.len() ==> #[trigger] li[j] != -1 || ri[j] != -1,
            forall|i: int|
                0 <= i < a ==> 0 <= #[trigger] lpos[i] < out.len() && names_of(
                    out@,
                )[lpos[i]] == ln[i],
            forall|i: int|
                0 <= i < b ==> 0 <= #[trigger] rpos[i] < out.len() && names_of(
                    out@,
                )[rpos[i]] == rn[i],
        decreases (locals.len() - a) + (remotes.len() - b),
    {
        let order = if b >= remotes.len() {
            Order::Less
        } else if a >= locals.len() {
            Order::Greater
        } else {
            proof {
                lemma_lex_total(ln[a as int], rn[b as int]);
            }
            compare_bytes(locals[a].0.as_bytes(), remotes[b].0.as_bytes())
        };
        let ghost names0 = names_of(out@);
        let ghost n = out.len() as int;
        match order {
            Order::Less => {
                let (name, target) = locals[a];
                out.push((name, (target, RemoteRef::absent_ref())));
                proof {
                    let x = ln[a as int];
                    li = li.push(a as int);
                    ri = ri.push(-1);
                    lpos = lpos.push(n);
                    let names = names_of(out@);
                    assert forall|j: int| 0 <= j < n implies #[trigger] names[j] == names0[j] by {}
                    assert forall|i: int| 0 <= i < b implies #[trigger] rn[i] != x by {
                        lemma_lex_lt_asymmetric(names0[rpos[i]], x);
                    }
                    if a + 1 < locals.len() {
                        assert forall|j: int| 0 <= j < out.len() implies lex_lt(
                            #[trigger] names[j],
                            ln[a + 1],
                        ) by {
                            if j < n {
                                lemma_lt_chain(names[j], x, ln[a + 1]);
                            }
                        }
                    }
                }
                a += 1;
            },
            Order::Greater => {
                let (name, remote_ref) = remotes[b];
                out.push((name, (RefTarget::absent_ref(), remote_ref)));
                proof {
                    let x = rn[b as int];
                    li = li.push(-1);
                    ri = ri.push(b as int);
                    rpos = rpos.push(n);
                    let names = names_of(out@);
                    assert forall|j: int| 0 <= j < n implies #[trigger] names[j] == names0[j] by {}
                    assert forall|i: int| 0 <= i < a implies #[trigger] ln[i] != x by {
                        lemma_lex_lt_asymmetric(names0[lpos[i]], x);
                    }
                    if b + 1 < remotes.len() {
                        assert forall|j: int| 0 <= j < out.len() implies lex_lt(
                            #[trigger] names[j],
                            rn[b + 1],
                        ) by {
                            if j < n {
                                lemma_lt_chain(names[j], x, rn[b + 1]);
                            }
                        }
                    }
                }
                b += 1;
            },
            Order::Equal => {
                let (name, target) = locals[a];
                let (_, remote_ref) = remotes[b];
                out.push((name, (target, remote_ref)));
                proof {
                    let x = ln[a as int];
                    li = li.push(a as int);
                    ri = ri.push(b as int);
                    lpos = lpos.push(n);
                    rpos = rpos.push(n);
                    let names = names_of(out@);
                    assert forall|j: int| 0 <= j < n implies #[trigger] names[j] == names0[j] by {}
                    if a + 1 < locals.len() {
                        assert forall|j: int| 0 <= j < out.len() implies lex_lt(
                            #[trigger] names[j],
                            ln[a + 1],
                        ) by {
                            if j < n {
                                lemma_lt_chain(names[j], x, ln[a + 1]);
                            }
                        }
                    }
                    if b + 1 < remotes.len() {
                        assert forall|j: int| 0 <= j < out.len() implies lex_lt(
                            #[trigger] names[j],
                            rn[b + 1],
                        ) by {
                            if j < n {
                                lemma_lt_chain(names[j], x, rn[b + 1]);
                            }
                        }
                    }
                }
                a += 1;
                b += 1;
            },
        }
        proof {
            let names = names_of(out@);
            assert forall|p: int, q: int| 0 <= p < q < names.len() implies lex_lt(
                #[trigger] names[p],
                #[trigger] names[q],
            ) by {}
        }
    }
    proof {
        let names = names_of(out@);
        let keys = name_set(locals@).union(name_set(remotes@));
        assert forall|j: int| 0 <= j < names.len() implies keys.contains(#[trigger] names[j]) by {
            if li[j] != -1 {
                assert(ln[li[j]] == names[j]);
            } else {
                assert(rn[ri[j]] == names[j]);
            }
        }
        assert forall|k: Seq<u8>| keys.contains(k) implies exists|j: int|
            0 <= j < names.len() && #[trigger] names[j] == k by {
            if name_set(locals@).contains(k) {
                let i = choose|i: int| 0 <= i < locals.len() && #[trigger] ln[i] == k;
                assert(names[lpos[i]] == k);
            } else {
                let i = choose|i: int| 0 <= i < remotes.len() && #[trigger] rn[i] == k;
                assert(names[rpos[i]] == k);
            }
        }
        assert forall|j: int, i: int|
            0 <= j < out.len() && 0 <= i < locals.len() && #[trigger] names[j]
                == #[trigger] ln[i] implies out[j].1.0 == locals[i].1 by {
            if li[j] != -1 && li[j] != i {
                if li[j] < i {
                    lemma_lex_lt_asymmetric(ln[li[j]], ln[i]);
                } else {
                    lemma_lex_lt_asymmetric(ln[i], ln[li[j]]);
                }
            }
        }
        assert forall|j: int, i: int|
            0 <= j < out.len() && 0 <= i < remotes.len() && #[trigger] names[j]
                == #[trigger] rn[i] implies out[j].1.1 == remotes[i].1 by {
            if ri[j] != -1 && ri[j] != i {
                if ri[j] < i {
                    lemma_lex_lt_asymmetric(rn[ri[j]], rn[i]);
                } else {
                    lemma_lex_lt_asymmetric(rn[i], rn[ri[j]]);
                }
            }
        }
        assert forall|j: int|
            0 <= j < out.len() && not_named(locals@, #[trigger] names[j]) implies out[j].1.0.wf()
            && out[j].1.0@ == TargetModel::absent() by {
            if li[j] != -1 {
                assert(ln[li[j]] == names[j]);
            }
        }
        assert forall|j: int|
            0 <= j < out.len() && not_named(remotes@, #[trigger] names[j]) implies out[j].1.1.wf()
            && out[j].1.1@.target == TargetModel::absent() && !out[j].1.1@.tracking by {
            if ri[j] != -1 {
                assert(rn[ri[j]] == names[j]);
            }
        }
    }
    out
}

/// The keys of a list of names, in the order of the list.
pub open spec fn name_keys<'a>(names: Seq<&'a str>) -> Seq<Seq<u8>> {
    Seq::new(names.len(), |i: int| name_key(names[i]@))
}

/// The set of the keys of a list of names.
pub open spec fn key_set(keys: Seq<Seq<u8>>) -> Set<Seq<u8>> {
    Set::new(|k: Seq<u8>| exists|i: int| 0 <= i < keys.len() && #[trigger] keys[i] == k)
}

/// Joins two lists of names, both in order, into one list in order that
/// holds each name of either list once.
pub fn union_names<'a>(a: &Vec<&'a str>, b: &Vec<&'a str>) -> (r: Vec<&'a str>)
    requires
        strictly_increasing(name_keys(a@)),
        strictly_increasing(name_keys(b@)),
    ensures
        enumerates(
            name_keys(r@),
            key_set(name_keys(a@)).union(key_set(name_keys(b@))),
        ),
{
    let ghost an = name_keys(a@);
    let ghost bn = name_keys(b@);
    let mut out: Vec<&'a str> = Vec::new();
    let mut i: usize = 0;
    let mut j: usize = 0;
    // For each place of each list so far, where its name stands in `out`.
    let ghost mut apos: Seq<int> = Seq::empty();
    let ghost mut bpos: Seq<int> = Seq::empty();
    while i < a.len() || j < b.len()
        invariant
            i <= a.len(),
            j <= b.len(),
            an == name_keys(a@),
            bn == name_keys(b@),
            strictly_increasing(an),
            strictly_increasing(bn),
            apos.len() == i,
            bpos.len() == j,
            strictly_increasing(name_keys(out@)),
            forall|p: int|
                0 <= p < out.len() && i < a.len() ==> lex_lt(
                    #[trigger] name_keys(out@)[p],
                    an[i as int],
                ),
            forall|p: int|
                0 <= p < out.len() && j < b.len() ==> lex_lt(
                    #[trigger] name_keys(out@)[p],
                    bn[j as int],
                ),
            forall|p: int|
                0 <= p < out.len() ==> key_set(an).union(key_set(bn)).contains(
                    #[trigger] name_keys(out@)[p],
                ),
            forall|u: int|
                0 <= u < i ==> 0 <= #[trigger] apos[u] < out.len() && name_keys(out@)[apos[u]]
                    == an[u],
            forall|u: int|
                0 <= u < j ==> 0 <= #[trigger] bpos[u] < out.len() && name_keys(out@)[bpos[u]]
                    == bn[u],
        decreases (a.len() - i) + (b.len() - j),
    {
        let order = if j >= b.len() {
            Order::Less
        } else if i >= a.len() {
            Order::Greater
        } else {
            proof {
                lemma_lex_total(an[i as int], bn[j as int]);
            }
            compare_bytes(a[i].as_bytes(), b[j].as_bytes())
        };
        let ghost names0 = name_keys(out@);
        let ghost n = out.len() as int;
        let take_a = match order {
            Order::Greater => false,
            _ => true,
        };
        let take_b = match order {
            Order::Less => false,
            _ => true,
        };
        let name = if take_a {
            a[i]
        } else {
            b[j]
        };
        let ghost x = name_key(name@);
        out.push(name);
        proof {
            let names = name_keys(out@);
            assert forall|p: int| 0 <= p < n implies #[trigger] names[p] == names0[p] by {}
            if take_a {
                assert(an[i as int] == x);
                apos = apos.push(n);
            }
            if take_b {
                assert(bn[j as int] == x);
                bpos = bpos.push(n);
            }
            assert forall|p: int, q: int| 0 <= p < q < names.len() implies lex_lt(
                #[trigger] names[p],
                #[trigger] names[q],
            ) by {}
            if take_a && i + 1 < a.len() {
                assert forall|p: int| 0 <= p < out.len() implies lex_lt(
                    #[trigger] names[p],
                    an[i + 1],
                ) by {
                    if p < n {
                        lemma_lt_chain(names[p], x, an[i + 1]);
                    }
                }
            }
            if take_b && j + 1 < b.len() {
                assert forall|p: int| 0 <= p < out.len() implies lex_lt(
                    #[trigger] names[p],
                    bn[j + 1],
                ) by {
                    if p < n {
                        lemma_lt_chain(names[p], x, bn[j + 1]);
                    }
                }
            }
        }
        if take_a {
            i += 1;
        }
        if take_b {
            j += 1;
        }
    }
    proof {
        let names = name_keys(out@);
        let keys = key_set(an).union(key_set(bn));
        assert forall|k: Seq<u8>| keys.contains(k) implies exists|p: int|
            0 <= p < names.len() && #[trigger] names[p] == k by {
            if key_set(an).contains(k) {
                let u = choose|u: int| 0 <= u < an.len() && #[trigger] an[u] == k;
                assert(names[apos[u]] == k);
            } else {
                let u = choose|u: int| 0 <= u < bn.len() && #[trigger] bn[u] == k;
                assert(names[bpos[u]] == k);
            }
        }
    }
    out
}

/// A list that enumerates a set has exactly the keys of the set.
pub proof fn lemma_key_set_of_enumeration(names: Seq<Seq<u8>>, keys: Set<Seq<u8>>)
    requires
        enumerates(names, keys),
    ensures
        key_set(names) == keys,
{
    assert forall|k: Seq<u8>| key_set(names).contains(k) <==> keys.contains(k) by {}
}

} // verus!
