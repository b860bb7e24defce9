//! Reconciling two views that were made from the same view.
//!
//! Each part of the view is merged by its own rule, and nothing is ever
//! rejected: where the two sides gave a reference different targets, the
//! merged target is a conflict that holds both.

use vstd::prelude::*;
use vstd::view::View as _;
use crate::backend::CommitId;
use crate::named_refs::get_remote_ref;
use crate::named_refs::get_target;
use crate::named_refs::remote_at;
use crate::named_refs::remote_ref_at;
use crate::named_refs::set_remote_ref;
use crate::named_refs::set_target;
use crate::named_refs::target_at;
use crate::op_store::CommitIdSet;
use crate::op_store::RemoteView;
use crate::op_store::ViewModel;
use crate::op_store::WorkspaceId;
use crate::op_store::ids_model;
use crate::op_store::remote_refs_model;
use crate::op_store::remote_refs_model_wf;
use crate::op_store::remote_refs_wf;
use crate::op_store::remote_views_model;
use crate::op_store::remote_views_wf;
use crate::op_store::targets_model;
use crate::op_store::targets_model_wf;
use crate::op_store::targets_wf;
use crate::ref_target::RefTarget;
use crate::ref_target::RemoteRef;
use crate::ref_target::RemoteRefModel;
use crate::ref_target::RemoteRefState;
use crate::ref_target::TargetModel;
use crate::ref_target::lemma_target_states;
use crate::refs::lemma_merge_commutative;
use crate::refs::lemma_merge_one_side_unchanged;
use crate::refs::merge_ref_targets;
use crate::refs::merge_spec;
use crate::sorted_ids::ids_in;
use crate::sorted_ids::lemma_ids_in_push;
use crate::sorted_map::OrderedKey;
use crate::sorted_map::SortedMap;
use crate::sorted_map::among_first;
use crate::sorted_map::index_of;
use crate::sorted_map::keys_of;
use crate::sorted_map::lemma_some_key;
use crate::sorted_map::name_key;
use crate::view::View;

verus! {

/// The merged target of the name `k`.
pub open spec fn merged_target_at(
    base: Map<Seq<u8>, TargetModel>,
    side1: Map<Seq<u8>, TargetModel>,
    side2: Map<Seq<u8>, TargetModel>,
    k: Seq<u8>,
) -> TargetModel {
    merge_spec(
        target_at(base, k),
        target_at(side1, k),
        target_at(side2, k),
    )
}

/// The merge of two maps of targets that both started from `base`: every
/// name has the merge of the targets that the three maps give it, and a
/// name whose merged target is absent has no entry.
pub open spec fn merged_targets(
    base: Map<Seq<u8>, TargetModel>,
    side1: Map<Seq<u8>, TargetModel>,
    side2: Map<Seq<u8>, TargetModel>,
) -> Map<Seq<u8>, TargetModel> {
    Map::new(
        |k: Seq<u8>| !merged_target_at(base, side1, side2, k).is_absent(),
        |k: Seq<u8>| merged_target_at(base, side1, side2, k),
    )
}

/// Gives every name of `source` its merged target in `out`.
fn merge_targets_of(
    out: &mut SortedMap<String, RefTarget>,
    source: &SortedMap<String, RefTarget>,
    base: &SortedMap<String, RefTarget>,
    side1: &SortedMap<String, RefTarget>,
    side2: &SortedMap<String, RefTarget>,
    done: Ghost<Set<Seq<u8>>>,
)
    requires
        targets_wf(*old(out)),
        targets_wf(*source),
        targets_wf(*base),
        targets_wf(*side1),
        targets_wf(*side2),
        forall|k: Seq<u8>|
            #[trigger] target_at(targets_model(old(out)@), k) == if done@.contains(
                k,
            ) {
                merged_target_at(
                    targets_model(base@),
                    targets_model(side1@),
                    targets_model(side2@),
                    k,
                )
            } else {
                TargetModel::absent()
            },
    ensures
        targets_wf(*final(out)),
        forall|k: Seq<u8>|
            #[trigger] target_at(targets_model(final(out)@), k) == if done@.contains(
                k,
            ) || source@.contains_key(k) {
                merged_target_at(
                    targets_model(base@),
                    targets_model(side1@),
                    targets_model(side2@),
                    k,
                )
            } else {
                TargetModel::absent()
            },
{
    let ghost s = source.entries();
    let ghost keys = keys_of(s);
    let ghost bm = targets_model(base@);
    let ghost m1 = targets_model(side1@);
    let ghost m2 = targets_model(side2@);
    let mut i: usize = 0;
    while i < source.len()
        invariant
            s == source.entries(),
            keys == keys_of(s),
            bm == targets_model(base@),
            m1 == targets_model(side1@),
            m2 == targets_model(side2@),
            i <= s.len(),
            targets_wf(*out),
            targets_wf(*base),
            targets_wf(*side1),
            targets_wf(*side2),
            forall|k: Seq<u8>|
                #[trigger] target_at(targets_model(out@), k) == if done@.contains(
                    k,
                ) || among_first(keys, i as int, k) {
                    merged_target_at(bm, m1, m2, k)
                } else {
                    TargetModel::absent()
                },
        decreases s.len() - i,
    {
        let name = source.key_at(i).as_str();
        let ghost key = keys[i as int];
        let ghost before = targets_model(out@);
        let merged = merge_ref_targets(
            get_target(base, name),
            get_target(side1, name),
            get_target(side2, name),
        );
        set_target(out, name, merged);
        proof {
            let after = targets_model(out@);
            assert forall|k: Seq<u8>|
                #[trigger] target_at(after, k) == if done@.contains(k)
                    || among_first(keys, i + 1, k) {
                    merged_target_at(bm, m1, m2, k)
                } else {
                    TargetModel::absent()
                } by {
                lemma_target_states(merged@);
                if k != key {
                    assert(target_at(after, k) == target_at(before, k));
                    if among_first(keys, i + 1, k) {
                        let u = choose|u: int| 0 <= u < i + 1 && u < keys.len() && #[trigger] keys[u] == k;
                    }
                    if among_first(keys, i as int, k) {
                        let u = choose|u: int| 0 <= u < i && u < keys.len() && #[trigger] keys[u] == k;
                    }
                }
            }
        }
        i += 1;
    }
    proof {
        assert forall|k: Seq<u8>|
            among_first(keys, s.len() as int, k) <==> source@.contains_key(k) by {
            if source@.contains_key(k) {
                let p = index_of(s, k);
            }
            if among_first(keys, s.len() as int, k) {
                let u = choose|u: int| 0 <= u < s.len() && u < keys.len() && #[trigger] keys[u] == k;
            }
        }
    }
}

/// Merges two maps of targets that both started from `base`.
pub fn merge_target_maps(
    base: &SortedMap<String, RefTarget>,
    side1: &SortedMap<String, RefTarget>,
    side2: &SortedMap<String, RefTarget>,
) -> (r: SortedMap<String, RefTarget>)
    requires
        targets_wf(*base),
        targets_wf(*side1),
        targets_wf(*side2),
    ensures
        targets_wf(r),
        targets_model(r@) == merged_targets(
            targets_model(base@),
            targets_model(side1@),
            targets_model(side2@),
        ),
{
    let ghost bm = targets_model(base@);
    let ghost m1 = targets_model(side1@);
    let ghost m2 = targets_model(side2@);
    let mut out: SortedMap<String, RefTarget> = SortedMap::new();
    merge_targets_of(&mut out, base, base, side1, side2, Ghost(Set::empty()));
    merge_targets_of(&mut out, side1, base, side1, side2, Ghost(base@.dom()));
    merge_targets_of(
        &mut out,
        side2,
        base,
        side1,
        side2,
        Ghost(Set::new(|k: Seq<u8>| base@.dom().contains(k) || side1@.contains_key(k))),
    );
    proof {
        let om = targets_model(out@);
        let want = merged_targets(bm, m1, m2);
        assert forall|k: Seq<u8>| om.contains_key(k) <==> want.contains_key(k) by {
            assert(target_at(om, k) == if base@.contains_key(k) || side1@.contains_key(
                k,
            ) || side2@.contains_key(k) {
                merged_target_at(bm, m1, m2, k)
            } else {
                TargetModel::absent()
            });
        }
        assert forall|k: Seq<u8>| om.contains_key(k) implies om[k] == want[k] by {
            assert(target_at(om, k) == om[k]);
        }
    }
    out
}

/// The merged tracking flag: what both sides say if they agree, else what
/// the side says that changed it.
pub open spec fn merged_flag(base: bool, side1: bool, side2: bool) -> bool {
    if side1 == side2 {
        side1
    } else if side1 == base {
        side2
    } else {
        side1
    }
}

/// The merge of two remote bookmarks that both started from `base`: the
/// targets are merged as targets are, and the flags as flags are.
pub open spec fn merged_remote_ref(
    base: RemoteRefModel,
    side1: RemoteRefModel,
    side2: RemoteRefModel,
) -> RemoteRefModel {
    RemoteRefModel {
        target: merge_spec(base.target, side1.target, side2.target),
        tracking: merged_flag(base.tracking, side1.tracking, side2.tracking),
    }
}

/// The merged remote bookmark of the name `k`.
pub open spec fn merged_remote_ref_at(
    base: Map<Seq<u8>, RemoteRefModel>,
    side1: Map<Seq<u8>, RemoteRefModel>,
    side2: Map<Seq<u8>, RemoteRefModel>,
    k: Seq<u8>,
) -> RemoteRefModel {
    merged_remote_ref(
        remote_ref_at(base, k),
        remote_ref_at(side1, k),
        remote_ref_at(side2, k),
    )
}

/// The merge of the bookmarks of one remote: every name has the merge of
/// the bookmarks that the three maps give it, and a name whose merged
/// target is absent has no entry.
pub open spec fn merged_remote_refs(
    base: Map<Seq<u8>, RemoteRefModel>,
    side1: Map<Seq<u8>, RemoteRefModel>,
    side2: Map<Seq<u8>, RemoteRefModel>,
) -> Map<Seq<u8>, RemoteRefModel> {
    Map::new(
        |k: Seq<u8>| !merged_remote_ref_at(base, side1, side2, k).target.is_absent(),
        |k: Seq<u8>| merged_remote_ref_at(base, side1, side2, k),
    )
}

/// The merge of two sets that both started from `base`: what both sides
/// have, and what either side has that `base` had not. What a side took
/// out of `base` is gone.
pub open spec fn merged_set(base: Set<Seq<u8>>, side1: Set<Seq<u8>>, side2: Set<Seq<u8>>) -> Set<
    Seq<u8>,
> {
    Set::new(
        |v: Seq<u8>|
            (side1.contains(v) && side2.contains(v)) || (!base.contains(v) && (side1.contains(v)
                || side2.contains(v))),
    )
}

/// Whether the merged view knows the remote `r`: the merge of the sets of
/// remotes has it, or some bookmark of it is left after the merge.
pub open spec fn remote_kept(
    base: Map<Seq<u8>, Map<Seq<u8>, RemoteRefModel>>,
    side1: Map<Seq<u8>, Map<Seq<u8>, RemoteRefModel>>,
    side2: Map<Seq<u8>, Map<Seq<u8>, RemoteRefModel>>,
    r: Seq<u8>,
) -> bool {
    merged_set(base.dom(), side1.dom(), side2.dom()).contains(r) || exists|k: Seq<u8>|
        #[trigger] merged_remote_refs(
            remote_at(base, r),
            remote_at(side1, r),
            remote_at(side2, r),
        ).contains_key(k)
}

/// The merge of the remote bookmarks of two views that both started from
/// `base`, remote by remote.
pub open spec fn merged_remote_views(
    base: Map<Seq<u8>, Map<Seq<u8>, RemoteRefModel>>,
    side1: Map<Seq<u8>, Map<Seq<u8>, RemoteRefModel>>,
    side2: Map<Seq<u8>, Map<Seq<u8>, RemoteRefModel>>,
) -> Map<Seq<u8>, Map<Seq<u8>, RemoteRefModel>> {
    Map::new(
        |r: Seq<u8>| remote_kept(base, side1, side2, r),
        |r: Seq<u8>|
            merged_remote_refs(
                remote_at(base, r),
                remote_at(side1, r),
                remote_at(side2, r),
            ),
    )
}

/// The commit that a map of workspaces gives a workspace, if any.
pub open spec fn binding_at(m: Map<Seq<u8>, Seq<u8>>, w: Seq<u8>) -> Option<Seq<u8>> {
    if m.contains_key(w) {
        Some(m[w])
    } else {
        None
    }
}

/// The merged commit of the workspace `w`: what the later side says if it
/// changed the workspace, else what the earlier side says.
pub open spec fn merged_binding_at(
    base: Map<Seq<u8>, Seq<u8>>,
    earlier: Map<Seq<u8>, Seq<u8>>,
    later: Map<Seq<u8>, Seq<u8>>,
    w: Seq<u8>,
) -> Option<Seq<u8>> {
    if binding_at(later, w) == binding_at(base, w) {
        binding_at(earlier, w)
    } else {
        binding_at(later, w)
    }
}

/// The merge of the workspaces of two views that both started from
/// `base`: where both sides changed a workspace the later side wins,
/// since a workspace has one owner at a time.
pub open spec fn merged_bindings(
    base: Map<Seq<u8>, Seq<u8>>,
    earlier: Map<Seq<u8>, Seq<u8>>,
    later: Map<Seq<u8>, Seq<u8>>,
) -> Map<Seq<u8>, Seq<u8>> {
    Map::new(
        |w: Seq<u8>| merged_binding_at(base, earlier, later, w) is Some,
        |w: Seq<u8>| merged_binding_at(base, earlier, later, w)->Some_0,
    )
}

/// The merge of two views that both started from `base`, part by part.
/// `later` is the view of the more recent operation.
pub open spec fn merged_view(base: ViewModel, earlier: ViewModel, later: ViewModel) -> ViewModel {
    ViewModel {
        head_ids: merged_set(base.head_ids, earlier.head_ids, later.head_ids),
        local_bookmarks: merged_targets(
            base.local_bookmarks,
            earlier.local_bookmarks,
            later.local_bookmarks,
        ),
        tags: merged_targets(base.tags, earlier.tags, later.tags),
        remote_views: merged_remote_views(
            base.remote_views,
            earlier.remote_views,
            later.remote_views,
        ),
        git_refs: merged_targets(base.git_refs, earlier.git_refs, later.git_refs),
        git_head: merge_spec(base.git_head, earlier.git_head, later.git_head),
        wc_commit_ids: merged_bindings(
            base.wc_commit_ids,
            earlier.wc_commit_ids,
            later.wc_commit_ids,
        ),
    }
}

/// Merges two remote bookmarks that both started from `base`.
pub fn merge_remote_refs(base: &RemoteRef, side1: &RemoteRef, side2: &RemoteRef) -> (r: RemoteRef)
    requires
        base.wf(),
        side1.wf(),
        side2.wf(),
    ensures
        r.wf(),
        r@ == merged_remote_ref(base@, side1@, side2@),
{
    let target = merge_ref_targets(&base.target, &side1.target, &side2.target);
    let tracking1 = side1.is_tracking();
    let tracking2 = side2.is_tracking();
    let tracking = if tracking1 == tracking2 {
        tracking1
    } else if tracking1 == base.is_tracking() {
        tracking2
    } else {
        tracking1
    };
    let state = if tracking {
        RemoteRefState::Tracking
    } else {
        RemoteRefState::New
    };
    RemoteRef { target, state }
}

/// Gives every name of `source` its merged remote bookmark in `out`.
fn merge_remote_refs_of(
    out: &mut SortedMap<String, RemoteRef>,
    source: &SortedMap<String, RemoteRef>,
    base: &SortedMap<String, RemoteRef>,
    side1: &SortedMap<String, RemoteRef>,
    side2: &SortedMap<String, RemoteRef>,
    done: Ghost<Set<Seq<u8>>>,
)
    requires
        remote_refs_wf(*old(out)),
        source.wf(),
        remote_refs_wf(*base),
        remote_refs_wf(*side1),
        remote_refs_wf(*side2),
        forall|k: Seq<u8>|
            #![trigger remote_refs_model(old(out)@).contains_key(k)]
            {
                let om = remote_refs_model(old(out)@);
                let want = merged_remote_refs(
                    remote_refs_model(base@),
                    remote_refs_model(side1@),
                    remote_refs_model(side2@),
                );
                &&& om.contains_key(k) <==> done@.contains(k) && want.contains_key(k)
                &&& om.contains_key(k) ==> om[k] == want[k]
            },
    ensures
        remote_refs_wf(*final(out)),
        forall|k: Seq<u8>|
            #![trigger remote_refs_model(final(out)@).contains_key(k)]
            {
                let om = remote_refs_model(final(out)@);
                let want = merged_remote_refs(
                    remote_refs_model(base@),
                    remote_refs_model(side1@),
                    remote_refs_model(side2@),
                );
                &&& om.contains_key(k) <==> (done@.contains(k) || source@.contains_key(k))
                    && want.contains_key(k)
                &&& om.contains_key(k) ==> om[k] == want[k]
            },
{
    let ghost s = source.entries();
    let ghost keys = keys_of(s);
    let ghost bm = remote_refs_model(base@);
    let ghost m1 = remote_refs_model(side1@);
    let ghost m2 = remote_refs_model(side2@);
    let ghost want = merged_remote_refs(bm, m1, m2);
    let mut i: usize = 0;
    while i < source.len()
        invariant
            s == source.entries(),
            keys == keys_of(s),
            bm == remote_refs_model(base@),
            m1 == remote_refs_model(side1@),
            m2 == remote_refs_model(side2@),
            want == merged_remote_refs(bm, m1, m2),
            i <= s.len(),
            remote_refs_wf(*out),
            remote_refs_wf(*base),
            remote_refs_wf(*side1),
            remote_refs_wf(*side2),
            forall|k: Seq<u8>|
                #![trigger remote_refs_model(out@).contains_key(k)]
                {
                    let om = remote_refs_model(out@);
                    &&& om.contains_key(k) <==> (done@.contains(k) || among_first(
                        keys,
                        i as int,
                        k,
                    )) && want.contains_key(k)
                    &&& om.contains_key(k) ==> om[k] == want[k]
                },
        decreases s.len() - i,
    {
        let name = source.key_at(i).as_str();
        let ghost key = keys[i as int];
        let merged = merge_remote_refs(
            get_remote_ref(base, name),
            get_remote_ref(side1, name),
            get_remote_ref(side2, name),
        );
        set_remote_ref(out, name, merged);
        proof {
            let after = remote_refs_model(out@);
            assert forall|k: Seq<u8>|
                #![trigger after.contains_key(k)]
                (after.contains_key(k) <==> (done@.contains(k) || among_first(
                    keys,
                    i + 1,
                    k,
                )) && want.contains_key(k)) && (after.contains_key(k) ==> after[k] == want[k]) by {}
        }
        i += 1;
    }
    proof {
        assert forall|k: Seq<u8>|
            among_first(keys, s.len() as int, k) <==> source@.contains_key(k) by {}
    }
}

/// Merges the bookmarks of one remote in two views that both started from
/// `base`.
pub fn merge_remote_ref_maps(
    base: &SortedMap<String, RemoteRef>,
    side1: &SortedMap<String, RemoteRef>,
    side2: &SortedMap<String, RemoteRef>,
) -> (r: SortedMap<String, RemoteRef>)
    requires
        remote_refs_wf(*base),
        remote_refs_wf(*side1),
        remote_refs_wf(*side2),
    ensures
        remote_refs_wf(r),
        remote_refs_model(r@) == merged_remote_refs(
            remote_refs_model(base@),
            remote_refs_model(side1@),
            remote_refs_model(side2@),
        ),
{
    let ghost bm = remote_refs_model(base@);
    let ghost m1 = remote_refs_model(side1@);
    let ghost m2 = remote_refs_model(side2@);
    let mut out: SortedMap<String, RemoteRef> = SortedMap::new();
    merge_remote_refs_of(&mut out, base, base, side1, side2, Ghost(Set::empty()));
    merge_remote_refs_of(&mut out, side1, base, side1, side2, Ghost(base@.dom()));
    merge_remote_refs_of(
        &mut out,
        side2,
        base,
        side1,
        side2,
        Ghost(Set::new(|k: Seq<u8>| base@.dom().contains(k) || side1@.contains_key(k))),
    );
    proof {
        let om = remote_refs_model(out@);
        let want = merged_remote_refs(bm, m1, m2);
        assert forall|k: Seq<u8>| om.contains_key(k) <==> want.contains_key(k) by {}
    }
    out
}

/// Merges two sets of heads that both started from `base`.
pub fn merge_heads(base: &CommitIdSet, side1: &CommitIdSet, side2: &CommitIdSet) -> (r:
    CommitIdSet)
    requires
        base.wf(),
        side1.wf(),
        side2.wf(),
    ensures
        r.wf(),
        r@ == merged_set(base@, side1@, side2@),
{
    let mut out = CommitIdSet::new();
    let ids1 = side1.to_vec();
    let mut i: usize = 0;
    while i < ids1.len()
        invariant
            i <= ids1.len(),
            base.wf(),
            side2.wf(),
            out.wf(),
            out@ == Set::new(
                |v: Seq<u8>|
                    ids_in(ids1@.take(i as int)).contains(v) && (side2@.contains(v)
                        || !base@.contains(v)),
            ),
        decreases ids1.len() - i,
    {
        proof {
            assert(ids1@.take(i + 1) =~= ids1@.take(i as int).push(ids1[i as int]));
            lemma_ids_in_push(ids1@.take(i as int), ids1[i as int]);
        }
        if side2.contains(&ids1[i]) || !base.contains(&ids1[i]) {
            out.insert(ids1[i].clone());
        }
        i += 1;
    }
    let ghost first = out@;
    let ids2 = side2.to_vec();
    let mut j: usize = 0;
    proof {
        assert(ids1@.take(i as int) =~= ids1@);
    }
    while j < ids2.len()
        invariant
            j <= ids2.len(),
            base.wf(),
            out.wf(),
            out@ == first.union(
                Set::new(
                    |v: Seq<u8>|
                        ids_in(ids2@.take(j as int)).contains(v) && !base@.contains(
                            v,
                        ),
                ),
            ),
        decreases ids2.len() - j,
    {
        proof {
            assert(ids2@.take(j + 1) =~= ids2@.take(j as int).push(ids2[j as int]));
            lemma_ids_in_push(ids2@.take(j as int), ids2[j as int]);
        }
        if !base.contains(&ids2[j]) {
            out.insert(ids2[j].clone());
        }
        j += 1;
    }
    proof {
        assert(ids2@.take(j as int) =~= ids2@);
    }
    out
}

/// Gives every workspace of `source` its merged commit in `out`.
fn merge_bindings_of(
    out: &mut SortedMap<WorkspaceId, CommitId>,
    source: &SortedMap<WorkspaceId, CommitId>,
    base: &SortedMap<WorkspaceId, CommitId>,
    earlier: &SortedMap<WorkspaceId, CommitId>,
    later: &SortedMap<WorkspaceId, CommitId>,
    done: Ghost<Set<Seq<u8>>>,
)
    requires
        old(out).wf(),
        source.wf(),
        base.wf(),
        earlier.wf(),
        later.wf(),
        forall|w: Seq<u8>|
            #[trigger] binding_at(ids_model(old(out)@), w) == if done@.contains(w) {
                merged_binding_at(
                    ids_model(base@),
                    ids_model(earlier@),
                    ids_model(later@),
                    w,
                )
            } else {
                None
            },
    ensures
        final(out).wf(),
        forall|w: Seq<u8>|
            #[trigger] binding_at(ids_model(final(out)@), w) == if done@.contains(w)
                || source@.contains_key(w) {
                merged_binding_at(
                    ids_model(base@),
                    ids_model(earlier@),
                    ids_model(later@),
                    w,
                )
            } else {
                None
            },
{
    let ghost s = source.entries();
    let ghost keys = keys_of(s);
    let ghost bm = ids_model(base@);
    let ghost em = ids_model(earlier@);
    let ghost lm = ids_model(later@);
    let mut i: usize = 0;
    while i < source.len()
        invariant
            s == source.entries(),
            keys == keys_of(s),
            bm == ids_model(base@),
            em == ids_model(earlier@),
            lm == ids_model(later@),
            i <= s.len(),
            out.wf(),
            base.wf(),
            earlier.wf(),
            later.wf(),
            forall|w: Seq<u8>|
                #[trigger] binding_at(ids_model(out@), w) == if done@.contains(w)
                    || among_first(keys, i as int, w) {
                    merged_binding_at(bm, em, lm, w)
                } else {
                    None
                },
        decreases s.len() - i,
    {
        let workspace_id = source.key_at(i);
        let ghost key = keys[i as int];
        let ghost before = ids_model(out@);
        let in_base = base.get(workspace_id.key_bytes());
        let in_later = later.get(workspace_id.key_bytes());
        let unchanged = match (in_later, in_base) {
            (Some(a), Some(b)) => a == b,
            (None, None) => true,
            _ => false,
        };
        let chosen = if unchanged {
            earlier.get(workspace_id.key_bytes())
        } else {
            in_later
        };
        match chosen {
            Some(commit_id) => {
                out.insert(workspace_id.clone(), commit_id.clone());
            },
            None => {
                out.remove(workspace_id.key_bytes());
            },
        }
        proof {
            let after = ids_model(out@);
            assert forall|w: Seq<u8>|
                #[trigger] binding_at(after, w) == if done@.contains(w)
                    || among_first(keys, i + 1, w) {
                    merged_binding_at(bm, em, lm, w)
                } else {
                    None
                } by {
                if w != key {
                    assert(binding_at(after, w) == binding_at(before, w));
                }
            }
        }
        i += 1;
    }
    proof {
        assert forall|w: Seq<u8>|
            among_first(keys, s.len() as int, w) <==> source@.contains_key(w) by {}
    }
}

/// Merges the workspaces of two views that both started from `base`;
/// `later` is the view of the more recent operation.
pub fn merge_bindings(
    base: &SortedMap<WorkspaceId, CommitId>,
    earlier: &SortedMap<WorkspaceId, CommitId>,
    later: &SortedMap<WorkspaceId, CommitId>,
) -> (r: SortedMap<WorkspaceId, CommitId>)
    requires
        base.wf(),
        earlier.wf(),
        later.wf(),
    ensures
        r.wf(),
        ids_model(r@) == merged_bindings(
            ids_model(base@),
            ids_model(earlier@),
            ids_model(later@),
        ),
{
    let ghost bm = ids_model(base@);
    let ghost em = ids_model(earlier@);
    let ghost lm = ids_model(later@);
    let mut out: SortedMap<WorkspaceId, CommitId> = SortedMap::new();
    merge_bindings_of(&mut out, earlier, base, earlier, later, Ghost(Set::empty()));
    merge_bindings_of(&mut out, later, base, earlier, later, Ghost(earlier@.dom()));
    proof {
        let om = ids_model(out@);
        let want = merged_bindings(bm, em, lm);
        assert forall|w: Seq<u8>| om.contains_key(w) <==> want.contains_key(w) by {
            assert(binding_at(om, w) == if earlier@.contains_key(w) || later@.contains_key(w) {
                merged_binding_at(bm, em, lm, w)
            } else {
                None
            });
        }
        assert forall|w: Seq<u8>| om.contains_key(w) implies om[w] == want[w] by {
            assert(binding_at(om, w) == Some(om[w]));
        }
    }
    out
}

/// The bookmarks that `views` holds for `remote`, or `empty` if it knows
/// no such remote.
fn bookmarks_of<'a>(
    views: &'a SortedMap<String, RemoteView>,
    remote: &str,
    empty: &'a SortedMap<String, RemoteRef>,
) -> (r: &'a SortedMap<String, RemoteRef>)
    requires
        remote_views_wf(*views),
        remote_refs_wf(*empty),
        empty@ == Map::<Seq<u8>, RemoteRef>::empty(),
    ensures
        remote_refs_wf(*r),
        remote_refs_model(r@) == remote_at(
            remote_views_model(views@),
            name_key(remote@),
        ),
{
    match views.get(remote.as_bytes()) {
        Some(remote_view) => &remote_view.bookmarks,
        None => {
            empty
        },
    }
}

/// Gives every remote of `source` its merged bookmarks in `out`.
fn merge_remote_views_of(
    out: &mut SortedMap<String, RemoteView>,
    source: &SortedMap<String, RemoteView>,
    base: &SortedMap<String, RemoteView>,
    side1: &SortedMap<String, RemoteView>,
    side2: &SortedMap<String, RemoteView>,
    done: Ghost<Set<Seq<u8>>>,
)
    requires
        remote_views_wf(*old(out)),
        source.wf(),
        remote_views_wf(*base),
        remote_views_wf(*side1),
        remote_views_wf(*side2),
        forall|r: Seq<u8>|
            #![trigger remote_views_model(old(out)@).contains_key(r)]
            {
                let om = remote_views_model(old(out)@);
                let bm = remote_views_model(base@);
                let m1 = remote_views_model(side1@);
                let m2 = remote_views_model(side2@);
                &&& om.contains_key(r) <==> done@.contains(r) && remote_kept(bm, m1, m2, r)
                &&& om.contains_key(r) ==> om[r] == merged_remote_views(bm, m1, m2)[r]
            },
    ensures
        remote_views_wf(*final(out)),
        forall|r: Seq<u8>|
            #![trigger remote_views_model(final(out)@).contains_key(r)]
            {
                let om = remote_views_model(final(out)@);
                let bm = remote_views_model(base@);
                let m1 = remote_views_model(side1@);
                let m2 = remote_views_model(side2@);
                &&& om.contains_key(r) <==> (done@.contains(r) || source@.contains_key(r))
                    && remote_kept(bm, m1, m2, r)
                &&& om.contains_key(r) ==> om[r] == merged_remote_views(bm, m1, m2)[r]
            },
{
    let ghost s = source.entries();
    let ghost keys = keys_of(s);
    let ghost bm = remote_views_model(base@);
    let ghost m1 = remote_views_model(side1@);
    let ghost m2 = remote_views_model(side2@);
    let empty: SortedMap<String, RemoteRef> = SortedMap::new();
    let mut i: usize = 0;
    while i < source.len()
        invariant
            s == source.entries(),
            keys == keys_of(s),
            bm == remote_views_model(base@),
            m1 == remote_views_model(side1@),
            m2 == remote_views_model(side2@),
            i <= s.len(),
            empty.wf(),
            empty@ == Map::<Seq<u8>, RemoteRef>::empty(),
            remote_views_wf(*out),
            remote_views_wf(*base),
            remote_views_wf(*side1),
            remote_views_wf(*side2),
            forall|r: Seq<u8>|
                #![trigger remote_views_model(out@).contains_key(r)]
                {
                    let om = remote_views_model(out@);
                    &&& om.contains_key(r) <==> (done@.contains(r) || among_first(
                        keys,
                        i as int,
                        r,
                    )) && remote_kept(bm, m1, m2, r)
                    &&& om.contains_key(r) ==> om[r] == merged_remote_views(bm, m1, m2)[r]
                },
        decreases s.len() - i,
    {
        let remote = source.key_at(i).as_str();
        let ghost key = keys[i as int];
        let ghost before = remote_views_model(out@);
        let merged = merge_remote_ref_maps(
            bookmarks_of(base, remote, &empty),
            bookmarks_of(side1, remote, &empty),
            bookmarks_of(side2, remote, &empty),
        );
        let in_base = base.contains_key(remote.as_bytes());
        let in_side1 = side1.contains_key(remote.as_bytes());
        let in_side2 = side2.contains_key(remote.as_bytes());
        let any_left = !merged.is_empty();
        let kept = (in_side1 && in_side2) || (!in_base && (in_side1 || in_side2)) || any_left;
        let ghost merged_model = remote_refs_model(merged@);
        proof {
            lemma_some_key(merged.entries());
            if any_left {
                let k = choose|k: Seq<u8>| #[trigger] merged@.contains_key(k);
                assert(merged_model.contains_key(k));
            }
        }
        if kept {
            out.insert(remote.to_owned(), RemoteView { bookmarks: merged });
            proof {
                assert(remote_views_model(out@) =~= before.insert(
                    key,
                    merged_model,
                ));
            }
        } else {
            out.remove(remote.as_bytes());
            proof {
                assert(remote_views_model(out@) =~= before.remove(key));
            }
        }
        proof {
            let after = remote_views_model(out@);
            assert forall|r: Seq<u8>|
                #![trigger after.contains_key(r)]
                (after.contains_key(r) <==> (done@.contains(r) || among_first(
                    keys,
                    i + 1,
                    r,
                )) && remote_kept(bm, m1, m2, r)) && (after.contains_key(r) ==> after[r]
                    == merged_remote_views(bm, m1, m2)[r]) by {}
        }
        i += 1;
    }
    proof {
        assert forall|r: Seq<u8>|
            among_first(keys, s.len() as int, r) <==> source@.contains_key(r) by {}
    }
}

/// Merges the remote bookmarks of two views that both started from
/// `base`, remote by remote.
pub fn merge_remote_views(
    base: &SortedMap<String, RemoteView>,
    side1: &SortedMap<String, RemoteView>,
    side2: &SortedMap<String, RemoteView>,
) -> (r: SortedMap<String, RemoteView>)
    requires
        remote_views_wf(*base),
        remote_views_wf(*side1),
        remote_views_wf(*side2),
    ensures
        remote_views_wf(r),
        remote_views_model(r@) == merged_remote_views(
            remote_views_model(base@),
            remote_views_model(side1@),
            remote_views_model(side2@),
        ),
{
    let ghost bm = remote_views_model(base@);
    let ghost m1 = remote_views_model(side1@);
    let ghost m2 = remote_views_model(side2@);
    let mut out: SortedMap<String, RemoteView> = SortedMap::new();
    merge_remote_views_of(&mut out, base, base, side1, side2, Ghost(Set::empty()));
    merge_remote_views_of(&mut out, side1, base, side1, side2, Ghost(base@.dom()));
    merge_remote_views_of(
        &mut out,
        side2,
        base,
        side1,
        side2,
        Ghost(Set::new(|k: Seq<u8>| base@.dom().contains(k) || side1@.contains_key(k))),
    );
    proof {
        let om = remote_views_model(out@);
        let want = merged_remote_views(bm, m1, m2);
        assert forall|r: Seq<u8>| om.contains_key(r) <==> want.contains_key(r) by {
            if want.contains_key(r) {
                if !(base@.contains_key(r) || side1@.contains_key(r) || side2@.contains_key(r)) {
                    let refs = merged_remote_refs(
                        remote_at(bm, r),
                        remote_at(m1, r),
                        remote_at(m2, r),
                    );
                    assert forall|k: Seq<u8>| !(#[trigger] refs.contains_key(k)) by {}
                }
            }
        }
    }
    out
}

/// Reconciles two views that were both made from the view `base`.
/// `later` is the view of the more recent of the two operations.
///
/// The heads are merged as sets, every bookmark, tag, remote bookmark and
/// Git ref and Git's HEAD by the three-way merge of targets, and the
/// workspaces so that the later side wins where both changed one. The
/// merge never fails: what the sides changed differently is kept as a
/// conflict.
pub fn merge_views(base: &View, earlier: &View, later: &View) -> (r: View)
    requires
        base.wf(),
        earlier.wf(),
        later.wf(),
    ensures
        r.wf(),
        r@ == merged_view(base@, earlier@, later@),
{
    let b = base.store_view();
    let e = earlier.store_view();
    let l = later.store_view();
    let data = crate::op_store::View {
        head_ids: merge_heads(&b.head_ids, &e.head_ids, &l.head_ids),
        local_bookmarks: merge_target_maps(&b.local_bookmarks, &e.local_bookmarks, &l.local_bookmarks),
        tags: merge_target_maps(&b.tags, &e.tags, &l.tags),
        remote_views: merge_remote_views(&b.remote_views, &e.remote_views, &l.remote_views),
        git_refs: merge_target_maps(&b.git_refs, &e.git_refs, &l.git_refs),
        git_head: merge_ref_targets(&b.git_head, &e.git_head, &l.git_head),
        wc_commit_ids: merge_bindings(&b.wc_commit_ids, &e.wc_commit_ids, &l.wc_commit_ids),
    };
    View::new(data)
}

/// Where one side left its map of targets as `base` had it, the merge is
/// the other side's map.
pub proof fn lemma_merged_targets_one_side_unchanged(
    base: Map<Seq<u8>, TargetModel>,
    other: Map<Seq<u8>, TargetModel>,
)
    requires
        targets_model_wf(other),
    ensures
        merged_targets(base, base, other) == other,
        merged_targets(base, other, base) == other,
{
    assert forall|k: Seq<u8>|
        merged_target_at(base, base, other, k) == target_at(other, k)
            && merged_target_at(base, other, base, k) == target_at(other, k) by {
        lemma_merge_one_side_unchanged(
            target_at(base, k),
            target_at(other, k),
        );
    }
    lemma_target_states(TargetModel::absent());
}

/// The merge of two maps of targets does not depend on which side is
/// named first.
pub proof fn lemma_merged_targets_commutative(
    base: Map<Seq<u8>, TargetModel>,
    side1: Map<Seq<u8>, TargetModel>,
    side2: Map<Seq<u8>, TargetModel>,
)
    ensures
        merged_targets(base, side1, side2) == merged_targets(base, side2, side1),
{
    assert forall|k: Seq<u8>|
        merged_target_at(base, side1, side2, k) == merged_target_at(base, side2, side1, k) by {
        lemma_merge_commutative(
            target_at(base, k),
            target_at(side1, k),
            target_at(side2, k),
        );
    }
}

/// Where one side left the bookmarks of a remote as `base` had them, the
/// merge is what the other side has.
pub proof fn lemma_merged_remote_refs_one_side_unchanged(
    base: Map<Seq<u8>, RemoteRefModel>,
    other: Map<Seq<u8>, RemoteRefModel>,
)
    requires
        remote_refs_model_wf(other),
    ensures
        merged_remote_refs(base, base, other) == other,
        merged_remote_refs(base, other, base) == other,
{
    assert forall|k: Seq<u8>|
        merged_remote_ref_at(base, base, other, k).target == remote_ref_at(
            other,
            k,
        ).target && merged_remote_ref_at(base, other, base, k).target
            == remote_ref_at(other, k).target by {
        lemma_merge_one_side_unchanged(
            remote_ref_at(base, k).target,
            remote_ref_at(other, k).target,
        );
    }
    lemma_target_states(TargetModel::absent());
}

/// Reconciling a view with the view that both started from gives the
/// view: a side that changed nothing takes nothing away from the other.
pub proof fn lemma_merged_view_one_side_unchanged(base: ViewModel, other: ViewModel)
    requires
        other.wf(),
    ensures
        merged_view(base, base, other) == other,
        merged_view(base, other, base) == other,
{
    let m1 = merged_view(base, base, other);
    let m2 = merged_view(base, other, base);
    lemma_merged_targets_one_side_unchanged(base.local_bookmarks, other.local_bookmarks);
    lemma_merged_targets_one_side_unchanged(base.tags, other.tags);
    lemma_merged_targets_one_side_unchanged(base.git_refs, other.git_refs);
    lemma_merge_one_side_unchanged(base.git_head, other.git_head);
    assert(m1.head_ids =~= other.head_ids);
    assert(m2.head_ids =~= other.head_ids);
    assert(m1.wc_commit_ids =~= other.wc_commit_ids);
    assert(m2.wc_commit_ids =~= other.wc_commit_ids);
    assert forall|r: Seq<u8>|
        merged_remote_refs(
            remote_at(base.remote_views, r),
            remote_at(base.remote_views, r),
            remote_at(other.remote_views, r),
        ) == remote_at(other.remote_views, r) && merged_remote_refs(
            remote_at(base.remote_views, r),
            remote_at(other.remote_views, r),
            remote_at(base.remote_views, r),
        ) == remote_at(other.remote_views, r) by {
        lemma_merged_remote_refs_one_side_unchanged(
            remote_at(base.remote_views, r),
            remote_at(other.remote_views, r),
        );
    }
    assert(m1.remote_views =~= other.remote_views);
    assert(m2.remote_views =~= other.remote_views);
}

/// But for the workspaces, where the later side wins, reconciling does not
/// depend on which side is named first.
pub proof fn lemma_merged_view_commutative(base: ViewModel, side1: ViewModel, side2: ViewModel)
    ensures
        merged_view(base, side1, side2) == (ViewModel {
            wc_commit_ids: merged_view(base, side1, side2).wc_commit_ids,
            ..merged_view(base, side2, side1)
        }),
{
    let m1 = merged_view(base, side1, side2);
    let m2 = merged_view(base, side2, side1);
    lemma_merged_targets_commutative(base.local_bookmarks, side1.local_bookmarks, side2.local_bookmarks);
    lemma_merged_targets_commutative(base.tags, side1.tags, side2.tags);
    lemma_merged_targets_commutative(base.git_refs, side1.git_refs, side2.git_refs);
    lemma_merge_commutative(base.git_head, side1.git_head, side2.git_head);
    assert(m1.head_ids =~= m2.head_ids);
    assert forall|r: Seq<u8>|
        merged_remote_refs(
            remote_at(base.remote_views, r),
            remote_at(side1.remote_views, r),
            remote_at(side2.remote_views, r),
        ) == merged_remote_refs(
            remote_at(base.remote_views, r),
            remote_at(side2.remote_views, r),
            remote_at(side1.remote_views, r),
        ) by {
        let b = remote_at(base.remote_views, r);
        let x = remote_at(side1.remote_views, r);
        let y = remote_at(side2.remote_views, r);
        assert forall|k: Seq<u8>|
            merged_remote_ref_at(b, x, y, k) == merged_remote_ref_at(b, y, x, k) by {
            lemma_merge_commutative(
                remote_ref_at(b, k).target,
                remote_ref_at(x, k).target,
                remote_ref_at(y, k).target,
            );
        }
    }
    assert(m1.remote_views =~= m2.remote_views);
}

} // verus!
