//! Maps from names to reference targets, and what a view does with them:
//! looking a name up, giving it a target, listing the names in order, and
//! gathering the commits that the targets name.

use vstd::prelude::*;
use vstd::view::View as _;
use itertools::Itertools;
use crate::backend::CommitId;
use crate::op_store::RemoteView;
use crate::op_store::WorkspaceId;
use crate::op_store::all_remote_names;
use crate::op_store::ids_model;
use crate::op_store::remote_refs_ids;
use crate::op_store::remote_refs_model;
use crate::op_store::remote_refs_wf;
use crate::op_store::remote_views_ids;
use crate::op_store::remote_views_model;
use crate::op_store::remote_views_wf;
use crate::op_store::remotes_with;
use crate::op_store::targets_ids;
use crate::op_store::targets_model;
use crate::op_store::targets_wf;
use crate::ref_target::RefTarget;
use crate::ref_target::RemoteRef;
use crate::ref_target::RemoteRefModel;
use crate::ref_target::TargetModel;
use crate::ref_target::lemma_target_states;
use crate::refs::LocalAndRemoteRef;
use crate::refs::iter_named_local_remote_refs;
use crate::refs::lemma_key_set_of_enumeration;
use crate::refs::name_keys;
use crate::refs::name_set;
use crate::refs::union_names;
use crate::sorted_ids::ids_in;
use crate::sorted_ids::lemma_bag_contains;
use crate::sorted_ids::lemma_ids_in_bag;
use crate::sorted_ids::lemma_ids_in_concat;
use crate::sorted_ids::lemma_ids_in_push;
use crate::sorted_map::OrderedKey;
use crate::sorted_map::SortedMap;
use crate::sorted_map::enumerates;
use crate::sorted_map::index_of;
use crate::sorted_map::keys_of;
use crate::sorted_map::lemma_entry_at;
use crate::sorted_map::lemma_prefix_union_contains;
use crate::sorted_map::lemma_selection_enumerates;
use crate::sorted_map::name_key;
use crate::sorted_map::prefix_union;
use crate::str_util::names_of;

verus! {

/// The target that a map of targets gives a name: the stored one, or the
/// absent target where the name has no entry.
pub open spec fn target_at(m: Map<Seq<u8>, TargetModel>, k: Seq<u8>) -> TargetModel {
    if m.contains_key(k) {
        m[k]
    } else {
        TargetModel::absent()
    }
}

/// A map of targets after `k` has been given the target `t`: an absent
/// target takes the entry away, any other is stored.
pub open spec fn with_target(m: Map<Seq<u8>, TargetModel>, k: Seq<u8>, t: TargetModel) -> Map<
    Seq<u8>,
    TargetModel,
> {
    if t.is_absent() {
        m.remove(k)
    } else {
        m.insert(k, t)
    }
}

/// A name that was given the absent target has the absent target
/// afterwards, and no list of the names that have a target holds it.
pub proof fn lemma_absent_target_deletes(
    m: Map<Seq<u8>, TargetModel>,
    name: Seq<u8>,
    names: Seq<Seq<u8>>,
)
    requires
        enumerates(names, with_target(m, name, TargetModel::absent()).dom()),
    ensures
        target_at(with_target(m, name, TargetModel::absent()), name) == TargetModel::absent(),
        !with_target(m, name, TargetModel::absent()).contains_key(name),
        forall|j: int| 0 <= j < names.len() ==> #[trigger] names[j] != name,
{
    lemma_target_states(TargetModel::absent());
    assert forall|j: int| 0 <= j < names.len() implies #[trigger] names[j] != name by {}
}

/// Looks a name up in a map of targets.
pub fn get_target<'a>(map: &'a SortedMap<String, RefTarget>, name: &str) -> (r: &'a RefTarget)
    requires
        targets_wf(*map),
    ensures
        r.wf(),
        r@ == target_at(targets_model(map@), name_key(name@)),
{
    match map.get(name.as_bytes()) {
        Some(target) => target,
        None => RefTarget::absent_ref(),
    }
}

/// Stores `value` under `name` if it is present, and deletes the entry of
/// `name` if it is not. Every setter of a named reference goes through
/// here, so that no absent value is ever stored.
pub fn upsert_or_delete<V>(map: &mut SortedMap<String, V>, name: &str, value: V, present: bool)
    requires
        old(map).wf(),
    ensures
        final(map).wf(),
        final(map)@ == if present {
            old(map)@.insert(name_key(name@), value)
        } else {
            old(map)@.remove(name_key(name@))
        },
{
    if present {
        map.insert(name.to_owned(), value);
    } else {
        map.remove(name.as_bytes());
    }
}

/// Gives a name a target in a map of targets. An absent target removes the
/// entry, so that no absent target is ever stored.
pub fn set_target(map: &mut SortedMap<String, RefTarget>, name: &str, target: RefTarget)
    requires
        targets_wf(*old(map)),
        target.wf(),
    ensures
        targets_wf(*final(map)),
        targets_model(final(map)@) == with_target(
            targets_model(old(map)@),
            name_key(name@),
            target@,
        ),
{
    let ghost k = name_key(name@);
    let present = target.is_present();
    upsert_or_delete(map, name, target, present);
}

/// A map of remote bookmarks after `k` has been given the bookmark `r`: one
/// with an absent target takes the entry away, any other is stored.
pub open spec fn with_remote_ref(
    m: Map<Seq<u8>, RemoteRefModel>,
    k: Seq<u8>,
    r: RemoteRefModel,
) -> Map<Seq<u8>, RemoteRefModel> {
    if r.target.is_absent() {
        m.remove(k)
    } else {
        m.insert(k, r)
    }
}

/// Looks a name up in a map of remote bookmarks.
pub fn get_remote_ref<'a>(map: &'a SortedMap<String, RemoteRef>, name: &str) -> (r: &'a RemoteRef)
    requires
        remote_refs_wf(*map),
    ensures
        r.wf(),
        r@ == remote_ref_at(
            remote_refs_model(map@),
            name_key(name@),
        ),
{
    match map.get(name.as_bytes()) {
        Some(remote_ref) => remote_ref,
        None => RemoteRef::absent_ref(),
    }
}

/// Gives a name a remote bookmark in a map of remote bookmarks. One with
/// an absent target removes the entry.
pub fn set_remote_ref(map: &mut SortedMap<String, RemoteRef>, name: &str, remote_ref: RemoteRef)
    requires
        remote_refs_wf(*old(map)),
        remote_ref.wf(),
    ensures
        remote_refs_wf(*final(map)),
        remote_refs_model(final(map)@) == with_remote_ref(
            remote_refs_model(old(map)@),
            name_key(name@),
            remote_ref@,
        ),
{
    let present = remote_ref.is_present();
    upsert_or_delete(map, name, remote_ref, present);
}

/// Some id of the list has the bytes `id`.
pub open spec fn holds_id(ids: Seq<&CommitId>, id: Seq<u8>) -> bool {
    exists|i: int| 0 <= i < ids.len() && #[trigger] ids[i]@ == id
}

/// Whether a list of commit ids holds `id`.
///
/// Calls [`itertools::Itertools::contains`], which returns `true` exactly
/// when some item of the iterator equals the query; ids are equal when
/// their bytes are. The contract is assumed, not proved.
#[verifier::external_body]
pub(crate) fn contains_id(ids: &Vec<&CommitId>, id: &CommitId) -> (r: bool)
    ensures
        r == holds_id(ids@, id@),
{
    ids.iter().map(|c| *c).contains(id)
}

/// The bookmarks that a map of remotes gives a remote: the stored ones, or
/// none where the remote has no entry.
pub open spec fn remote_at(
    m: Map<Seq<u8>, Map<Seq<u8>, RemoteRefModel>>,
    remote: Seq<u8>,
) -> Map<Seq<u8>, RemoteRefModel> {
    if m.contains_key(remote) {
        m[remote]
    } else {
        Map::empty()
    }
}

/// The remote bookmark that a map gives a name: the stored one, or the
/// absent one where the name has no entry.
pub open spec fn remote_ref_at(m: Map<Seq<u8>, RemoteRefModel>, k: Seq<u8>) -> RemoteRefModel {
    if m.contains_key(k) {
        m[k]
    } else {
        RemoteRefModel { target: TargetModel::absent(), tracking: false }
    }
}

/// The entries of a map, in the order of their names.
pub fn list_entries<'a, V>(map: &'a SortedMap<String, V>) -> (r: Vec<(&'a str, &'a V)>)
    requires
        map.wf(),
    ensures
        enumerates(names_of(r@), map@.dom()),
        forall|j: int|
            0 <= j < r.len() ==> *(#[trigger] r[j]).1 == map@[names_of(r@)[j]],
{
    let ghost s = map.entries();
    let mut out: Vec<(&'a str, &'a V)> = Vec::new();
    let mut i: usize = 0;
    while i < map.len()
        invariant
            s == map.entries(),
            i <= s.len(),
            out.len() == i,
            forall|j: int| 0 <= j < i ==> (#[trigger] out[j]).0@ == s[j].0@ && *out[j].1 == s[j].1,
        decreases s.len() - i,
    {
        out.push((map.key_at(i).as_str(), map.value_at(i)));
        i += 1;
    }
    proof {
        let names = names_of(out@);
        let picked = Seq::new(s.len(), |j: int| j);
        assert forall|j: int| 0 <= j < s.len() implies #[trigger] names[j]
            == keys_of(s)[j] && map@.dom().contains(names[j]) && *out[j].1
            == map@[names[j]] by {
            lemma_entry_at(s, j);
        }
        assert forall|k: Seq<u8>| map@.dom().contains(k) implies exists|j: int|
            0 <= j < names.len() && #[trigger] names[j] == k by {
            let p = index_of(s, k);
            assert(names[p] == k);
        }
        lemma_selection_enumerates(s, picked, names, map@.dom());
    }
    out
}

/// Whether a target adds the commit `id`.
pub fn target_adds(target: &RefTarget, id: &CommitId) -> (r: bool)
    ensures
        r == (target@.adds.count(id@) > 0),
{
    let ids = target.added_ids();
    let mut refs: Vec<&CommitId> = Vec::new();
    let mut i: usize = 0;
    while i < ids.len()
        invariant
            i <= ids.len(),
            refs.len() == i,
            forall|j: int| 0 <= j < i ==> #[trigger] refs[j]@ == ids[j]@,
        decreases ids.len() - i,
    {
        refs.push(&ids[i]);
        i += 1;
    }
    let found = contains_id(&refs, id);
    proof {
        lemma_bag_contains(ids@, id@);
        if exists|j: int| 0 <= j < ids.len() && #[trigger] ids[j]@ == id@ {
            let j = choose|j: int| 0 <= j < ids.len() && #[trigger] ids[j]@ == id@;
            assert(refs[j]@ == id@);
        }
    }
    found
}

/// Adds to a list every commit that a target adds or removes.
pub fn push_target_ids(out: &mut Vec<CommitId>, target: &RefTarget)
    ensures
        ids_in(final(out)@) == ids_in(old(out)@).union(
            target@.ids(),
        ),
{
    let ghost before = out@;
    let mut adds = target.added_ids();
    let mut removes = target.removed_ids();
    proof {
        lemma_ids_in_bag(adds@);
        lemma_ids_in_bag(removes@);
        lemma_ids_in_concat(before, adds@);
        lemma_ids_in_concat(before + adds@, removes@);
    }
    out.append(&mut adds);
    out.append(&mut removes);
}

/// Adds to a list every commit that a target of the map adds or removes.
pub fn push_targets_ids(out: &mut Vec<CommitId>, map: &SortedMap<String, RefTarget>)
    requires
        map.wf(),
    ensures
        ids_in(final(out)@) == ids_in(old(out)@).union(
            targets_ids(targets_model(map@)),
        ),
{
    let ghost before = ids_in(out@);
    let ghost s = map.entries();
    let ghost m = targets_model(map@);
    let ghost f = |e: (String, RefTarget)| e.1@.ids();
    let mut i: usize = 0;
    while i < map.len()
        invariant
            s == map.entries(),
            i <= s.len(),
            f == |e: (String, RefTarget)| e.1@.ids(),
            ids_in(out@) == before.union(
                prefix_union(s, i as int, f),
            ),
        decreases s.len() - i,
    {
        push_target_ids(out, map.value_at(i));
        i += 1;
    }
    proof {
        assert forall|v: Seq<u8>|
            prefix_union(s, s.len() as int, f).contains(v)
                <==> targets_ids(m).contains(v) by {
            lemma_prefix_union_contains(s, s.len() as int, f, v);
            if exists|p: int| 0 <= p < s.len() && (#[trigger] f(s[p])).contains(v) {
                let p = choose|p: int| 0 <= p < s.len() && (#[trigger] f(s[p])).contains(v);
                lemma_entry_at(s, p);
                assert(m.contains_key(s[p].0.key()));
            }
            if targets_ids(m).contains(v) {
                let k = choose|k: Seq<u8>| #[trigger] m.contains_key(k) && m[k].ids().contains(v);
                let p = index_of(s, k);
                lemma_entry_at(s, p);
                assert(f(s[p]).contains(v));
            }
        }
    }
}

/// Adds to a list every commit that a bookmark of the remote adds or
/// removes.
pub fn push_remote_refs_ids(out: &mut Vec<CommitId>, map: &SortedMap<String, RemoteRef>)
    requires
        map.wf(),
    ensures
        ids_in(final(out)@) == ids_in(old(out)@).union(
            remote_refs_ids(remote_refs_model(map@)),
        ),
{
    let ghost before = ids_in(out@);
    let ghost s = map.entries();
    let ghost m = remote_refs_model(map@);
    let ghost f = |e: (String, RemoteRef)| e.1.target@.ids();
    let mut i: usize = 0;
    while i < map.len()
        invariant
            s == map.entries(),
            i <= s.len(),
            f == |e: (String, RemoteRef)| e.1.target@.ids(),
            ids_in(out@) == before.union(
                prefix_union(s, i as int, f),
            ),
        decreases s.len() - i,
    {
        push_target_ids(out, &map.value_at(i).target);
        i += 1;
    }
    proof {
        assert forall|v: Seq<u8>|
            prefix_union(s, s.len() as int, f).contains(v)
                <==> remote_refs_ids(m).contains(v) by {
            lemma_prefix_union_contains(s, s.len() as int, f, v);
            if exists|p: int| 0 <= p < s.len() && (#[trigger] f(s[p])).contains(v) {
                let p = choose|p: int| 0 <= p < s.len() && (#[trigger] f(s[p])).contains(v);
                lemma_entry_at(s, p);
                assert(m.contains_key(s[p].0.key()));
            }
            if remote_refs_ids(m).contains(v) {
                let k = choose|k: Seq<u8>| #[trigger]
                    m.contains_key(k) && m[k].target.ids().contains(v);
                let p = index_of(s, k);
                lemma_entry_at(s, p);
                assert(f(s[p]).contains(v));
            }
        }
    }
}

/// Adds to a list every commit that a bookmark of any remote adds or
/// removes.
pub fn push_remote_views_ids(out: &mut Vec<CommitId>, map: &SortedMap<String, RemoteView>)
    requires
        map.wf(),
        forall|r: Seq<u8>| #[trigger] map@.contains_key(r) ==> map@[r].bookmarks.wf(),
    ensures
        ids_in(final(out)@) == ids_in(old(out)@).union(
            remote_views_ids(remote_views_model(map@)),
        ),
{
    let ghost before = ids_in(out@);
    let ghost s = map.entries();
    let ghost m = remote_views_model(map@);
    let ghost f = |e: (String, RemoteView)|
        remote_refs_ids(remote_refs_model(e.1.bookmarks@));
    let mut i: usize = 0;
    while i < map.len()
        invariant
            s == map.entries(),
            map.wf(),
            forall|r: Seq<u8>| #[trigger] map@.contains_key(r) ==> map@[r].bookmarks.wf(),
            i <= s.len(),
            f == |e: (String, RemoteView)|
                remote_refs_ids(remote_refs_model(e.1.bookmarks@)),
            ids_in(out@) == before.union(
                prefix_union(s, i as int, f),
            ),
        decreases s.len() - i,
    {
        proof {
            lemma_entry_at(s, i as int);
            assert(map@.contains_key(s[i as int].0.key()));
        }
        push_remote_refs_ids(out, &map.value_at(i).bookmarks);
        i += 1;
    }
    proof {
        assert forall|v: Seq<u8>|
            prefix_union(s, s.len() as int, f).contains(v)
                <==> remote_views_ids(m).contains(v) by {
            lemma_prefix_union_contains(s, s.len() as int, f, v);
            if exists|p: int| 0 <= p < s.len() && (#[trigger] f(s[p])).contains(v) {
                let p = choose|p: int| 0 <= p < s.len() && (#[trigger] f(s[p])).contains(v);
                lemma_entry_at(s, p);
                assert(m.contains_key(s[p].0.key()));
            }
            if remote_views_ids(m).contains(v) {
                let r = choose|r: Seq<u8>| #[trigger]
                    m.contains_key(r) && remote_refs_ids(m[r]).contains(v);
                let p = index_of(s, r);
                lemma_entry_at(s, p);
                assert(f(s[p]).contains(v));
            }
        }
    }
}

/// Adds to a list the commit of every workspace.
pub fn push_wc_commit_ids(out: &mut Vec<CommitId>, map: &SortedMap<WorkspaceId, CommitId>)
    requires
        map.wf(),
    ensures
        ids_in(final(out)@) == ids_in(old(out)@).union(
            ids_model(map@).values(),
        ),
{
    let ghost before = ids_in(out@);
    let ghost s = map.entries();
    let ghost m = ids_model(map@);
    let ghost f = |e: (WorkspaceId, CommitId)| Set::<Seq<u8>>::empty().insert(e.1@);
    let mut i: usize = 0;
    while i < map.len()
        invariant
            s == map.entries(),
            i <= s.len(),
            f == |e: (WorkspaceId, CommitId)| Set::<Seq<u8>>::empty().insert(e.1@),
            ids_in(out@) == before.union(
                prefix_union(s, i as int, f),
            ),
        decreases s.len() - i,
    {
        let id = map.value_at(i).clone();
        proof {
            lemma_ids_in_push(out@, id);
        }
        out.push(id);
        i += 1;
    }
    proof {
        assert forall|v: Seq<u8>|
            prefix_union(s, s.len() as int, f).contains(v) <==> m.values().contains(
                v,
            ) by {
            lemma_prefix_union_contains(s, s.len() as int, f, v);
            if exists|p: int| 0 <= p < s.len() && (#[trigger] f(s[p])).contains(v) {
                let p = choose|p: int| 0 <= p < s.len() && (#[trigger] f(s[p])).contains(v);
                lemma_entry_at(s, p);
                assert(m.contains_key(s[p].0.key()));
            }
            if m.values().contains(v) {
                let k = choose|k: Seq<u8>| #[trigger] m.contains_key(k) && m[k] == v;
                let p = index_of(s, k);
                lemma_entry_at(s, p);
                assert(f(s[p]).contains(v));
            }
        }
    }
}

/// Joins the local targets and the remote bookmarks of the names in `keep`
/// into one list. `local_map` and `remote_map` are what the two lists were
/// taken from.
pub(crate) fn join_local_remote<'a>(
    locals: Vec<(&'a str, &'a RefTarget)>,
    remotes: Vec<(&'a str, &'a RemoteRef)>,
    local_map: Ghost<Map<Seq<u8>, TargetModel>>,
    remote_map: Ghost<Map<Seq<u8>, RemoteRefModel>>,
    keep: Ghost<Set<Seq<u8>>>,
) -> (r: Vec<(&'a str, LocalAndRemoteRef<'a>)>)
    requires
        enumerates(
            names_of(locals@),
            Set::new(|k: Seq<u8>| local_map@.contains_key(k) && keep@.contains(k)),
        ),
        enumerates(
            names_of(remotes@),
            Set::new(|k: Seq<u8>| remote_map@.contains_key(k) && keep@.contains(k)),
        ),
        forall|j: int|
            0 <= j < locals.len() ==> (#[trigger] locals[j]).1.wf() && locals[j].1@
                == local_map@[names_of(locals@)[j]],
        forall|j: int|
            0 <= j < remotes.len() ==> (#[trigger] remotes[j]).1.wf() && remotes[j].1@
                == remote_map@[names_of(remotes@)[j]],
    ensures
        enumerates(
            names_of(r@),
            Set::new(
                |k: Seq<u8>|
                    (local_map@.contains_key(k) || remote_map@.contains_key(k)) && keep@.contains(k),
            ),
        ),
        forall|j: int|
            0 <= j < r.len() ==> {
                &&& (#[trigger] r[j]).1.local_target.wf()
                &&& r[j].1.local_target@ == target_at(
                    local_map@,
                    names_of(r@)[j],
                )
                &&& r[j].1.remote_ref.wf()
                &&& r[j].1.remote_ref@ == remote_ref_at(
                    remote_map@,
                    names_of(r@)[j],
                )
            },
{
    let ghost ln = names_of(locals@);
    let ghost rn = names_of(remotes@);
    let ghost lkeys = Set::new(|k: Seq<u8>| local_map@.contains_key(k) && keep@.contains(k));
    let ghost rkeys = Set::new(|k: Seq<u8>| remote_map@.contains_key(k) && keep@.contains(k));
    let ghost keys = Set::new(
        |k: Seq<u8>|
            (local_map@.contains_key(k) || remote_map@.contains_key(k)) && keep@.contains(k),
    );
    let ghost locals0 = locals@;
    let ghost remotes0 = remotes@;
    let joined = iter_named_local_remote_refs(locals, remotes);
    let ghost jn = names_of(joined@);
    let mut out: Vec<(&'a str, LocalAndRemoteRef<'a>)> = Vec::new();
    let mut i: usize = 0;
    while i < joined.len()
        invariant
            i <= joined.len(),
            out.len() == i,
            forall|j: int|
                0 <= j < i ==> (#[trigger] out[j]).0@ == joined[j].0@ && out[j].1.local_target
                    == joined[j].1.0 && out[j].1.remote_ref == joined[j].1.1,
        decreases joined.len() - i,
    {
        let (name, (local_target, remote_ref)) = joined[i];
        out.push((name, LocalAndRemoteRef { local_target, remote_ref }));
        i += 1;
    }
    proof {
        let names = names_of(out@);
        assert(names =~= jn);
        assert(name_set(locals0).union(name_set(remotes0)) =~= keys) by {
            assert forall|k: Seq<u8>|
                name_set(locals0).union(name_set(remotes0)).contains(k)
                    <==> keys.contains(k) by {
                if keys.contains(k) {
                    if local_map@.contains_key(k) {
                        assert(lkeys.contains(k));
                    } else {
                        assert(rkeys.contains(k));
                    }
                }
            }
        }
        assert forall|j: int| 0 <= j < out.len() implies {
            &&& (#[trigger] out[j]).1.local_target.wf()
            &&& out[j].1.local_target@ == target_at(local_map@, names[j])
            &&& out[j].1.remote_ref.wf()
            &&& out[j].1.remote_ref@ == remote_ref_at(remote_map@, names[j])
        } by {
            let k = jn[j];
            if !lkeys.contains(k) {
                assert forall|p: int| 0 <= p < locals0.len() implies #[trigger] ln[p] != k by {}
            }
            if !rkeys.contains(k) {
                assert forall|p: int| 0 <= p < remotes0.len() implies #[trigger] rn[p] != k by {}
            }
        }
    }
    out
}

/// The names of the entries of a map, in order.
pub fn list_names<'a, V>(map: &'a SortedMap<String, V>) -> (r: Vec<&'a str>)
    requires
        map.wf(),
    ensures
        enumerates(name_keys(r@), map@.dom()),
{
    let entries = list_entries(map);
    let mut out: Vec<&'a str> = Vec::new();
    let mut i: usize = 0;
    while i < entries.len()
        invariant
            i <= entries.len(),
            out.len() == i,
            forall|j: int| 0 <= j < i ==> #[trigger] out[j]@ == entries[j].0@,
        decreases entries.len() - i,
    {
        out.push(entries[i].0);
        i += 1;
    }
    proof {
        assert(name_keys(out@) =~= names_of(entries@));
    }
    out
}

/// Every name that has a bookmark locally or on some remote, in order.
pub fn all_bookmark_names<'a>(
    local_bookmarks: &'a SortedMap<String, RefTarget>,
    remote_views: &'a SortedMap<String, RemoteView>,
) -> (r: Vec<&'a str>)
    requires
        targets_wf(*local_bookmarks),
        remote_views_wf(*remote_views),
    ensures
        enumerates(
            name_keys(r@),
            targets_model(local_bookmarks@).dom().union(
                all_remote_names(remote_views_model(remote_views@)),
            ),
        ),
{
    let ghost s = remote_views.entries();
    let ghost m = remote_views_model(remote_views@);
    let ghost f = |e: (String, RemoteView)| e.1.bookmarks@.dom();
    let ghost locals = local_bookmarks@.dom();
    let mut names = list_names(local_bookmarks);
    let mut t: usize = 0;
    while t < remote_views.len()
        invariant
            s == remote_views.entries(),
            remote_views_wf(*remote_views),
            t <= s.len(),
            f == |e: (String, RemoteView)| e.1.bookmarks@.dom(),
            enumerates(
                name_keys(names@),
                locals.union(prefix_union(s, t as int, f)),
            ),
        decreases s.len() - t,
    {
        proof {
            lemma_entry_at(s, t as int);
            assert(remote_views@.contains_key(s[t as int].0.key()));
        }
        let remote_names = list_names(&remote_views.value_at(t).bookmarks);
        proof {
            lemma_key_set_of_enumeration(
                name_keys(names@),
                locals.union(prefix_union(s, t as int, f)),
            );
            lemma_key_set_of_enumeration(
                name_keys(remote_names@),
                s[t as int].1.bookmarks@.dom(),
            );
        }
        names = union_names(&names, &remote_names);
        t += 1;
        proof {
            assert(locals.union(prefix_union(s, t as int, f)) =~= locals.union(
                prefix_union(s, t - 1, f),
            ).union(s[t - 1].1.bookmarks@.dom()));
        }
    }
    proof {
        let all = all_remote_names(m);
        assert forall|n: Seq<u8>|
            prefix_union(s, s.len() as int, f).contains(n) <==> all.contains(
                n,
            ) by {
            lemma_prefix_union_contains(s, s.len() as int, f, n);
            if exists|p: int| 0 <= p < s.len() && (#[trigger] f(s[p])).contains(n) {
                let p = choose|p: int| 0 <= p < s.len() && (#[trigger] f(s[p])).contains(n);
                lemma_entry_at(s, p);
                assert(m.contains_key(s[p].0.key()));
            }
            if all.contains(n) {
                let r = choose|r: Seq<u8>| #[trigger] m.contains_key(r) && m[r].contains_key(n);
                let p = index_of(s, r);
                lemma_entry_at(s, p);
                assert(f(s[p]).contains(n));
            }
        }
        assert(locals.union(prefix_union(s, s.len() as int, f))
            =~= targets_model(local_bookmarks@).dom().union(all));
    }
    names
}

/// The bookmarks named `name` on every remote that has one, in the order
/// of the remotes' names.
pub fn remote_refs_named<'a>(remote_views: &'a SortedMap<String, RemoteView>, name: &str) -> (r:
    Vec<(&'a str, &'a RemoteRef)>)
    requires
        remote_views_wf(*remote_views),
    ensures
        enumerates(
            names_of(r@),
            remotes_with(
                remote_views_model(remote_views@),
                name_key(name@),
            ),
        ),
        forall|j: int|
            0 <= j < r.len() ==> (#[trigger] r[j]).1.wf() && r[j].1@
                == remote_views_model(remote_views@)[names_of(
                r@,
            )[j]][name_key(name@)],
{
    let ghost s = remote_views.entries();
    let ghost m = remote_views_model(remote_views@);
    let ghost n = name_key(name@);
    let ghost keys = remotes_with(m, n);
    let mut out: Vec<(&'a str, &'a RemoteRef)> = Vec::new();
    let ghost mut picked: Seq<int> = Seq::empty();
    let mut t: usize = 0;
    while t < remote_views.len()
        invariant
            s == remote_views.entries(),
            remote_views_wf(*remote_views),
            n == name_key(name@),
            t <= s.len(),
            picked.len() == out.len(),
            forall|j: int| 0 <= j < picked.len() ==> 0 <= #[trigger] picked[j] < t,
            forall|a: int, b: int|
                0 <= a < b < picked.len() ==> #[trigger] picked[a] < #[trigger] picked[b],
            forall|j: int|
                0 <= j < picked.len() ==> (#[trigger] out[j]).0@ == s[picked[j]].0@
                    && s[picked[j]].1.bookmarks@.contains_key(n) && *out[j].1
                    == s[picked[j]].1.bookmarks@[n],
            forall|p: int|
                0 <= p < t && (#[trigger] s[p]).1.bookmarks@.contains_key(n) ==> exists|j: int|
                    0 <= j < picked.len() && #[trigger] picked[j] == p,
        decreases s.len() - t,
    {
        proof {
            lemma_entry_at(s, t as int);
            assert(remote_views@.contains_key(s[t as int].0.key()));
        }
        match remote_views.value_at(t).bookmarks.get(name.as_bytes()) {
            Some(remote_ref) => {
                let ghost before = picked;
                out.push((remote_views.key_at(t).as_str(), remote_ref));
                proof {
                    picked = picked.push(t as int);
                    assert forall|p: int|
                        0 <= p < t + 1 && (#[trigger] s[p]).1.bookmarks@.contains_key(
                            n,
                        ) implies exists|j: int|
                        0 <= j < picked.len() && #[trigger] picked[j] == p by {
                        if p < t {
                            let j = choose|j: int| 0 <= j < before.len() && #[trigger] before[j] == p;
                            assert(picked[j] == p);
                        } else {
                            assert(picked[before.len() as int] == p);
                        }
                    }
                }
            },
            None => {},
        }
        t += 1;
    }
    proof {
        let names = names_of(out@);
        assert forall|j: int| 0 <= j < picked.len() implies #[trigger] names[j]
            == keys_of(s)[picked[j]] && keys.contains(names[j]) && out[j].1.wf()
            && out[j].1@ == m[names[j]][n] by {
            lemma_entry_at(s, picked[j]);
        }
        assert forall|k: Seq<u8>| keys.contains(k) implies exists|j: int|
            0 <= j < names.len() && #[trigger] names[j] == k by {
            let p = index_of(s, k);
            lemma_entry_at(s, p);
            let j = choose|j: int| 0 <= j < picked.len() && #[trigger] picked[j] == p;
            assert(names[j] == k);
        }
        lemma_selection_enumerates(s, picked, names, keys);
        assert forall|j: int| 0 <= j < out.len() implies (#[trigger] out[j]).1.wf() && out[j].1@
            == m[names[j]][n] by {
            assert(names[j] == keys_of(s)[picked[j]]);
        }
    }
    out
}

} // verus!
