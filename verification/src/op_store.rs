//! The data that a view is made of.

use vstd::prelude::*;
use vstd::std_specs::cmp::PartialEqSpecImpl;
use vstd::view::View as _;
use crate::backend::CommitId;
use crate::ref_target::RefTarget;
use crate::ref_target::RemoteRef;
use crate::ref_target::RemoteRefModel;
use crate::ref_target::TargetModel;
use crate::sorted_ids::ids_in;
use crate::sorted_map::OrderedKey;
use crate::sorted_map::SortedMap;
use crate::sorted_map::index_of;
use crate::sorted_map::keys_of;
use crate::sorted_map::lemma_entry_at;
use crate::sorted_map::lemma_same_keys;
use crate::sorted_map::name_key;
use crate::sorted_map::strictly_increasing;

verus! {

/// Names one working copy of a repository.
#[derive(Debug, Eq, Hash, PartialOrd, Ord)]
pub struct WorkspaceId {
    name: String,
}

impl vstd::view::View for WorkspaceId {
    type V = Seq<char>;

    closed spec fn view(&self) -> Seq<char> {
        self.name@
    }
}

impl WorkspaceId {
    /// The id of the workspace named `name`.
    pub fn new(name: String) -> (r: Self)
        ensures
            r@ == name@,
    {
        WorkspaceId { name }
    }

    /// The name of the workspace.
    pub fn as_str(&self) -> (r: &str)
        ensures
            r@ == self@,
    {
        self.name.as_str()
    }
}

impl Clone for WorkspaceId {
    fn clone(&self) -> (r: Self)
        ensures
            r@ == self@,
    {
        WorkspaceId { name: self.name.clone() }
    }
}

impl PartialEq for WorkspaceId {
    fn eq(&self, other: &Self) -> (r: bool) {
        self.name == other.name
    }
}

impl PartialEqSpecImpl for WorkspaceId {
    open spec fn obeys_eq_spec() -> bool {
        true
    }

    open spec fn eq_spec(&self, other: &Self) -> bool {
        self@ == other@
    }
}

impl OrderedKey for WorkspaceId {
    open spec fn key(&self) -> Seq<u8> {
        name_key(self@)
    }

    fn key_bytes(&self) -> (r: &[u8]) {
        self.name.as_str().as_bytes()
    }
}

/// A set of commit ids, kept in increasing order.
#[derive(Debug, PartialEq, Eq)]
pub struct CommitIdSet {
    ids: SortedMap<CommitId, ()>,
}

impl vstd::view::View for CommitIdSet {
    type V = Set<Seq<u8>>;

    closed spec fn view(&self) -> Set<Seq<u8>> {
        self.ids@.dom()
    }
}

impl CommitIdSet {
    /// The ids are stored in strictly increasing order.
    pub closed spec fn wf(&self) -> bool {
        self.ids.wf()
    }

    /// The ids in increasing order.
    pub closed spec fn ids(&self) -> Seq<Seq<u8>> {
        keys_of(self.ids.entries())
    }

    /// The list of ids holds each id of the set once, in increasing order.
    pub proof fn lemma_ids(&self)
        requires
            self.wf(),
        ensures
            strictly_increasing(self.ids()),
            forall|i: int| 0 <= i < self.ids().len() ==> self@.contains(#[trigger] self.ids()[i]),
            forall|v: Seq<u8>|
                self@.contains(v) ==> exists|i: int|
                    0 <= i < self.ids().len() && #[trigger] self.ids()[i] == v,
    {
        let s = self.ids.entries();
        assert forall|i: int| 0 <= i < self.ids().len() implies self@.contains(
            #[trigger] self.ids()[i],
        ) by {
            lemma_entry_at(s, i);
        }
    }

    /// The empty set.
    pub fn new() -> (r: Self)
        ensures
            r.wf(),
            r@ == Set::<Seq<u8>>::empty(),
            r.ids() == Seq::<Seq<u8>>::empty(),
    {
        let r = CommitIdSet { ids: SortedMap::new() };
        proof {
            assert(r.ids() =~= Seq::<Seq<u8>>::empty());
        }
        r
    }

    /// The number of ids in the set.
    pub fn len(&self) -> (r: usize)
        ensures
            r == self.ids().len(),
    {
        self.ids.len()
    }

    /// The id at position `i` in increasing order.
    pub fn id_at(&self, i: usize) -> (r: &CommitId)
        requires
            i < self.ids().len(),
        ensures
            r@ == self.ids()[i as int],
    {
        self.ids.key_at(i)
    }

    /// The ids of the set, in increasing order.
    pub fn to_vec(&self) -> (r: Vec<CommitId>)
        requires
            self.wf(),
        ensures
            ids_in(r@) == self@,
            r.len() == self.ids().len(),
            forall|j: int| 0 <= j < r.len() ==> #[trigger] r[j]@ == self.ids()[j],
    {
        let mut out: Vec<CommitId> = Vec::new();
        let mut i: usize = 0;
        while i < self.ids.len()
            invariant
                i <= self.ids().len(),
                out.len() == i,
                forall|j: int| 0 <= j < i ==> #[trigger] out[j]@ == self.ids()[j],
            decreases self.ids().len() - i,
        {
            out.push(self.ids.key_at(i).clone());
            i += 1;
        }
        proof {
            self.lemma_ids();
            assert forall|v: Seq<u8>| ids_in(out@).contains(v) <==> self@.contains(
                v,
            ) by {
                if self@.contains(v) {
                    let j = choose|j: int| 0 <= j < self.ids().len() && #[trigger] self.ids()[j] == v;
                    assert(out[j]@ == v);
                }
            }
        }
        out
    }

    /// Whether `id` is in the set.
    pub fn contains(&self, id: &CommitId) -> (r: bool)
        requires
            self.wf(),
        ensures
            r == self@.contains(id@),
    {
        self.ids.contains_key(id.as_bytes())
    }

    /// Adds `id` to the set; says whether it was new.
    pub fn insert(&mut self, id: CommitId) -> (r: bool)
        requires
            old(self).wf(),
        ensures
            final(self).wf(),
            final(self)@ == old(self)@.insert(id@),
            r == !old(self)@.contains(id@),
    {
        let previous = self.ids.insert(id, ());
        previous.is_none()
    }

    /// Takes `id` out of the set; says whether it was there.
    pub fn remove(&mut self, id: &CommitId) -> (r: bool)
        requires
            old(self).wf(),
        ensures
            final(self).wf(),
            final(self)@ == old(self)@.remove(id@),
            r == old(self)@.contains(id@),
    {
        let previous = self.ids.remove(id.as_bytes());
        previous.is_some()
    }
}

/// The bookmarks of one remote as last seen.
#[derive(Debug, PartialEq, Eq)]
pub struct RemoteView {
    pub bookmarks: SortedMap<String, RemoteRef>,
}

/// What a view says, with every name and id taken as its bytes.
pub struct ViewModel {
    /// The commits that are the leaves of the visible history.
    pub head_ids: Set<Seq<u8>>,
    pub local_bookmarks: Map<Seq<u8>, TargetModel>,
    pub tags: Map<Seq<u8>, TargetModel>,
    /// For each remote, its bookmarks by name.
    pub remote_views: Map<Seq<u8>, Map<Seq<u8>, RemoteRefModel>>,
    pub git_refs: Map<Seq<u8>, TargetModel>,
    pub git_head: TargetModel,
    /// The commit that each workspace has checked out.
    pub wc_commit_ids: Map<Seq<u8>, Seq<u8>>,
}

/// Every commit that the targets of a map name, added or removed.
pub open spec fn targets_ids(m: Map<Seq<u8>, TargetModel>) -> Set<Seq<u8>> {
    Set::new(|v: Seq<u8>| exists|k: Seq<u8>| #[trigger] m.contains_key(k) && m[k].ids().contains(v))
}

/// Every commit that the bookmarks of one remote name, added or removed.
pub open spec fn remote_refs_ids(m: Map<Seq<u8>, RemoteRefModel>) -> Set<Seq<u8>> {
    Set::new(
        |v: Seq<u8>| exists|k: Seq<u8>| #[trigger] m.contains_key(k) && m[k].target.ids().contains(v),
    )
}

/// Every commit that the bookmarks of any remote name, added or removed.
pub open spec fn remote_views_ids(m: Map<Seq<u8>, Map<Seq<u8>, RemoteRefModel>>) -> Set<Seq<u8>> {
    Set::new(
        |v: Seq<u8>| exists|r: Seq<u8>| #[trigger] m.contains_key(r) && remote_refs_ids(m[r]).contains(v),
    )
}

impl ViewModel {
    /// Every commit that the view refers to: the heads, the commits of the
    /// workspaces, and every commit that a bookmark, tag, remote bookmark,
    /// Git ref or Git's HEAD adds or removes.
    pub open spec fn referenced_ids(self) -> Set<Seq<u8>> {
        self.head_ids.union(targets_ids(self.local_bookmarks)).union(targets_ids(self.tags)).union(
            remote_views_ids(self.remote_views),
        ).union(targets_ids(self.git_refs)).union(self.git_head.ids()).union(
            self.wc_commit_ids.values(),
        )
    }
}

/// Every target of the map names no commit on both sides, and none is
/// absent.
pub open spec fn targets_model_wf(m: Map<Seq<u8>, TargetModel>) -> bool {
    forall|k: Seq<u8>| #[trigger] m.contains_key(k) ==> m[k].wf() && !m[k].is_absent()
}

/// Every bookmark of the map names no commit on both sides, and none is
/// absent.
pub open spec fn remote_refs_model_wf(m: Map<Seq<u8>, RemoteRefModel>) -> bool {
    forall|k: Seq<u8>| #[trigger] m.contains_key(k) ==> m[k].target.wf() && !m[k].target.is_absent()
}

impl ViewModel {
    /// No target names a commit on both sides, and no absent target is
    /// stored under a name.
    pub open spec fn wf(self) -> bool {
        &&& targets_model_wf(self.local_bookmarks)
        &&& targets_model_wf(self.tags)
        &&& targets_model_wf(self.git_refs)
        &&& self.git_head.wf()
        &&& forall|r: Seq<u8>| #[trigger]
            self.remote_views.contains_key(r) ==> remote_refs_model_wf(self.remote_views[r])
    }
}

/// What the stored targets say, by name.
pub open spec fn targets_model(m: Map<Seq<u8>, RefTarget>) -> Map<Seq<u8>, TargetModel> {
    m.map_values(|t: RefTarget| t@)
}

/// What the stored remote bookmarks say, by name.
pub open spec fn remote_refs_model(m: Map<Seq<u8>, RemoteRef>) -> Map<Seq<u8>, RemoteRefModel> {
    m.map_values(|r: RemoteRef| r@)
}

/// What the stored remotes say, by remote and by name.
pub open spec fn remote_views_model(m: Map<Seq<u8>, RemoteView>) -> Map<
    Seq<u8>,
    Map<Seq<u8>, RemoteRefModel>,
> {
    m.map_values(|v: RemoteView| remote_refs_model(v.bookmarks@))
}

/// The stored commit ids, by key.
pub open spec fn ids_model(m: Map<Seq<u8>, CommitId>) -> Map<Seq<u8>, Seq<u8>> {
    m.map_values(|c: CommitId| c@)
}

/// Every stored target is in canonical form and none is absent.
pub open spec fn targets_wf(m: SortedMap<String, RefTarget>) -> bool {
    &&& m.wf()
    &&& forall|k: Seq<u8>| #[trigger]
        m@.contains_key(k) ==> m@[k].wf() && !m@[k]@.is_absent()
}

/// Every stored remote bookmark is in canonical form and none is absent.
pub open spec fn remote_refs_wf(m: SortedMap<String, RemoteRef>) -> bool {
    &&& m.wf()
    &&& forall|k: Seq<u8>| #[trigger]
        m@.contains_key(k) ==> m@[k].wf() && !m@[k]@.target.is_absent()
}

/// A bookmark as it stands locally and on every remote that has it.
#[derive(Clone, Debug, PartialEq, Eq)]
pub struct BookmarkTarget<'a> {
    /// The target of the local bookmark; absent if there is none.
    pub local_target: &'a RefTarget,
    /// The bookmark on each remote that has one of this name, in the order
    /// of the remotes' names.
    pub remote_refs: Vec<(&'a str, &'a RemoteRef)>,
}

/// The names that some remote has a bookmark under.
pub open spec fn all_remote_names(m: Map<Seq<u8>, Map<Seq<u8>, RemoteRefModel>>) -> Set<Seq<u8>> {
    Set::new(|n: Seq<u8>| exists|r: Seq<u8>| #[trigger] m.contains_key(r) && m[r].contains_key(n))
}

/// The remotes that have a bookmark under the name `n`.
pub open spec fn remotes_with(m: Map<Seq<u8>, Map<Seq<u8>, RemoteRefModel>>, n: Seq<u8>) -> Set<
    Seq<u8>,
> {
    Set::new(|r: Seq<u8>| m.contains_key(r) && m[r].contains_key(n))
}

/// Every remote's bookmarks are in key order and canonical form, and none
/// is absent.
pub open spec fn remote_views_wf(m: SortedMap<String, RemoteView>) -> bool {
    &&& m.wf()
    &&& forall|r: Seq<u8>| #[trigger] m@.contains_key(r) ==> remote_refs_wf(m@[r].bookmarks)
}

/// The named state of a repository: heads, bookmarks, tags, remote
/// bookmarks, Git refs and the commit of each workspace.
#[derive(Debug, PartialEq, Eq)]
pub struct View {
    pub head_ids: CommitIdSet,
    pub local_bookmarks: SortedMap<String, RefTarget>,
    pub tags: SortedMap<String, RefTarget>,
    pub remote_views: SortedMap<String, RemoteView>,
    pub git_refs: SortedMap<String, RefTarget>,
    pub git_head: RefTarget,
    pub wc_commit_ids: SortedMap<WorkspaceId, CommitId>,
}

impl View {
    /// What the view says.
    pub open spec fn model(&self) -> ViewModel {
        ViewModel {
            head_ids: self.head_ids@,
            local_bookmarks: targets_model(self.local_bookmarks@),
            tags: targets_model(self.tags@),
            remote_views: remote_views_model(self.remote_views@),
            git_refs: targets_model(self.git_refs@),
            git_head: self.git_head@,
            wc_commit_ids: ids_model(self.wc_commit_ids@),
        }
    }

    /// Every map is in key order, every target is in canonical form, and no
    /// absent target is stored under a name.
    pub open spec fn wf(&self) -> bool {
        &&& self.head_ids.wf()
        &&& targets_wf(self.local_bookmarks)
        &&& targets_wf(self.tags)
        &&& targets_wf(self.git_refs)
        &&& self.git_head.wf()
        &&& self.wc_commit_ids.wf()
        &&& remote_views_wf(self.remote_views)
    }

    /// What a well-formed view says is well formed.
    pub proof fn lemma_wf_model(&self)
        requires
            self.wf(),
        ensures
            self.model().wf(),
    {
        let m = self.model();
        assert forall|k: Seq<u8>| #[trigger] m.local_bookmarks.contains_key(k) implies m.local_bookmarks[k].wf()
            && !m.local_bookmarks[k].is_absent() by {
            self.local_bookmarks@[k].lemma_wf_model();
        }
        assert forall|k: Seq<u8>| #[trigger] m.tags.contains_key(k) implies m.tags[k].wf()
            && !m.tags[k].is_absent() by {
            self.tags@[k].lemma_wf_model();
        }
        assert forall|k: Seq<u8>| #[trigger] m.git_refs.contains_key(k) implies m.git_refs[k].wf()
            && !m.git_refs[k].is_absent() by {
            self.git_refs@[k].lemma_wf_model();
        }
        self.git_head.lemma_wf_model();
        assert forall|r: Seq<u8>| #[trigger] m.remote_views.contains_key(r) implies remote_refs_model_wf(
            m.remote_views[r],
        ) by {
            let refs = self.remote_views@[r].bookmarks;
            assert forall|k: Seq<u8>| #[trigger] m.remote_views[r].contains_key(k) implies m.remote_views[r][k].target.wf()
                && !m.remote_views[r][k].target.is_absent() by {
                refs@[k].target.lemma_wf_model();
            }
        }
    }

    /// The view of a repository in which nothing has been recorded.
    pub fn empty() -> (r: Self)
        ensures
            r.wf(),
            r.model() == (ViewModel {
                head_ids: Set::empty(),
                local_bookmarks: Map::empty(),
                tags: Map::empty(),
                remote_views: Map::empty(),
                git_refs: Map::empty(),
                git_head: TargetModel::absent(),
                wc_commit_ids: Map::empty(),
            }),
    {
        let r = View {
            head_ids: CommitIdSet::new(),
            local_bookmarks: SortedMap::new(),
            tags: SortedMap::new(),
            remote_views: SortedMap::new(),
            git_refs: SortedMap::new(),
            git_head: RefTarget::absent(),
            wc_commit_ids: SortedMap::new(),
        };
        proof {
            assert(r.model().local_bookmarks =~= Map::empty());
            assert(r.model().remote_views =~= Map::empty());
            assert(r.model().wc_commit_ids =~= Map::empty());
        }
        r
    }
}

/// A clone of a well-formed map of targets is well formed and says the
/// same.
pub proof fn lemma_cloned_targets(map: SortedMap<String, RefTarget>, r: SortedMap<String, RefTarget>)
    requires
        targets_wf(map),
        r.entries().len() == map.entries().len(),
        forall|i: int|
            0 <= i < map.entries().len() ==> cloned::<String>(
                (#[trigger] map.entries()[i]).0,
                r.entries()[i].0,
            ) && cloned::<RefTarget>(map.entries()[i].1, r.entries()[i].1),
    ensures
        targets_wf(r),
        targets_model(r@) == targets_model(map@),
{
    let s = map.entries();
    let t = r.entries();
    assert(keys_of(s) =~= keys_of(t));
    lemma_same_keys(s, t);
    assert forall|k: Seq<u8>| #[trigger] r@.contains_key(k) implies r@[k].wf() && r@[k]@
        == map@[k]@ && !r@[k]@.is_absent() by {
        let i = index_of(s, k);
        assert(map@.contains_key(k));
    }
}

/// A clone of the well-formed bookmarks of a remote is well formed and
/// says the same.
pub proof fn lemma_cloned_remote_refs(
    map: SortedMap<String, RemoteRef>,
    r: SortedMap<String, RemoteRef>,
)
    requires
        remote_refs_wf(map),
        r.entries().len() == map.entries().len(),
        forall|i: int|
            0 <= i < map.entries().len() ==> cloned::<String>(
                (#[trigger] map.entries()[i]).0,
                r.entries()[i].0,
            ) && cloned::<RemoteRef>(map.entries()[i].1, r.entries()[i].1),
    ensures
        remote_refs_wf(r),
        remote_refs_model(r@) == remote_refs_model(map@),
{
    let s = map.entries();
    let t = r.entries();
    assert(keys_of(s) =~= keys_of(t));
    lemma_same_keys(s, t);
    assert forall|k: Seq<u8>| #[trigger] r@.contains_key(k) implies r@[k].wf() && r@[k]@
        == map@[k]@ && !r@[k]@.target.is_absent() by {
        let i = index_of(s, k);
        assert(map@.contains_key(k));
    }
}

impl Clone for RemoteView {
    fn clone(&self) -> (r: Self)
        ensures
            remote_refs_wf(self.bookmarks) ==> remote_refs_wf(r.bookmarks) && remote_refs_model(
                r.bookmarks@,
            ) == remote_refs_model(self.bookmarks@),
    {
        let bookmarks = self.bookmarks.clone();
        proof {
            if remote_refs_wf(self.bookmarks) {
                lemma_cloned_remote_refs(self.bookmarks, bookmarks);
            }
        }
        RemoteView { bookmarks }
    }
}

/// A clone of the well-formed bookmarks of all remotes is well formed and
/// says the same.
pub proof fn lemma_cloned_remote_views(
    map: SortedMap<String, RemoteView>,
    r: SortedMap<String, RemoteView>,
)
    requires
        remote_views_wf(map),
        r.entries().len() == map.entries().len(),
        forall|i: int|
            0 <= i < map.entries().len() ==> cloned::<String>(
                (#[trigger] map.entries()[i]).0,
                r.entries()[i].0,
            ) && cloned::<RemoteView>(map.entries()[i].1, r.entries()[i].1),
    ensures
        remote_views_wf(r),
        remote_views_model(r@) == remote_views_model(map@),
{
    let s = map.entries();
    let t = r.entries();
    assert(keys_of(s) =~= keys_of(t));
    lemma_same_keys(s, t);
    assert forall|k: Seq<u8>| #[trigger] r@.contains_key(k) implies remote_refs_wf(
        r@[k].bookmarks,
    ) && remote_refs_model(r@[k].bookmarks@) == remote_refs_model(map@[k].bookmarks@) by {
        let i = index_of(s, k);
        assert(map@.contains_key(k));
    }
}

/// A clone of a well-formed map of workspaces is well formed and says
/// the same.
pub proof fn lemma_cloned_bindings(
    map: SortedMap<WorkspaceId, CommitId>,
    r: SortedMap<WorkspaceId, CommitId>,
)
    requires
        map.wf(),
        r.entries().len() == map.entries().len(),
        forall|i: int|
            0 <= i < map.entries().len() ==> cloned::<WorkspaceId>(
                (#[trigger] map.entries()[i]).0,
                r.entries()[i].0,
            ) && cloned::<CommitId>(map.entries()[i].1, r.entries()[i].1),
    ensures
        r.wf(),
        ids_model(r@) == ids_model(map@),
{
    let s = map.entries();
    let t = r.entries();
    assert forall|i: int| 0 <= i < s.len() implies #[trigger] keys_of(s)[i]
        == keys_of(t)[i] by {}
    assert(keys_of(s) =~= keys_of(t));
    lemma_same_keys(s, t);
    assert forall|k: Seq<u8>| #[trigger] r@.contains_key(k) implies r@[k]@ == map@[k]@ by {}
}

impl Clone for CommitIdSet {
    fn clone(&self) -> (r: Self)
        ensures
            self.wf() ==> r.wf() && r@ == self@,
    {
        let r = CommitIdSet { ids: self.ids.clone() };
        proof {
            if self.wf() {
                let s = self.ids.entries();
                let t = r.ids.entries();
                assert forall|i: int| 0 <= i < s.len() implies #[trigger] keys_of(
                    s,
                )[i] == keys_of(t)[i] by {}
                assert(keys_of(s) =~= keys_of(t));
                lemma_same_keys(s, t);
            }
        }
        r
    }
}

impl Clone for View {
    fn clone(&self) -> (r: Self)
        ensures
            self.wf() ==> r.wf() && r.model() == self.model(),
    {
        let r = View {
            head_ids: self.head_ids.clone(),
            local_bookmarks: self.local_bookmarks.clone(),
            tags: self.tags.clone(),
            remote_views: self.remote_views.clone(),
            git_refs: self.git_refs.clone(),
            git_head: self.git_head.clone(),
            wc_commit_ids: self.wc_commit_ids.clone(),
        };
        proof {
            if self.wf() {
                lemma_cloned_targets(self.local_bookmarks, r.local_bookmarks);
                lemma_cloned_targets(self.tags, r.tags);
                lemma_cloned_targets(self.git_refs, r.git_refs);
                lemma_cloned_remote_views(self.remote_views, r.remote_views);
                lemma_cloned_bindings(self.wc_commit_ids, r.wc_commit_ids);
            }
        }
        r
    }
}

} // verus!
