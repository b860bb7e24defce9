//! The view of a repository's named state, with the operations that read
//! and change it.

use vstd::prelude::*;
use vstd::string::StringExecFns;
use vstd::view::View as _;
use itertools::Itertools;
use crate::backend::CommitId;
use crate::byte_order::lex_lt;
use crate::named_refs::all_bookmark_names;
use crate::named_refs::contains_id;
use crate::named_refs::get_target;
use crate::named_refs::join_local_remote;
use crate::named_refs::list_entries;
use crate::named_refs::push_remote_views_ids;
use crate::named_refs::push_target_ids;
use crate::named_refs::push_targets_ids;
use crate::named_refs::push_wc_commit_ids;
use crate::named_refs::remote_at;
use crate::named_refs::remote_ref_at;
use crate::named_refs::remote_refs_named;
use crate::named_refs::set_remote_ref;
use crate::named_refs::set_target;
use crate::named_refs::target_adds;
use crate::named_refs::target_at;
use crate::named_refs::with_remote_ref;
use crate::named_refs::with_target;
use crate::op_store::BookmarkTarget;
use crate::op_store::CommitIdSet;
use crate::op_store::RemoteView;
use crate::op_store::ViewModel;
use crate::op_store::WorkspaceId;
use crate::op_store::all_remote_names;
use crate::op_store::remote_refs_model;
use crate::op_store::remotes_with;
use crate::ref_name::RefName;
use crate::ref_name::RemoteName;
use crate::ref_name::RemoteRefSymbol;
use crate::ref_target::RefTarget;
use crate::ref_target::RemoteRef;
use crate::refs::LocalAndRemoteRef;
use crate::refs::name_keys;
use crate::remote_refs::enumerates_symbols;
use crate::remote_refs::merged_remote_bookmarks;
use crate::remote_refs::selected;
use crate::remote_refs::symbol_keys;
use crate::sorted_ids::ids_in;
use crate::sorted_map::OrderedKey;
use crate::sorted_map::SortedMap;
use crate::sorted_map::enumerates;
use crate::sorted_map::index_of;
use crate::sorted_map::keys_of;
use crate::sorted_map::lemma_entry_at;
use crate::sorted_map::lemma_selection_enumerates;
use crate::sorted_map::name_key;
use crate::str_util::StringPattern;
use crate::str_util::names_of;

verus! {

/// Why a workspace could not be renamed.
#[derive(Clone, Debug, PartialEq, Eq)]
pub enum RenameWorkspaceError {
    /// No workspace has the old name.
    WorkspaceDoesNotExist { workspace_id: String },
    /// A workspace with the new name is already there.
    WorkspaceAlreadyExists { workspace_id: String },
}

impl RenameWorkspaceError {
    /// The error in words.
    pub fn message(&self) -> (r: String)
        ensures
            r@ == match *self {
                RenameWorkspaceError::WorkspaceDoesNotExist { workspace_id } => "Workspace "@
                    + workspace_id@ + " not found"@,
                RenameWorkspaceError::WorkspaceAlreadyExists { workspace_id } => "Workspace "@
                    + workspace_id@ + " already exists"@,
            },
    {
        match self {
            RenameWorkspaceError::WorkspaceDoesNotExist { workspace_id } => String::from_str(
                "Workspace ",
            ).concat(workspace_id.as_str()).concat(" not found"),
            RenameWorkspaceError::WorkspaceAlreadyExists { workspace_id } => String::from_str(
                "Workspace ",
            ).concat(workspace_id.as_str()).concat(" already exists"),
        }
    }

    /// The name of the workspace that the error is about.
    pub fn workspace_id(&self) -> (r: &str)
        ensures
            r@ == match *self {
                RenameWorkspaceError::WorkspaceDoesNotExist { workspace_id } => workspace_id@,
                RenameWorkspaceError::WorkspaceAlreadyExists { workspace_id } => workspace_id@,
            },
    {
        match self {
            RenameWorkspaceError::WorkspaceDoesNotExist { workspace_id } => workspace_id.as_str(),
            RenameWorkspaceError::WorkspaceAlreadyExists { workspace_id } => workspace_id.as_str(),
        }
    }
}

/// The named state of a repository at one point of its operation log.
#[derive(Debug, PartialEq, Eq)]
pub struct View {
    data: crate::op_store::View,
}

impl Clone for View {
    fn clone(&self) -> (r: Self)
        ensures
            self.wf() ==> r.wf() && r@ == self@,
    {
        View { data: self.data.clone() }
    }
}

impl View {
    /// The data that the view holds.
    pub closed spec fn data(&self) -> crate::op_store::View {
        self.data
    }

    /// What the view says.
    pub open spec fn view(&self) -> ViewModel {
        self.data().model()
    }

    /// The data is well formed.
    pub open spec fn wf(&self) -> bool {
        self.data().wf()
    }

    /// The view that holds `op_store_view`.
    pub fn new(op_store_view: crate::op_store::View) -> (r: Self)
        ensures
            r.data() == op_store_view,
    {
        View { data: op_store_view }
    }

    /// The commit that each workspace has checked out.
    pub fn wc_commit_ids(&self) -> (r: &SortedMap<WorkspaceId, CommitId>)
        ensures
            *r == self.data().wc_commit_ids,
    {
        &self.data.wc_commit_ids
    }

    /// The commit that a workspace has checked out, if the view knows the
    /// workspace.
    pub fn get_wc_commit_id(&self, workspace_id: &WorkspaceId) -> (r: Option<&CommitId>)
        requires
            self.wf(),
        ensures
            match r {
                Some(id) => self@.wc_commit_ids.contains_key(workspace_id.key())
                    && self@.wc_commit_ids[workspace_id.key()] == id@,
                None => !self@.wc_commit_ids.contains_key(workspace_id.key()),
            },
    {
        self.data.wc_commit_ids.get(workspace_id.key_bytes())
    }

    /// The commits that are the leaves of the visible history.
    pub fn heads(&self) -> (r: &CommitIdSet)
        ensures
            *r == self.data().head_ids,
    {
        &self.data.head_ids
    }

    /// Every bookmark that exists locally or on some remote, in the order
    /// of the names, each with its local target, which is absent where
    /// there is no local bookmark, and with the bookmark of each remote
    /// that has one.
    pub fn bookmarks(&self) -> (r: Vec<(&RefName, BookmarkTarget<'_>)>)
        requires
            self.wf(),
        ensures
            enumerates(
                names_of(r@),
                self@.local_bookmarks.dom().union(
                    all_remote_names(self@.remote_views),
                ),
            ),
            forall|j: int|
                0 <= j < r.len() ==> {
                    let name = names_of(r@)[j];
                    let remotes = names_of((#[trigger] r[j]).1.remote_refs@);
                    &&& r[j].1.local_target.wf()
                    &&& r[j].1.local_target@ == target_at(self@.local_bookmarks, name)
                    &&& enumerates(
                        remotes,
                        remotes_with(self@.remote_views, name),
                    )
                    &&& forall|t: int|
                        0 <= t < r[j].1.remote_refs.len() ==> (#[trigger] r[j].1.remote_refs[t]).1.wf()
                            && r[j].1.remote_refs[t].1@ == self@.remote_views[remotes[t]][name]
                },
    {
        let names = all_bookmark_names(&self.data.local_bookmarks, &self.data.remote_views);
        let mut out: Vec<(&RefName, BookmarkTarget<'_>)> = Vec::new();
        let mut i: usize = 0;
        while i < names.len()
            invariant
                self.wf(),
                i <= names.len(),
                out.len() == i,
                forall|j: int| 0 <= j < i ==> (#[trigger] out[j]).0@ == names[j]@,
                forall|j: int|
                    0 <= j < i ==> {
                        let name = name_key(names[j]@);
                        let remotes = names_of((#[trigger] out[j]).1.remote_refs@);
                        &&& out[j].1.local_target.wf()
                        &&& out[j].1.local_target@ == target_at(self@.local_bookmarks, name)
                        &&& enumerates(
                            remotes,
                            remotes_with(self@.remote_views, name),
                        )
                        &&& forall|t: int|
                            0 <= t < out[j].1.remote_refs.len() ==> (#[trigger] out[j].1.remote_refs[t]).1.wf()
                                && out[j].1.remote_refs[t].1@ == self@.remote_views[remotes[t]][name]
                    },
            decreases names.len() - i,
        {
            let name = names[i];
            let local_target = get_target(&self.data.local_bookmarks, name);
            let remote_refs = remote_refs_named(&self.data.remote_views, name);
            out.push((name, BookmarkTarget { local_target, remote_refs }));
            i += 1;
        }
        proof {
            assert(names_of(out@) =~= name_keys(names@));
        }
        out
    }

    /// The tags with their targets.
    pub fn tags(&self) -> (r: &SortedMap<String, RefTarget>)
        ensures
            *r == self.data().tags,
    {
        &self.data.tags
    }

    /// The Git refs as last imported, with their targets.
    pub fn git_refs(&self) -> (r: &SortedMap<String, RefTarget>)
        ensures
            *r == self.data().git_refs,
    {
        &self.data.git_refs
    }

    /// Where Git's HEAD was last seen.
    pub fn git_head(&self) -> (r: &RefTarget)
        ensures
            *r == self.data().git_head,
    {
        &self.data.git_head
    }

    /// Binds a workspace to a commit, in place of any commit it had.
    pub fn set_wc_commit(&mut self, workspace_id: WorkspaceId, commit_id: CommitId)
        requires
            old(self).wf(),
        ensures
            final(self).wf(),
            final(self)@ == (ViewModel {
                wc_commit_ids: old(self)@.wc_commit_ids.insert(workspace_id.key(), commit_id@),
                ..old(self)@
            }),
    {
        self.data.wc_commit_ids.insert(workspace_id, commit_id);
        proof {
            assert(self@.wc_commit_ids =~= old(self)@.wc_commit_ids.insert(
                workspace_id.key(),
                commit_id@,
            ));
        }
    }

    /// Forgets the commit of a workspace.
    pub fn remove_wc_commit(&mut self, workspace_id: &WorkspaceId)
        requires
            old(self).wf(),
        ensures
            final(self).wf(),
            final(self)@ == (ViewModel {
                wc_commit_ids: old(self)@.wc_commit_ids.remove(workspace_id.key()),
                ..old(self)@
            }),
    {
        self.data.wc_commit_ids.remove(workspace_id.key_bytes());
        proof {
            assert(self@.wc_commit_ids =~= old(self)@.wc_commit_ids.remove(workspace_id.key()));
        }
    }

    /// Makes a commit a head; nothing changes if it is one.
    pub fn add_head(&mut self, head_id: &CommitId)
        requires
            old(self).wf(),
        ensures
            final(self).wf(),
            final(self)@ == (ViewModel {
                head_ids: old(self)@.head_ids.insert(head_id@),
                ..old(self)@
            }),
    {
        self.data.head_ids.insert(head_id.clone());
    }

    /// Takes a commit out of the heads; nothing changes if it is none.
    pub fn remove_head(&mut self, head_id: &CommitId)
        requires
            old(self).wf(),
        ensures
            final(self).wf(),
            final(self)@ == (ViewModel {
                head_ids: old(self)@.head_ids.remove(head_id@),
                ..old(self)@
            }),
    {
        self.data.head_ids.remove(head_id);
    }

    /// Whether some workspace has `commit_id` checked out.
    pub fn is_wc_commit_id(&self, commit_id: &CommitId) -> (r: bool)
        requires
            self.wf(),
        ensures
            r == exists|k: Seq<u8>| #[trigger]
                self@.wc_commit_ids.contains_key(k) && self@.wc_commit_ids[k] == commit_id@,
    {
        let map = &self.data.wc_commit_ids;
        let ghost s = map.entries();
        let mut values: Vec<&CommitId> = Vec::new();
        let mut i: usize = 0;
        while i < map.len()
            invariant
                s == map.entries(),
                i <= s.len(),
                values.len() == i,
                forall|j: int| 0 <= j < i ==> #[trigger] values[j]@ == s[j].1@,
            decreases s.len() - i,
        {
            values.push(map.value_at(i));
            i += 1;
        }
        let found = contains_id(&values, commit_id);
        proof {
            if found {
                let j = choose|j: int| 0 <= j < values.len() && #[trigger] values[j]@ == commit_id@;
                lemma_entry_at(s, j);
                assert(self@.wc_commit_ids.contains_key(s[j].0.key()));
            }
            if exists|k: Seq<u8>| #[trigger]
                self@.wc_commit_ids.contains_key(k) && self@.wc_commit_ids[k] == commit_id@ {
                let k = choose|k: Seq<u8>| #[trigger]
                    self@.wc_commit_ids.contains_key(k) && self@.wc_commit_ids[k] == commit_id@;
                let j = index_of(s, k);
                lemma_entry_at(s, j);
                assert(values[j]@ == commit_id@);
            }
        }
        found
    }

    /// Gives the commit of the workspace `old_workspace_id` to the new name
    /// `new_workspace_id`. Fails, and changes nothing, if the new name is
    /// taken or the old one is unknown.
    pub fn rename_workspace(
        &mut self,
        old_workspace_id: &WorkspaceId,
        new_workspace_id: WorkspaceId,
    ) -> (r: Result<(), RenameWorkspaceError>)
        requires
            old(self).wf(),
        ensures
            final(self).wf(),
            match r {
                Ok(_) => {
                    &&& !old(self)@.wc_commit_ids.contains_key(new_workspace_id.key())
                    &&& old(self)@.wc_commit_ids.contains_key(old_workspace_id.key())
                    &&& final(self)@ == (ViewModel {
                        wc_commit_ids: old(self)@.wc_commit_ids.remove(
                            old_workspace_id.key(),
                        ).insert(
                            new_workspace_id.key(),
                            old(self)@.wc_commit_ids[old_workspace_id.key()],
                        ),
                        ..old(self)@
                    })
                },
                Err(RenameWorkspaceError::WorkspaceAlreadyExists { workspace_id }) => {
                    &&& old(self)@.wc_commit_ids.contains_key(new_workspace_id.key())
                    &&& workspace_id@ == new_workspace_id@
                    &&& *final(self) == *old(self)
                },
                Err(RenameWorkspaceError::WorkspaceDoesNotExist { workspace_id }) => {
                    &&& !old(self)@.wc_commit_ids.contains_key(new_workspace_id.key())
                    &&& !old(self)@.wc_commit_ids.contains_key(old_workspace_id.key())
                    &&& workspace_id@ == old_workspace_id@
                    &&& *final(self) == *old(self)
                },
            },
    {
        if self.data.wc_commit_ids.contains_key(new_workspace_id.key_bytes()) {
            return Err(
                RenameWorkspaceError::WorkspaceAlreadyExists {
                    workspace_id: new_workspace_id.as_str().to_owned(),
                },
            );
        }
        if !self.data.wc_commit_ids.contains_key(old_workspace_id.key_bytes()) {
            return Err(
                RenameWorkspaceError::WorkspaceDoesNotExist {
                    workspace_id: old_workspace_id.as_str().to_owned(),
                },
            );
        }
        let removed = self.data.wc_commit_ids.remove(old_workspace_id.key_bytes());
        match removed {
            Some(wc_commit_id) => {
                self.data.wc_commit_ids.insert(new_workspace_id, wc_commit_id);
                proof {
                    assert(self@.wc_commit_ids =~= old(self)@.wc_commit_ids.remove(
                        old_workspace_id.key(),
                    ).insert(
                        new_workspace_id.key(),
                        old(self)@.wc_commit_ids[old_workspace_id.key()],
                    ));
                }
            },
            None => {},
        }
        Ok(())
    }

    /// The target of a local bookmark; absent if there is no such bookmark.
    pub fn get_local_bookmark(&self, name: &RefName) -> (r: &RefTarget)
        requires
            self.wf(),
        ensures
            r.wf(),
            r@ == target_at(self@.local_bookmarks, name_key(name@)),
    {
        get_target(&self.data.local_bookmarks, name)
    }

    /// Points a local bookmark at `target`. An absent target deletes the
    /// bookmark.
    pub fn set_local_bookmark_target(&mut self, name: &RefName, target: RefTarget)
        requires
            old(self).wf(),
            target.wf(),
        ensures
            final(self).wf(),
            final(self)@ == (ViewModel {
                local_bookmarks: with_target(
                    old(self)@.local_bookmarks,
                    name_key(name@),
                    target@,
                ),
                ..old(self)@
            }),
    {
        set_target(&mut self.data.local_bookmarks, name, target);
    }

    /// The workspaces that have `commit_id` checked out, in the order of
    /// their names.
    pub fn workspaces_for_wc_commit_id(&self, commit_id: &CommitId) -> (r: Vec<WorkspaceId>)
        requires
            self.wf(),
        ensures
            enumerates(
                Seq::new(r.len() as nat, |j: int| r[j].key()),
                Set::new(
                    |k: Seq<u8>|
                        self@.wc_commit_ids.contains_key(k) && self@.wc_commit_ids[k] == commit_id@,
                ),
            ),
    {
        let map = &self.data.wc_commit_ids;
        let ghost s = map.entries();
        let ghost keys = Set::new(
            |k: Seq<u8>| self@.wc_commit_ids.contains_key(k) && self@.wc_commit_ids[k] == commit_id@,
        );
        let mut workspace_ids: Vec<WorkspaceId> = Vec::new();
        let ghost mut picked: Seq<int> = Seq::empty();
        let mut i: usize = 0;
        while i < map.len()
            invariant
                s == map.entries(),
                i <= s.len(),
                picked.len() == workspace_ids.len(),
                forall|j: int| 0 <= j < picked.len() ==> 0 <= #[trigger] picked[j] < i,
                forall|a: int, b: int|
                    0 <= a < b < picked.len() ==> #[trigger] picked[a] < #[trigger] picked[b],
                forall|j: int|
                    0 <= j < picked.len() ==> (#[trigger] workspace_ids[j])@ == s[picked[j]].0@
                        && s[picked[j]].1@ == commit_id@,
                forall|p: int|
                    0 <= p < i && (#[trigger] s[p]).1@ == commit_id@ ==> exists|j: int|
                        0 <= j < picked.len() && #[trigger] picked[j] == p,
            decreases s.len() - i,
        {
            if map.value_at(i) == commit_id {
                let ghost before = picked;
                workspace_ids.push(map.key_at(i).clone());
                proof {
                    picked = picked.push(i as int);
                    assert forall|p: int|
                        0 <= p < i + 1 && (#[trigger] s[p]).1@ == commit_id@ implies exists|j: int|
                        0 <= j < picked.len() && #[trigger] picked[j] == p by {
                        if p < i {
                            let j = choose|j: int| 0 <= j < before.len() && #[trigger] before[j] == p;
                            assert(picked[j] == p);
                        } else {
                            assert(picked[before.len() as int] == p);
                        }
                    }
                }
            }
            i += 1;
        }
        proof {
            let names = Seq::new(workspace_ids.len() as nat, |j: int| workspace_ids[j].key());
            assert forall|j: int| 0 <= j < picked.len() implies #[trigger] names[j]
                == keys_of(s)[picked[j]] && keys.contains(names[j]) by {
                lemma_entry_at(s, picked[j]);
            }
            assert forall|k: Seq<u8>| keys.contains(k) implies exists|j: int|
                0 <= j < names.len() && #[trigger] names[j] == k by {
                let p = index_of(s, k);
                lemma_entry_at(s, p);
                let j = choose|j: int| 0 <= j < picked.len() && #[trigger] picked[j] == p;
                assert(names[j] == k);
            }
            lemma_selection_enumerates(s, picked, names, keys);
        }
        workspace_ids
    }

    /// The local bookmarks with their targets, in the order of their names.
    pub fn local_bookmarks(&self) -> (r: Vec<(&RefName, &RefTarget)>)
        requires
            self.wf(),
        ensures
            enumerates(
                names_of(r@),
                self@.local_bookmarks.dom(),
            ),
            forall|j: int|
                0 <= j < r.len() ==> (#[trigger] r[j]).1.wf() && r[j].1@
                    == self@.local_bookmarks[names_of(r@)[j]],
    {
        let r = list_entries(&self.data.local_bookmarks);
        r
    }

    /// The local bookmarks whose target adds `commit_id`, in the order of
    /// their names.
    pub fn local_bookmarks_for_commit(&self, commit_id: &CommitId) -> (r: Vec<
        (&RefName, &RefTarget),
    >)
        requires
            self.wf(),
        ensures
            enumerates(
                names_of(r@),
                Set::new(
                    |k: Seq<u8>|
                        self@.local_bookmarks.contains_key(k) && self@.local_bookmarks[k].adds.count(
                            commit_id@,
                        ) > 0,
                ),
            ),
            forall|j: int|
                0 <= j < r.len() ==> (#[trigger] r[j]).1.wf() && r[j].1@
                    == self@.local_bookmarks[names_of(r@)[j]],
    {
        let all = list_entries(&self.data.local_bookmarks);
        let ghost m = self@.local_bookmarks;
        let ghost keys = Set::new(
            |k: Seq<u8>| m.contains_key(k) && m[k].adds.count(commit_id@) > 0,
        );
        let ghost all_names = names_of(all@);
        let mut out: Vec<(&RefName, &RefTarget)> = Vec::new();
        let ghost mut picked: Seq<int> = Seq::empty();
        let mut i: usize = 0;
        while i < all.len()
            invariant
                i <= all.len(),
                all_names == names_of(all@),
                m == self@.local_bookmarks,
                m.dom() == self.data.local_bookmarks@.dom(),
                enumerates(all_names, m.dom()),
                forall|j: int|
                    0 <= j < all.len() ==> (#[trigger] all[j]).1.wf() && all[j].1@ == m[all_names[j]],
                picked.len() == out.len(),
                forall|j: int| 0 <= j < picked.len() ==> 0 <= #[trigger] picked[j] < i,
                forall|a: int, b: int|
                    0 <= a < b < picked.len() ==> #[trigger] picked[a] < #[trigger] picked[b],
                forall|j: int| 0 <= j < picked.len() ==> #[trigger] out[j] == all[picked[j]],
                forall|j: int|
                    0 <= j < picked.len() ==> m[#[trigger] all_names[picked[j]]].adds.count(
                        commit_id@,
                    ) > 0,
                forall|p: int|
                    0 <= p < i && m[#[trigger] all_names[p]].adds.count(commit_id@) > 0
                        ==> exists|j: int| 0 <= j < picked.len() && #[trigger] picked[j] == p,
            decreases all.len() - i,
        {
            let (name, target) = all[i];
            if target_adds(target, commit_id) {
                let ghost before = picked;
                out.push((name, target));
                proof {
                    picked = picked.push(i as int);
                    assert forall|p: int|
                        0 <= p < i + 1 && m[#[trigger] all_names[p]].adds.count(commit_id@)
                            > 0 implies exists|j: int|
                        0 <= j < picked.len() && #[trigger] picked[j] == p by {
                        if p < i {
                            let j = choose|j: int| 0 <= j < before.len() && #[trigger] before[j] == p;
                            assert(picked[j] == p);
                        } else {
                            assert(picked[before.len() as int] == p);
                        }
                    }
                }
            }
            i += 1;
        }
        proof {
            let names = names_of(out@);
            assert forall|j: int| 0 <= j < out.len() implies #[trigger] names[j]
                == all_names[picked[j]] by {}
            assert forall|a: int, b: int| 0 <= a < b < names.len() implies lex_lt(
                #[trigger] names[a],
                #[trigger] names[b],
            ) by {}
            assert forall|j: int| 0 <= j < names.len() implies keys.contains(#[trigger] names[j]) by {}
            assert forall|k: Seq<u8>| keys.contains(k) implies exists|j: int|
                0 <= j < names.len() && #[trigger] names[j] == k by {
                let p = choose|p: int| 0 <= p < all_names.len() && #[trigger] all_names[p] == k;
                let j = choose|j: int| 0 <= j < picked.len() && #[trigger] picked[j] == p;
                assert(names[j] == k);
            }
            assert forall|j: int| 0 <= j < out.len() implies (#[trigger] out[j]).1.wf() && out[j].1@
                == m[names[j]] by {}
        }
        out
    }

    /// The local bookmarks whose names the pattern selects, in the order
    /// of their names.
    pub fn local_bookmarks_matching<'a, 'b>(&'a self, pattern: &'b StringPattern) -> (r: Vec<
        (&'a RefName, &'a RefTarget),
    >)
        requires
            self.wf(),
        ensures
            enumerates(
                names_of(r@),
                Set::new(
                    |k: Seq<u8>| self@.local_bookmarks.contains_key(k) && pattern.matches_key(k),
                ),
            ),
            forall|j: int|
                0 <= j < r.len() ==> (#[trigger] r[j]).1.wf() && r[j].1@
                    == self@.local_bookmarks[names_of(r@)[j]],
    {
        let r = pattern.filter_sorted_map(&self.data.local_bookmarks);
        proof {
            assert(Set::new(
                |k: Seq<u8>| self@.local_bookmarks.contains_key(k) && pattern.matches_key(k),
            ) =~= Set::new(
                |k: Seq<u8>| self.data.local_bookmarks@.contains_key(k) && pattern.matches_key(k),
            ));
        }
        r
    }

    /// The tags whose names the pattern selects, in the order of their
    /// names.
    pub fn tags_matching<'a, 'b>(&'a self, pattern: &'b StringPattern) -> (r: Vec<
        (&'a RefName, &'a RefTarget),
    >)
        requires
            self.wf(),
        ensures
            enumerates(
                names_of(r@),
                Set::new(|k: Seq<u8>| self@.tags.contains_key(k) && pattern.matches_key(k)),
            ),
            forall|j: int|
                0 <= j < r.len() ==> (#[trigger] r[j]).1.wf() && r[j].1@
                    == self@.tags[names_of(r@)[j]],
    {
        let r = pattern.filter_sorted_map(&self.data.tags);
        proof {
            assert(Set::new(|k: Seq<u8>| self@.tags.contains_key(k) && pattern.matches_key(k))
                =~= Set::new(|k: Seq<u8>| self.data.tags@.contains_key(k) && pattern.matches_key(k)));
        }
        r
    }

    /// The bookmarks of all remotes, in the order of their symbols: by
    /// name, then by remote.
    pub fn all_remote_bookmarks(&self) -> (r: Vec<(RemoteRefSymbol<'_>, &RemoteRef)>)
        requires
            self.wf(),
        ensures
            enumerates_symbols(
                symbol_keys(r@),
                Set::new(
                    |k: (Seq<u8>, Seq<u8>)|
                        self@.remote_views.contains_key(k.1) && self@.remote_views[k.1].contains_key(
                            k.0,
                        ),
                ),
            ),
            forall|j: int|
                0 <= j < r.len() ==> (#[trigger] r[j]).1.wf() && r[j].1@
                    == self@.remote_views[symbol_keys(
                    r@,
                )[j].1][symbol_keys(r@)[j].0],
    {
        let everything = StringPattern::everything();
        let r = merged_remote_bookmarks(&self.data.remote_views, &everything, &everything);
        proof {
            assert(selected(self@.remote_views, everything, everything)
                =~= Set::new(
                |k: (Seq<u8>, Seq<u8>)|
                    self@.remote_views.contains_key(k.1) && self@.remote_views[k.1].contains_key(
                        k.0,
                    ),
            ));
        }
        r
    }

    /// The bookmarks that `bookmark_pattern` selects on the remotes that
    /// `remote_pattern` selects, in the order of their symbols: by name,
    /// then by remote.
    pub fn remote_bookmarks_matching<'a, 'b>(
        &'a self,
        bookmark_pattern: &'b StringPattern,
        remote_pattern: &'b StringPattern,
    ) -> (r: Vec<(RemoteRefSymbol<'a>, &'a RemoteRef)>)
        requires
            self.wf(),
        ensures
            enumerates_symbols(
                symbol_keys(r@),
                selected(
                    self@.remote_views,
                    *bookmark_pattern,
                    *remote_pattern,
                ),
            ),
            forall|j: int|
                0 <= j < r.len() ==> (#[trigger] r[j]).1.wf() && r[j].1@
                    == self@.remote_views[symbol_keys(
                    r@,
                )[j].1][symbol_keys(r@)[j].0],
    {
        merged_remote_bookmarks(&self.data.remote_views, bookmark_pattern, remote_pattern)
    }

    /// The bookmarks of one remote, in the order of their names; none if
    /// the remote is unknown.
    pub fn remote_bookmarks(&self, remote_name: &RemoteName) -> (r: Vec<(&RefName, &RemoteRef)>)
        requires
            self.wf(),
        ensures
            enumerates(
                names_of(r@),
                remote_at(self@.remote_views, name_key(remote_name@)).dom(),
            ),
            forall|j: int|
                0 <= j < r.len() ==> (#[trigger] r[j]).1.wf() && r[j].1@ == remote_at(
                    self@.remote_views,
                    name_key(remote_name@),
                )[names_of(r@)[j]],
    {
        match self.data.remote_views.get(remote_name.as_bytes()) {
            Some(remote_view) => {
                let r = list_entries(&remote_view.bookmarks);
                r
            },
            None => {
                let r: Vec<(&RefName, &RemoteRef)> = Vec::new();
                r
            },
        }
    }

    /// The remote bookmark that a symbol names; absent if the remote or
    /// the bookmark is unknown.
    pub fn get_remote_bookmark(&self, symbol: RemoteRefSymbol<'_>) -> (r: &RemoteRef)
        requires
            self.wf(),
        ensures
            r.wf(),
            r@ == remote_ref_at(
                remote_at(self@.remote_views, name_key(symbol.remote@)),
                name_key(symbol.name@),
            ),
    {
        match self.data.remote_views.get(symbol.remote.as_bytes()) {
            Some(remote_view) => {
                match remote_view.bookmarks.get(symbol.name.as_bytes()) {
                    Some(remote_ref) => remote_ref,
                    None => RemoteRef::absent_ref(),
                }
            },
            None => RemoteRef::absent_ref(),
        }
    }

    /// Records a remote bookmark. An absent target deletes the bookmark
    /// from its remote; any other is stored, and the remote is made known
    /// if it was not.
    pub fn set_remote_bookmark(&mut self, symbol: RemoteRefSymbol<'_>, remote_ref: RemoteRef)
        requires
            old(self).wf(),
            remote_ref.wf(),
        ensures
            final(self).wf(),
            final(self)@ == (ViewModel {
                remote_views: if !remote_ref@.target.is_absent()
                    || old(self)@.remote_views.contains_key(
                    name_key(symbol.remote@),
                ) {
                    old(self)@.remote_views.insert(
                        name_key(symbol.remote@),
                        with_remote_ref(
                            remote_at(
                                old(self)@.remote_views,
                                name_key(symbol.remote@),
                            ),
                            name_key(symbol.name@),
                            remote_ref@,
                        ),
                    )
                } else {
                    old(self)@.remote_views
                },
                ..old(self)@
            }),
    {
        let ghost remote = name_key(symbol.remote@);
        let ghost name = name_key(symbol.name@);
        let ghost before = old(self)@.remote_views;
        let present = remote_ref.is_present();
        let found = self.data.remote_views.remove(symbol.remote.as_bytes());
        let mut remote_view = match found {
            Some(remote_view) => remote_view,
            None => {
                if !present {
                    proof {
                        assert(self@.remote_views =~= before);
                    }
                    return ;
                }
                RemoteView { bookmarks: SortedMap::new() }
            },
        };
        proof {
            assert(remote_refs_model(remote_view.bookmarks@) =~= remote_at(
                before,
                remote,
            ));
        }
        set_remote_ref(&mut remote_view.bookmarks, symbol.name, remote_ref);
        self.data.remote_views.insert(symbol.remote.to_owned(), remote_view);
        proof {
            assert(self@.remote_views =~= before.insert(
                remote,
                with_remote_ref(remote_at(before, remote), name, remote_ref@),
            ));
        }
    }

    /// Every bookmark that exists locally or on the remote, in the order of
    /// the names, each with its local target and its remote bookmark; the
    /// absent one stands in where a side has no such bookmark. Whether the
    /// local bookmark follows the remote one is left to the caller.
    pub fn local_remote_bookmarks(&self, remote_name: &RemoteName) -> (r: Vec<
        (&RefName, LocalAndRemoteRef<'_>),
    >)
        requires
            self.wf(),
        ensures
            enumerates(
                names_of(r@),
                self@.local_bookmarks.dom().union(
                    remote_at(self@.remote_views, name_key(remote_name@)).dom(),
                ),
            ),
            forall|j: int|
                0 <= j < r.len() ==> {
                    &&& (#[trigger] r[j]).1.local_target.wf()
                    &&& r[j].1.local_target@ == target_at(
                        self@.local_bookmarks,
                        names_of(r@)[j],
                    )
                    &&& r[j].1.remote_ref.wf()
                    &&& r[j].1.remote_ref@ == remote_ref_at(
                        remote_at(self@.remote_views, name_key(remote_name@)),
                        names_of(r@)[j],
                    )
                },
    {
        let ghost lm = self@.local_bookmarks;
        let ghost rm = remote_at(self@.remote_views, name_key(remote_name@));
        let locals = self.local_bookmarks();
        let remotes = self.remote_bookmarks(remote_name);
        let r = join_local_remote(locals, remotes, Ghost(lm), Ghost(rm), Ghost(Set::full()));
        proof {
            assert(lm.dom().union(rm.dom()) =~= Set::new(
                |k: Seq<u8>|
                    (lm.contains_key(k) || rm.contains_key(k)) && Set::<Seq<u8>>::full().contains(k),
            ));
        }
        r
    }

    /// Every bookmark whose name the pattern selects and that exists
    /// locally or on the remote, in the order of the names, each with its
    /// local target and its remote bookmark; the absent one stands in where
    /// a side has no such bookmark.
    pub fn local_remote_bookmarks_matching<'a, 'b>(
        &'a self,
        bookmark_pattern: &'b StringPattern,
        remote_name: &RemoteName,
    ) -> (r: Vec<(&'a RefName, LocalAndRemoteRef<'a>)>)
        requires
            self.wf(),
        ensures
            enumerates(
                names_of(r@),
                Set::new(
                    |k: Seq<u8>|
                        (self@.local_bookmarks.contains_key(k) || remote_at(
                            self@.remote_views,
                            name_key(remote_name@),
                        ).contains_key(k)) && bookmark_pattern.matches_key(k),
                ),
            ),
            forall|j: int|
                0 <= j < r.len() ==> {
                    &&& (#[trigger] r[j]).1.local_target.wf()
                    &&& r[j].1.local_target@ == target_at(
                        self@.local_bookmarks,
                        names_of(r@)[j],
                    )
                    &&& r[j].1.remote_ref.wf()
                    &&& r[j].1.remote_ref@ == remote_ref_at(
                        remote_at(self@.remote_views, name_key(remote_name@)),
                        names_of(r@)[j],
                    )
                },
    {
        let ghost lm = self@.local_bookmarks;
        let ghost rm = remote_at(self@.remote_views, name_key(remote_name@));
        let ghost keep = Set::new(|k: Seq<u8>| bookmark_pattern.matches_key(k));
        let locals = self.local_bookmarks_matching(bookmark_pattern);
        let remotes: Vec<(&'a RefName, &'a RemoteRef)> = match self.data.remote_views.get(
            remote_name.as_bytes(),
        ) {
            Some(remote_view) => bookmark_pattern.filter_sorted_map(&remote_view.bookmarks),
            None => Vec::new(),
        };
        proof {
            assert(Set::new(|k: Seq<u8>| lm.contains_key(k) && bookmark_pattern.matches_key(k))
                =~= Set::new(|k: Seq<u8>| lm.contains_key(k) && keep.contains(k)));
            let rkeys = Set::new(|k: Seq<u8>| rm.contains_key(k) && keep.contains(k));
            if self.data.remote_views@.contains_key(name_key(remote_name@)) {
                let remote_view = self.data.remote_views@[name_key(
                    remote_name@,
                )];
                assert(Set::new(
                    |k: Seq<u8>|
                        remote_view.bookmarks@.contains_key(k) && bookmark_pattern.matches_key(k),
                ) =~= rkeys);
            }
        }
        let r = join_local_remote(locals, remotes, Ghost(lm), Ghost(rm), Ghost(keep));
        proof {
            assert(Set::new(
                |k: Seq<u8>| (lm.contains_key(k) || rm.contains_key(k)) && keep.contains(k),
            ) =~= Set::new(
                |k: Seq<u8>|
                    (lm.contains_key(k) || rm.contains_key(k)) && bookmark_pattern.matches_key(k),
            ));
        }
        r
    }

    /// Forgets a remote and all its bookmarks.
    pub fn remove_remote(&mut self, remote_name: &RemoteName)
        requires
            old(self).wf(),
        ensures
            final(self).wf(),
            final(self)@ == (ViewModel {
                remote_views: old(self)@.remote_views.remove(
                    name_key(remote_name@),
                ),
                ..old(self)@
            }),
    {
        self.data.remote_views.remove(remote_name.as_bytes());
        proof {
            assert(self@.remote_views =~= old(self)@.remote_views.remove(
                name_key(remote_name@),
            ));
        }
    }

    /// Gives the bookmarks of the remote `old_name` to the name `new_name`,
    /// in place of any that name had. Nothing changes if `old_name` is
    /// unknown.
    pub fn rename_remote(&mut self, old_name: &RemoteName, new_name: &RemoteName)
        requires
            old(self).wf(),
        ensures
            final(self).wf(),
            final(self)@ == (ViewModel {
                remote_views: if old(self)@.remote_views.contains_key(
                    name_key(old_name@),
                ) {
                    old(self)@.remote_views.remove(name_key(old_name@)).insert(
                        name_key(new_name@),
                        old(self)@.remote_views[name_key(old_name@)],
                    )
                } else {
                    old(self)@.remote_views
                },
                ..old(self)@
            }),
    {
        let ghost before = old(self)@.remote_views;
        let ghost old_key = name_key(old_name@);
        let ghost new_key = name_key(new_name@);
        match self.data.remote_views.remove(old_name.as_bytes()) {
            Some(remote_view) => {
                self.data.remote_views.insert(new_name.to_owned(), remote_view);
                proof {
                    assert(self@.remote_views =~= before.remove(old_key).insert(
                        new_key,
                        before[old_key],
                    ));
                }
            },
            None => {
                proof {
                    assert(self@.remote_views =~= before);
                }
            },
        }
    }

    /// The target of a tag; absent if there is no such tag.
    pub fn get_tag(&self, name: &RefName) -> (r: &RefTarget)
        requires
            self.wf(),
        ensures
            r.wf(),
            r@ == target_at(self@.tags, name_key(name@)),
    {
        get_target(&self.data.tags, name)
    }

    /// Points a tag at `target`. An absent target deletes the tag.
    pub fn set_tag_target(&mut self, name: &RefName, target: RefTarget)
        requires
            old(self).wf(),
            target.wf(),
        ensures
            final(self).wf(),
            final(self)@ == (ViewModel {
                tags: with_target(old(self)@.tags, name_key(name@), target@),
                ..old(self)@
            }),
    {
        set_target(&mut self.data.tags, name, target);
    }

    /// The target of a Git ref as last imported; absent if there is none.
    pub fn get_git_ref(&self, name: &str) -> (r: &RefTarget)
        requires
            self.wf(),
        ensures
            r.wf(),
            r@ == target_at(self@.git_refs, name_key(name@)),
    {
        get_target(&self.data.git_refs, name)
    }

    /// Records where a Git ref was last seen. An absent target deletes the
    /// record.
    pub fn set_git_ref_target(&mut self, name: &str, target: RefTarget)
        requires
            old(self).wf(),
            target.wf(),
        ensures
            final(self).wf(),
            final(self)@ == (ViewModel {
                git_refs: with_target(
                    old(self)@.git_refs,
                    name_key(name@),
                    target@,
                ),
                ..old(self)@
            }),
    {
        set_target(&mut self.data.git_refs, name, target);
    }

    /// Records where Git's HEAD was last seen; an absent target clears it.
    pub fn set_git_head_target(&mut self, target: RefTarget)
        requires
            old(self).wf(),
            target.wf(),
        ensures
            final(self).wf(),
            final(self)@ == (ViewModel { git_head: target@, ..old(self)@ }),
    {
        self.data.git_head = target;
    }

    /// Every commit that the view refers to, in no particular order and
    /// possibly more than once: the heads, every commit that a bookmark,
    /// tag, remote bookmark, Git ref or Git's HEAD adds or removes, and the
    /// commits of the workspaces. The removed side of a conflict counts, so
    /// that the history of what a conflict replaced stays reachable.
    pub fn all_referenced_commit_ids(&self) -> (r: Vec<CommitId>)
        requires
            self.wf(),
        ensures
            ids_in(r@) == self@.referenced_ids(),
    {
        let data = &self.data;
        let mut out: Vec<CommitId> = data.head_ids.to_vec();
        push_targets_ids(&mut out, &data.local_bookmarks);
        push_targets_ids(&mut out, &data.tags);
        push_remote_views_ids(&mut out, &data.remote_views);
        push_targets_ids(&mut out, &data.git_refs);
        push_target_ids(&mut out, &data.git_head);
        push_wc_commit_ids(&mut out, &data.wc_commit_ids);
        out
    }

    /// Replaces the data that the view holds.
    pub fn set_view(&mut self, data: crate::op_store::View)
        ensures
            final(self).data() == data,
    {
        self.data = data;
    }

    /// The data that the view holds.
    pub fn store_view(&self) -> (r: &crate::op_store::View)
        ensures
            *r == self.data(),
    {
        &self.data
    }

    /// The data that the view holds, to be changed in place.
    pub fn store_view_mut(&mut self) -> (r: &mut crate::op_store::View)
        ensures
            *r == old(self).data(),
            final(self).data() == *final(r),
    {
        &mut self.data
    }
}

} // verus!
