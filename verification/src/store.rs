//! The object store that commits are read from.

use std::sync::Arc;
use vstd::prelude::*;
use crate::backend::BackendError;
use crate::backend::BackendResult;
use crate::backend::CommitId;
use crate::backend::MergedTreeId;
use crate::backend::MergedTreeIdModel;
use crate::backend::TreeId;
use crate::backend::tree_ids;
use crate::commit::Commit;
use crate::sorted_map::SortedMap;

verus! {

/// `i` is the first place of `ids` whose id is not in `known`, or the
/// length of `ids` if every id is known.
pub open spec fn first_missing(ids: Seq<Seq<u8>>, known: Set<Seq<u8>>, i: int) -> bool {
    &&& 0 <= i <= ids.len()
    &&& forall|j: int| 0 <= j < i ==> known.contains(#[trigger] ids[j])
    &&& i < ids.len() ==> !known.contains(ids[i])
}

/// The ids of a list of commits.
pub open spec fn commit_ids(ids: Seq<CommitId>) -> Seq<Seq<u8>> {
    Seq::new(ids.len(), |i: int| ids[i]@)
}

/// Another handle to the value that `handle` shares.
///
/// Calls [`Arc::clone`], which makes a second pointer to the same
/// allocation; the value itself is not copied. The contract is assumed,
/// not proved.
#[verifier::external_body]
pub(crate) fn share<T>(handle: &Arc<T>) -> (r: Arc<T>)
    ensures
        r == *handle,
{
    Arc::clone(handle)
}

/// A root tree as read from the store.
#[derive(Debug, PartialEq, Eq)]
pub struct MergedTree {
    id: MergedTreeId,
    has_conflict: bool,
}

impl MergedTree {
    /// The reference under which the tree is stored.
    pub closed spec fn spec_id(&self) -> MergedTreeIdModel {
        self.id@
    }

    /// The tree holds unresolved conflicts.
    pub closed spec fn spec_has_conflict(&self) -> bool {
        self.has_conflict
    }

    /// The tree under the reference `id`; `has_conflict` says whether its
    /// content holds unresolved conflicts.
    pub fn new(id: MergedTreeId, has_conflict: bool) -> (r: Self)
        ensures
            r.spec_id() == id@,
            r.spec_has_conflict() == has_conflict,
    {
        MergedTree { id, has_conflict }
    }

    /// The reference under which the tree is stored.
    pub fn id(&self) -> (r: MergedTreeId)
        ensures
            r@ == self.spec_id(),
    {
        self.id.clone()
    }

    /// Whether the tree holds unresolved conflicts.
    pub fn has_conflict(&self) -> (r: bool)
        ensures
            r == self.spec_has_conflict(),
    {
        self.has_conflict
    }
}

impl Clone for MergedTree {
    fn clone(&self) -> (r: Self)
        ensures
            r.spec_id() == self.spec_id(),
            r.spec_has_conflict() == self.spec_has_conflict(),
    {
        MergedTree { id: self.id.clone(), has_conflict: self.has_conflict }
    }
}

/// What looking a root tree up in a store gives: the tree's reference and
/// whether its content holds conflicts, or the id of the first tree that
/// the store does not hold. The root of an unresolved merge counts as
/// holding conflicts.
pub open spec fn root_tree_of(trees: Map<Seq<u8>, bool>, id: MergedTreeIdModel) -> Result<
    (MergedTreeIdModel, bool),
    Seq<u8>,
> {
    match id {
        MergedTreeIdModel::Resolved(t) => if trees.contains_key(t) {
            Ok((id, trees[t]))
        } else {
            Err(t)
        },
        MergedTreeIdModel::Conflicted(ts) => {
            let i = choose|i: int| first_missing(ts, trees.dom(), i);
            if 0 <= i < ts.len() {
                Err(ts[i])
            } else {
                Ok((id, true))
            }
        },
    }
}

/// There is exactly one first missing place.
pub proof fn lemma_first_missing_unique(ids: Seq<Seq<u8>>, known: Set<Seq<u8>>, i: int, j: int)
    requires
        first_missing(ids, known, i),
        first_missing(ids, known, j),
    ensures
        i == j,
{
    if i < j {
        assert(known.contains(ids[i]));
    } else if j < i {
        assert(known.contains(ids[j]));
    }
}

/// An object store held in memory: the commit records and the trees, each
/// under its id.
#[derive(Debug, PartialEq, Eq)]
pub struct Store {
    commits: SortedMap<CommitId, Arc<crate::backend::Commit>>,
    trees: SortedMap<TreeId, bool>,
}

impl Store {
    /// The tables are in key order.
    pub closed spec fn wf(&self) -> bool {
        self.commits.wf() && self.trees.wf()
    }

    /// The commit records by id.
    pub closed spec fn commits(&self) -> Map<Seq<u8>, crate::backend::Commit> {
        self.commits@.map_values(|data: Arc<crate::backend::Commit>| *data)
    }

    /// For the id of each stored tree, whether its content holds
    /// unresolved conflicts.
    pub closed spec fn trees(&self) -> Map<Seq<u8>, bool> {
        self.trees@
    }

    /// A store that holds nothing.
    pub fn new() -> (r: Self)
        ensures
            r.wf(),
            r.commits() == Map::<Seq<u8>, crate::backend::Commit>::empty(),
            r.trees() == Map::<Seq<u8>, bool>::empty(),
    {
        let r = Store { commits: SortedMap::new(), trees: SortedMap::new() };
        r
    }

    /// Stores a commit record under its id, in place of any that was
    /// there.
    pub fn write_commit(&mut self, id: CommitId, data: crate::backend::Commit)
        requires
            old(self).wf(),
        ensures
            final(self).wf(),
            final(self).commits() == old(self).commits().insert(id@, data),
            final(self).trees() == old(self).trees(),
    {
        self.commits.insert(id, Arc::new(data));
    }

    /// Stores a tree under its id; `has_conflict` says whether its content
    /// holds unresolved conflicts.
    pub fn write_tree(&mut self, id: TreeId, has_conflict: bool)
        requires
            old(self).wf(),
        ensures
            final(self).wf(),
            final(self).trees() == old(self).trees().insert(id@, has_conflict),
            final(self).commits() == old(self).commits(),
    {
        self.trees.insert(id, has_conflict);
    }

    /// Reads the commit with the id `id`.
    pub fn get_commit(store: &Arc<Store>, id: &CommitId) -> (r: BackendResult<Commit>)
        requires
            store.wf(),
        ensures
            match r {
                Ok(commit) => {
                    &&& store.commits().contains_key(id@)
                    &&& commit.spec_id() == id@
                    &&& commit.spec_data() == store.commits()[id@]
                    &&& commit.spec_store() == **store
                },
                Err(BackendError::CommitNotFound(missing)) => {
                    &&& !store.commits().contains_key(id@)
                    &&& missing@ == id@
                },
                Err(_) => false,
            },
    {
        match store.commits.get(id.as_bytes()) {
            Some(data) => Ok(Commit::new(share(store), id.clone(), share(data))),
            None => Err(BackendError::CommitNotFound(id.clone())),
        }
    }

    /// Reads the root tree that `id` refers to. Every tree that `id`
    /// names must be in the store; the first that is not is reported.
    pub fn get_root_tree(&self, id: &MergedTreeId) -> (r: BackendResult<MergedTree>)
        requires
            self.wf(),
        ensures
            match r {
                Ok(tree) => root_tree_of(self.trees(), id@) == Ok::<
                    (MergedTreeIdModel, bool),
                    Seq<u8>,
                >((tree.spec_id(), tree.spec_has_conflict())),
                Err(BackendError::TreeNotFound(missing)) => root_tree_of(self.trees(), id@) == Err::<
                    (MergedTreeIdModel, bool),
                    Seq<u8>,
                >(missing@),
                Err(_) => false,
            },
    {
        match id {
            MergedTreeId::Resolved(tree_id) => {
                match self.trees.get(tree_id.as_bytes()) {
                    Some(has_conflict) => Ok(MergedTree::new(id.clone(), *has_conflict)),
                    None => Err(BackendError::TreeNotFound(tree_id.clone())),
                }
            },
            MergedTreeId::Conflicted(sides) => {
                let ghost ts = tree_ids(sides@);
                let ghost known = self.trees().dom();
                let mut i: usize = 0;
                while i < sides.len()
                    invariant
                        self.wf(),
                        i <= sides.len(),
                        ts == tree_ids(sides@),
                        id@ == MergedTreeIdModel::Conflicted(ts),
                        known == self.trees().dom(),
                        forall|j: int| 0 <= j < i ==> known.contains(#[trigger] ts[j]),
                    decreases sides.len() - i,
                {
                    if !self.trees.contains_key(sides[i].as_bytes()) {
                        proof {
                            let c = choose|c: int| first_missing(ts, known, c);
                            lemma_first_missing_unique(ts, known, i as int, c);
                        }
                        return Err(BackendError::TreeNotFound(sides[i].clone()));
                    }
                    i += 1;
                }
                proof {
                    assert(first_missing(ts, known, i as int));
                    let c = choose|c: int| first_missing(ts, known, c);
                    lemma_first_missing_unique(ts, known, i as int, c);
                }
                Ok(MergedTree::new(id.clone(), true))
            },
        }
    }
}

} // verus!
