//! A commit as read from a store.

use std::sync::Arc;
use vstd::prelude::*;
use vstd::std_specs::cmp::PartialEqSpecImpl;
use itertools::Itertools;
use crate::backend::BackendError;
use crate::backend::BackendResult;
use crate::backend::ChangeId;
use crate::backend::CommitId;
use crate::backend::MergedTreeId;
use crate::backend::MergedTreeIdModel;
use crate::backend::Signature;
use crate::byte_order::Order;
use crate::byte_order::compare_bytes;
use crate::byte_order::order_of;
use crate::repo::Repo;
use crate::signing::SignError;
use crate::signing::SignResult;
use crate::signing::SigningBackend;
use crate::signing::Verification;
use crate::signing::verification_from;
use crate::signing::verification_of;
use crate::store::MergedTree;
use crate::store::Store;
use crate::store::commit_ids;
use crate::store::first_missing;
use crate::store::lemma_first_missing_unique;
use crate::store::root_tree_of;
use crate::store::share;

verus! {

/// `r` is what reading the commit `id` from `store` gives: the commit, or
/// the report that the store has none with that id.
pub open spec fn is_lookup(store: Store, id: Seq<u8>, r: BackendResult<Commit>) -> bool {
    match r {
        Ok(commit) => {
            &&& store.commits().contains_key(id)
            &&& commit.spec_id() == id
            &&& commit.spec_data() == store.commits()[id]
            &&& commit.spec_store() == store
        },
        Err(BackendError::CommitNotFound(missing)) => {
            &&& !store.commits().contains_key(id)
            &&& missing@ == id
        },
        Err(_) => false,
    }
}

/// `r` is what gathering `results` gives: all the values if every result
/// is one, else the first error.
pub open spec fn collected<T, E>(results: Seq<Result<T, E>>, r: Result<Vec<T>, E>) -> bool {
    match r {
        Ok(values) => {
            &&& values@.len() == results.len()
            &&& forall|i: int| 0 <= i < results.len() ==> #[trigger] results[i] == Ok::<T, E>(values@[i])
        },
        Err(error) => exists|i: int|
            {
                &&& 0 <= i < results.len()
                &&& #[trigger] results[i] == Err::<T, E>(error)
                &&& forall|j: int| 0 <= j < i ==> (#[trigger] results[j]) is Ok
            },
    }
}

/// Gathers the values of a list of results, or hands back its first error.
///
/// Calls [`itertools::Itertools::try_collect`], which collects into a
/// `Result`: it stops at the first error and returns it, and returns the
/// values in order if there is none. The contract is assumed, not proved.
#[verifier::external_body]
fn try_collect_vec<T, E>(results: Vec<Result<T, E>>) -> (r: Result<Vec<T>, E>)
    ensures
        collected(results@, r),
{
    results.into_iter().try_collect()
}

/// `j` is the first place of `refs` whose root tree cannot be read, or the
/// length of `refs` if all can.
pub open spec fn first_unreadable(
    trees: Map<Seq<u8>, bool>,
    refs: Seq<MergedTreeIdModel>,
    j: int,
) -> bool {
    &&& 0 <= j <= refs.len()
    &&& forall|k: int| 0 <= k < j ==> (#[trigger] root_tree_of(trees, refs[k])) is Ok
    &&& j < refs.len() ==> root_tree_of(trees, refs[j]) is Err
}

/// `read` holds, place by place, the root trees that `refs` refer to.
pub open spec fn are_trees_of(
    trees: Map<Seq<u8>, bool>,
    refs: Seq<MergedTreeIdModel>,
    read: Seq<MergedTree>,
) -> bool {
    &&& read.len() == refs.len()
    &&& forall|k: int|
        0 <= k < refs.len() ==> #[trigger] root_tree_of(trees, refs[k]) == Ok::<
            (MergedTreeIdModel, bool),
            Seq<u8>,
        >((read[k].spec_id(), read[k].spec_has_conflict()))
}

/// Whether a commit with the root tree `tree` changes nothing, given what
/// became of reading or merging the trees of its parents.
pub open spec fn emptiness_of(tree: MergedTreeIdModel, parent_tree: BackendResult<MergedTree>)
    -> BackendResult<bool> {
    match parent_tree {
        Ok(parent_tree) => Ok(tree == parent_tree.spec_id()),
        Err(error) => Err(error),
    }
}

/// A commit: its id, its record, and the store it was read from. Two
/// commits are the same commit when their ids are equal.
#[derive(Debug, Eq)]
pub struct Commit {
    store: Arc<Store>,
    id: CommitId,
    data: Arc<crate::backend::Commit>,
}

impl Commit {
    /// The store that the commit was read from.
    pub closed spec fn spec_store(&self) -> Store {
        *self.store
    }

    /// The bytes of the commit's id.
    pub closed spec fn spec_id(&self) -> Seq<u8> {
        self.id@
    }

    /// The commit's record.
    pub closed spec fn spec_data(&self) -> crate::backend::Commit {
        *self.data
    }

    /// The store that the commit was read from is well formed.
    pub open spec fn wf(&self) -> bool {
        self.spec_store().wf()
    }

    /// The commit with the id `id` and the record `data`, as read from `store`.
    pub fn new(store: Arc<Store>, id: CommitId, data: Arc<crate::backend::Commit>) -> (r: Self)
        ensures
            r.spec_store() == *store,
            r.spec_id() == id@,
            r.spec_data() == *data,
    {
        Commit { store, id, data }
    }

    /// The store that the commit was read from.
    pub fn store(&self) -> (r: &Arc<Store>)
        ensures
            **r == self.spec_store(),
    {
        &self.store
    }

    /// The commit's id.
    pub fn id(&self) -> (r: &CommitId)
        ensures
            r@ == self.spec_id(),
    {
        &self.id
    }

    /// The ids of the parents, in order.
    pub fn parent_ids(&self) -> (r: &[CommitId])
        ensures
            r@ == self.spec_data().parents@,
    {
        self.data.parents.as_slice()
    }

    /// The ids of the commits that this one replaced, in order.
    pub fn predecessor_ids(&self) -> (r: &[CommitId])
        ensures
            r@ == self.spec_data().predecessors@,
    {
        self.data.predecessors.as_slice()
    }

    /// The reference to the commit's root tree.
    pub fn tree_id(&self) -> (r: &MergedTreeId)
        ensures
            *r == self.spec_data().root_tree,
    {
        &self.data.root_tree
    }

    /// The change that the commit belongs to.
    pub fn change_id(&self) -> (r: &ChangeId)
        ensures
            *r == self.spec_data().change_id,
    {
        &self.data.change_id
    }

    /// The commit's record as the store holds it.
    pub fn store_commit(&self) -> (r: &crate::backend::Commit)
        ensures
            *r == self.spec_data(),
    {
        &self.data
    }

    /// The commit's description.
    pub fn description(&self) -> (r: &str)
        ensures
            r@ == self.spec_data().description@,
    {
        self.data.description.as_str()
    }

    /// Who wrote the commit.
    pub fn author(&self) -> (r: &Signature)
        ensures
            *r == self.spec_data().author,
    {
        &self.data.author
    }

    /// Who committed the commit.
    pub fn committer(&self) -> (r: &Signature)
        ensures
            *r == self.spec_data().committer,
    {
        &self.data.committer
    }

    /// Whether the commit carries a signature. Says nothing of whether the
    /// signature is good.
    pub fn is_signed(&self) -> (r: bool)
        ensures
            r == self.spec_data().secure_sig.is_some(),
    {
        self.data.secure_sig.is_some()
    }

    /// The parents' ids as byte strings.
    pub open spec fn spec_parent_ids(&self) -> Seq<Seq<u8>> {
        commit_ids(self.spec_data().parents@)
    }

    /// `i` is the first parent that the store does not hold, or the number
    /// of parents if it holds them all.
    pub open spec fn missing_parent(&self, i: int) -> bool {
        first_missing(self.spec_parent_ids(), self.spec_store().commits().dom(), i)
    }

    /// The root tree references of the parents, where the store holds them
    /// all.
    pub open spec fn parent_tree_ids(&self) -> Seq<MergedTreeIdModel> {
        Seq::new(
            self.spec_parent_ids().len(),
            |i: int| self.spec_store().commits()[self.spec_parent_ids()[i]].root_tree@,
        )
    }

    /// Reads each of `ids` from the commit's store, in order.
    fn lookup_all(&self, ids: &Vec<CommitId>) -> (r: Vec<BackendResult<Commit>>)
        requires
            self.wf(),
        ensures
            r.len() == ids.len(),
            forall|i: int|
                0 <= i < r.len() ==> is_lookup(self.spec_store(), ids[i]@, #[trigger] r[i]),
    {
        let mut out: Vec<BackendResult<Commit>> = Vec::new();
        let mut i: usize = 0;
        while i < ids.len()
            invariant
                self.wf(),
                i <= ids.len(),
                out.len() == i,
                forall|j: int|
                    0 <= j < i ==> is_lookup(self.spec_store(), ids[j]@, #[trigger] out[j]),
            decreases ids.len() - i,
        {
            out.push(Store::get_commit(&self.store, &ids[i]));
            i += 1;
        }
        out
    }

    /// The parents, each read from the store: a list as long as the list
    /// of parent ids, with the error in the place of a parent that the
    /// store does not hold.
    pub fn parents(&self) -> (r: Vec<BackendResult<Commit>>)
        requires
            self.wf(),
        ensures
            r.len() == self.spec_data().parents.len(),
            forall|i: int|
                0 <= i < r.len() ==> is_lookup(
                    self.spec_store(),
                    self.spec_data().parents[i]@,
                    #[trigger] r[i],
                ),
    {
        self.lookup_all(&self.data.parents)
    }

    /// The commits that this one replaced, each read from the store: a
    /// list as long as the list of their ids, with the error in the place
    /// of one that the store does not hold.
    pub fn predecessors(&self) -> (r: Vec<BackendResult<Commit>>)
        requires
            self.wf(),
        ensures
            r.len() == self.spec_data().predecessors.len(),
            forall|i: int|
                0 <= i < r.len() ==> is_lookup(
                    self.spec_store(),
                    self.spec_data().predecessors[i]@,
                    #[trigger] r[i],
                ),
    {
        self.lookup_all(&self.data.predecessors)
    }

    /// All the parents, or the error for the first that the store does not
    /// hold.
    pub fn parent_commits(&self) -> (r: BackendResult<Vec<Commit>>)
        requires
            self.wf(),
        ensures
            match r {
                Ok(commits) => {
                    &&& self.missing_parent(self.spec_parent_ids().len() as int)
                    &&& commits.len() == self.spec_parent_ids().len()
                    &&& forall|i: int|
                        0 <= i < commits.len() ==> (#[trigger] commits[i]).spec_id()
                            == self.spec_parent_ids()[i] && commits[i].spec_data()
                            == self.spec_store().commits()[self.spec_parent_ids()[i]]
                            && commits[i].spec_store() == self.spec_store()
                },
                Err(BackendError::CommitNotFound(missing)) => exists|i: int|
                    #[trigger] self.missing_parent(i) && i < self.spec_parent_ids().len() && missing@
                        == self.spec_parent_ids()[i],
                Err(_) => false,
            },
    {
        let results = self.parents();
        let ghost ids = self.spec_parent_ids();
        let ghost known = self.spec_store().commits().dom();
        let collected = try_collect_vec(results);
        let ghost outcome = collected;
        proof {
            match outcome {
                Ok(commits) => {
                    assert forall|j: int| 0 <= j < ids.len() implies known.contains(
                        #[trigger] ids[j],
                    ) by {
                        assert(results[j] == Ok::<Commit, BackendError>(commits[j]));
                    }
                    assert forall|i: int| 0 <= i < commits.len() implies (#[trigger] commits[i]).spec_id()
                        == ids[i] && commits[i].spec_data() == self.spec_store().commits()[ids[i]]
                        && commits[i].spec_store() == self.spec_store() by {
                        assert(results[i] == Ok::<Commit, BackendError>(commits[i]));
                    }
                },
                Err(error) => {
                    let i = choose|i: int|
                        {
                            &&& 0 <= i < results.len()
                            &&& #[trigger] results[i] == Err::<Commit, BackendError>(error)
                            &&& forall|j: int| 0 <= j < i ==> (#[trigger] results[j]) is Ok
                        };
                    assert forall|j: int| 0 <= j < i implies known.contains(#[trigger] ids[j]) by {
                        assert(results[j] is Ok);
                    }
                    assert(self.missing_parent(i));
                },
            }
        }
        collected
    }

    /// The commit's root tree, read from the store.
    pub fn tree(&self) -> (r: BackendResult<MergedTree>)
        requires
            self.wf(),
        ensures
            match r {
                Ok(tree) => root_tree_of(
                    self.spec_store().trees(),
                    self.spec_data().root_tree@,
                ) == Ok::<(MergedTreeIdModel, bool), Seq<u8>>(
                    (tree.spec_id(), tree.spec_has_conflict()),
                ),
                Err(BackendError::TreeNotFound(missing)) => root_tree_of(
                    self.spec_store().trees(),
                    self.spec_data().root_tree@,
                ) == Err::<(MergedTreeIdModel, bool), Seq<u8>>(missing@),
                Err(_) => false,
            },
    {
        self.store.get_root_tree(&self.data.root_tree)
    }

    /// The root trees of `commits`, read from the store, or the error for
    /// the first that cannot be read.
    fn trees_of(commits: &Vec<Commit>) -> (r: BackendResult<Vec<MergedTree>>)
        requires
            forall|i: int| 0 <= i < commits.len() ==> (#[trigger] commits[i]).wf(),
        ensures
            match r {
                Ok(trees) => {
                    &&& trees.len() == commits.len()
                    &&& forall|k: int|
                        0 <= k < commits.len() ==> root_tree_of(
                            (#[trigger] commits[k]).spec_store().trees(),
                            commits[k].spec_data().root_tree@,
                        ) == Ok::<(MergedTreeIdModel, bool), Seq<u8>>(
                            (trees[k].spec_id(), trees[k].spec_has_conflict()),
                        )
                },
                Err(BackendError::TreeNotFound(missing)) => exists|j: int|
                    {
                        &&& 0 <= j < commits.len()
                        &&& root_tree_of(
                            (#[trigger] commits[j]).spec_store().trees(),
                            commits[j].spec_data().root_tree@,
                        ) == Err::<(MergedTreeIdModel, bool), Seq<u8>>(missing@)
                        &&& forall|k: int|
                            0 <= k < j ==> root_tree_of(
                                (#[trigger] commits[k]).spec_store().trees(),
                                commits[k].spec_data().root_tree@,
                            ) is Ok
                    },
                Err(_) => false,
            },
    {
        let mut trees: Vec<MergedTree> = Vec::new();
        let mut i: usize = 0;
        while i < commits.len()
            invariant
                i <= commits.len(),
                trees.len() == i,
                forall|k: int| 0 <= k < commits.len() ==> (#[trigger] commits[k]).wf(),
                forall|k: int|
                    0 <= k < i ==> root_tree_of(
                        (#[trigger] commits[k]).spec_store().trees(),
                        commits[k].spec_data().root_tree@,
                    ) == Ok::<(MergedTreeIdModel, bool), Seq<u8>>(
                        (trees[k].spec_id(), trees[k].spec_has_conflict()),
                    ),
            decreases commits.len() - i,
        {
            match commits[i].tree() {
                Ok(tree) => {
                    trees.push(tree);
                },
                Err(error) => {
                    return Err(error);
                },
            }
            i += 1;
        }
        Ok(trees)
    }

    /// The tree that the commit's own tree is held against: the one
    /// parent's tree as it is, or else what `repo` makes of merging the
    /// trees of all the parents. A parent or a tree that the store does not
    /// hold is an error, and so is a failure of the merge.
    pub fn parent_tree<R: Repo + ?Sized>(&self, repo: &R) -> (r: BackendResult<MergedTree>)
        requires
            self.wf(),
        ensures
            (exists|i: int| #[trigger] self.missing_parent(i) && i < self.spec_parent_ids().len())
                ==> (r matches Err(BackendError::CommitNotFound(missing)) && exists|i: int|
                #[trigger] self.missing_parent(i) && i < self.spec_parent_ids().len() && missing@
                    == self.spec_parent_ids()[i]),
            self.missing_parent(self.spec_parent_ids().len() as int) ==> {
                let trees = self.spec_store().trees();
                let refs = self.parent_tree_ids();
                if exists|j: int| #[trigger] first_unreadable(trees, refs, j) && j < refs.len() {
                    r matches Err(BackendError::TreeNotFound(missing)) && exists|j: int|
                        #[trigger] first_unreadable(trees, refs, j) && j < refs.len()
                            && root_tree_of(trees, refs[j]) == Err::<
                            (MergedTreeIdModel, bool),
                            Seq<u8>,
                        >(missing@)
                } else if refs.len() == 1 {
                    r matches Ok(tree) && are_trees_of(trees, refs, seq![tree])
                } else {
                    exists|read: Vec<MergedTree>|
                        are_trees_of(trees, refs, read@) && call_ensures(
                            R::merge_trees,
                            (repo, &read),
                            r,
                        )
                }
            },
    {
        let ghost trees = self.spec_store().trees();
        let ghost refs = self.parent_tree_ids();
        let ghost n = self.spec_parent_ids().len() as int;
        let parents = match self.parent_commits() {
            Ok(parents) => parents,
            Err(error) => {
                proof {
                    if self.missing_parent(n) {
                        let i = choose|i: int|
                            #[trigger] self.missing_parent(i) && i < self.spec_parent_ids().len();
                        lemma_first_missing_unique(
                            self.spec_parent_ids(),
                            self.spec_store().commits().dom(),
                            i,
                            n,
                        );
                    }
                }
                return Err(error);
            },
        };
        proof {
            if exists|i: int| #[trigger] self.missing_parent(i) && i < self.spec_parent_ids().len() {
                let i = choose|i: int|
                    #[trigger] self.missing_parent(i) && i < self.spec_parent_ids().len();
                lemma_first_missing_unique(
                    self.spec_parent_ids(),
                    self.spec_store().commits().dom(),
                    i,
                    n,
                );
            }
            assert forall|k: int| 0 <= k < parents.len() implies (#[trigger] parents[k]).wf()
                && parents[k].spec_store().trees() == trees && parents[k].spec_data().root_tree@
                == refs[k] by {}
        }
        let read = match Commit::trees_of(&parents) {
            Ok(read) => read,
            Err(error) => {
                proof {
                    let j = choose|j: int|
                        {
                            &&& 0 <= j < parents.len()
                            &&& root_tree_of(
                                (#[trigger] parents[j]).spec_store().trees(),
                                parents[j].spec_data().root_tree@,
                            ) is Err
                            &&& forall|k: int|
                                0 <= k < j ==> root_tree_of(
                                    (#[trigger] parents[k]).spec_store().trees(),
                                    parents[k].spec_data().root_tree@,
                                ) is Ok
                        };
                    assert forall|k: int| 0 <= k < j implies (#[trigger] root_tree_of(
                        trees,
                        refs[k],
                    )) is Ok by {
                        assert(parents[k].spec_data().root_tree@ == refs[k]);
                    }
                    lemma_first_unreadable_unique_all(trees, refs, j);
                }
                return Err(error);
            },
        };
        proof {
            assert(are_trees_of(trees, refs, read@)) by {
                assert forall|k: int| 0 <= k < refs.len() implies #[trigger] root_tree_of(
                    trees,
                    refs[k],
                ) == Ok::<(MergedTreeIdModel, bool), Seq<u8>>(
                    (read[k].spec_id(), read[k].spec_has_conflict()),
                ) by {
                    assert(parents[k].spec_data().root_tree@ == refs[k]);
                }
            }
            lemma_first_unreadable_unique_all(trees, refs, refs.len() as int);
        }
        if read.len() == 1 {
            let tree = read[0].clone();
            Ok(tree)
        } else {
            repo.merge_trees(&read)
        }
    }

    /// Whether the commit changes nothing: whether its tree is the tree of
    /// its one parent, or else the tree that `repo` makes of merging the
    /// trees of all its parents. The description does not count. A parent
    /// or a tree that the store does not hold is an error, and so is a
    /// failure of the merge.
    pub fn is_empty<R: Repo + ?Sized>(&self, repo: &R) -> (r: BackendResult<bool>)
        requires
            self.wf(),
        ensures
            (exists|i: int| #[trigger] self.missing_parent(i) && i < self.spec_parent_ids().len())
                ==> (r matches Err(BackendError::CommitNotFound(missing)) && exists|i: int|
                #[trigger] self.missing_parent(i) && i < self.spec_parent_ids().len() && missing@
                    == self.spec_parent_ids()[i]),
            self.missing_parent(self.spec_parent_ids().len() as int) ==> {
                let trees = self.spec_store().trees();
                let refs = self.parent_tree_ids();
                if refs.len() == 1 {
                    r == Ok::<bool, BackendError>(refs[0] == self.spec_data().root_tree@)
                } else if exists|j: int| #[trigger] first_unreadable(trees, refs, j) && j < refs.len() {
                    r matches Err(BackendError::TreeNotFound(missing)) && exists|j: int|
                        #[trigger] first_unreadable(trees, refs, j) && j < refs.len()
                            && root_tree_of(trees, refs[j]) == Err::<
                            (MergedTreeIdModel, bool),
                            Seq<u8>,
                        >(missing@)
                } else {
                    exists|read: Vec<MergedTree>, merged: BackendResult<MergedTree>|
                        are_trees_of(trees, refs, read@) && call_ensures(
                            R::merge_trees,
                            (repo, &read),
                            merged,
                        ) && r == emptiness_of(self.spec_data().root_tree@, merged)
                }
            },
    {
        let ghost n = self.spec_parent_ids().len() as int;
        let parents = match self.parent_commits() {
            Ok(parents) => parents,
            Err(error) => {
                proof {
                    if self.missing_parent(n) {
                        let i = choose|i: int|
                            #[trigger] self.missing_parent(i) && i < self.spec_parent_ids().len();
                        lemma_first_missing_unique(
                            self.spec_parent_ids(),
                            self.spec_store().commits().dom(),
                            i,
                            n,
                        );
                    }
                }
                return Err(error);
            },
        };
        proof {
            if exists|i: int| #[trigger] self.missing_parent(i) && i < self.spec_parent_ids().len() {
                let i = choose|i: int|
                    #[trigger] self.missing_parent(i) && i < self.spec_parent_ids().len();
                lemma_first_missing_unique(
                    self.spec_parent_ids(),
                    self.spec_store().commits().dom(),
                    i,
                    n,
                );
            }
        }
        if parents.len() == 1 {
            return Ok(*parents[0].tree_id() == *self.tree_id());
        }
        let merged = self.parent_tree(repo);
        self.is_empty_given_parent_tree(merged)
    }

    /// Whether the commit changes nothing, given what became of reading or
    /// merging the trees of its parents: an error stays the error, and a
    /// tree says that the commit is empty exactly when it is the commit's
    /// own tree.
    pub fn is_empty_given_parent_tree(&self, parent_tree: BackendResult<MergedTree>) -> (r:
        BackendResult<bool>)
        ensures
            r == emptiness_of(self.spec_data().root_tree@, parent_tree),
    {
        match parent_tree {
            Ok(parent_tree) => Ok(*self.tree_id() == parent_tree.id()),
            Err(error) => Err(error),
        }
    }

    /// Whether the commit holds an unresolved conflict: whether its root
    /// is an unresolved merge of trees or, if it is one tree, whether that
    /// tree's content holds conflicts. A tree that the store does not hold
    /// is an error.
    pub fn has_conflict(&self) -> (r: BackendResult<bool>)
        requires
            self.wf(),
        ensures
            match self.spec_data().root_tree@ {
                MergedTreeIdModel::Conflicted(_) => r == Ok::<bool, BackendError>(true),
                MergedTreeIdModel::Resolved(tree) => if self.spec_store().trees().contains_key(tree) {
                    r == Ok::<bool, BackendError>(self.spec_store().trees()[tree])
                } else {
                    r matches Err(BackendError::TreeNotFound(missing)) && missing@ == tree
                },
            },
    {
        if self.tree_id().is_resolved() {
            match self.tree() {
                Ok(tree) => Ok(tree.has_conflict()),
                Err(error) => Err(error),
            }
        } else {
            Ok(true)
        }
    }

    /// Whether the commit can be dropped without loss: its description is
    /// empty, it has exactly one parent, and its tree is that parent's
    /// tree. The parents are read only if the description is empty; one
    /// that the store does not hold is then an error.
    pub fn is_discardable(&self) -> (r: BackendResult<bool>)
        requires
            self.wf(),
        ensures
            self.spec_data().description@.len() > 0 ==> r == Ok::<bool, BackendError>(false),
            self.spec_data().description@.len() == 0 ==> match r {
                Ok(discardable) => {
                    &&& self.missing_parent(self.spec_parent_ids().len() as int)
                    &&& discardable == (self.spec_parent_ids().len() == 1
                        && self.parent_tree_ids()[0] == self.spec_data().root_tree@)
                },
                Err(BackendError::CommitNotFound(missing)) => exists|i: int|
                    #[trigger] self.missing_parent(i) && i < self.spec_parent_ids().len() && missing@
                        == self.spec_parent_ids()[i],
                Err(_) => false,
            },
    {
        if self.description().is_empty() {
            let parents = match self.parent_commits() {
                Ok(parents) => parents,
                Err(error) => {
                    return Err(error);
                },
            };
            if parents.len() == 1 {
                return Ok(*self.tree_id() == *parents[0].tree_id());
            }
        }
        Ok(false)
    }

    /// The verification of the commit's signature: none if the commit is
    /// not signed, else what `signer` says of the signature. The signer is
    /// asked only if there is a signature, and its failure is the error.
    pub fn verification<S: SigningBackend + ?Sized>(&self, signer: &S) -> (r: SignResult<
        Option<Verification>,
    >)
        ensures
            match self.spec_data().secure_sig {
                None => r == Ok::<Option<Verification>, SignError>(None),
                Some(sig) => exists|id: CommitId, answer: SignResult<Verification>|
                    id@ == self.spec_id() && call_ensures(
                        S::verify,
                        (signer, &id, &sig.data, &sig.sig),
                        answer,
                    ) && r == verification_of(Some(answer)),
            },
    {
        match &self.data.secure_sig {
            None => verification_from(None),
            Some(sig) => {
                let answer = signer.verify(&self.id, &sig.data, &sig.sig);
                verification_from(Some(answer))
            },
        }
    }
}

/// The first unreadable place is the only one.
pub proof fn lemma_first_unreadable_unique_all(
    trees: Map<Seq<u8>, bool>,
    refs: Seq<MergedTreeIdModel>,
    j: int,
)
    requires
        first_unreadable(trees, refs, j),
    ensures
        forall|k: int| #[trigger] first_unreadable(trees, refs, k) ==> k == j,
{
    assert forall|k: int| #[trigger] first_unreadable(trees, refs, k) implies k == j by {
        if k < j {
            assert(root_tree_of(trees, refs[k]) is Ok);
        } else if j < k {
            assert(root_tree_of(trees, refs[j]) is Ok);
        }
    }
}

impl Clone for Commit {
    fn clone(&self) -> (r: Self)
        ensures
            r.spec_store() == self.spec_store(),
            r.spec_id() == self.spec_id(),
            r.spec_data() == self.spec_data(),
    {
        Commit { store: share(&self.store), id: self.id.clone(), data: share(&self.data) }
    }
}

impl PartialEq for Commit {
    fn eq(&self, other: &Self) -> (r: bool) {
        self.id == other.id
    }
}

impl PartialEqSpecImpl for Commit {
    open spec fn obeys_eq_spec() -> bool {
        true
    }

    open spec fn eq_spec(&self, other: &Self) -> bool {
        self.spec_id() == other.spec_id()
    }
}

impl Commit {
    /// How the commit stands to another in the order of commits, which is
    /// the order of their ids.
    pub fn order(&self, other: &Commit) -> (r: Order)
        ensures
            r == order_of(self.spec_id(), other.spec_id()),
    {
        compare_bytes(self.id.as_bytes(), other.id.as_bytes())
    }
}

/// The ids of a list of commits.
pub trait CommitIteratorExt<'c>: Sized {
    /// The commits that `self` lists.
    spec fn commits(self) -> Seq<Commit>;

    /// The id of each commit, in the order of the list.
    fn ids(self) -> (r: Vec<&'c CommitId>)
        ensures
            r.len() == self.commits().len(),
            forall|i: int| 0 <= i < r.len() ==> (#[trigger] r[i])@ == self.commits()[i].spec_id(),
    ;
}

impl<'c> CommitIteratorExt<'c> for &'c Vec<Commit> {
    open spec fn commits(self) -> Seq<Commit> {
        self@
    }

    fn ids(self) -> (r: Vec<&'c CommitId>) {
        let mut out: Vec<&'c CommitId> = Vec::new();
        let mut i: usize = 0;
        while i < self.len()
            invariant
                i <= self.len(),
                out.len() == i,
                forall|j: int| 0 <= j < i ==> (#[trigger] out[j])@ == self[j].spec_id(),
            decreases self.len() - i,
        {
            out.push(self[i].id());
            i += 1;
        }
        out
    }
}

/// A commit placed by the time it was committed: earlier commits first,
/// and commits of the same time in the order of their ids.
#[derive(Debug, PartialEq, Eq)]
pub struct CommitByCommitterTimestamp(pub Commit);

/// How a commit of the time `time1` with the id `id1` stands to one of
/// the time `time2` with the id `id2`.
pub open spec fn order_by_time(time1: i64, id1: Seq<u8>, time2: i64, id2: Seq<u8>) -> Order {
    if time1 < time2 {
        Order::Less
    } else if time1 > time2 {
        Order::Greater
    } else {
        order_of(id1, id2)
    }
}

impl CommitByCommitterTimestamp {
    /// How the commit stands to another: by the time of committing, and
    /// by the id where the times are the same.
    pub fn order(&self, other: &CommitByCommitterTimestamp) -> (r: Order)
        ensures
            r == order_by_time(
                self.0.spec_data().committer.timestamp.timestamp.0,
                self.0.spec_id(),
                other.0.spec_data().committer.timestamp.timestamp.0,
                other.0.spec_id(),
            ),
    {
        let self_timestamp = self.0.committer().timestamp.timestamp.0;
        let other_timestamp = other.0.committer().timestamp.timestamp.0;
        if self_timestamp < other_timestamp {
            Order::Less
        } else if self_timestamp > other_timestamp {
            Order::Greater
        } else {
            self.0.order(&other.0)
        }
    }
}

impl Clone for CommitByCommitterTimestamp {
    fn clone(&self) -> (r: Self)
        ensures
            r.0.spec_id() == self.0.spec_id(),
            r.0.spec_data() == self.0.spec_data(),
            r.0.spec_store() == self.0.spec_store(),
    {
        CommitByCommitterTimestamp(self.0.clone())
    }
}

} // verus!
