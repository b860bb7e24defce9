//! What a commit asks of the repository around it.

use vstd::prelude::*;
use crate::backend::BackendResult;
use crate::store::MergedTree;

verus! {

/// A repository that can merge trees.
pub trait Repo {
    /// Merges any number of trees into one. What the merge is, and when
    /// it fails, is the repository's own business.
    fn merge_trees(&self, trees: &Vec<MergedTree>) -> BackendResult<MergedTree>;
}

} // verus!
