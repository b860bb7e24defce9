//! Versioned repository state: commit identifiers, reference targets that can
//! hold conflicts, the view of a repository's named state, and the three-way
//! reconciliation of divergent views.

pub mod byte_order;
pub mod sorted_map;
pub mod backend;
pub mod sorted_ids;
pub mod ref_target;
pub mod refs;
pub mod op_store;
pub mod ref_name;
pub mod remote_refs;
pub mod named_refs;
pub mod view;
pub mod str_util;
pub mod signing;
pub mod repo;
pub mod store;
pub mod commit;
pub mod commit_order;
pub mod reconcile;
