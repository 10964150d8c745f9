//! Reconciliation of hierarchical configuration documents: structural
//! equality, pairwise diff, quorum-based consensus, merge and canonical sort.
pub mod consensus;
pub mod deep_equal;
pub mod diff;
pub mod equality;
pub mod key_order;
pub mod merge;
pub mod order;
pub mod sorter;
pub mod value;

pub use diff::{compute_diff, diff_and_common_multiple};
pub use value::Value;
