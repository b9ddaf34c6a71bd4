//! A reference to a shared snapshot that does not keep it alive.

use vstd::prelude::*;
use std::sync::{Arc, Weak};
use crate::tree::Tree;

verus! {

/// A `std::sync::Weak` pointer to a snapshot. It holds no share in the
/// snapshot: once every `Arc` to it is dropped, the snapshot is gone.
///
/// Nothing inside is visible to proofs; all that is done with a value of this
/// type goes through the three functions below, whose contracts promise
/// nothing about their results.
#[verifier::external_body]
pub struct WeakTree {
    inner: Weak<Tree>,
}

impl Clone for WeakTree {
    /// Calls `Weak::clone`: another pointer to the same snapshot.
    #[verifier::external_body]
    fn clone(&self) -> (copy: Self) {
        WeakTree { inner: self.inner.clone() }
    }
}

/// Calls `Arc::downgrade`: a weak pointer to the snapshot that `tree` shares.
#[verifier::external_body]
pub(crate) fn downgrade_tree(tree: &Arc<Tree>) -> (weak: WeakTree) {
    WeakTree { inner: Arc::downgrade(tree) }
}

/// Calls `Weak::upgrade`: a share in the snapshot if it still exists, `None`
/// once its last `Arc` has been dropped. Which of the two comes back depends
/// on what the other holders have done, so the contract leaves it open.
#[verifier::external_body]
pub(crate) fn upgrade_tree(weak: &WeakTree) -> (tree: Option<Arc<Tree>>) {
    weak.inner.upgrade()
}

} // verus!
