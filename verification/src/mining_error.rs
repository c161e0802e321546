//! Why mining or opening the chain failed.

use vstd::prelude::*;

use crate::store::StoreError;
use crate::transaction::TransactionError;

verus! {

/// A mining or chain-level failure.
#[derive(Clone, Copy, Debug, PartialEq, Eq, Structural)]
pub enum MiningError {
    /// No nonce up to the search bound met the target.
    Iteration,
    /// The chain has no tip to build on.
    NoParent,
    /// The key-value backend failed or holds malformed data.
    Store(StoreError),
    /// A transaction handed to the miner did not verify.
    InvalidTransaction(TransactionError),
}

} // verus!
