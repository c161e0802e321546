//! A small UTXO ledger: a hash-chained block store with proof-of-work mining,
//! ECDSA-signed transactions, a pay-to-public-key-hash locking script, a
//! Merkle tree over transaction identifiers, and a persistent key-value
//! backend for blocks and wallets.

use vstd::prelude::*;

pub mod bytes;
pub mod views;
pub mod crypt;
pub mod mining_error;
pub mod store;
pub mod blockchain;
pub mod proof_of_work;
pub mod merkel_tree;
pub mod block;
pub mod codec;
pub mod script_lang;
pub mod transaction;
pub mod wallet;

verus! {

} // verus!
