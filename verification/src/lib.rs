//! An in-memory ledger of mined blocks that keeps every fork, selects the
//! main chain by total work, and tracks the unspent outputs of each fork.
//!
//! Blocks are hashed over their canonical encoding (`block`, `encoding`,
//! `digest`). A chain applies the transactions of its blocks to a set of
//! unspent outputs (`transaction`, `utxo`, `blockchain`). The network
//! resolves the predecessor of each new block, extends or creates a fork,
//! and settles on the fork that wins (`network`, with its rules in
//! `ledger`, `fork_choice` and `work`, and its cache in `recent`). What
//! holds of the network at all times, and what holds as long as no hash is
//! accepted twice, is proved in `laws` and `coherence`.

pub mod adapter;
pub mod block;
pub mod blockchain;
pub mod clock;
pub mod coherence;
pub mod digest;
pub mod encoding;
pub mod error;
pub mod fork_choice;
pub mod laws;
pub mod ledger;
pub mod network;
pub mod recent;
pub mod sets;
pub mod transaction;
pub mod utxo;
pub mod work;

pub use crate::block::{Block, Hashable};
pub use crate::blockchain::{Blockchain, InitGenesis, SubmittedBlock};
pub use crate::clock::now;
pub use crate::error::LedgerError;
pub use crate::network::{ChainState, Head, Network};
pub use crate::transaction::{Output, Transaction};
