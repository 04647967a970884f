//! Validation and execution core of a UTXO-style ledger whose unspent
//! entries are called leaves.
//!
//! The crate provides the canonical wire codec for leaves and transactions
//! (including transaction hashing), the batch transaction checker, the leaf
//! storage contract with an in-memory implementation, and the runtime that
//! drives a batch from admission through script validation to commit.

pub mod wire;

pub mod error;

pub mod types;

pub mod hashing;

pub mod leaf;

pub mod script;

pub mod unsigned_tx;

pub mod tx;

pub mod collect;

pub mod traits;

pub mod storage;

pub mod checker;

pub mod runtime;

pub mod config;

pub use checker::{CheckerError, CheckerView, TransactionChecker};
pub use config::{Config, WasmExecutorConfig};
pub use error::Error;
pub use leaf::{Leaf, LeafParser, LeafView};
pub use runtime::{BatchError, Runtime};
pub use script::{Script, UnlockScript, UnlockScriptType};
pub use storage::{MemoryLeafStorage, MemoryStorage, StoredLeaf};
pub use traits::{
    CommittableStorage, LeafStorage, LeafWithId, SandboxError, ScriptValidator, Storage,
    StorageError,
};
pub use tx::{Transaction, TransactionView};
pub use types::{Address, Bytes, FixedBytes, IndexKey, LeafId, LeafIdView, Txid};
pub use unsigned_tx::{
    FilledTransaction, FilledTransactionView, UnsignedTransaction, UnsignedTransactionView,
};
