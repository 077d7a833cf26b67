//! An embeddable document database layered over a transactional, ordered
//! key-value store, together with a journal that records every mutation as a
//! replayable, hash-chained operation log.
//!
//! The codec (`order`, `lexicographic`, `key`) encodes typed values into byte
//! strings whose byte-lexicographic order is the order of the values, and
//! joins them into compound keys. The index model (`query`, `document`,
//! `index`, `collection`, `consistency`) keeps the secondary indexes of a
//! collection, plans a query as a range of keys, and answers it. The schema
//! (`declaration`, `database`, `metadata`) declares the collections of a
//! database and checks them against each other. The journal (`transaction`,
//! `replay`, `state`, `active_transaction`, `table`, `multimap_table`,
//! `journal`, `chain`, `snapshot`, `queue`) stores every committed
//! transaction with the data. The store (`kv`, `kv_redb`) is redb, behind
//! the contracts that the rest is proved against.

pub mod order;
pub mod lexicographic;
pub mod key;
pub mod sort;
pub mod query;
pub mod wire;
pub mod kv;
pub mod kv_redb;
pub mod error;
pub mod document;
pub mod index;
pub mod collection;
pub mod consistency;
pub mod metadata;
pub mod database;
pub mod declaration;
pub mod bytes;
pub mod transaction;
pub mod replay;
pub mod queue;
pub mod state;
pub mod active_transaction;
pub mod table;
pub mod multimap_table;
pub mod journal;
pub mod chain;
pub mod snapshot;

pub use crate::active_transaction::ActiveTransaction;
pub use crate::bytes::Bytes;
pub use crate::collection::Collection;
pub use crate::database::AnonDB;
pub use crate::document::{Document, Query, Queryable};
pub use crate::error::DbError;
pub use crate::index::{Index, IndexOptions};
pub use crate::journal::Journal;
pub use crate::key::LexicographicKey;
pub use crate::kv::{OpaqueItem, ReadOperations, WriteOperations, WriteTx, KV};
pub use crate::kv_redb::RedbKV;
pub use crate::lexicographic::SerializeLexicographic;
pub use crate::query::{GeneralRange, Param, ParamTyped};
pub use crate::sort::SortDirection;
pub use crate::table::JournaledTable;
pub use crate::transaction::{JournalTransaction, TransactionOperation};
