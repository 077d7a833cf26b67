//! Tables that are open in a journaled transaction.

use vstd::prelude::*;
use crate::bytes::{Bytes};
use crate::error::{DbError};
use crate::kv::{KV, ReadOperations, StoreView, view_of};
use crate::replay::{apply, ReplayState, state_of};
use crate::transaction::{operation_views, OperationView, TransactionOperation};
use crate::active_transaction::{ActiveTransaction};

verus! {

/// A table that is open in a journaled transaction.
#[derive(Debug)]
pub struct JournaledTable {
    pub name: String,
}

impl JournaledTable {
    /// The table `name`, as opened in a transaction.
    pub fn new(name: String) -> (table: Self)
        ensures
            table.name == name,
    {
        JournaledTable { name }
    }

    /// The number of entries of the table. A table without a name has
    /// none to count: it is refused.
    pub fn len<K: KV>(&self, tx: &ActiveTransaction<K>) -> (r: Result<u64, DbError>)
        ensures
            match r {
                Ok(n) => {
                    &&& tx.tx is Some
                    &&& self.name@.len() > 0
                    &&& n == view_of(tx.tx->0).table(self.name@).dom().len()
                },
                Err(DbError::TransactionClosed) => tx.tx is None,
                Err(DbError::JournalInvariant) => tx.tx is Some && self.name@.len() == 0,
                Err(e) => e is KVError && tx.tx is Some && self.name@.len() > 0,
            },
    {
        match &tx.tx {
            Some(inner) => {
                if self.name.as_str().is_empty() {
                    return Err(DbError::JournalInvariant);
                }
                match inner.count(self.name.as_str()) {
                    Ok(n) => Ok(n),
                    Err(error) => Err(DbError::KVError(error)),
                }
            },
            None => Err(DbError::TransactionClosed),
        }
    }

    /// Whether `before` is what the table held for the key when the
    /// operation was made on the contents `view` with `open` as the open
    /// tables: the value of the key where the table is open, and nothing
    /// where only a multimap table of that name is.
    pub open spec fn handed_out(
        &self,
        view: StoreView,
        open: Set<Seq<char>>,
        key: Seq<u8>,
        before: Option<Bytes>,
    ) -> bool {
        if open.contains(self.name@) {
            match before {
                Some(value) => view.table(self.name@).dom().contains(key) && view.table(
                    self.name@,
                )[key] == value@,
                None => !view.table(self.name@).dom().contains(key),
            }
        } else {
            before is None
        }
    }

    /// Set the value of a key, note the insert down, and hand out the value
    /// that the key had. Where the table is no longer open, nothing is
    /// written or noted down; where the store fails, nothing is noted down
    /// and the transaction is closed.
    pub fn insert_bytes<K: KV>(
        &self,
        tx: &mut ActiveTransaction<K>,
        key_bytes: &Bytes,
        value_bytes: &Bytes,
    ) -> (r: Result<Option<Bytes>, DbError>)
        requires
            old(tx).wf(),
        ensures
            final(tx).wf(),
            final(tx).base == old(tx).base,
            final(tx).state == old(tx).state,
            final(tx).tx is Some ==> old(tx).tx is Some && final(tx).store() == old(tx).store(),
            r is Err ==> final(tx).operations == old(tx).operations,
            match r {
                Ok(before) => {
                    &&& final(tx).tx is Some
                    &&& old(tx).tx is Some
                    &&& self.handed_out(view_of(old(tx).tx->0), old(tx).open@, key_bytes@, before)
                    &&& apply(
                        state_of(old(tx).tx->0, old(tx).open, old(tx).open_multimap),
                        OperationView::Insert {
                            table_name: self.name@,
                            key_bytes: key_bytes@,
                            value_bytes: value_bytes@,
                        },
                    ) == Ok::<ReplayState, DbError>(
                        state_of(final(tx).tx->0, final(tx).open, final(tx).open_multimap),
                    )
                    &&& operation_views(final(tx).operations@) == operation_views(
                        old(tx).operations@,
                    ).push(
                        OperationView::Insert {
                            table_name: self.name@,
                            key_bytes: key_bytes@,
                            value_bytes: value_bytes@,
                        },
                    )
                },
                Err(DbError::KVError(_)) => old(tx).tx is Some && final(tx).tx is None,
                Err(DbError::TransactionClosed) => old(tx).tx is None,
                Err(e) => {
                    &&& e is JournalInvariant
                    &&& self.name@.len() == 0 || (!old(tx).open@.contains(self.name@) && !old(
                        tx,
                    ).open_multimap@.contains(self.name@))
                    &&& final(tx).tx is Some
                    &&& view_of(final(tx).tx->0) == view_of(old(tx).tx->0)
                },
            },
    {
        let operation = TransactionOperation::Insert {
            table_name: self.name.clone(),
            key_bytes: key_bytes.copy(),
            value_bytes: value_bytes.copy(),
        };
        match tx.operate(operation) {
            Ok(Some(before)) => Ok(Some(Bytes::new(before))),
            Ok(None) => Ok(None),
            Err(error) => Err(error),
        }
    }

    /// Remove a key, note the removal down, and hand out the value that the
    /// key had. Where the table is no longer open, nothing is removed or
    /// noted down; where the store fails, nothing is noted down and the
    /// transaction is closed.
    pub fn remove_bytes<K: KV>(&self, tx: &mut ActiveTransaction<K>, key_bytes: &Bytes) -> (r:
        Result<Option<Bytes>, DbError>)
        requires
            old(tx).wf(),
        ensures
            final(tx).wf(),
            final(tx).base == old(tx).base,
            final(tx).state == old(tx).state,
            final(tx).tx is Some ==> old(tx).tx is Some && final(tx).store() == old(tx).store(),
            r is Err ==> final(tx).operations == old(tx).operations,
            match r {
                Ok(before) => {
                    &&& final(tx).tx is Some
                    &&& old(tx).tx is Some
                    &&& self.handed_out(view_of(old(tx).tx->0), old(tx).open@, key_bytes@, before)
                    &&& apply(
                        state_of(old(tx).tx->0, old(tx).open, old(tx).open_multimap),
                        OperationView::Remove(self.name@, key_bytes@),
                    ) == Ok::<ReplayState, DbError>(
                        state_of(final(tx).tx->0, final(tx).open, final(tx).open_multimap),
                    )
                    &&& operation_views(final(tx).operations@) == operation_views(
                        old(tx).operations@,
                    ).push(OperationView::Remove(self.name@, key_bytes@))
                },
                Err(DbError::KVError(_)) => old(tx).tx is Some && final(tx).tx is None,
                Err(DbError::TransactionClosed) => old(tx).tx is None,
                Err(e) => {
                    &&& e is JournalInvariant
                    &&& self.name@.len() == 0 || !old(tx).open@.contains(self.name@)
                    &&& final(tx).tx is Some
                    &&& view_of(final(tx).tx->0) == view_of(old(tx).tx->0)
                },
            },
    {
        let operation = TransactionOperation::Remove(self.name.clone(), key_bytes.copy());
        match tx.operate(operation) {
            Ok(Some(before)) => Ok(Some(Bytes::new(before))),
            Ok(None) => Ok(None),
            Err(error) => Err(error),
        }
    }
}

} // verus!
