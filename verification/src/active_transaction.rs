//! Journaled write transactions: every operation that is made in one is
//! noted down, and the commit stores the operations as the next transaction
//! of the journal, with the data.

use vstd::prelude::*;
use crate::error::{DbError};
use crate::kv::{KV, lemma_same_view, ReadOperations, StoreView, view_of, WriteOperations, WriteTx};
use crate::replay::{
    apply, lemma_replay_prefix, OpenTables, perform, replaced, replay, ReplayState, state_of,
};
use crate::transaction::{
    JournalTransaction, JournalTransactionView, operation_views, OperationView,
    TransactionOperation,
};
use crate::state::{
    append_spec, JournalState, JournalStateView, read_state, readable, record, recorded,
    state_spec,
};
use crate::table::{JournaledTable};
use crate::multimap_table::{JournaledMultimapTable};
use crate::journal::{Journal};

verus! {

/// The transaction that a commit stores: the operations that were made,
/// and the commit, behind the hash that the journal stood at.
pub open spec fn committed_record(
    state: JournalStateView,
    operations: Seq<OperationView>,
) -> JournalTransactionView {
    JournalTransactionView {
        last_tx_hash: state.last_tx_hash,
        operations: operations.push(OperationView::Commit),
    }
}

/// What committing a transaction that started from the contents `base` and
/// made `operations` makes of the store: the contents after the
/// operations, with the transaction stored as the next of the journal.
pub open spec fn commit_spec(
    base: StoreView,
    operations: Seq<OperationView>,
) -> Result<StoreView, DbError> {
    match replay(ReplayState::start(base), operations, operations.len() as int) {
        Err(e) => Err(e),
        Ok(state) => Ok(
            recorded(
                state.view,
                state_spec(base).next_tx_index,
                committed_record(state_spec(base), operations),
            ),
        ),
    }
}

/// What a journaled transaction that makes `operations` on the contents
/// `view` comes to: nothing where the state of the journal cannot be read,
/// and else what its commit makes of the store.
pub open spec fn journaled_spec(
    view: StoreView,
    operations: Seq<OperationView>,
) -> Result<StoreView, DbError> {
    if !readable(view) {
        Err(DbError::JournalInvariant)
    } else {
        commit_spec(view, operations)
    }
}

/// Replay is deterministic: appending the transaction that a commit stored
/// to a store with the contents that the commit started from gives the
/// contents that the commit gave.
pub proof fn lemma_commit_is_append(view: StoreView, operations: Seq<OperationView>)
    ensures
        append_spec(view, committed_record(state_spec(view), operations)) == journaled_spec(
            view,
            operations,
        ),
{
    if readable(view) {
        let record = committed_record(state_spec(view), operations);
        lemma_replay_prefix(
            ReplayState::start(view),
            operations,
            record.operations,
            operations.len() as int,
        );
    }
}

/// What committing the first `upto` of `transactions`, one after the
/// other, makes of the contents `start`. Each of `transactions` is the
/// list of the operations of one transaction.
pub open spec fn committed(start: StoreView, transactions: Seq<Seq<OperationView>>, upto: int) -> Result<
    StoreView,
    DbError,
>
    decreases upto,
{
    if upto <= 0 {
        Ok(start)
    } else {
        match committed(start, transactions, upto - 1) {
            Err(e) => Err(e),
            Ok(view) => journaled_spec(view, transactions[upto - 1]),
        }
    }
}

/// The transaction that the commit at `position` stores, where the commits
/// before it succeed.
pub open spec fn record_at(
    start: StoreView,
    transactions: Seq<Seq<OperationView>>,
    position: int,
) -> JournalTransactionView {
    committed_record(
        state_spec(committed(start, transactions, position)->Ok_0),
        transactions[position],
    )
}

/// What appending the stored transactions of the first `upto` commits of
/// `transactions`, one after the other, makes of the contents `start`.
pub open spec fn appended(start: StoreView, transactions: Seq<Seq<OperationView>>, upto: int) -> Result<
    StoreView,
    DbError,
>
    decreases upto,
{
    if upto <= 0 {
        Ok(start)
    } else {
        match appended(start, transactions, upto - 1) {
            Err(e) => Err(e),
            Ok(view) => append_spec(view, record_at(start, transactions, upto - 1)),
        }
    }
}

/// Replay is deterministic: appending the transactions that a sequence of
/// commits stored, to a store with the contents that the commits started
/// from, gives the contents that the commits gave.
pub proof fn lemma_replay_is_deterministic(
    start: StoreView,
    transactions: Seq<Seq<OperationView>>,
    upto: int,
)
    requires
        0 <= upto <= transactions.len(),
    ensures
        appended(start, transactions, upto) == committed(start, transactions, upto),
    decreases upto,
{
    if upto > 0 {
        lemma_replay_is_deterministic(start, transactions, upto - 1);
        match committed(start, transactions, upto - 1) {
            Ok(view) => {
                lemma_commit_is_append(view, transactions[upto - 1]);
            },
            Err(_) => {},
        }
    }
}

/// A journaled write transaction: a write transaction on the store, and the
/// operations that were made in it.
pub struct ActiveTransaction<K: KV> {
    /// The write transaction, until it is committed or aborted.
    pub tx: Option<K::WriteTransaction>,
    /// The operations that were made, in their order.
    pub operations: Vec<TransactionOperation>,
    /// The tables that are open.
    pub open: OpenTables,
    /// The multimap tables that are open.
    pub open_multimap: OpenTables,
    /// Where the journal stood when the transaction began.
    pub state: JournalState,
    /// What the store held when the transaction began.
    pub base: Ghost<StoreView>,
}

impl<K: KV> ActiveTransaction<K> {
    /// The transaction holds what its operations make of what the store
    /// held when it began.
    pub open spec fn wf(&self) -> bool {
        self.tx is Some ==> {
            &&& readable(self.base@)
            &&& self.state@ == state_spec(self.base@)
            &&& replay(
                ReplayState::start(self.base@),
                operation_views(self.operations@),
                self.operations@.len() as int,
            ) == Ok::<ReplayState, DbError>(state_of(self.tx->0, self.open, self.open_multimap))
        }
    }

    /// The store that the transaction writes to.
    pub open spec fn store(&self) -> int {
        self.tx->0.store()
    }

    /// A journaled write transaction on the store of `journal`.
    pub fn new(journal: &Journal<K>) -> (r: Result<Self, DbError>)
        ensures
            match r {
                Ok(tx) => {
                    &&& tx.wf()
                    &&& tx.tx is Some
                    &&& tx.store() == journal.db.store()
                    &&& tx.base@ == view_of(journal.db)
                    &&& tx.operations@.len() == 0
                },
                Err(DbError::KVError(_)) => true,
                Err(e) => e is JournalInvariant && !readable(view_of(journal.db)),
            },
    {
        let tx = match journal.db.write_tx() {
            Ok(tx) => tx,
            Err(error) => {
                return Err(DbError::KVError(error));
            },
        };
        proof {
            lemma_same_view(tx, journal.db);
        }
        let state = match read_state(&tx) {
            Ok(state) => state,
            Err(error) => {
                let _ = tx.abort();
                return Err(error);
            },
        };
        Ok(
            ActiveTransaction {
                tx: Some(tx),
                operations: Vec::new(),
                open: OpenTables::new(),
                open_multimap: OpenTables::new(),
                state,
                base: Ghost(view_of(journal.db)),
            },
        )
    }

    /// Perform an operation in the transaction and note it down.
    ///
    /// An operation that cannot be performed is not noted down and leaves
    /// the transaction as it is. Where the store fails, the transaction is
    /// aborted. An insert into a table or a removal hands out the value
    /// that the key had.
    pub fn operate(&mut self, operation: TransactionOperation) -> (r: Result<
        Option<Vec<u8>>,
        DbError,
    >)
        requires
            old(self).wf(),
        ensures
            final(self).wf(),
            final(self).base == old(self).base,
            final(self).state == old(self).state,
            final(self).tx is Some ==> old(self).tx is Some && final(self).store() == old(self).store(),
            r is Err ==> final(self).operations == old(self).operations,
            match r {
                Ok(before) => {
                    &&& final(self).tx is Some
                    &&& operation_views(final(self).operations@) == operation_views(
                        old(self).operations@,
                    ).push(operation@)
                    &&& apply(
                        state_of(old(self).tx->0, old(self).open, old(self).open_multimap),
                        operation@,
                    ) == Ok::<ReplayState, DbError>(
                        state_of(final(self).tx->0, final(self).open, final(self).open_multimap),
                    )
                    &&& replaced(view_of(old(self).tx->0), old(self).open, operation@, before)
                },
                Err(DbError::KVError(_)) => old(self).tx is Some && final(self).tx is None,
                Err(DbError::TransactionClosed) => old(self).tx is None && final(self).tx is None,
                Err(e) => {
                    &&& old(self).tx is Some
                    &&& apply(
                        state_of(old(self).tx->0, old(self).open, old(self).open_multimap),
                        operation@,
                    ) == Err::<ReplayState, DbError>(e)
                    &&& final(self).tx is Some
                    &&& view_of(final(self).tx->0) == view_of(old(self).tx->0)
                    &&& final(self).operations == old(self).operations
                },
            },
    {
        let mut tx = match self.tx.take() {
            Some(tx) => tx,
            None => {
                return Err(DbError::TransactionClosed);
            },
        };
        let ghost before_ops = operation_views(self.operations@);
        match perform(&mut tx, &mut self.open, &mut self.open_multimap, &operation) {
            Ok(before) => {
                self.operations.push(operation);
                proof {
                    let after_ops = operation_views(self.operations@);
                    assert(after_ops =~= before_ops.push(operation@));
                    lemma_replay_prefix(
                        ReplayState::start(self.base@),
                        before_ops,
                        after_ops,
                        before_ops.len() as int,
                    );
                }
                self.tx = Some(tx);
                Ok(before)
            },
            Err(error) => {
                match error {
                    DbError::KVError(_) => {
                        let _ = tx.abort();
                    },
                    _ => {
                        self.tx = Some(tx);
                    },
                }
                Err(error)
            },
        }
    }

    /// The write transaction on the store, until it is committed or
    /// aborted.
    pub fn active_tx(&self) -> (r: Result<&K::WriteTransaction, DbError>)
        ensures
            match r {
                Ok(tx) => self.tx == Some(*tx),
                Err(e) => e is TransactionClosed && self.tx is None,
            },
    {
        match &self.tx {
            Some(tx) => Ok(tx),
            None => Err(DbError::TransactionClosed),
        }
    }

    /// Commit the transaction to the store of `journal`: store the
    /// operations that were made as the next transaction of the journal,
    /// commit, and queue the stored transaction.
    ///
    /// Where the store fails, the transaction is committed in full or not
    /// at all. Either way the transaction is closed.
    pub fn commit(&mut self, journal: &mut Journal<K>) -> (r: Result<(), DbError>)
        requires
            old(self).wf(),
            old(journal).wf(),
            old(self).tx is Some ==> old(self).store() == old(journal).db.store(),
        ensures
            final(self).tx is None,
            final(self).wf(),
            final(journal).wf(),
            final(journal).db.store() == old(journal).db.store(),
            match r {
                Ok(_) => {
                    &&& old(self).tx is Some
                    &&& commit_spec(old(self).base@, operation_views(old(self).operations@)) == Ok::<
                        StoreView,
                        DbError,
                    >(view_of(final(journal).db))
                    &&& final(journal).queued() == old(journal).queued().push(
                        committed_record(old(self).state@, operation_views(old(self).operations@)),
                    )
                },
                Err(DbError::TransactionClosed) => {
                    &&& old(self).tx is None
                    &&& final(journal).db == old(journal).db
                    &&& final(journal).queued() == old(journal).queued()
                },
                Err(e) => {
                    &&& e is KVError
                    &&& old(self).tx is Some
                    &&& final(journal).queued() == old(journal).queued()
                    &&& view_of(final(journal).db) == view_of(old(journal).db) || commit_spec(
                        old(self).base@,
                        operation_views(old(self).operations@),
                    ) == Ok::<StoreView, DbError>(view_of(final(journal).db))
                },
            },
    {
        let mut tx = match self.tx.take() {
            Some(tx) => tx,
            None => {
                return Err(DbError::TransactionClosed);
            },
        };
        let ghost made = operation_views(self.operations@);
        let mut operations: Vec<TransactionOperation> = Vec::new();
        std::mem::swap(&mut operations, &mut self.operations);
        operations.push(TransactionOperation::Commit);
        let journal_tx = JournalTransaction { last_tx_hash: self.state.last_tx_hash, operations };
        assert(journal_tx@.operations =~= made.push(OperationView::Commit));
        match record(&mut tx, self.state.next_tx_index, &journal_tx) {
            Ok(_) => {},
            Err(error) => {
                let _ = tx.abort();
                return Err(error);
            },
        }
        let ghost stored = tx;
        match journal.db.commit(tx) {
            Ok(_) => {
                proof {
                    lemma_same_view(journal.db, stored);
                }
                journal.transactions.push(&journal_tx);
                Ok(())
            },
            Err(error) => {
                proof {
                    if crate::kv::same_contents(journal.db, stored) {
                        lemma_same_view(journal.db, stored);
                    } else {
                        lemma_same_view(journal.db, old(journal).db);
                    }
                }
                Err(DbError::KVError(error))
            },
        }
    }

    /// Abort the transaction: discard what was written and what was noted
    /// down.
    pub fn abort(&mut self) -> (r: Result<(), DbError>)
        ensures
            final(self).tx is None,
            final(self).operations@.len() == 0,
            final(self).base == old(self).base,
            final(self).state == old(self).state,
            r matches Err(e) ==> e is KVError,
    {
        self.operations = Vec::new();
        match self.tx.take() {
            Some(tx) => match tx.abort() {
                Ok(_) => Ok(()),
                Err(error) => Err(DbError::KVError(error)),
            },
            None => Ok(()),
        }
    }

    /// Open a table for writing. The empty string names no table: it is
    /// refused, and the transaction stays as it is.
    pub fn open_table(&mut self, name: &str) -> (r: Result<JournaledTable, DbError>)
        requires
            old(self).wf(),
        ensures
            final(self).wf(),
            final(self).base == old(self).base,
            final(self).state == old(self).state,
            final(self).tx is Some ==> old(self).tx is Some && final(self).store() == old(self).store(),
            r is Err ==> final(self).operations == old(self).operations,
            match r {
                Ok(table) => {
                    &&& name@.len() > 0
                    &&& table.name@ == name@
                    &&& final(self).tx is Some
                    &&& view_of(final(self).tx->0) == view_of(old(self).tx->0)
                    &&& final(self).open@ == old(self).open@.insert(name@)
                    &&& final(self).open_multimap@ == old(self).open_multimap@
                    &&& operation_views(final(self).operations@) == operation_views(
                        old(self).operations@,
                    ).push(OperationView::OpenTable(name@))
                },
                Err(DbError::JournalInvariant) => name@.len() == 0 && *final(self) == *old(self),
                Err(e) => name@.len() > 0 && ((e is TransactionClosed && old(self).tx is None) || (e
                    is KVError && final(self).tx is None)),
            },
    {
        if name.is_empty() {
            return Err(DbError::JournalInvariant);
        }
        match self.operate(TransactionOperation::OpenTable(name.to_owned())) {
            Ok(_) => Ok(JournaledTable { name: name.to_owned() }),
            Err(error) => Err(error),
        }
    }

    /// Open a multimap table for writing. The empty string names no
    /// table: it is refused, and the transaction stays as it is.
    pub fn open_multimap_table(&mut self, name: &str) -> (r: Result<JournaledMultimapTable, DbError>)
        requires
            old(self).wf(),
        ensures
            final(self).wf(),
            final(self).base == old(self).base,
            final(self).state == old(self).state,
            final(self).tx is Some ==> old(self).tx is Some && final(self).store() == old(self).store(),
            r is Err ==> final(self).operations == old(self).operations,
            match r {
                Ok(table) => {
                    &&& name@.len() > 0
                    &&& table.name@ == name@
                    &&& final(self).tx is Some
                    &&& final(self).open_multimap@ == old(self).open_multimap@.insert(name@)
                    &&& operation_views(final(self).operations@) == operation_views(
                        old(self).operations@,
                    ).push(OperationView::OpenMultimapTable(name@))
                },
                Err(DbError::JournalInvariant) => name@.len() == 0 && *final(self) == *old(self),
                Err(e) => name@.len() > 0 && ((e is TransactionClosed && old(self).tx is None) || (e
                    is KVError && final(self).tx is None)),
            },
    {
        if name.is_empty() {
            return Err(DbError::JournalInvariant);
        }
        match self.operate(TransactionOperation::OpenMultimapTable(name.to_owned())) {
            Ok(_) => Ok(JournaledMultimapTable { name: name.to_owned() }),
            Err(error) => Err(error),
        }
    }

    /// Give a table another name. A name that is empty is refused, and the
    /// transaction stays as it is.
    pub fn rename_table(&mut self, old_table_name: &str, new_table_name: &str) -> (r: Result<
        (),
        DbError,
    >)
        requires
            old(self).wf(),
        ensures
            final(self).wf(),
            final(self).base == old(self).base,
            final(self).tx is Some ==> old(self).tx is Some && final(self).store() == old(self).store(),
            r is Err ==> final(self).operations == old(self).operations,
            match r {
                Ok(_) => {
                    &&& old_table_name@.len() > 0
                    &&& new_table_name@.len() > 0
                    &&& final(self).tx is Some
                    &&& operation_views(final(self).operations@) == operation_views(
                        old(self).operations@,
                    ).push(OperationView::RenameTable(old_table_name@, new_table_name@))
                },
                Err(DbError::JournalInvariant) => {
                    &&& old_table_name@.len() == 0 || new_table_name@.len() == 0
                    &&& *final(self) == *old(self)
                },
                Err(e) => {
                    &&& old_table_name@.len() > 0
                    &&& new_table_name@.len() > 0
                    &&& (e is TransactionClosed && old(self).tx is None) || (e is KVError
                        && final(self).tx is None)
                },
            },
    {
        if old_table_name.is_empty() || new_table_name.is_empty() {
            return Err(DbError::JournalInvariant);
        }
        match self.operate(
            TransactionOperation::RenameTable(old_table_name.to_owned(), new_table_name.to_owned()),
        ) {
            Ok(_) => Ok(()),
            Err(error) => Err(error),
        }
    }

    /// Give a multimap table another name. A name that is empty is
    /// refused, and the transaction stays as it is.
    pub fn rename_multimap_table(&mut self, old_table_name: &str, new_table_name: &str) -> (r:
        Result<(), DbError>)
        requires
            old(self).wf(),
        ensures
            final(self).wf(),
            final(self).base == old(self).base,
            final(self).tx is Some ==> old(self).tx is Some && final(self).store() == old(self).store(),
            r is Err ==> final(self).operations == old(self).operations,
            match r {
                Ok(_) => {
                    &&& old_table_name@.len() > 0
                    &&& new_table_name@.len() > 0
                    &&& final(self).tx is Some
                    &&& operation_views(final(self).operations@) == operation_views(
                        old(self).operations@,
                    ).push(OperationView::RenameMultimapTable(old_table_name@, new_table_name@))
                },
                Err(DbError::JournalInvariant) => {
                    &&& old_table_name@.len() == 0 || new_table_name@.len() == 0
                    &&& *final(self) == *old(self)
                },
                Err(e) => {
                    &&& old_table_name@.len() > 0
                    &&& new_table_name@.len() > 0
                    &&& (e is TransactionClosed && old(self).tx is None) || (e is KVError
                        && final(self).tx is None)
                },
            },
    {
        if old_table_name.is_empty() || new_table_name.is_empty() {
            return Err(DbError::JournalInvariant);
        }
        match self.operate(
            TransactionOperation::RenameMultimapTable(
                old_table_name.to_owned(),
                new_table_name.to_owned(),
            ),
        ) {
            Ok(_) => Ok(()),
            Err(error) => Err(error),
        }
    }

    /// Delete a table, and say whether it held an entry. The empty name is
    /// refused, and the transaction stays as it is.
    pub fn delete_table(&mut self, name: &str) -> (r: Result<bool, DbError>)
        requires
            old(self).wf(),
        ensures
            final(self).wf(),
            final(self).base == old(self).base,
            final(self).tx is Some ==> old(self).tx is Some && final(self).store() == old(self).store(),
            match r {
                Ok(held) => {
                    &&& name@.len() > 0
                    &&& final(self).tx is Some
                    &&& held == (view_of(old(self).tx->0).table(name@).dom().len() > 0)
                    &&& operation_views(final(self).operations@) == operation_views(
                        old(self).operations@,
                    ).push(OperationView::DeleteTable(name@))
                },
                Err(DbError::JournalInvariant) => name@.len() == 0 && *final(self) == *old(self),
                Err(e) => name@.len() > 0 && ((e is TransactionClosed && old(self).tx is None) || (e
                    is KVError && final(self).tx is None)),
            },
    {
        if name.is_empty() {
            return Err(DbError::JournalInvariant);
        }
        let held = match &self.tx {
            Some(tx) => match tx.count(name) {
                Ok(n) => n > 0,
                Err(error) => {
                    let _ = self.abort();
                    return Err(DbError::KVError(error));
                },
            },
            None => {
                return Err(DbError::TransactionClosed);
            },
        };
        match self.operate(TransactionOperation::DeleteTable(name.to_owned())) {
            Ok(_) => Ok(held),
            Err(error) => Err(error),
        }
    }

    /// Delete a multimap table, and say whether it held a pair. The empty
    /// name is refused, and the transaction stays as it is.
    pub fn delete_multimap_table(&mut self, name: &str) -> (r: Result<bool, DbError>)
        requires
            old(self).wf(),
        ensures
            final(self).wf(),
            final(self).base == old(self).base,
            final(self).tx is Some ==> old(self).tx is Some && final(self).store() == old(self).store(),
            match r {
                Ok(held) => {
                    &&& name@.len() > 0
                    &&& final(self).tx is Some
                    &&& held == (view_of(old(self).tx->0).multimap(name@).len() > 0)
                    &&& operation_views(final(self).operations@) == operation_views(
                        old(self).operations@,
                    ).push(OperationView::DeleteMultimapTable(name@))
                },
                Err(DbError::JournalInvariant) => name@.len() == 0 && *final(self) == *old(self),
                Err(e) => name@.len() > 0 && ((e is TransactionClosed && old(self).tx is None) || (e
                    is KVError && final(self).tx is None)),
            },
    {
        if name.is_empty() {
            return Err(DbError::JournalInvariant);
        }
        let held = match &self.tx {
            Some(tx) => match tx.count_multimap(name) {
                Ok(n) => n > 0,
                Err(error) => {
                    let _ = self.abort();
                    return Err(DbError::KVError(error));
                },
            },
            None => {
                return Err(DbError::TransactionClosed);
            },
        };
        match self.operate(TransactionOperation::DeleteMultimapTable(name.to_owned())) {
            Ok(_) => Ok(held),
            Err(error) => Err(error),
        }
    }

    /// The names of the tables of the store of `journal`, as they were
    /// last committed.
    pub fn list_tables(&self, journal: &Journal<K>) -> (r: Result<Vec<String>, DbError>)
        ensures
            match r {
                Ok(names) => crate::kv::lists_tables(journal.db, names@),
                Err(e) => e is KVError,
            },
    {
        match journal.db.list_tables() {
            Ok(names) => Ok(names),
            Err(error) => Err(DbError::KVError(error)),
        }
    }
}

} // verus!
