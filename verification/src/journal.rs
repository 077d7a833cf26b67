//! The journal: a store in which every committed transaction is stored with
//! the data, as the list of its operations behind the hash of the
//! transaction before it. A journal can be replayed onto an empty store,
//! up to any of its transactions, and flattened into one transaction.

use vstd::prelude::*;
use std::ops::Bound;
use vstd::string::StringExecFns;
use crate::bytes::{Bytes};
use crate::error::{DbError};
use crate::kv::{
    entries_of, is_scan, KV, lemma_same_view, OpaqueItem, Pair, pairs, ReadOperations, StoreView,
    view_of, WriteOperations, WriteTx,
};
use crate::lexicographic::{encode_be};
use crate::query::{ByteRange, GeneralRange};
use crate::queue::{TransactionQueue};
use crate::replay::{perform};
use crate::transaction::{
    JournalTransaction, JournalTransactionView, operation_views, OperationView,
    TransactionOperation,
};
use crate::state::{
    append_in, append_spec, index_key, journal_length, journal_table, JOURNAL_TABLE_NAME,
    JournalState, lemma_append_error, lemma_journal_tables_are_named, read_state, readable,
    state_spec, transactions_table,
    TX_TABLE_NAME, zero_hash,
};
use crate::active_transaction::{
    ActiveTransaction, appended, commit_spec, committed, committed_record,
};

verus! {

/// A journaled store: a store, and the transactions that were committed to
/// it through the journal and are yet to be drained.
pub struct Journal<K: KV> {
    pub db: K,
    pub transactions: TransactionQueue,
}

/// The stored form of the transaction of index `index`, where the journal
/// table has the index and the transactions table has its hash.
pub open spec fn stored_tx(view: StoreView, index: nat) -> Option<Seq<u8>> {
    let key = index_key(index);
    if journal_table(view).dom().contains(key) && transactions_table(view).dom().contains(
        journal_table(view)[key],
    ) {
        Some(transactions_table(view)[journal_table(view)[key]])
    } else {
        None
    }
}

/// What replaying the first `upto` transactions of the journal in `view`
/// onto an empty store arrives at, or the reason why they cannot be
/// replayed: a transaction that the journal lacks or that cannot be read
/// back, or a transaction that cannot be appended.
pub open spec fn replayed(view: StoreView, upto: nat) -> Result<StoreView, DbError>
    decreases upto,
{
    if upto == 0 {
        Ok(StoreView::empty())
    } else {
        match replayed(view, (upto - 1) as nat) {
            Err(e) => Err(e),
            Ok(before) => match stored_tx(view, (upto - 1) as nat) {
                None => Err(DbError::JournalInvariant),
                Some(bytes) => match JournalTransactionView::decoding(bytes) {
                    None => Err(DbError::CorruptRecord),
                    Some(tx) => append_spec(before, tx),
                },
            },
        }
    }
}

/// The first `upto` transactions of the journal in `view`, in the order of
/// their indexes, where the journal has them and they can be read back.
pub open spec fn stored_transactions(view: StoreView, upto: nat) -> Seq<JournalTransactionView> {
    Seq::new(upto, |i: int| JournalTransactionView::decoding(stored_tx(view, i as nat)->0)->0)
}

/// Where replaying fails at one of the first transactions, it fails in the
/// same way however many more transactions there are.
pub proof fn lemma_replayed_fails(view: StoreView, i: nat, j: nat)
    requires
        i <= j,
        replayed(view, i) is Err,
    ensures
        replayed(view, j) == replayed(view, i),
    decreases j - i,
{
    if i < j {
        lemma_replayed_fails(view, i, (j - 1) as nat);
    }
}

/// Whether a snapshot leaves the table `name` out: the two tables of the
/// journal, and the empty string, which names no table.
pub open spec fn left_out(name: Seq<char>) -> bool {
    name == JOURNAL_TABLE_NAME@ || name == TX_TABLE_NAME@ || name.len() == 0
}

/// One insert into the table `name` for each of `items`.
pub open spec fn inserts(name: Seq<char>, items: Seq<Pair>) -> Seq<OperationView> {
    Seq::new(
        items.len(),
        |i: int|
            OperationView::Insert { table_name: name, key_bytes: items[i].0, value_bytes: items[i].1 },
    )
}

/// The operations that restore the first `upto` of the tables `names` from
/// their entries `scans`: for each table but those of the journal, its
/// opening and one insert for each of its entries.
pub open spec fn flat(names: Seq<String>, scans: Seq<Seq<Pair>>, upto: int) -> Seq<OperationView>
    decreases upto,
{
    if upto <= 0 {
        Seq::empty()
    } else if left_out(names[upto - 1]@) {
        flat(names, scans, upto - 1)
    } else {
        flat(names, scans, upto - 1) + seq![OperationView::OpenTable(names[upto - 1]@)] + inserts(
            names[upto - 1]@,
            scans[upto - 1],
        )
    }
}

/// Whether `tx` is a snapshot of the tables `names` of the contents
/// `view`: it stands on its own, restores each table but those of the
/// journal from its entries in ascending order of their keys, and ends in
/// the commit.
pub open spec fn flattens(view: StoreView, names: Seq<String>, tx: JournalTransactionView) -> bool {
    exists|scans: Seq<Seq<Pair>>|
        {
            &&& scans.len() == names.len()
            &&& forall|i: int|
                0 <= i < names.len() && !left_out(names[i]@) ==> is_scan(
                    entries_of(view.table(names[i]@)),
                    ByteRange::full(),
                    #[trigger] scans[i],
                )
            &&& tx == (JournalTransactionView {
                last_tx_hash: zero_hash(),
                operations: flat(names, scans, names.len() as int).push(OperationView::Commit),
            })
        }
}

/// An empty store has the empty contents.
pub proof fn lemma_empty_view<A: ReadOperations>(a: A)
    requires
        crate::kv::is_empty(a),
    ensures
        view_of(a) == StoreView::empty(),
{
    assert(view_of(a).tables =~= StoreView::empty().tables);
    assert(view_of(a).multimaps =~= StoreView::empty().multimaps);
}

/// The range without bounds.
fn everything() -> (range: GeneralRange<Vec<u8>>)
    ensures
        range@ == ByteRange::full(),
{
    GeneralRange(Bound::Unbounded, Bound::Unbounded)
}

/// The snapshot of the tables `names` of what `tx` reads.
pub fn flatten_tables<R: ReadOperations>(tx: &R, names: &Vec<String>) -> (r: Result<
    JournalTransaction,
    DbError,
>)
    ensures
        match r {
            Ok(flattened) => flattens(view_of(*tx), names@, flattened@),
            Err(e) => e is KVError,
        },
{
    let mut operations: Vec<TransactionOperation> = Vec::new();
    let ghost mut scans: Seq<Seq<Pair>> = Seq::empty();
    let full = everything();
    let mut i: usize = 0;
    assert(operation_views(operations@) =~= flat(names@, scans, 0));
    while i < names.len()
        invariant
            i <= names.len(),
            full@ == ByteRange::full(),
            scans.len() == i,
            forall|j: int|
                0 <= j < i && !left_out(names@[j]@) ==> is_scan(
                    entries_of(view_of(*tx).table(names@[j]@)),
                    ByteRange::full(),
                    #[trigger] scans[j],
                ),
            operation_views(operations@) == flat(names@, scans, i as int),
        decreases names.len() - i,
    {
        let name = &names[i];
        let ghost before = operation_views(operations@);
        let ghost earlier = scans;
        if name.as_str().is_empty() || crate::document::str_eq(name.as_str(), JOURNAL_TABLE_NAME)
            || crate::document::str_eq(name.as_str(), TX_TABLE_NAME) {
            proof {
                scans = earlier.push(Seq::empty());
                lemma_flat_prefix(names@, earlier, scans, i as int);
            }
        } else {
            let items = match tx.range(name.as_str(), &full) {
                Ok(items) => items,
                Err(error) => {
                    return Err(DbError::KVError(error));
                },
            };
            operations.push(TransactionOperation::OpenTable(name.clone()));
            let ghost opened = operation_views(operations@);
            let mut k: usize = 0;
            assert(opened =~= before + seq![OperationView::OpenTable(name@)] + inserts(
                name@,
                pairs(items@).take(0),
            ));
            while k < items.len()
                invariant
                    k <= items.len(),
                    operation_views(operations@) == before + seq![OperationView::OpenTable(name@)]
                        + inserts(name@, pairs(items@).take(k as int)),
                decreases items.len() - k,
            {
                let ghost made = operation_views(operations@);
                let ghost scanned = pairs(items@);
                operations.push(
                    TransactionOperation::Insert {
                        table_name: name.clone(),
                        key_bytes: Bytes::from_slice(items[k].key()),
                        value_bytes: Bytes::from_slice(items[k].value()),
                    },
                );
                proof {
                    let insert = OperationView::Insert {
                        table_name: name@,
                        key_bytes: scanned[k as int].0,
                        value_bytes: scanned[k as int].1,
                    };
                    assert(operation_views(operations@) =~= made.push(insert));
                    assert(inserts(name@, scanned.take(k + 1)) =~= inserts(
                        name@,
                        scanned.take(k as int),
                    ).push(insert));
                }
                k += 1;
                assert(operation_views(operations@) =~= before + seq![
                    OperationView::OpenTable(name@),
                ] + inserts(name@, pairs(items@).take(k as int)));
            }
            proof {
                assert(pairs(items@).take(items@.len() as int) =~= pairs(items@));
                scans = earlier.push(pairs(items@));
                lemma_flat_prefix(names@, earlier, scans, i as int);
            }
        }
        i += 1;
    }
    operations.push(TransactionOperation::Commit);
    let flattened = JournalTransaction { last_tx_hash: [0u8; 32], operations };
    proof {
        assert(flattened@.last_tx_hash =~= zero_hash());
        assert(flattened@.operations =~= flat(names@, scans, names@.len() as int).push(
            OperationView::Commit,
        ));
    }
    Ok(flattened)
}

/// The operations that restore the first tables read only the scans of
/// those tables.
proof fn lemma_flat_prefix(names: Seq<String>, a: Seq<Seq<Pair>>, b: Seq<Seq<Pair>>, upto: int)
    requires
        0 <= upto <= a.len(),
        upto <= b.len(),
        forall|i: int| 0 <= i < upto ==> a[i] == b[i],
    ensures
        flat(names, a, upto) == flat(names, b, upto),
    decreases upto,
{
    if upto > 0 {
        lemma_flat_prefix(names, a, b, upto - 1);
    }
}

impl<K: KV> Journal<K> {
    /// The journal on a store.
    pub fn new(db: K) -> (journal: Self)
        ensures
            journal.db == db,
            journal.wf(),
            journal.queued() == Seq::<JournalTransactionView>::empty(),
    {
        Journal { db, transactions: TransactionQueue::new() }
    }

    /// The queue of the journal is in order.
    pub open spec fn wf(&self) -> bool {
        self.transactions.wf()
    }

    /// The transactions that were committed and are yet to be drained.
    pub open spec fn queued(&self) -> Seq<JournalTransactionView> {
        self.transactions.queued()
    }

    /// The names of the two tables of the journal.
    pub fn system_tables() -> (names: Vec<String>)
        ensures
            names@.len() == 2,
            names@[0]@ == JOURNAL_TABLE_NAME@,
            names@[1]@ == TX_TABLE_NAME@,
    {
        let mut names: Vec<String> = Vec::new();
        names.push(String::from_str(JOURNAL_TABLE_NAME));
        names.push(String::from_str(TX_TABLE_NAME));
        names
    }

    /// A journal on a store held in memory. Without an initial image the
    /// store is empty.
    pub fn in_memory(image: Option<&[u8]>) -> (r: Result<Self, DbError>)
        ensures
            match r {
                Ok(journal) => journal.wf() && journal.queued() == Seq::<
                    JournalTransactionView,
                >::empty() && (image is None ==> view_of(journal.db) == StoreView::empty()),
                Err(e) => e is KVError,
            },
    {
        match K::in_memory(image) {
            Ok(db) => {
                proof {
                    if image is None {
                        lemma_empty_view(db);
                    }
                }
                Ok(Journal { db, transactions: TransactionQueue::new() })
            },
            Err(error) => Err(DbError::KVError(error)),
        }
    }

    /// Queue a committed transaction behind those that wait. The journal
    /// holds both ends of its queue, so this never fails.
    pub fn register_transaction(&mut self, tx: JournalTransaction) -> (r: Result<(), DbError>)
        requires
            old(self).wf(),
        ensures
            r is Ok,
            final(self).wf(),
            final(self).db == old(self).db,
            final(self).queued() == old(self).queued().push(tx@),
    {
        self.transactions.push(&tx);
        Ok(())
    }

    /// Hand out the queued transactions, in the order of their commits,
    /// and leave the queue empty.
    pub fn drain_transactions(&mut self) -> (drained: Vec<JournalTransaction>)
        requires
            old(self).wf(),
        ensures
            final(self).wf(),
            final(self).db == old(self).db,
            final(self).queued() == Seq::<JournalTransactionView>::empty(),
            drained@.len() == old(self).queued().len(),
            forall|i: int| 0 <= i < drained@.len() ==> (#[trigger] drained@[i])@ == old(self).queued()[i],
    {
        self.transactions.drain()
    }

    /// A journaled write transaction.
    pub fn begin_write(&self) -> (r: Result<ActiveTransaction<K>, DbError>)
        ensures
            match r {
                Ok(tx) => {
                    &&& tx.wf()
                    &&& tx.tx is Some
                    &&& tx.store() == self.db.store()
                    &&& tx.base@ == view_of(self.db)
                    &&& tx.operations@.len() == 0
                },
                Err(DbError::KVError(_)) => true,
                Err(e) => e is JournalInvariant && !readable(view_of(self.db)),
            },
    {
        ActiveTransaction::new(self)
    }

    /// A snapshot of the store.
    pub fn begin_read(&self) -> (r: Result<K::ReadTransaction, DbError>)
        ensures
            match r {
                Ok(tx) => view_of(tx) == view_of(self.db),
                Err(e) => e is KVError,
            },
    {
        match self.db.read_tx() {
            Ok(tx) => {
                proof {
                    lemma_same_view(tx, self.db);
                }
                Ok(tx)
            },
            Err(error) => Err(DbError::KVError(error)),
        }
    }

    /// Where the journal stands.
    pub fn get_state(&self) -> (r: Result<JournalState, DbError>)
        ensures
            match r {
                Ok(state) => readable(view_of(self.db)) && state@ == state_spec(view_of(self.db)),
                Err(DbError::KVError(_)) => true,
                Err(e) => e is JournalInvariant && !readable(view_of(self.db)),
            },
    {
        let tx = self.begin_read()?;
        read_state(&tx)
    }

    /// The number of transactions in the journal.
    pub fn journal_tx_len(&self) -> (r: Result<u64, DbError>)
        ensures
            match r {
                Ok(n) => n == journal_length(view_of(self.db)),
                Err(e) => e is KVError,
            },
    {
        proof {
            lemma_journal_tables_are_named();
        }
        match self.db.count(JOURNAL_TABLE_NAME) {
            Ok(n) => Ok(n),
            Err(error) => Err(DbError::KVError(error)),
        }
    }

    /// The transaction of index `index`, if the journal has it.
    pub fn journal_tx_by_index(&self, index: u64) -> (r: Result<Option<JournalTransaction>, DbError>)
        ensures
            match r {
                Ok(Some(tx)) => stored_tx(view_of(self.db), index as nat) matches Some(bytes)
                    && JournalTransactionView::decoding(bytes) == Some(tx@),
                Ok(None) => stored_tx(view_of(self.db), index as nat) is None,
                Err(DbError::KVError(_)) => true,
                Err(e) => {
                    &&& e is CorruptRecord
                    &&& stored_tx(view_of(self.db), index as nat) matches Some(bytes)
                        && JournalTransactionView::decoding(bytes) is None
                },
            },
    {
        let tx = self.begin_read()?;
        tx_by_index(&tx, index)
    }

    /// The transactions of the journal, in the order of their indexes.
    ///
    /// The journal cannot be listed where it names a transaction that the
    /// store lacks, or holds one that cannot be read back.
    pub fn journal_transactions(&self) -> (r: Result<Vec<JournalTransaction>, DbError>)
        ensures
            match r {
                Ok(txs) => lists_journal(view_of(self.db), txs@),
                Err(DbError::KVError(_)) => true,
                Err(DbError::JournalInvariant) => lacks_transaction(view_of(self.db)),
                Err(e) => e is CorruptRecord && holds_unreadable(view_of(self.db)),
            },
    {
        let tx = self.begin_read()?;
        proof {
            lemma_journal_tables_are_named();
        }
        let items = match tx.range(JOURNAL_TABLE_NAME, &everything()) {
            Ok(items) => items,
            Err(error) => {
                return Err(DbError::KVError(error));
            },
        };
        let mut txs: Vec<JournalTransaction> = Vec::new();
        let mut i: usize = 0;
        while i < items.len()
            invariant
                i <= items.len(),
                TX_TABLE_NAME@.len() > 0,
                view_of(tx) == view_of(self.db),
                is_scan(entries_of(journal_table(view_of(self.db))), ByteRange::full(), pairs(items@)),
                txs@.len() == i,
                forall|j: int|
                    0 <= j < i ==> stands_for(
                        view_of(self.db),
                        pairs(items@)[j].1,
                        (#[trigger] txs@[j])@,
                    ),
            decreases items.len() - i,
        {
            let ghost entry = pairs(items@)[i as int];
            assert(entries_of(journal_table(view_of(self.db))).contains(entry));
            let found = match tx.get(TX_TABLE_NAME, items[i].value()) {
                Ok(found) => found,
                Err(error) => {
                    return Err(DbError::KVError(error));
                },
            };
            let bytes = match found {
                Some(bytes) => bytes,
                None => {
                    assert(names_lost(view_of(self.db), entry.0));
                    return Err(DbError::JournalInvariant);
                },
            };
            let journal_tx = match JournalTransaction::decode(bytes.as_slice()) {
                Some(journal_tx) => journal_tx,
                None => {
                    assert(names_unreadable(view_of(self.db), entry.0));
                    return Err(DbError::CorruptRecord);
                },
            };
            txs.push(journal_tx);
            i += 1;
        }
        proof {
            let scanned = pairs(items@);
            assert(is_scan(entries_of(journal_table(view_of(self.db))), ByteRange::full(), scanned));
            assert forall|j: int| 0 <= j < scanned.len() implies stands_for(
                view_of(self.db),
                scanned[j].1,
                (#[trigger] txs@[j])@,
            ) by {}
        }
        Ok(txs)
    }

    /// Append a transaction to the journal: perform its operations and
    /// store it as the next transaction, in one transaction of the store.
    ///
    /// A transaction that cannot be appended leaves the store as it is.
    /// Where the store fails, the transaction is appended in full or not
    /// at all. An appended transaction is queued.
    pub fn append_tx(&mut self, journal_tx: &JournalTransaction) -> (r: Result<(), DbError>)
        requires
            old(self).wf(),
        ensures
            final(self).wf(),
            final(self).db.store() == old(self).db.store(),
            match r {
                Ok(_) => {
                    &&& append_spec(view_of(old(self).db), journal_tx@) == Ok::<StoreView, DbError>(
                        view_of(final(self).db),
                    )
                    &&& final(self).queued() == old(self).queued().push(journal_tx@)
                },
                Err(DbError::KVError(_)) => {
                    &&& final(self).queued() == old(self).queued()
                    &&& view_of(final(self).db) == view_of(old(self).db) || append_spec(
                        view_of(old(self).db),
                        journal_tx@,
                    ) == Ok::<StoreView, DbError>(view_of(final(self).db))
                },
                Err(e) => {
                    &&& append_spec(view_of(old(self).db), journal_tx@) == Err::<StoreView, DbError>(e)
                    &&& view_of(final(self).db) == view_of(old(self).db)
                    &&& final(self).queued() == old(self).queued()
                },
            },
    {
        let mut tx = match self.db.write_tx() {
            Ok(tx) => tx,
            Err(error) => {
                return Err(DbError::KVError(error));
            },
        };
        proof {
            lemma_same_view(tx, self.db);
        }
        match append_in(&mut tx, journal_tx) {
            Ok(_) => {},
            Err(error) => {
                proof {
                    if !(error is KVError) {
                        lemma_append_error(view_of(self.db), journal_tx@);
                    }
                }
                let _ = tx.abort();
                return Err(error);
            },
        }
        let ghost appended = tx;
        match self.db.commit(tx) {
            Ok(_) => {
                proof {
                    lemma_same_view(self.db, appended);
                }
                self.transactions.push(journal_tx);
                Ok(())
            },
            Err(error) => {
                proof {
                    if crate::kv::same_contents(self.db, appended) {
                        lemma_same_view(self.db, appended);
                    } else {
                        lemma_same_view(self.db, old(self).db);
                    }
                }
                Err(DbError::KVError(error))
            },
        }
    }

    /// A journal in memory that holds what this journal held after its
    /// transaction of index `index`: the transactions up to that index,
    /// appended to an empty store. Each of them is queued in the new
    /// journal, in the order of their indexes.
    pub fn at_index(&self, index: u64) -> (r: Result<Self, DbError>)
        ensures
            match r {
                Ok(journal) => {
                    &&& journal.wf()
                    &&& replayed(view_of(self.db), (index + 1) as nat) == Ok::<StoreView, DbError>(
                        view_of(journal.db),
                    )
                    &&& journal.queued() == stored_transactions(
                        view_of(self.db),
                        (index + 1) as nat,
                    )
                },
                Err(DbError::KVError(_)) => true,
                Err(e) => replayed(view_of(self.db), (index + 1) as nat) == Err::<StoreView, DbError>(e),
            },
    {
        let mut out = Self::in_memory(None)?;
        let source = self.begin_read()?;
        let mut i: u128 = 0;
        assert(out.queued() =~= stored_transactions(view_of(self.db), 0));
        while i <= index as u128
            invariant
                i <= index + 1,
                out.wf(),
                view_of(source) == view_of(self.db),
                replayed(view_of(self.db), i as nat) == Ok::<StoreView, DbError>(view_of(out.db)),
                out.queued() == stored_transactions(view_of(self.db), i as nat),
            decreases index + 1 - i,
        {
            let ghost queued = out.queued();
            let journal_tx = match tx_by_index(&source, i as u64) {
                Ok(Some(journal_tx)) => journal_tx,
                Ok(None) => {
                    proof {
                        lemma_replayed_fails(view_of(self.db), (i + 1) as nat, (index + 1) as nat);
                    }
                    return Err(DbError::JournalInvariant);
                },
                Err(error) => {
                    proof {
                        if !(error is KVError) {
                            lemma_replayed_fails(
                                view_of(self.db),
                                (i + 1) as nat,
                                (index + 1) as nat,
                            );
                        }
                    }
                    return Err(error);
                },
            };
            match out.append_tx(&journal_tx) {
                Ok(_) => {},
                Err(error) => {
                    proof {
                        if !(error is KVError) {
                            lemma_replayed_fails(
                                view_of(self.db),
                                (i + 1) as nat,
                                (index + 1) as nat,
                            );
                        }
                    }
                    return Err(error);
                },
            }
            proof {
                assert(queued.push(journal_tx@) =~= stored_transactions(
                    view_of(self.db),
                    (i + 1) as nat,
                ));
            }
            i += 1;
        }
        Ok(out)
    }

    /// A snapshot of the store as one transaction: for each table but
    /// those of the journal, its opening and one insert for each of its
    /// entries; then the commit. The snapshot stands on its own: the hash
    /// before it is the zero hash.
    pub fn flatten(&self) -> (r: Result<JournalTransaction, DbError>)
        ensures
            match r {
                Ok(flattened) => exists|names: Seq<String>|
                    #[trigger] crate::kv::lists_tables(self.db, names) && flattens(
                        view_of(self.db),
                        names,
                        flattened@,
                    ),
                Err(e) => e is KVError,
            },
    {
        let tx = match self.db.read_tx() {
            Ok(tx) => tx,
            Err(error) => {
                return Err(DbError::KVError(error));
            },
        };
        proof {
            lemma_same_view(tx, self.db);
        }
        let names = match tx.list_tables() {
            Ok(names) => names,
            Err(error) => {
                return Err(DbError::KVError(error));
            },
        };
        proof {
            assert forall|n: Seq<char>| (#[trigger] self.db.table(n)).dom().len() > 0 implies crate::kv::named(
                names@,
                n,
            ) by {
                assert(tx.table(n) == self.db.table(n));
            }
            assert(crate::kv::lists_tables(self.db, names@));
        }
        flatten_tables(&tx, &names)
    }

    /// A snapshot of what the journal held after its transaction of index
    /// `index`: of every table that held an entry then, but those of the
    /// journal.
    pub fn flatten_at_index(&self, index: u64) -> (r: Result<JournalTransaction, DbError>)
        ensures
            match r {
                Ok(flattened) => exists|view: StoreView, names: Seq<String>|
                    {
                        &&& replayed(view_of(self.db), (index + 1) as nat) == Ok::<StoreView, DbError>(
                            view,
                        )
                        &&& lists_tables_of(view, names)
                        &&& #[trigger] flattens(view, names, flattened@)
                    },
                Err(DbError::KVError(_)) => true,
                Err(e) => replayed(view_of(self.db), (index + 1) as nat) == Err::<StoreView, DbError>(e),
            },
    {
        let journal = self.at_index(index)?;
        match journal.flatten() {
            Ok(flattened) => {
                proof {
                    let names = choose|names: Seq<String>|
                        #[trigger] crate::kv::lists_tables(journal.db, names) && flattens(
                            view_of(journal.db),
                            names,
                            flattened@,
                        );
                    assert(flattens(view_of(journal.db), names, flattened@));
                    assert forall|n: Seq<char>|
                        (#[trigger] view_of(journal.db).table(n)).dom().len() > 0 implies crate::kv::named(
                        names,
                        n,
                    ) by {
                        assert(journal.db.table(n) == view_of(journal.db).table(n));
                    }
                    assert(lists_tables_of(view_of(journal.db), names));
                }
                Ok(flattened)
            },
            Err(error) => Err(error),
        }
    }
}

/// Whether `names` names the tables of the contents `view`: each table
/// that holds an entry, and no table twice.
pub open spec fn lists_tables_of(view: StoreView, names: Seq<String>) -> bool {
    &&& crate::kv::distinct_names(names)
    &&& forall|n: Seq<char>| (#[trigger] view.table(n)).dom().len() > 0 ==> crate::kv::named(names, n)
}

/// Whether `tx` is the transaction that the journal stores under `hash`.
pub open spec fn stands_for(view: StoreView, hash: Seq<u8>, tx: JournalTransactionView) -> bool {
    transactions_table(view).dom().contains(hash) && JournalTransactionView::decoding(
        transactions_table(view)[hash],
    ) == Some(tx)
}

/// Whether the journal table has under `key` a hash that the transactions
/// table lacks.
pub open spec fn names_lost(view: StoreView, key: Seq<u8>) -> bool {
    journal_table(view).dom().contains(key) && !transactions_table(view).dom().contains(
        journal_table(view)[key],
    )
}

/// Whether the journal names a transaction that the store lacks.
pub open spec fn lacks_transaction(view: StoreView) -> bool {
    exists|key: Seq<u8>| #[trigger] names_lost(view, key)
}

/// Whether the journal table has under `key` the hash of a stored
/// transaction that cannot be read back.
pub open spec fn names_unreadable(view: StoreView, key: Seq<u8>) -> bool {
    &&& journal_table(view).dom().contains(key)
    &&& transactions_table(view).dom().contains(journal_table(view)[key])
    &&& JournalTransactionView::decoding(transactions_table(view)[journal_table(view)[key]]) is None
}

/// Whether the journal holds a transaction that cannot be read back.
pub open spec fn holds_unreadable(view: StoreView) -> bool {
    exists|key: Seq<u8>| #[trigger] names_unreadable(view, key)
}

/// Whether `txs` are the transactions of the journal in `view`, in the
/// order of their indexes.
pub open spec fn lists_journal(view: StoreView, txs: Seq<JournalTransaction>) -> bool {
    exists|items: Seq<Pair>|
        {
            &&& #[trigger] is_scan(entries_of(journal_table(view)), ByteRange::full(), items)
            &&& txs.len() == items.len()
            &&& forall|i: int| 0 <= i < items.len() ==> stands_for(view, items[i].1, (#[trigger] txs[i])@)
        }
}

/// The transaction of index `index` of the journal that `tx` reads, if the
/// journal has it.
pub fn tx_by_index<R: ReadOperations>(tx: &R, index: u64) -> (r: Result<
    Option<JournalTransaction>,
    DbError,
>)
    ensures
        match r {
            Ok(Some(found)) => stored_tx(view_of(*tx), index as nat) matches Some(bytes)
                && JournalTransactionView::decoding(bytes) == Some(found@),
            Ok(None) => stored_tx(view_of(*tx), index as nat) is None,
            Err(DbError::KVError(_)) => true,
            Err(e) => {
                &&& e is CorruptRecord
                &&& stored_tx(view_of(*tx), index as nat) matches Some(bytes)
                    && JournalTransactionView::decoding(bytes) is None
            },
        },
{
    proof {
        lemma_journal_tables_are_named();
    }
    let key = encode_be(index as u128, 8);
    let hash = match tx.get(JOURNAL_TABLE_NAME, key.as_slice()) {
        Ok(Some(hash)) => hash,
        Ok(None) => {
            return Ok(None);
        },
        Err(error) => {
            return Err(DbError::KVError(error));
        },
    };
    let bytes = match tx.get(TX_TABLE_NAME, hash.as_slice()) {
        Ok(Some(bytes)) => bytes,
        Ok(None) => {
            return Ok(None);
        },
        Err(error) => {
            return Err(DbError::KVError(error));
        },
    };
    match JournalTransaction::decode(bytes.as_slice()) {
        Some(found) => Ok(Some(found)),
        None => Err(DbError::CorruptRecord),
    }
}

/// The keys of `items`.
pub open spec fn keys_of(items: Seq<Pair>) -> Seq<Seq<u8>> {
    Seq::new(items.len(), |i: int| items[i].0)
}

/// The operations of a transaction that sets the value of one key.
pub open spec fn insert_into(name: Seq<char>, key: Seq<u8>, value: Seq<u8>) -> Seq<OperationView> {
    seq![
        OperationView::OpenTable(name),
        OperationView::Insert { table_name: name, key_bytes: key, value_bytes: value },
    ]
}

/// The operations of a transaction that removes one key.
pub open spec fn remove_from(name: Seq<char>, key: Seq<u8>) -> Seq<OperationView> {
    seq![OperationView::OpenTable(name), OperationView::Remove(name, key)]
}

/// Whether `before` is what the table `name` of the contents `view` holds
/// for `key`.
pub open spec fn held_before(
    view: StoreView,
    name: Seq<char>,
    key: Seq<u8>,
    before: Option<Bytes>,
) -> bool {
    match before {
        Some(value) => view.table(name).dom().contains(key) && view.table(name)[key] == value@,
        None => !view.table(name).dom().contains(key),
    }
}

/// The byte strings of a list, as contracts see them.
pub open spec fn bytes_views(list: Seq<Bytes>) -> Seq<Seq<u8>> {
    Seq::new(list.len(), |i: int| list[i]@)
}

/// The entries of a list, as contracts see them.
pub open spec fn entry_views(list: Seq<(Bytes, Bytes)>) -> Seq<Pair> {
    Seq::new(list.len(), |i: int| (list[i].0@, list[i].1@))
}

impl<K: KV> Journal<K> {
    /// Set the value of a key in a table, in a journaled transaction of
    /// its own, and hand out the value that the key had. The transaction
    /// is queued.
    ///
    /// The empty string names no table and is refused. Where the store
    /// fails, the transaction is committed in full or not at all, and
    /// nothing is queued.
    pub fn insert(&mut self, table_name: &str, key: &Bytes, value: &Bytes) -> (r: Result<
        Option<Bytes>,
        DbError,
    >)
        requires
            old(self).wf(),
        ensures
            final(self).wf(),
            final(self).db.store() == old(self).db.store(),
            table_name@.len() == 0 ==> r is Err && r->Err_0 is JournalInvariant,
            match r {
                Ok(before) => {
                    &&& held_before(view_of(old(self).db), table_name@, key@, before)
                    &&& commit_spec(view_of(old(self).db), insert_into(table_name@, key@, value@))
                        == Ok::<StoreView, DbError>(view_of(final(self).db))
                    &&& final(self).queued() == old(self).queued().push(
                        committed_record(
                            state_spec(view_of(old(self).db)),
                            insert_into(table_name@, key@, value@),
                        ),
                    )
                },
                Err(DbError::KVError(_)) => {
                    &&& final(self).queued() == old(self).queued()
                    &&& view_of(final(self).db) == view_of(old(self).db) || commit_spec(
                        view_of(old(self).db),
                        insert_into(table_name@, key@, value@),
                    ) == Ok::<StoreView, DbError>(view_of(final(self).db))
                },
                Err(e) => {
                    &&& e is JournalInvariant
                    &&& table_name@.len() == 0 || !readable(view_of(old(self).db))
                    &&& view_of(final(self).db) == view_of(old(self).db)
                    &&& final(self).queued() == old(self).queued()
                },
            },
    {
        if table_name.is_empty() {
            return Err(DbError::JournalInvariant);
        }
        let mut tx = self.begin_write()?;
        let table = tx.open_table(table_name)?;
        let before = table.insert_bytes(&mut tx, key, value)?;
        proof {
            assert(operation_views(tx.operations@) =~= insert_into(table_name@, key@, value@));
        }
        match tx.commit(self) {
            Ok(_) => Ok(before),
            Err(error) => Err(error),
        }
    }

    /// Remove a key from a table, in a journaled transaction of its own,
    /// and hand out the value that the key had. The transaction is queued.
    ///
    /// The empty string names no table and is refused. Where the store
    /// fails, the transaction is committed in full or not at all, and
    /// nothing is queued.
    pub fn remove(&mut self, table_name: &str, key: &Bytes) -> (r: Result<Option<Bytes>, DbError>)
        requires
            old(self).wf(),
        ensures
            final(self).wf(),
            final(self).db.store() == old(self).db.store(),
            table_name@.len() == 0 ==> r is Err && r->Err_0 is JournalInvariant,
            match r {
                Ok(before) => {
                    &&& held_before(view_of(old(self).db), table_name@, key@, before)
                    &&& commit_spec(view_of(old(self).db), remove_from(table_name@, key@)) == Ok::<
                        StoreView,
                        DbError,
                    >(view_of(final(self).db))
                    &&& final(self).queued() == old(self).queued().push(
                        committed_record(
                            state_spec(view_of(old(self).db)),
                            remove_from(table_name@, key@),
                        ),
                    )
                },
                Err(DbError::KVError(_)) => {
                    &&& final(self).queued() == old(self).queued()
                    &&& view_of(final(self).db) == view_of(old(self).db) || commit_spec(
                        view_of(old(self).db),
                        remove_from(table_name@, key@),
                    ) == Ok::<StoreView, DbError>(view_of(final(self).db))
                },
                Err(e) => {
                    &&& e is JournalInvariant
                    &&& table_name@.len() == 0 || !readable(view_of(old(self).db))
                    &&& view_of(final(self).db) == view_of(old(self).db)
                    &&& final(self).queued() == old(self).queued()
                },
            },
    {
        if table_name.is_empty() {
            return Err(DbError::JournalInvariant);
        }
        let mut tx = self.begin_write()?;
        let table = tx.open_table(table_name)?;
        let before = table.remove_bytes(&mut tx, key)?;
        proof {
            assert(operation_views(tx.operations@) =~= remove_from(table_name@, key@));
        }
        match tx.commit(self) {
            Ok(_) => Ok(before),
            Err(error) => Err(error),
        }
    }

    /// The value of a key in a table. The empty string names no table and
    /// is refused.
    pub fn get(&self, table_name: &str, key: &Bytes) -> (r: Result<Option<Bytes>, DbError>)
        ensures
            match r {
                Ok(Some(value)) => table_name@.len() > 0 && self.db.table(table_name@).dom().contains(
                    key@,
                ) && self.db.table(
                    table_name@,
                )[key@] == value@,
                Ok(None) => table_name@.len() > 0 && !self.db.table(table_name@).dom().contains(key@),
                Err(DbError::JournalInvariant) => table_name@.len() == 0,
                Err(e) => e is KVError && table_name@.len() > 0,
            },
    {
        if table_name.is_empty() {
            return Err(DbError::JournalInvariant);
        }
        match self.db.get(table_name, key.as_slice()) {
            Ok(Some(value)) => Ok(Some(Bytes::new(value))),
            Ok(None) => Ok(None),
            Err(error) => Err(DbError::KVError(error)),
        }
    }

    /// The number of entries of a table. The empty string names no table
    /// and is refused.
    pub fn count(&self, table_name: &str) -> (r: Result<u64, DbError>)
        ensures
            match r {
                Ok(n) => table_name@.len() > 0 && n == self.db.table(table_name@).dom().len(),
                Err(DbError::JournalInvariant) => table_name@.len() == 0,
                Err(e) => e is KVError && table_name@.len() > 0,
            },
    {
        if table_name.is_empty() {
            return Err(DbError::JournalInvariant);
        }
        match self.db.count(table_name) {
            Ok(n) => Ok(n),
            Err(error) => Err(DbError::KVError(error)),
        }
    }

    /// The entries of a table, in ascending order of their keys. The empty
    /// string names no table and is refused.
    pub fn entries(&self, table_name: &str) -> (r: Result<Vec<(Bytes, Bytes)>, DbError>)
        ensures
            match r {
                Ok(list) => table_name@.len() > 0 && is_scan(
                    entries_of(self.db.table(table_name@)),
                    ByteRange::full(),
                    entry_views(list@),
                ),
                Err(DbError::JournalInvariant) => table_name@.len() == 0,
                Err(e) => e is KVError && table_name@.len() > 0,
            },
    {
        if table_name.is_empty() {
            return Err(DbError::JournalInvariant);
        }
        let items = match self.db.range(table_name, &everything()) {
            Ok(items) => items,
            Err(error) => {
                return Err(DbError::KVError(error));
            },
        };
        let mut list: Vec<(Bytes, Bytes)> = Vec::new();
        let mut i: usize = 0;
        while i < items.len()
            invariant
                i <= items.len(),
                list@.len() == i,
                forall|j: int| 0 <= j < i ==> (#[trigger] list@[j]).0@ == pairs(items@)[j].0,
                forall|j: int| 0 <= j < i ==> (#[trigger] list@[j]).1@ == pairs(items@)[j].1,
            decreases items.len() - i,
        {
            list.push((Bytes::from_slice(items[i].key()), Bytes::from_slice(items[i].value())));
            i += 1;
        }
        assert(entry_views(list@) =~= pairs(items@));
        Ok(list)
    }

    /// The keys of a table, in ascending order. The empty string names no
    /// table and is refused.
    pub fn list_keys(&self, table_name: &str) -> (r: Result<Vec<Bytes>, DbError>)
        ensures
            match r {
                Ok(keys) => table_name@.len() > 0 && exists|items: Seq<Pair>|
                    #[trigger] is_scan(
                        entries_of(self.db.table(table_name@)),
                        ByteRange::full(),
                        items,
                    ) && bytes_views(keys@) == keys_of(items),
                Err(DbError::JournalInvariant) => table_name@.len() == 0,
                Err(e) => e is KVError && table_name@.len() > 0,
            },
    {
        let mut list = self.entries(table_name)?;
        let ghost items = entry_views(list@);
        let mut keys: Vec<Bytes> = Vec::new();
        let mut i: usize = 0;
        while i < list.len()
            invariant
                i <= list.len(),
                items == entry_views(list@),
                keys@.len() == i,
                forall|j: int| 0 <= j < i ==> (#[trigger] keys@[j])@ == items[j].0,
            decreases list.len() - i,
        {
            keys.push(list[i].0.copy());
            i += 1;
        }
        assert(bytes_views(keys@) =~= keys_of(items));
        Ok(keys)
    }
}

/// There is one choice for each entry of the list.
pub open spec fn one_for_each(list: Seq<(Bytes, Bytes)>, choices: Seq<bool>) -> bool {
    choices.len() == list.len()
}

/// The position lies in the list or at its end.
pub open spec fn within(list: Seq<(Bytes, Bytes)>, position: int) -> bool {
    0 <= position <= list.len()
}

/// The first `upto` of `items` that were selected.
pub open spec fn selected(items: Seq<Pair>, choices: Seq<bool>, upto: int) -> Seq<Pair>
    decreases upto,
{
    if upto <= 0 {
        Seq::empty()
    } else if choices[upto - 1] {
        selected(items, choices, upto - 1).push(items[upto - 1])
    } else {
        selected(items, choices, upto - 1)
    }
}

impl<K: KV> Journal<K> {
    /// The entries of a table that `selector` selects, in ascending order
    /// of their keys.
    pub fn find_many<S: Fn(&Bytes, &Bytes) -> bool>(&self, table_name: &str, selector: S) -> (r:
        Result<Vec<(Bytes, Bytes)>, DbError>)
        requires
            forall|key: &Bytes, value: &Bytes| call_requires(selector, (key, value)),
        ensures
            match r {
                Ok(found) => table_name@.len() > 0 && exists|list: Seq<(Bytes, Bytes)>, choices: Seq<bool>|
                    {
                        &&& is_scan(
                            entries_of(self.db.table(table_name@)),
                            ByteRange::full(),
                            entry_views(list),
                        )
                        &&& #[trigger] one_for_each(list, choices)
                        &&& forall|i: int|
                            0 <= i < list.len() ==> call_ensures(
                                selector,
                                (&list[i].0, &list[i].1),
                                #[trigger] choices[i],
                            )
                        &&& entry_views(found@) == selected(
                            entry_views(list),
                            choices,
                            list.len() as int,
                        )
                    },
                Err(DbError::JournalInvariant) => table_name@.len() == 0,
                Err(e) => e is KVError && table_name@.len() > 0,
            },
    {
        let list = self.entries(table_name)?;
        let mut found: Vec<(Bytes, Bytes)> = Vec::new();
        let ghost mut choices: Seq<bool> = Seq::empty();
        let mut i: usize = 0;
        assert(entry_views(found@) =~= selected(entry_views(list@), choices, 0));
        while i < list.len()
            invariant
                i <= list.len(),
                choices.len() == i,
                forall|key: &Bytes, value: &Bytes| call_requires(selector, (key, value)),
                forall|j: int|
                    0 <= j < i ==> call_ensures(
                        selector,
                        (&list@[j].0, &list@[j].1),
                        #[trigger] choices[j],
                    ),
                entry_views(found@) == selected(entry_views(list@), choices, i as int),
            decreases list.len() - i,
        {
            let chosen = selector(&list[i].0, &list[i].1);
            let ghost earlier = choices;
            let ghost before = entry_views(found@);
            if chosen {
                found.push((list[i].0.copy(), list[i].1.copy()));
            }
            proof {
                choices = choices.push(chosen);
                lemma_selected_prefix(entry_views(list@), earlier, choices, i as int);
                if chosen {
                    assert(entry_views(found@) =~= before.push(entry_views(list@)[i as int]));
                }
            }
            i += 1;
        }
        assert(one_for_each(list@, choices));
        Ok(found)
    }

    /// The first entry of a table that `selector` selects, in ascending
    /// order of the keys.
    pub fn find_one<S: Fn(&Bytes, &Bytes) -> bool>(&self, table_name: &str, selector: S) -> (r:
        Result<Option<(Bytes, Bytes)>, DbError>)
        requires
            forall|key: &Bytes, value: &Bytes| call_requires(selector, (key, value)),
        ensures
            match r {
                Ok(found) => table_name@.len() > 0 && exists|list: Seq<(Bytes, Bytes)>, position: int|
                    {
                        &&& is_scan(
                            entries_of(self.db.table(table_name@)),
                            ByteRange::full(),
                            entry_views(list),
                        )
                        &&& #[trigger] within(list, position)
                        &&& forall|i: int|
                            0 <= i < position ==> call_ensures(
                                selector,
                                (&(#[trigger] list[i]).0, &list[i].1),
                                false,
                            )
                        &&& match found {
                            Some(entry) => position < list.len() && call_ensures(
                                selector,
                                (&list[position].0, &list[position].1),
                                true,
                            ) && entry.0@ == list[position].0@ && entry.1@ == list[position].1@,
                            None => position == list.len(),
                        }
                    },
                Err(DbError::JournalInvariant) => table_name@.len() == 0,
                Err(e) => e is KVError && table_name@.len() > 0,
            },
    {
        let list = self.entries(table_name)?;
        let mut i: usize = 0;
        while i < list.len()
            invariant
                i <= list.len(),
                table_name@.len() > 0,
                is_scan(
                    entries_of(self.db.table(table_name@)),
                    ByteRange::full(),
                    entry_views(list@),
                ),
                forall|key: &Bytes, value: &Bytes| call_requires(selector, (key, value)),
                forall|j: int|
                    0 <= j < i ==> call_ensures(
                        selector,
                        (&(#[trigger] list@[j]).0, &list@[j].1),
                        false,
                    ),
            decreases list.len() - i,
        {
            let chosen = selector(&list[i].0, &list[i].1);
            if chosen {
                let entry = (list[i].0.copy(), list[i].1.copy());
                assert(within(list@, i as int));
                return Ok(Some(entry));
            }
            i += 1;
        }
        assert(within(list@, list@.len() as int));
        Ok(None)
    }
}

/// The selected among the first items depend on the first choices only.
proof fn lemma_selected_prefix(items: Seq<Pair>, a: Seq<bool>, b: Seq<bool>, upto: int)
    requires
        0 <= upto <= a.len(),
        upto <= b.len(),
        forall|i: int| 0 <= i < upto ==> a[i] == b[i],
    ensures
        selected(items, a, upto) == selected(items, b, upto),
    decreases upto,
{
    if upto > 0 {
        lemma_selected_prefix(items, a, b, upto - 1);
    }
}

/// The views of a list of transactions.
pub open spec fn transaction_views(txs: Seq<JournalTransaction>) -> Seq<JournalTransactionView> {
    Seq::new(txs.len(), |i: int| txs[i]@)
}

/// What appending the first `upto` of `txs`, one after the other, makes of
/// the contents `view`, or the reason why one of them cannot be appended.
pub open spec fn appended_all(view: StoreView, txs: Seq<JournalTransactionView>, upto: int) -> Result<
    StoreView,
    DbError,
>
    decreases upto,
{
    if upto <= 0 {
        Ok(view)
    } else {
        match appended_all(view, txs, upto - 1) {
            Err(e) => Err(e),
            Ok(before) => append_spec(before, txs[upto - 1]),
        }
    }
}

/// What attempting the first `upto` of `txs`, one after the other, makes
/// of the contents `view`: a transaction that can be appended is appended,
/// and one that cannot is passed over.
pub open spec fn attempted_all(view: StoreView, txs: Seq<JournalTransactionView>, upto: int) -> StoreView
    decreases upto,
{
    if upto <= 0 {
        view
    } else {
        let before = attempted_all(view, txs, upto - 1);
        match append_spec(before, txs[upto - 1]) {
            Ok(after) => after,
            Err(_) => before,
        }
    }
}

/// The first `upto` of `txs` that were appended, as `applied` says of each.
pub open spec fn taken(txs: Seq<JournalTransactionView>, applied: Seq<bool>, upto: int) -> Seq<
    JournalTransactionView,
>
    decreases upto,
{
    if upto <= 0 {
        Seq::empty()
    } else if applied[upto - 1] {
        taken(txs, applied, upto - 1).push(txs[upto - 1])
    } else {
        taken(txs, applied, upto - 1)
    }
}

/// Which of the first transactions were appended depends on what is said
/// of the first only.
pub proof fn lemma_taken_prefix(txs: Seq<JournalTransactionView>, a: Seq<bool>, b: Seq<bool>, upto: int)
    requires
        0 <= upto <= a.len(),
        upto <= b.len(),
        forall|i: int| 0 <= i < upto ==> a[i] == b[i],
    ensures
        taken(txs, a, upto) == taken(txs, b, upto),
    decreases upto,
{
    if upto > 0 {
        lemma_taken_prefix(txs, a, b, upto - 1);
    }
}

/// Whether the transaction at `position` is appended when `txs` are
/// attempted on the contents `view`.
pub open spec fn is_applied(
    view: StoreView,
    txs: Seq<JournalTransactionView>,
    position: int,
) -> bool {
    append_spec(attempted_all(view, txs, position), txs[position]) is Ok
}

/// Where appending fails at one of the first transactions, it fails in the
/// same way however many more transactions there are.
pub proof fn lemma_appended_all_fails(view: StoreView, txs: Seq<JournalTransactionView>, i: int, j: int)
    requires
        0 <= i <= j,
        appended_all(view, txs, i) is Err,
    ensures
        appended_all(view, txs, j) == appended_all(view, txs, i),
    decreases j - i,
{
    if i < j {
        lemma_appended_all_fails(view, txs, i, j - 1);
    }
}

/// What merging makes of the journal in `view`: the journal as it was
/// before its transaction of index `divergent_index`, with the canonical
/// transactions appended, and then with each pending transaction that can
/// still be appended.
pub open spec fn merged(
    view: StoreView,
    divergent_index: nat,
    canonical: Seq<JournalTransactionView>,
    pending: Seq<JournalTransactionView>,
) -> Result<StoreView, DbError> {
    match replayed(view, divergent_index) {
        Err(e) => Err(e),
        Ok(common) => match appended_all(common, canonical, canonical.len() as int) {
            Err(e) => Err(e),
            Ok(agreed) => Ok(attempted_all(agreed, pending, pending.len() as int)),
        },
    }
}

impl<K: KV> Journal<K> {
    /// A journal in memory that holds what this journal held before its
    /// transaction of index `index`.
    fn before_index(&self, index: u64) -> (r: Result<Self, DbError>)
        ensures
            match r {
                Ok(journal) => {
                    &&& journal.wf()
                    &&& replayed(view_of(self.db), index as nat) == Ok::<StoreView, DbError>(
                        view_of(journal.db),
                    )
                    &&& journal.queued() == stored_transactions(view_of(self.db), index as nat)
                },
                Err(DbError::KVError(_)) => true,
                Err(e) => replayed(view_of(self.db), index as nat) == Err::<StoreView, DbError>(e),
            },
    {
        if index == 0 {
            let r = Self::in_memory(None);
            proof {
                if r is Ok {
                    assert(r->Ok_0.queued() =~= stored_transactions(view_of(self.db), 0));
                }
            }
            r
        } else {
            self.at_index(index - 1)
        }
    }

    /// Merge a divergent journal: a journal in memory that holds what this
    /// journal held before its transaction of index `divergent_index`,
    /// with the transactions `canonical` appended, and then with each of
    /// the transactions `pending` that can still be appended. The result
    /// says of each pending transaction whether it was appended. Every
    /// transaction that was appended is queued in the new journal, in the
    /// order in which it was appended.
    ///
    /// The merge is refused where the journal lacks a transaction before
    /// `divergent_index` and where a canonical transaction cannot be
    /// appended.
    pub fn merge(
        &self,
        divergent_index: u64,
        canonical: Vec<JournalTransaction>,
        pending: Vec<JournalTransaction>,
    ) -> (r: Result<(Self, Vec<bool>), DbError>)
        ensures
            match r {
                Ok((journal, applied)) => {
                    &&& journal.wf()
                    &&& merged(
                        view_of(self.db),
                        divergent_index as nat,
                        transaction_views(canonical@),
                        transaction_views(pending@),
                    ) == Ok::<StoreView, DbError>(view_of(journal.db))
                    &&& journal.queued() == stored_transactions(
                        view_of(self.db),
                        divergent_index as nat,
                    ) + transaction_views(canonical@) + taken(
                        transaction_views(pending@),
                        applied@,
                        pending@.len() as int,
                    )
                    &&& applied@.len() == pending@.len()
                    &&& forall|i: int|
                        0 <= i < pending@.len() ==> #[trigger] applied@[i] == is_applied(
                            appended_all(
                                replayed(view_of(self.db), divergent_index as nat)->Ok_0,
                                transaction_views(canonical@),
                                canonical@.len() as int,
                            )->Ok_0,
                            transaction_views(pending@),
                            i,
                        )
                },
                Err(DbError::KVError(_)) => true,
                Err(e) => merged(
                    view_of(self.db),
                    divergent_index as nat,
                    transaction_views(canonical@),
                    transaction_views(pending@),
                ) == Err::<StoreView, DbError>(e),
            },
    {
        let mut out = self.before_index(divergent_index)?;
        let ghost common = view_of(out.db);
        let ghost agreed_on = transaction_views(canonical@);
        let ghost replayed_ones = out.queued();
        let mut i: usize = 0;
        assert(out.queued() =~= replayed_ones + agreed_on.take(0));
        while i < canonical.len()
            invariant
                i <= canonical.len(),
                out.wf(),
                agreed_on == transaction_views(canonical@),
                out.queued() == replayed_ones + agreed_on.take(i as int),
                replayed(view_of(self.db), divergent_index as nat) == Ok::<StoreView, DbError>(common),
                appended_all(common, agreed_on, i as int) == Ok::<StoreView, DbError>(view_of(out.db)),
            decreases canonical.len() - i,
        {
            match out.append_tx(&canonical[i]) {
                Ok(_) => {},
                Err(error) => {
                    proof {
                        if !(error is KVError) {
                            lemma_appended_all_fails(common, agreed_on, i + 1, canonical@.len() as int);
                        }
                    }
                    return Err(error);
                },
            }
            proof {
                assert(agreed_on.take(i + 1) =~= agreed_on.take(i as int).push(canonical@[i as int]@));
                assert(out.queued() =~= replayed_ones + agreed_on.take(i + 1));
            }
            i += 1;
        }
        let ghost agreed = view_of(out.db);
        let ghost attempts = transaction_views(pending@);
        let ghost settled = replayed_ones + agreed_on;
        let mut applied: Vec<bool> = Vec::new();
        let mut k: usize = 0;
        proof {
            assert(agreed_on.take(canonical@.len() as int) =~= agreed_on);
            assert(out.queued() =~= settled + taken(attempts, applied@, 0));
        }
        while k < pending.len()
            invariant
                k <= pending.len(),
                out.wf(),
                attempts == transaction_views(pending@),
                out.queued() == settled + taken(attempts, applied@, k as int),
                attempted_all(agreed, attempts, k as int) == view_of(out.db),
                applied@.len() == k,
                forall|m: int| 0 <= m < k ==> #[trigger] applied@[m] == is_applied(agreed, attempts, m),
            decreases pending.len() - k,
        {
            let ghost decided = applied@;
            match out.append_tx(&pending[k]) {
                Ok(_) => {
                    applied.push(true);
                },
                Err(error) => {
                    match error {
                        DbError::KVError(_) => {
                            return Err(error);
                        },
                        _ => {
                            applied.push(false);
                        },
                    }
                },
            }
            proof {
                lemma_taken_prefix(attempts, decided, applied@, k as int);
                assert(out.queued() =~= settled + taken(attempts, applied@, k + 1));
            }
            k += 1;
        }
        Ok((out, applied))
    }
}

} // verus!
