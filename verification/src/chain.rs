//! The hash chain of the journal: each transaction stands behind the hash
//! of the stored form of the transaction before it. A store that is
//! written through the journal alone is rebuilt by its journal: appending
//! the transactions of the journal, in their order, to an empty store gives
//! the contents of the store.

use vstd::prelude::*;
use crate::kv::{StoreView};
use crate::replay::{replay, ReplayState};
use crate::transaction::{blake3_digest, JournalTransactionView, OperationView};
use crate::state::{
    append_spec, index_key, journal_length, journal_table, JOURNAL_TABLE_NAME, readable,
    state_spec, transactions_table, TX_TABLE_NAME, zero_hash,
};
use crate::active_transaction::{appended, committed, lemma_commit_is_append, record_at};
use crate::error::DbError;
use crate::journal::{appended_all, replayed, stored_transactions, stored_tx};

verus! {

/// Whether the operation writes to the table `name`, or makes of it or
/// from it another table.
pub open spec fn writes_to(op: OperationView, name: Seq<char>) -> bool {
    match op {
        OperationView::Insert { table_name, .. } => table_name == name,
        OperationView::Remove(table_name, _) => table_name == name,
        OperationView::RenameTable(old_name, new_name) => old_name == name || new_name == name,
        OperationView::DeleteTable(table_name) => table_name == name,
        _ => false,
    }
}

/// Whether one of the operations writes to one of the two tables of the
/// journal.
pub open spec fn writes_to_journal(operations: Seq<OperationView>) -> bool {
    exists|i: int|
        0 <= i < operations.len() && (writes_to(#[trigger] operations[i], JOURNAL_TABLE_NAME@)
            || writes_to(operations[i], TX_TABLE_NAME@))
}

/// A replay leaves a table as it is where none of its operations writes to
/// the table.
pub proof fn lemma_replay_keeps_table(
    state: ReplayState,
    operations: Seq<OperationView>,
    upto: int,
    name: Seq<char>,
)
    requires
        0 <= upto <= operations.len(),
        forall|i: int| 0 <= i < upto ==> !writes_to(#[trigger] operations[i], name),
        replay(state, operations, upto) is Ok,
    ensures
        replay(state, operations, upto)->Ok_0.view.table(name) == state.view.table(name),
    decreases upto,
{
    if upto > 0 {
        lemma_replay_keeps_table(state, operations, upto - 1, name);
        assert(!writes_to(operations[upto - 1], name));
    }
}

/// Two indexes that a `u64` can hold have one key only where they are one
/// index.
pub proof fn lemma_index_key_injective(i: nat, j: nat)
    requires
        i <= u64::MAX,
        j <= u64::MAX,
        index_key(i) == index_key(j),
    ensures
        i == j,
{
    crate::wire::lemma_max_length();
    crate::lexicographic::lemma_fits_bound(i, 8);
    crate::lexicographic::lemma_fits_bound(j, 8);
    crate::lexicographic::lemma_be_order(i, j, 8);
}

/// Whether the journal has the transaction of index `i` and the
/// transaction is linked to the one before it: the journal table holds its
/// hash under its index; the transactions table holds its stored form
/// under its hash; the hash is the hash of the stored form; and the stored
/// form is that of a transaction behind the hash of the transaction of
/// index `i - 1`, or behind the zero hash where `i` is zero.
pub open spec fn linked(view: StoreView, i: nat) -> bool {
    let hash = journal_table(view)[index_key(i)];
    &&& journal_table(view).dom().contains(index_key(i))
    &&& transactions_table(view).dom().contains(hash)
    &&& hash == blake3_digest(transactions_table(view)[hash])
    &&& JournalTransactionView::decoding(transactions_table(view)[hash]) matches Some(tx)
        && tx.last_tx_hash == if i == 0 {
        zero_hash()
    } else {
        journal_table(view)[index_key((i - 1) as nat)]
    }
}

/// Whether the journal is a chain: its transactions have the indexes from
/// zero on without a gap, and each is linked to the one before it.
pub open spec fn chained(view: StoreView) -> bool {
    &&& journal_table(view).dom().finite()
    &&& journal_length(view) <= u64::MAX
    &&& forall|key: Seq<u8>|
        journal_table(view).dom().contains(key) ==> exists|i: nat|
            i < journal_length(view) && key == #[trigger] index_key(i)
    &&& forall|i: nat| i < journal_length(view) ==> #[trigger] linked(view, i)
}

/// The journal of an empty store is a chain.
pub proof fn lemma_empty_is_chained()
    ensures
        chained(StoreView::empty()),
        readable(StoreView::empty()),
{
    let view = StoreView::empty();
    assert(journal_table(view) == Map::<Seq<u8>, Seq<u8>>::empty());
}

/// The hash chain: in a journal that is a chain, each transaction but the
/// first stands behind the hash of the stored form of the transaction
/// before it.
pub proof fn lemma_hash_chain(view: StoreView, i: nat)
    requires
        chained(view),
        0 < i < journal_length(view),
    ensures
        ({
            let hash = journal_table(view)[index_key(i)];
            let before = journal_table(view)[index_key((i - 1) as nat)];
            &&& JournalTransactionView::decoding(transactions_table(view)[hash]) matches Some(tx)
                && tx.last_tx_hash == blake3_digest(transactions_table(view)[before])
        }),
{
    assert(linked(view, i));
    assert(linked(view, (i - 1) as nat));
}

/// Appending keeps the chain: where a transaction that can be read back
/// from its stored form is appended to a journal that is a chain and has
/// room, the journal is a chain afterwards, one transaction longer.
///
/// This holds of the transactions that leave the tables of the journal to
/// the journal, and whose hash is not that of another stored transaction.
pub proof fn lemma_append_keeps_chain(view: StoreView, tx: JournalTransactionView)
    requires
        chained(view),
        journal_length(view) < u64::MAX,
        append_spec(view, tx) is Ok,
        JournalTransactionView::decoding(tx.encoding()) == Some(tx),
        !writes_to_journal(tx.operations),
        transactions_table(view).dom().contains(blake3_digest(tx.encoding()))
            ==> transactions_table(view)[blake3_digest(tx.encoding())] == tx.encoding(),
    ensures
        chained(append_spec(view, tx)->Ok_0),
        journal_length(append_spec(view, tx)->Ok_0) == journal_length(view) + 1,
        state_spec(append_spec(view, tx)->Ok_0).last_tx_hash == blake3_digest(tx.encoding()),
{
    reveal_strlit("_______anondb_journal");
    reveal_strlit("_______anondb_transactions");
    let after = append_spec(view, tx)->Ok_0;
    let n = journal_length(view);
    let count = tx.operations.len() as int;
    let start = ReplayState::start(view);
    let replayed_state = replay(start, tx.operations, count - 1)->Ok_0;
    let bytes = tx.encoding();
    let hash = blake3_digest(bytes);
    assert forall|i: int| 0 <= i < count - 1 implies !writes_to(
        #[trigger] tx.operations[i],
        JOURNAL_TABLE_NAME@,
    ) && !writes_to(tx.operations[i], TX_TABLE_NAME@) by {}
    lemma_replay_keeps_table(start, tx.operations, count - 1, JOURNAL_TABLE_NAME@);
    lemma_replay_keeps_table(start, tx.operations, count - 1, TX_TABLE_NAME@);
    assert(JOURNAL_TABLE_NAME@ != TX_TABLE_NAME@) by {
        assert(JOURNAL_TABLE_NAME@.len() != TX_TABLE_NAME@.len());
    }
    assert(journal_table(after) == journal_table(view).insert(index_key(n), hash));
    assert(transactions_table(after) == transactions_table(view).insert(hash, bytes));
    assert(!journal_table(view).dom().contains(index_key(n))) by {
        if journal_table(view).dom().contains(index_key(n)) {
            let i = choose|i: nat| i < n && index_key(n) == #[trigger] index_key(i);
            lemma_index_key_injective(n, i);
        }
    }
    assert(journal_table(after).dom() =~= journal_table(view).dom().insert(index_key(n)));
    assert(journal_length(after) == n + 1);
    assert forall|key: Seq<u8>| journal_table(after).dom().contains(key) implies exists|i: nat|
        i < journal_length(after) && key == #[trigger] index_key(i) by {
        if key == index_key(n) {
            assert(n < journal_length(after) && key == index_key(n));
        } else {
            let i = choose|i: nat| i < n && key == #[trigger] index_key(i);
            assert(i < journal_length(after) && key == index_key(i));
        }
    }
    assert forall|i: nat| i < journal_length(after) implies #[trigger] linked(after, i) by {
        if i < n {
            assert(linked(view, i));
            if index_key(i) == index_key(n) {
                lemma_index_key_injective(i, n);
            }
            if i > 0 {
                if index_key((i - 1) as nat) == index_key(n) {
                    lemma_index_key_injective((i - 1) as nat, n);
                }
            }
        } else {
            if n > 0 {
                if index_key((n - 1) as nat) == index_key(n) {
                    lemma_index_key_injective((n - 1) as nat, n);
                }
                assert(linked(view, (n - 1) as nat));
            }
        }
    }
}


/// What appending makes of the two tables of the journal: the journal
/// table has the hash of the transaction under the next index, and the
/// transactions table its stored form under its hash.
///
/// This holds of the transactions that leave the tables of the journal to
/// the journal.
pub proof fn lemma_append_records(view: StoreView, tx: JournalTransactionView)
    requires
        append_spec(view, tx) is Ok,
        !writes_to_journal(tx.operations),
    ensures
        journal_table(append_spec(view, tx)->Ok_0) == journal_table(view).insert(
            index_key(journal_length(view)),
            blake3_digest(tx.encoding()),
        ),
        transactions_table(append_spec(view, tx)->Ok_0) == transactions_table(view).insert(
            blake3_digest(tx.encoding()),
            tx.encoding(),
        ),
{
    reveal_strlit("_______anondb_journal");
    reveal_strlit("_______anondb_transactions");
    let count = tx.operations.len() as int;
    let start = ReplayState::start(view);
    assert forall|i: int| 0 <= i < count - 1 implies !writes_to(
        #[trigger] tx.operations[i],
        JOURNAL_TABLE_NAME@,
    ) && !writes_to(tx.operations[i], TX_TABLE_NAME@) by {}
    lemma_replay_keeps_table(start, tx.operations, count - 1, JOURNAL_TABLE_NAME@);
    lemma_replay_keeps_table(start, tx.operations, count - 1, TX_TABLE_NAME@);
    assert(JOURNAL_TABLE_NAME@ != TX_TABLE_NAME@) by {
        assert(JOURNAL_TABLE_NAME@.len() != TX_TABLE_NAME@.len());
    }
}

/// Whether replaying the journal in `view` onto an empty store gives the
/// contents `view` back: the journal tells the whole story of the store.
pub open spec fn reproduces(view: StoreView) -> bool {
    replayed(view, journal_length(view)) == Ok::<StoreView, DbError>(view)
}

/// An empty store is what replaying its empty journal gives.
pub proof fn lemma_empty_reproduces()
    ensures
        reproduces(StoreView::empty()),
{
    let view = StoreView::empty();
    assert(journal_table(view) == Map::<Seq<u8>, Seq<u8>>::empty());
}

/// Replaying the first transactions of a journal reads those transactions
/// only: two journals that store the same first transactions replay to the
/// same contents.
pub proof fn lemma_replayed_alike(a: StoreView, b: StoreView, upto: nat)
    requires
        forall|i: nat| i < upto ==> #[trigger] stored_tx(a, i) == stored_tx(b, i),
    ensures
        replayed(a, upto) == replayed(b, upto),
    decreases upto,
{
    if upto > 0 {
        lemma_replayed_alike(a, b, (upto - 1) as nat);
        assert(stored_tx(a, (upto - 1) as nat) == stored_tx(b, (upto - 1) as nat));
    }
}

/// Appending keeps the journal telling the whole story: where a
/// transaction is appended to a store that replaying its journal gives,
/// replaying the longer journal gives the store after the append.
///
/// This holds of the transactions that can be read back from their stored
/// form, that leave the tables of the journal to the journal, and whose
/// hash is not that of another stored transaction.
pub proof fn lemma_append_keeps_reproducing(view: StoreView, tx: JournalTransactionView)
    requires
        chained(view),
        reproduces(view),
        journal_length(view) < u64::MAX,
        append_spec(view, tx) is Ok,
        JournalTransactionView::decoding(tx.encoding()) == Some(tx),
        !writes_to_journal(tx.operations),
        transactions_table(view).dom().contains(blake3_digest(tx.encoding()))
            ==> transactions_table(view)[blake3_digest(tx.encoding())] == tx.encoding(),
    ensures
        chained(append_spec(view, tx)->Ok_0),
        reproduces(append_spec(view, tx)->Ok_0),
        journal_length(append_spec(view, tx)->Ok_0) == journal_length(view) + 1,
        stored_tx(append_spec(view, tx)->Ok_0, journal_length(view)) == Some(tx.encoding()),
        forall|i: nat|
            i < journal_length(view) ==> #[trigger] stored_tx(append_spec(view, tx)->Ok_0, i)
                == stored_tx(view, i),
{
    let after = append_spec(view, tx)->Ok_0;
    let n = journal_length(view);
    let bytes = tx.encoding();
    let hash = blake3_digest(bytes);
    lemma_append_keeps_chain(view, tx);
    lemma_append_records(view, tx);
    assert forall|i: nat| i < n implies #[trigger] stored_tx(after, i) == stored_tx(view, i) by {
        assert(linked(view, i));
        if index_key(i) == index_key(n) {
            lemma_index_key_injective(i, n);
        }
    }
    lemma_replayed_alike(after, view, n);
    assert(stored_tx(after, n) == Some(bytes));
    assert(replayed(after, (n + 1) as nat) == append_spec(view, tx));
}

/// Replaying a journal is appending its transactions: as far as the
/// journal replays, replaying its first transactions gives what appending
/// them to an empty store gives.
pub proof fn lemma_replaying_is_appending(view: StoreView, upto: nat, k: nat)
    requires
        k <= upto,
        replayed(view, k) is Ok,
    ensures
        appended_all(StoreView::empty(), stored_transactions(view, upto), k as int) == replayed(
            view,
            k,
        ),
    decreases k,
{
    if k > 0 {
        lemma_replaying_is_appending(view, upto, (k - 1) as nat);
    }
}

/// Replay rebuilds the store: where the journal of a store tells the whole
/// story, appending its transactions in their order to an empty store
/// gives the contents of the store, journal and all.
pub proof fn lemma_replay_rebuilds(view: StoreView)
    requires
        reproduces(view),
    ensures
        appended_all(
            StoreView::empty(),
            stored_transactions(view, journal_length(view)),
            journal_length(view) as int,
        ) == Ok::<StoreView, DbError>(view),
{
    lemma_replaying_is_appending(view, journal_length(view), journal_length(view));
}

/// Whether the transaction `tx` is appended cleanly to the contents
/// `view`: it can be read back from its stored form, it leaves the tables
/// of the journal to the journal, and its hash is not that of another
/// stored transaction.
pub open spec fn appends_cleanly(view: StoreView, tx: JournalTransactionView) -> bool {
    &&& JournalTransactionView::decoding(tx.encoding()) == Some(tx)
    &&& !writes_to_journal(tx.operations)
    &&& transactions_table(view).dom().contains(blake3_digest(tx.encoding()))
        ==> transactions_table(view)[blake3_digest(tx.encoding())] == tx.encoding()
}

/// A store that was written through the journal alone is rebuilt by its
/// journal: after commits on an empty store, the journal is a chain with
/// one transaction for each commit, and replaying it onto an empty store
/// gives the contents of the store.
///
/// This holds where each commit stores its transaction cleanly.
pub proof fn lemma_commits_reproduce(transactions: Seq<Seq<OperationView>>, upto: int)
    requires
        0 <= upto <= transactions.len(),
        upto <= u64::MAX,
        committed(StoreView::empty(), transactions, upto) is Ok,
        forall|i: int|
            0 <= i < upto ==> appends_cleanly(
                committed(StoreView::empty(), transactions, i)->Ok_0,
                #[trigger] record_at(StoreView::empty(), transactions, i),
            ),
    ensures
        chained(committed(StoreView::empty(), transactions, upto)->Ok_0),
        reproduces(committed(StoreView::empty(), transactions, upto)->Ok_0),
        journal_length(committed(StoreView::empty(), transactions, upto)->Ok_0) == upto,
    decreases upto,
{
    if upto == 0 {
        lemma_empty_is_chained();
        lemma_empty_reproduces();
        assert(journal_table(StoreView::empty()) == Map::<Seq<u8>, Seq<u8>>::empty());
    } else {
        lemma_commits_reproduce(transactions, upto - 1);
        let before = committed(StoreView::empty(), transactions, upto - 1)->Ok_0;
        let record = record_at(StoreView::empty(), transactions, upto - 1);
        assert(appends_cleanly(before, record));
        lemma_commit_is_append(before, transactions[upto - 1]);
        lemma_append_keeps_reproducing(before, record);
    }
}

} // verus!
