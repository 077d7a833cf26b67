//! The state of the journal in a store: the two tables of the journal, where
//! the journal stands, and what appending a transaction makes of the store.
//!
//! The journal table maps the index of a transaction, as eight big-endian
//! bytes, to the hash of the transaction. The transactions table maps the
//! hash of a transaction to its stored form.

use vstd::prelude::*;
use crate::error::{DbError};
use crate::kv::{lemma_view_with_table, ReadOperations, StoreView, view_of, WriteOperations};
use crate::lexicographic::{be_bytes, encode_be, repeated};
use crate::replay::{lemma_replay_error, perform, perform_all, replay, ReplayState};
use crate::transaction::{blake3_digest, hash_bytes, JournalTransaction, JournalTransactionView};
use crate::active_transaction::{appended};

verus! {

/// The name of the journal table.
pub const JOURNAL_TABLE_NAME: &'static str = "_______anondb_journal";

/// The name of the transactions table.
pub const TX_TABLE_NAME: &'static str = "_______anondb_transactions";

/// The two tables of the journal have names, as every table must.
pub proof fn lemma_journal_tables_are_named()
    ensures
        JOURNAL_TABLE_NAME@.len() > 0,
        TX_TABLE_NAME@.len() > 0,
        JOURNAL_TABLE_NAME@ != TX_TABLE_NAME@,
{
    reveal_strlit("_______anondb_journal");
    reveal_strlit("_______anondb_transactions");
    assert(JOURNAL_TABLE_NAME@.len() != TX_TABLE_NAME@.len());
}

/// Where the journal stands: the index of the next transaction, and the
/// hash of the last.
#[derive(Debug, Clone, Copy)]
pub struct JournalState {
    pub next_tx_index: u64,
    pub last_tx_hash: [u8; 32],
}

/// The state of a journal as contracts see it.
pub struct JournalStateView {
    pub next_tx_index: nat,
    pub last_tx_hash: Seq<u8>,
}

impl View for JournalState {
    type V = JournalStateView;

    open spec fn view(&self) -> JournalStateView {
        JournalStateView {
            next_tx_index: self.next_tx_index as nat,
            last_tx_hash: self.last_tx_hash@,
        }
    }
}

impl Default for JournalState {
    fn default() -> (s: Self)
        ensures
            s@ == (JournalStateView { next_tx_index: 0, last_tx_hash: zero_hash() }),
    {
        let s = JournalState { next_tx_index: 0, last_tx_hash: [0u8; 32] };
        assert(s.last_tx_hash@ =~= zero_hash());
        s
    }
}

/// The hash that stands before the first transaction: 32 zero bytes.
pub open spec fn zero_hash() -> Seq<u8> {
    repeated(0, 32)
}

/// The key of the journal table for the transaction of index `i`.
pub open spec fn index_key(i: nat) -> Seq<u8> {
    be_bytes(i, 8)
}

/// The journal table of the contents `view`.
pub open spec fn journal_table(view: StoreView) -> Map<Seq<u8>, Seq<u8>> {
    view.table(JOURNAL_TABLE_NAME@)
}

/// The transactions table of the contents `view`.
pub open spec fn transactions_table(view: StoreView) -> Map<Seq<u8>, Seq<u8>> {
    view.table(TX_TABLE_NAME@)
}

/// The number of transactions in the journal.
pub open spec fn journal_length(view: StoreView) -> nat {
    journal_table(view).dom().len()
}

/// Whether the state of the journal can be read: the journal holds as many
/// transactions as a `u64` can count, and where it holds any, it holds the
/// hash of the last of them.
pub open spec fn readable(view: StoreView) -> bool {
    &&& journal_table(view).dom().finite()
    &&& journal_length(view) <= u64::MAX
    &&& journal_length(view) > 0 ==> {
        let key = index_key((journal_length(view) - 1) as nat);
        journal_table(view).dom().contains(key) && journal_table(view)[key].len() == 32
    }
}

/// The state of the journal in the contents `view`.
pub open spec fn state_spec(view: StoreView) -> JournalStateView {
    JournalStateView {
        next_tx_index: journal_length(view),
        last_tx_hash: if journal_length(view) > 0 {
            journal_table(view)[index_key((journal_length(view) - 1) as nat)]
        } else {
            zero_hash()
        },
    }
}

/// The contents `view` with the transaction `tx` stored as the transaction
/// of index `index`: its stored form under its hash in the transactions
/// table, and its hash under its index in the journal table.
pub open spec fn recorded(view: StoreView, index: nat, tx: JournalTransactionView) -> StoreView {
    let bytes = tx.encoding();
    let hash = blake3_digest(bytes);
    view.put(TX_TABLE_NAME@, hash, bytes).put(JOURNAL_TABLE_NAME@, index_key(index), hash)
}

/// What appending the transaction `tx` makes of the contents `view`: the
/// contents after the operations of `tx`, with `tx` stored as the next
/// transaction of the journal; or the reason why `tx` cannot be appended.
///
/// A transaction is refused where it was built on another state than the
/// journal is in, where it is empty, where its last operation is not the
/// commit, and where one of its operations cannot be performed.
pub open spec fn append_spec(
    view: StoreView,
    tx: JournalTransactionView,
) -> Result<StoreView, DbError> {
    let count = tx.operations.len();
    if !readable(view) {
        Err(DbError::JournalInvariant)
    } else if state_spec(view).last_tx_hash != tx.last_tx_hash {
        Err(DbError::JournalDivergence)
    } else if count == 0 || !(tx.operations[count - 1] is Commit) {
        Err(DbError::JournalInvariant)
    } else {
        match replay(ReplayState::start(view), tx.operations, count - 1) {
            Err(e) => Err(e),
            Ok(state) => Ok(recorded(state.view, state_spec(view).next_tx_index, tx)),
        }
    }
}

/// A transaction is refused only as divergent or as malformed.
pub proof fn lemma_append_error(view: StoreView, tx: JournalTransactionView)
    requires
        append_spec(view, tx) is Err,
    ensures
        append_spec(view, tx)->Err_0 is JournalInvariant || append_spec(view, tx)->Err_0
            is JournalDivergence,
{
    let count = tx.operations.len();
    if readable(view) && state_spec(view).last_tx_hash == tx.last_tx_hash && count > 0
        && tx.operations[count - 1] is Commit {
        lemma_replay_error(ReplayState::start(view), tx.operations, count - 1);
    }
}

/// A copy of 32 bytes, as an array.
fn to_hash(bytes: &Vec<u8>) -> (hash: [u8; 32])
    requires
        bytes@.len() == 32,
    ensures
        hash@ == bytes@,
{
    let mut hash = [0u8; 32];
    let mut k: usize = 0;
    while k < 32
        invariant
            k <= 32,
            bytes@.len() == 32,
            forall|j: int| 0 <= j < k ==> hash@[j] == bytes@[j],
        decreases 32 - k,
    {
        hash[k] = bytes[k];
        k += 1;
    }
    assert(hash@ =~= bytes@);
    hash
}

/// The state of the journal that `tx` reads.
pub fn read_state<R: ReadOperations>(tx: &R) -> (r: Result<JournalState, DbError>)
    ensures
        match r {
            Ok(state) => readable(view_of(*tx)) && state@ == state_spec(view_of(*tx)),
            Err(DbError::KVError(_)) => true,
            Err(e) => e is JournalInvariant && !readable(view_of(*tx)),
        },
{
    proof {
        lemma_journal_tables_are_named();
    }
    let next_tx_index = match tx.count(JOURNAL_TABLE_NAME) {
        Ok(n) => n,
        Err(error) => {
            return Err(DbError::KVError(error));
        },
    };
    if next_tx_index == 0 {
        return Ok(JournalState::default());
    }
    let key = encode_be((next_tx_index - 1) as u128, 8);
    let found = match tx.get(JOURNAL_TABLE_NAME, key.as_slice()) {
        Ok(found) => found,
        Err(error) => {
            return Err(DbError::KVError(error));
        },
    };
    match found {
        Some(hash) => {
            if hash.len() != 32 {
                return Err(DbError::JournalInvariant);
            }
            Ok(JournalState { next_tx_index, last_tx_hash: to_hash(&hash) })
        },
        None => Err(DbError::JournalInvariant),
    }
}

/// Store `journal_tx` as the transaction of index `index`.
pub fn record<W: WriteOperations>(tx: &mut W, index: u64, journal_tx: &JournalTransaction) -> (r: Result<
    [u8; 32],
    DbError,
>)
    ensures
        final(tx).store() == old(tx).store(),
        match r {
            Ok(hash) => {
                &&& hash@ == blake3_digest(journal_tx@.encoding())
                &&& view_of(*final(tx)) == recorded(view_of(*old(tx)), index as nat, journal_tx@)
            },
            Err(e) => e is KVError,
        },
{
    let bytes = journal_tx.encode();
    let hash = hash_bytes(bytes.as_slice());
    let ghost start = *tx;
    proof {
        lemma_journal_tables_are_named();
    }
    match tx.insert(TX_TABLE_NAME, hash.as_slice(), bytes.as_slice()) {
        Ok(_) => {},
        Err(error) => {
            return Err(DbError::KVError(error));
        },
    }
    let ghost stored = *tx;
    let key = encode_be(index as u128, 8);
    match tx.insert(JOURNAL_TABLE_NAME, key.as_slice(), hash.as_slice()) {
        Ok(_) => {},
        Err(error) => {
            return Err(DbError::KVError(error));
        },
    }
    proof {
        lemma_view_with_table(start, stored, TX_TABLE_NAME@);
        lemma_view_with_table(stored, *tx, JOURNAL_TABLE_NAME@);
    }
    Ok(hash)
}

/// Append `journal_tx` to the journal that `tx` writes to: perform its
/// operations and store it as the next transaction.
pub fn append_in<W: WriteOperations>(tx: &mut W, journal_tx: &JournalTransaction) -> (r: Result<
    (),
    DbError,
>)
    ensures
        final(tx).store() == old(tx).store(),
        match r {
            Ok(_) => append_spec(view_of(*old(tx)), journal_tx@) == Ok::<StoreView, DbError>(
                view_of(*final(tx)),
            ),
            Err(DbError::KVError(_)) => true,
            Err(e) => append_spec(view_of(*old(tx)), journal_tx@) == Err::<StoreView, DbError>(e),
        },
{
    let state = read_state(tx)?;
    if !crate::order::bytes_eq(state.last_tx_hash.as_slice(), journal_tx.last_tx_hash.as_slice()) {
        return Err(DbError::JournalDivergence);
    }
    let count = journal_tx.operations.len();
    if count == 0 {
        return Err(DbError::JournalInvariant);
    }
    if !journal_tx.operations[count - 1].is_commit() {
        return Err(DbError::JournalInvariant);
    }
    perform_all(tx, &journal_tx.operations, count - 1)?;
    match record(tx, state.next_tx_index, journal_tx) {
        Ok(_) => Ok(()),
        Err(error) => Err(error),
    }
}

} // verus!
