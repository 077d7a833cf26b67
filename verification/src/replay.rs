//! What the operations of a journal do to the contents of a store.
//!
//! An operation is performed on a write transaction and on the set of the
//! tables that are open in it. A table is written to only while it is open.
//! Performing the operations of a transaction in their order is replaying
//! the transaction.

use vstd::prelude::*;
use crate::document::str_eq;
use crate::error::DbError;
use crate::kv::{view_of, Pair, ReadOperations, StoreView, WriteOperations};
use crate::transaction::{operation_views, OperationView, TransactionOperation};

verus! {

/// The names of the tables that are open in a transaction.
#[derive(Debug)]
pub struct OpenTables {
    names: Vec<String>,
}

impl View for OpenTables {
    type V = Set<Seq<char>>;

    closed spec fn view(&self) -> Set<Seq<char>> {
        Set::new(|n: Seq<char>| exists|i: int| 0 <= i < self.names@.len() && (#[trigger] self.names@[i])@ == n)
    }
}

impl OpenTables {
    /// No table is open.
    pub fn new() -> (open: Self)
        ensures
            open@ == Set::<Seq<char>>::empty(),
    {
        let open = OpenTables { names: Vec::new() };
        assert(open@ =~= Set::<Seq<char>>::empty());
        open
    }

    /// Whether the table `name` is open.
    pub fn contains(&self, name: &str) -> (r: bool)
        ensures
            r == self@.contains(name@),
    {
        let mut i: usize = 0;
        while i < self.names.len()
            invariant
                i <= self.names.len(),
                forall|j: int| 0 <= j < i ==> (#[trigger] self.names@[j])@ != name@,
            decreases self.names.len() - i,
        {
            if str_eq(self.names[i].as_str(), name) {
                return true;
            }
            i += 1;
        }
        false
    }

    /// Open the table `name`.
    pub fn open(&mut self, name: &str)
        ensures
            final(self)@ == old(self)@.insert(name@),
    {
        let ghost before = self.names@;
        self.names.push(name.to_owned());
        proof {
            assert forall|n: Seq<char>| self@.contains(n) == old(self)@.insert(name@).contains(
                n,
            ) by {
                if old(self)@.contains(n) {
                    let i = choose|i: int| 0 <= i < before.len() && (#[trigger] before[i])@ == n;
                    assert(self.names@[i]@ == n);
                }
                if n == name@ {
                    assert(self.names@[before.len() as int]@ == n);
                }
                if self@.contains(n) {
                    let i = choose|i: int| 0 <= i < self.names@.len() && (#[trigger] self.names@[i])@ == n;
                    if i < before.len() {
                        assert(before[i]@ == n);
                    }
                }
            }
            assert(self@ =~= old(self)@.insert(name@));
        }
    }

    /// Close the table `name`.
    pub fn close(&mut self, name: &str)
        ensures
            final(self)@ == old(self)@.remove(name@),
    {
        let mut kept: Vec<String> = Vec::new();
        let mut i: usize = 0;
        while i < self.names.len()
            invariant
                i <= self.names.len(),
                self.names == old(self).names,
                forall|j: int| 0 <= j < kept@.len() ==> (#[trigger] kept@[j])@ != name@,
                forall|j: int|
                    0 <= j < kept@.len() ==> exists|k: int|
                        0 <= k < i && self.names@[k]@ == (#[trigger] kept@[j])@,
                forall|k: int|
                    0 <= k < i && (#[trigger] self.names@[k])@ != name@ ==> exists|j: int|
                        0 <= j < kept@.len() && (#[trigger] kept@[j])@ == self.names@[k]@,
            decreases self.names.len() - i,
        {
            if !str_eq(self.names[i].as_str(), name) {
                let ghost before = kept@;
                kept.push(self.names[i].clone());
                proof {
                    let last = before.len() as int;
                    assert(kept@[last]@ == self.names@[i as int]@);
                    assert forall|k: int|
                        0 <= k < i + 1 && (#[trigger] self.names@[k])@ != name@ implies exists|j: int|
                        0 <= j < kept@.len() && (#[trigger] kept@[j])@ == self.names@[k]@ by {
                        if k < i {
                            let j = choose|j: int|
                                0 <= j < before.len() && (#[trigger] before[j])@ == self.names@[k]@;
                            assert(kept@[j]@ == self.names@[k]@);
                        } else {
                            assert(kept@[last]@ == self.names@[k]@);
                        }
                    }
                    assert forall|j: int| 0 <= j < kept@.len() implies exists|k: int|
                        0 <= k < i + 1 && self.names@[k]@ == (#[trigger] kept@[j])@ by {
                        if j < before.len() {
                            assert(kept@[j] == before[j]);
                            let k = choose|k: int| 0 <= k < i && self.names@[k]@ == before[j]@;
                            assert(self.names@[k]@ == kept@[j]@);
                        } else {
                            assert(self.names@[i as int]@ == kept@[j]@);
                        }
                    }
                }
            }
            i += 1;
        }
        let ghost all = self.names@;
        self.names = kept;
        proof {
            assert forall|n: Seq<char>| self@.contains(n) == old(self)@.remove(name@).contains(
                n,
            ) by {
                if self@.contains(n) {
                    let j = choose|j: int| 0 <= j < self.names@.len() && (#[trigger] self.names@[j])@ == n;
                    let k = choose|k: int| 0 <= k < all.len() && all[k]@ == self.names@[j]@;
                    assert(all[k]@ == n);
                }
                if old(self)@.remove(name@).contains(n) {
                    let k = choose|k: int| 0 <= k < all.len() && (#[trigger] all[k])@ == n;
                    let j = choose|j: int|
                        0 <= j < self.names@.len() && (#[trigger] self.names@[j])@ == all[k]@;
                    assert(self.names@[j]@ == n);
                }
            }
            assert(self@ =~= old(self)@.remove(name@));
        }
    }
}

/// What a replay has arrived at: the contents of the store, and the tables
/// and multimap tables that are open.
pub struct ReplayState {
    pub view: StoreView,
    pub open: Set<Seq<char>>,
    pub open_multimap: Set<Seq<char>>,
}

impl ReplayState {
    /// The state at the start of a transaction on the contents `view`: no
    /// table is open.
    pub open spec fn start(view: StoreView) -> ReplayState {
        ReplayState { view, open: Set::empty(), open_multimap: Set::empty() }
    }
}

/// The contents `view` with the table `old_name` under the name `new_name`.
pub open spec fn renamed(view: StoreView, old_name: Seq<char>, new_name: Seq<char>) -> StoreView {
    view.with_table(old_name, Map::empty()).with_table(new_name, view.table(old_name))
}

/// The contents `view` with the multimap table `old_name` under the name
/// `new_name`.
pub open spec fn renamed_multimap(
    view: StoreView,
    old_name: Seq<char>,
    new_name: Seq<char>,
) -> StoreView {
    view.with_multimap(old_name, Set::empty()).with_multimap(new_name, view.multimap(old_name))
}

/// Whether every table that the operation names has a name: the empty
/// string names no table.
pub open spec fn names_tables(op: OperationView) -> bool {
    match op {
        OperationView::OpenTable(name) => name.len() > 0,
        OperationView::OpenMultimapTable(name) => name.len() > 0,
        OperationView::Insert { table_name, key_bytes, value_bytes } => table_name.len() > 0,
        OperationView::Remove(name, key) => name.len() > 0,
        OperationView::RenameTable(old_name, new_name) => old_name.len() > 0 && new_name.len() > 0,
        OperationView::RenameMultimapTable(old_name, new_name) => old_name.len() > 0
            && new_name.len() > 0,
        OperationView::DeleteTable(name) => name.len() > 0,
        OperationView::DeleteMultimapTable(name) => name.len() > 0,
        OperationView::Commit => true,
    }
}

/// Whether every table that the operation names has a name.
pub fn check_names(op: &TransactionOperation) -> (r: bool)
    ensures
        r == names_tables(op@),
{
    match op {
        TransactionOperation::OpenTable(name) => !name.as_str().is_empty(),
        TransactionOperation::OpenMultimapTable(name) => !name.as_str().is_empty(),
        TransactionOperation::Insert { table_name, key_bytes, value_bytes } => {
            !table_name.as_str().is_empty()
        },
        TransactionOperation::Remove(name, key) => !name.as_str().is_empty(),
        TransactionOperation::RenameTable(old_name, new_name) => {
            !old_name.as_str().is_empty() && !new_name.as_str().is_empty()
        },
        TransactionOperation::RenameMultimapTable(old_name, new_name) => {
            !old_name.as_str().is_empty() && !new_name.as_str().is_empty()
        },
        TransactionOperation::DeleteTable(name) => !name.as_str().is_empty(),
        TransactionOperation::DeleteMultimapTable(name) => !name.as_str().is_empty(),
        TransactionOperation::Commit => true,
    }
}

/// What one operation makes of a state, or the reason why it cannot be
/// performed: a table without a name, a write to a table that is not open,
/// or a commit.
///
/// An insert goes to the table of its name where that is open, and else to
/// the multimap table of its name where that is open.
pub open spec fn apply(state: ReplayState, op: OperationView) -> Result<ReplayState, DbError> {
    if !names_tables(op) {
        Err(DbError::JournalInvariant)
    } else {
        named_apply(state, op)
    }
}

/// What an operation whose tables have names makes of a state.
pub open spec fn named_apply(state: ReplayState, op: OperationView) -> Result<ReplayState, DbError> {
    match op {
        OperationView::OpenTable(name) => Ok(
            ReplayState { view: state.view, open: state.open.insert(name), open_multimap: state.open_multimap },
        ),
        OperationView::OpenMultimapTable(name) => Ok(
            ReplayState {
                view: state.view,
                open: state.open,
                open_multimap: state.open_multimap.insert(name),
            },
        ),
        OperationView::Insert { table_name, key_bytes, value_bytes } => if state.open.contains(
            table_name,
        ) {
            Ok(
                ReplayState {
                    view: state.view.put(table_name, key_bytes, value_bytes),
                    open: state.open,
                    open_multimap: state.open_multimap,
                },
            )
        } else if state.open_multimap.contains(table_name) {
            Ok(
                ReplayState {
                    view: state.view.add(table_name, key_bytes, value_bytes),
                    open: state.open,
                    open_multimap: state.open_multimap,
                },
            )
        } else {
            Err(DbError::JournalInvariant)
        },
        OperationView::Remove(name, key) => if state.open.contains(name) {
            Ok(
                ReplayState {
                    view: state.view.delete(name, key),
                    open: state.open,
                    open_multimap: state.open_multimap,
                },
            )
        } else {
            Err(DbError::JournalInvariant)
        },
        OperationView::RenameTable(old_name, new_name) => Ok(
            ReplayState {
                view: renamed(state.view, old_name, new_name),
                open: state.open.remove(old_name),
                open_multimap: state.open_multimap,
            },
        ),
        OperationView::RenameMultimapTable(old_name, new_name) => Ok(
            ReplayState {
                view: renamed_multimap(state.view, old_name, new_name),
                open: state.open,
                open_multimap: state.open_multimap.remove(old_name),
            },
        ),
        OperationView::DeleteTable(name) => Ok(
            ReplayState {
                view: state.view.with_table(name, Map::empty()),
                open: state.open.remove(name),
                open_multimap: state.open_multimap,
            },
        ),
        OperationView::DeleteMultimapTable(name) => Ok(
            ReplayState {
                view: state.view.with_multimap(name, Set::empty()),
                open: state.open,
                open_multimap: state.open_multimap.remove(name),
            },
        ),
        OperationView::Commit => Err(DbError::JournalInvariant),
    }
}

/// What the first `upto` of `operations` make of a state, performed in
/// their order.
pub open spec fn replay(state: ReplayState, operations: Seq<OperationView>, upto: int) -> Result<
    ReplayState,
    DbError,
>
    decreases upto,
{
    if upto <= 0 {
        Ok(state)
    } else {
        match replay(state, operations, upto - 1) {
            Err(e) => Err(e),
            Ok(before) => apply(before, operations[upto - 1]),
        }
    }
}

/// Where a replay fails at one of the first operations, it fails in the
/// same way however many more operations there are.
pub proof fn lemma_replay_fails(state: ReplayState, operations: Seq<OperationView>, i: int, j: int)
    requires
        0 <= i <= j,
        replay(state, operations, i) is Err,
    ensures
        replay(state, operations, j) == replay(state, operations, i),
    decreases j - i,
{
    if i < j {
        lemma_replay_fails(state, operations, i, j - 1);
    }
}

/// A replay fails only for a write to a table that is not open or for a
/// commit among the operations.
pub proof fn lemma_replay_error(state: ReplayState, operations: Seq<OperationView>, upto: int)
    requires
        replay(state, operations, upto) is Err,
    ensures
        replay(state, operations, upto)->Err_0 is JournalInvariant,
    decreases upto,
{
    if upto > 0 {
        if replay(state, operations, upto - 1) is Err {
            lemma_replay_error(state, operations, upto - 1);
        }
    }
}

/// A replay reads its operations only as far as it goes.
pub proof fn lemma_replay_prefix(
    state: ReplayState,
    a: Seq<OperationView>,
    b: Seq<OperationView>,
    upto: int,
)
    requires
        0 <= upto <= a.len(),
        upto <= b.len(),
        forall|i: int| 0 <= i < upto ==> a[i] == b[i],
    ensures
        replay(state, a, upto) == replay(state, b, upto),
    decreases upto,
{
    if upto > 0 {
        lemma_replay_prefix(state, a, b, upto - 1);
    }
}

/// What the transaction is in: its contents and its open tables.
pub open spec fn state_of<W: ReadOperations>(
    tx: W,
    open: OpenTables,
    open_multimap: OpenTables,
) -> ReplayState {
    ReplayState { view: view_of(tx), open: open@, open_multimap: open_multimap@ }
}

/// Perform one operation on a transaction.
///
/// An operation that cannot be performed leaves the transaction and the
/// open tables as they are. Where the store fails, nothing is said of what
/// the transaction holds afterwards. An insert into a table or a removal
/// hands out the value that the key had.
pub fn perform<W: WriteOperations>(
    tx: &mut W,
    open: &mut OpenTables,
    open_multimap: &mut OpenTables,
    op: &TransactionOperation,
) -> (r: Result<Option<Vec<u8>>, DbError>)
    ensures
        final(tx).store() == old(tx).store(),
        match r {
            Ok(before) => {
                &&& apply(state_of(*old(tx), *old(open), *old(open_multimap)), op@) == Ok::<
                    ReplayState,
                    DbError,
                >(state_of(*final(tx), *final(open), *final(open_multimap)))
                &&& replaced(view_of(*old(tx)), *old(open), op@, before)
            },
            Err(DbError::KVError(_)) => true,
            Err(e) => {
                &&& apply(state_of(*old(tx), *old(open), *old(open_multimap)), op@) == Err::<
                    ReplayState,
                    DbError,
                >(e)
                &&& state_of(*final(tx), *final(open), *final(open_multimap)) == state_of(
                    *old(tx),
                    *old(open),
                    *old(open_multimap),
                )
            },
        },
{
    if !check_names(op) {
        return Err(DbError::JournalInvariant);
    }
    match op {
        TransactionOperation::OpenTable(name) => {
            open.open(name.as_str());
            Ok(None)
        },
        TransactionOperation::OpenMultimapTable(name) => {
            open_multimap.open(name.as_str());
            Ok(None)
        },
        TransactionOperation::Insert { table_name, key_bytes, value_bytes } => {
            if open.contains(table_name.as_str()) {
                match tx.insert(table_name.as_str(), key_bytes.as_slice(), value_bytes.as_slice()) {
                    Ok(before) => {
                        proof {
                            crate::kv::lemma_view_with_table(*old(tx), *tx, table_name@);
                        }
                        Ok(before)
                    },
                    Err(error) => Err(DbError::KVError(error)),
                }
            } else if open_multimap.contains(table_name.as_str()) {
                match tx.insert_multimap(
                    table_name.as_str(),
                    key_bytes.as_slice(),
                    value_bytes.as_slice(),
                ) {
                    Ok(_) => {
                        proof {
                            crate::kv::lemma_view_with_multimap(*old(tx), *tx, table_name@);
                        }
                        Ok(None)
                    },
                    Err(error) => Err(DbError::KVError(error)),
                }
            } else {
                Err(DbError::JournalInvariant)
            }
        },
        TransactionOperation::Remove(name, key) => {
            if open.contains(name.as_str()) {
                match tx.remove(name.as_str(), key.as_slice()) {
                    Ok(before) => {
                        proof {
                            crate::kv::lemma_view_with_table(*old(tx), *tx, name@);
                        }
                        Ok(before)
                    },
                    Err(error) => Err(DbError::KVError(error)),
                }
            } else {
                Err(DbError::JournalInvariant)
            }
        },
        TransactionOperation::RenameTable(old_name, new_name) => {
            match tx.rename_table(old_name.as_str(), new_name.as_str()) {
                Ok(_) => {
                    open.close(old_name.as_str());
                    proof {
                        let expected = renamed(view_of(*old(tx)), old_name@, new_name@);
                        assert(view_of(*tx).tables =~= expected.tables);
                        assert(view_of(*tx).multimaps =~= expected.multimaps);
                    }
                    Ok(None)
                },
                Err(error) => Err(DbError::KVError(error)),
            }
        },
        TransactionOperation::RenameMultimapTable(old_name, new_name) => {
            match tx.rename_multimap_table(old_name.as_str(), new_name.as_str()) {
                Ok(_) => {
                    open_multimap.close(old_name.as_str());
                    proof {
                        let expected = renamed_multimap(view_of(*old(tx)), old_name@, new_name@);
                        assert(view_of(*tx).tables =~= expected.tables);
                        assert(view_of(*tx).multimaps =~= expected.multimaps);
                    }
                    Ok(None)
                },
                Err(error) => Err(DbError::KVError(error)),
            }
        },
        TransactionOperation::DeleteTable(name) => {
            match tx.clear(name.as_str()) {
                Ok(_) => {
                    open.close(name.as_str());
                    proof {
                        crate::kv::lemma_view_with_table(*old(tx), *tx, name@);
                    }
                    Ok(None)
                },
                Err(error) => Err(DbError::KVError(error)),
            }
        },
        TransactionOperation::DeleteMultimapTable(name) => {
            match tx.clear_multimap(name.as_str()) {
                Ok(_) => {
                    open_multimap.close(name.as_str());
                    proof {
                        crate::kv::lemma_view_with_multimap(*old(tx), *tx, name@);
                    }
                    Ok(None)
                },
                Err(error) => Err(DbError::KVError(error)),
            }
        },
        TransactionOperation::Commit => Err(DbError::JournalInvariant),
    }
}

/// `before` is what the operation `op` replaces in the contents `view`:
/// the value of the key that an insert into a table or a removal names,
/// and nothing for any other operation.
pub open spec fn replaced(
    view: StoreView,
    open: OpenTables,
    op: OperationView,
    before: Option<Vec<u8>>,
) -> bool {
    match op {
        OperationView::Insert { table_name, key_bytes, value_bytes } => if open@.contains(table_name) {
            crate::kv::was(view.table(table_name), key_bytes, before)
        } else {
            before is None
        },
        OperationView::Remove(name, key) => crate::kv::was(view.table(name), key, before),
        _ => before is None,
    }
}

/// Replay operations on a transaction: perform the first `count` of them
/// in their order, and stop at the first that cannot be performed.
pub fn perform_all<W: WriteOperations>(
    tx: &mut W,
    operations: &Vec<TransactionOperation>,
    count: usize,
) -> (r: Result<(), DbError>)
    requires
        count <= operations@.len(),
    ensures
        final(tx).store() == old(tx).store(),
        match r {
            Ok(_) => replay(
                ReplayState::start(view_of(*old(tx))),
                operation_views(operations@),
                count as int,
            ) matches Ok(state) && state.view == view_of(*final(tx)),
            Err(DbError::KVError(_)) => true,
            Err(e) => replay(
                ReplayState::start(view_of(*old(tx))),
                operation_views(operations@),
                count as int,
            ) == Err::<ReplayState, DbError>(e),
        },
{
    let mut open = OpenTables::new();
    let mut open_multimap = OpenTables::new();
    let ghost start = ReplayState::start(view_of(*tx));
    let ghost views = operation_views(operations@);
    let mut i: usize = 0;
    while i < count
        invariant
            i <= count <= operations@.len(),
            tx.store() == old(tx).store(),
            start == ReplayState::start(view_of(*old(tx))),
            views == operation_views(operations@),
            replay(start, views, i as int) == Ok::<ReplayState, DbError>(
                state_of(*tx, open, open_multimap),
            ),
        decreases count - i,
    {
        match perform(tx, &mut open, &mut open_multimap, &operations[i]) {
            Ok(_) => {},
            Err(error) => {
                proof {
                    if !(error is KVError) {
                        lemma_replay_fails(start, views, i + 1, count as int);
                    }
                }
                return Err(error);
            },
        }
        i += 1;
    }
    Ok(())
}

} // verus!
