//! Snapshots restore what they were taken of: the transaction that a journal
//! is flattened into, appended to an empty store, gives every table of the
//! journal but those of the journal itself.

use vstd::prelude::*;
use crate::chain::lemma_empty_is_chained;
use crate::error::DbError;
use crate::journal::{flat, flattens, inserts, left_out};
use crate::kv::{distinct_names, entries_of, is_scan, named, Pair, StoreView};
use crate::query::ByteRange;
use crate::replay::{apply, lemma_replay_prefix, replay, ReplayState};
use crate::state::{append_spec, state_spec, JOURNAL_TABLE_NAME, TX_TABLE_NAME};
use crate::transaction::{JournalTransactionView, OperationView};

verus! {

/// The table `table` with the first `upto` of `items` set in it.
pub open spec fn filled(table: Map<Seq<u8>, Seq<u8>>, items: Seq<Pair>, upto: int) -> Map<
    Seq<u8>,
    Seq<u8>,
>
    decreases upto,
{
    if upto <= 0 {
        table
    } else {
        filled(table, items, upto - 1).insert(items[upto - 1].0, items[upto - 1].1)
    }
}

/// The entries of a table, set in an empty table, make the table.
pub proof fn lemma_filled_is_table(table: Map<Seq<u8>, Seq<u8>>, items: Seq<Pair>)
    requires
        is_scan(entries_of(table), ByteRange::full(), items),
    ensures
        filled(Map::empty(), items, items.len() as int) == table,
{
    lemma_filled_holds(table, items, items.len() as int);
    let made = filled(Map::empty(), items, items.len() as int);
    assert forall|key: Seq<u8>| #[trigger] made.dom().contains(key) == table.dom().contains(key) by {
        if table.dom().contains(key) {
            let entry = (key, table[key]);
            assert(entries_of(table).contains(entry));
            assert(items.contains(entry));
            let i = choose|i: int| 0 <= i < items.len() && items[i] == entry;
            assert(made.dom().contains(items[i].0));
        }
    }
    assert(made.dom() =~= table.dom());
    assert(made =~= table);
}

/// What is set in an empty table from the entries of a table is in the
/// table, and every key of the entries that are set is set.
proof fn lemma_filled_holds(table: Map<Seq<u8>, Seq<u8>>, items: Seq<Pair>, upto: int)
    requires
        0 <= upto <= items.len(),
        forall|i: int| 0 <= i < items.len() ==> entries_of(table).contains(#[trigger] items[i]),
    ensures
        forall|key: Seq<u8>| #[trigger]
            filled(Map::empty(), items, upto).dom().contains(key) ==> table.dom().contains(key)
                && filled(Map::empty(), items, upto)[key] == table[key],
        forall|i: int|
            0 <= i < upto ==> filled(Map::empty(), items, upto).dom().contains(
                (#[trigger] items[i]).0,
            ),
    decreases upto,
{
    if upto > 0 {
        lemma_filled_holds(table, items, upto - 1);
        let last = items[upto - 1];
        let before = filled(Map::empty(), items, upto - 1);
        let after = filled(Map::empty(), items, upto);
        assert(entries_of(table).contains(last));
        assert(after == before.insert(last.0, last.1));
        assert forall|key: Seq<u8>| #[trigger] after.dom().contains(key) implies table.dom().contains(
            key,
        ) && after[key] == table[key] by {
            if key != last.0 {
                assert(before.dom().contains(key));
            }
        }
        assert forall|i: int| 0 <= i < upto implies after.dom().contains((#[trigger] items[i]).0) by {
            if i < upto - 1 {
                assert(before.dom().contains(items[i].0));
            }
        }
    }
}

/// Replaying operations one list after the other is replaying the lists
/// as one.
pub proof fn lemma_replay_joined(
    state: ReplayState,
    first: Seq<OperationView>,
    second: Seq<OperationView>,
    upto: int,
)
    requires
        0 <= upto <= second.len(),
    ensures
        replay(state, first + second, first.len() + upto) == match replay(
            state,
            first,
            first.len() as int,
        ) {
            Ok(between) => replay(between, second, upto),
            Err(e) => Err(e),
        },
    decreases upto,
{
    if upto == 0 {
        lemma_replay_prefix(state, first + second, first, first.len() as int);
    } else {
        lemma_replay_joined(state, first, second, upto - 1);
        assert((first + second)[first.len() + upto - 1] == second[upto - 1]);
    }
}

/// Inserts into an open table set their entries in the table.
pub proof fn lemma_replay_inserts(state: ReplayState, name: Seq<char>, items: Seq<Pair>, upto: int)
    requires
        state.view.total(),
        state.open.contains(name),
        name.len() > 0,
        0 <= upto <= items.len(),
    ensures
        replay(state, inserts(name, items), upto) == Ok::<ReplayState, DbError>(
            ReplayState {
                view: state.view.with_table(name, filled(state.view.table(name), items, upto)),
                open: state.open,
                open_multimap: state.open_multimap,
            },
        ),
    decreases upto,
{
    if upto == 0 {
        assert(state.view.with_table(name, state.view.table(name)).tables =~= state.view.tables);
    } else {
        lemma_replay_inserts(state, name, items, upto - 1);
        let before = state.view.with_table(name, filled(state.view.table(name), items, upto - 1));
        let after = state.view.with_table(name, filled(state.view.table(name), items, upto));
        assert(before.put(name, items[upto - 1].0, items[upto - 1].1).tables =~= after.tables);
    }
}

/// What the operations that restore the first `upto` tables make of an
/// empty store: each of those tables but those of the journal as it is in
/// `view`, and no other entry.
pub proof fn lemma_replay_flat(
    view: StoreView,
    names: Seq<String>,
    scans: Seq<Seq<Pair>>,
    upto: int,
)
    requires
        0 <= upto <= names.len(),
        scans.len() == names.len(),
        distinct_names(names),
        forall|i: int|
            0 <= i < names.len() && !left_out(names[i]@) ==> is_scan(
                entries_of(view.table(names[i]@)),
                ByteRange::full(),
                #[trigger] scans[i],
            ),
    ensures
        ({
            let operations = flat(names, scans, upto);
            let r = replay(ReplayState::start(StoreView::empty()), operations, operations.len() as int);
            &&& r is Ok
            &&& r->Ok_0.view.total()
            &&& r->Ok_0.view.multimaps == StoreView::empty().multimaps
            &&& forall|n: Seq<char>|
                #![trigger r->Ok_0.view.table(n)]
                r->Ok_0.view.table(n) == if restored(names, upto, n) {
                    view.table(n)
                } else {
                    Map::<Seq<u8>, Seq<u8>>::empty()
                }
        }),
    decreases upto,
{
    let start = ReplayState::start(StoreView::empty());
    if upto > 0 {
        lemma_replay_flat(view, names, scans, upto - 1);
        let earlier = flat(names, scans, upto - 1);
        let name = names[upto - 1]@;
        let between = replay(start, earlier, earlier.len() as int)->Ok_0;
        assert forall|n: Seq<char>| restored(names, upto, n) == (restored(names, upto - 1, n) || (n
            == name && !left_out(name))) by {
            if restored(names, upto, n) {
                let i = choose|i: int| 0 <= i < upto && names[i]@ == n && !left_out(n);
                if i < upto - 1 {
                    assert(restored(names, upto - 1, n));
                }
            }
            if restored(names, upto - 1, n) {
                let i = choose|i: int| 0 <= i < upto - 1 && names[i]@ == n && !left_out(n);
                assert(0 <= i < upto && names[i]@ == n);
            }
            if n == name && !left_out(name) {
                assert(names[upto - 1]@ == n);
            }
        }
        if !left_out(name) {
            let items = scans[upto - 1];
            let chunk = seq![OperationView::OpenTable(name)] + inserts(name, items);
            let operations = flat(names, scans, upto);
            assert(operations =~= earlier + chunk);
            lemma_replay_joined(start, earlier, chunk, chunk.len() as int);
            let opened = ReplayState {
                view: between.view,
                open: between.open.insert(name),
                open_multimap: between.open_multimap,
            };
            let opening = seq![OperationView::OpenTable(name)];
            assert(replay(between, opening, 0) == Ok::<ReplayState, DbError>(between));
            assert(replay(between, opening, 1) == apply(between, opening[0]));
            lemma_replay_joined(between, opening, inserts(name, items), items.len() as int);
            lemma_replay_inserts(opened, name, items, items.len() as int);
            assert(!restored(names, upto - 1, name)) by {
                if restored(names, upto - 1, name) {
                    let i = choose|i: int| 0 <= i < upto - 1 && names[i]@ == name && !left_out(name);
                    assert(names[i]@ != names[upto - 1]@);
                }
            }
            assert(between.view.table(name) == Map::<Seq<u8>, Seq<u8>>::empty());
            lemma_filled_is_table(view.table(name), items);
            let after = replay(start, operations, operations.len() as int)->Ok_0;
            assert(after.view == between.view.with_table(name, view.table(name)));
            assert forall|n: Seq<char>|
                #![trigger after.view.table(n)]
                after.view.table(n) == if restored(names, upto, n) {
                    view.table(n)
                } else {
                    Map::<Seq<u8>, Seq<u8>>::empty()
                } by {
                if n != name {
                    assert(after.view.table(n) == between.view.table(n));
                }
            }
        }
    } else {
        assert forall|n: Seq<char>| !restored(names, 0, n) by {}
    }
}

/// Whether the table `n` is one of the first `upto` of `names` and not a
/// table of the journal.
pub open spec fn restored(names: Seq<String>, upto: int, n: Seq<char>) -> bool {
    exists|i: int| 0 <= i < upto && (#[trigger] names[i])@ == n && !left_out(n)
}

/// A snapshot restores what it was taken of: the transaction that the
/// tables `names` of the contents `view` are flattened into can be
/// appended to an empty store, and gives each of those tables but those
/// of the journal as it is in `view`, and no other table but those of the
/// journal.
pub proof fn lemma_snapshot_restores(view: StoreView, names: Seq<String>, tx: JournalTransactionView)
    requires
        distinct_names(names),
        flattens(view, names, tx),
    ensures
        append_spec(StoreView::empty(), tx) is Ok,
        forall|n: Seq<char>|
            !left_out(n) ==> #[trigger] append_spec(StoreView::empty(), tx)->Ok_0.table(n) == if named(
                names,
                n,
            ) {
                view.table(n)
            } else {
                Map::<Seq<u8>, Seq<u8>>::empty()
            },
{
    let scans = choose|scans: Seq<Seq<Pair>>|
        {
            &&& scans.len() == names.len()
            &&& forall|i: int|
                0 <= i < names.len() && !left_out(names[i]@) ==> is_scan(
                    entries_of(view.table(names[i]@)),
                    ByteRange::full(),
                    #[trigger] scans[i],
                )
            &&& tx == (JournalTransactionView {
                last_tx_hash: crate::state::zero_hash(),
                operations: flat(names, scans, names.len() as int).push(OperationView::Commit),
            })
        };
    let operations = flat(names, scans, names.len() as int);
    let start = ReplayState::start(StoreView::empty());
    lemma_empty_is_chained();
    lemma_replay_flat(view, names, scans, names.len() as int);
    lemma_replay_prefix(start, tx.operations, operations, operations.len() as int);
    let after = append_spec(StoreView::empty(), tx)->Ok_0;
    let state = replay(start, operations, operations.len() as int)->Ok_0;
    assert forall|n: Seq<char>| !left_out(n) implies #[trigger] after.table(n) == if named(names, n) {
        view.table(n)
    } else {
        Map::<Seq<u8>, Seq<u8>>::empty()
    } by {
        assert(after.table(n) == state.view.table(n));
        if named(names, n) {
            let i = choose|i: int| 0 <= i < names.len() && (#[trigger] names[i])@ == n;
            assert(restored(names, names.len() as int, n));
        }
        if restored(names, names.len() as int, n) {
            let i = choose|i: int| 0 <= i < names.len() && (#[trigger] names[i])@ == n && !left_out(n);
            assert(named(names, n));
        }
    }
}

} // verus!
