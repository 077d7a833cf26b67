//! The key-value abstraction: named tables and multimap tables keyed by byte
//! strings, read through snapshots and written through transactions.
//!
//! A table is a finite map from keys to values. A multimap table is a finite
//! set of key-value pairs. A table that was never created is the empty table:
//! the contents of a store assign a table to every name.

use vstd::prelude::*;
use crate::order::lex_lt;
use crate::query::ByteRange;
use crate::query::GeneralRange;

verus! {

/// An error that the underlying store reported: the store's own error,
/// beside the words that the store has for it.
#[derive(Debug)]
pub struct KvError {
    pub message: String,
    pub source: redb::Error,
}

/// One entry of a table, as a range hands it out.
pub trait OpaqueItem: Sized {
    spec fn key_bytes(&self) -> Seq<u8>;

    spec fn value_bytes(&self) -> Seq<u8>;

    fn key(&self) -> (k: &[u8])
        ensures
            k@ == self.key_bytes(),
    ;

    fn value(&self) -> (v: &[u8])
        ensures
            v@ == self.value_bytes(),
    ;
}

/// A key and a value, as contracts see an entry.
pub type Pair = (Seq<u8>, Seq<u8>);

/// The keys and values of `items`.
pub open spec fn pairs<I: OpaqueItem>(items: Seq<I>) -> Seq<Pair> {
    Seq::new(items.len(), |i: int| (items[i].key_bytes(), items[i].value_bytes()))
}

/// Pairs are ordered by key, and pairs of one key by value.
pub open spec fn pair_lt(a: Pair, b: Pair) -> bool {
    lex_lt(a.0, b.0) || (a.0 == b.0 && lex_lt(a.1, b.1))
}

/// `items` holds the pairs of `entries` whose key lies in `range`, each once,
/// in ascending order.
pub open spec fn is_scan(entries: Set<Pair>, range: ByteRange, items: Seq<Pair>) -> bool {
    &&& forall|i: int| 0 <= i < items.len() ==> entries.contains(#[trigger] items[i])
    &&& forall|i: int| 0 <= i < items.len() ==> range.contains((#[trigger] items[i]).0)
    &&& forall|i: int, j: int| 0 <= i < j < items.len() ==> pair_lt(#[trigger] items[i], #[trigger] items[j])
    &&& forall|p: Pair| #[trigger] entries.contains(p) && range.contains(p.0) ==> items.contains(p)
}

/// No name occurs twice in `names`.
pub open spec fn distinct_names(names: Seq<String>) -> bool {
    forall|i: int, j: int|
        0 <= i < j < names.len() ==> (#[trigger] names[i])@ != (#[trigger] names[j])@
}

/// `name` occurs in `names`.
pub open spec fn named(names: Seq<String>, name: Seq<char>) -> bool {
    exists|i: int| 0 <= i < names.len() && (#[trigger] names[i])@ == name
}

/// `names` names the tables of `a`: each table that holds an entry, and no
/// table twice.
pub open spec fn lists_tables<A: ReadOperations>(a: A, names: Seq<String>) -> bool {
    &&& distinct_names(names)
    &&& forall|n: Seq<char>| (#[trigger] a.table(n)).dom().len() > 0 ==> named(names, n)
}

/// The entries of a table, as a set of pairs.
pub open spec fn entries_of(table: Map<Seq<u8>, Seq<u8>>) -> Set<Pair> {
    Set::new(|p: Pair| table.dom().contains(p.0) && table[p.0] == p.1)
}

/// The pairs of `entries` that have the key `key`.
pub open spec fn with_key(entries: Set<Pair>, key: Seq<u8>) -> Set<Pair> {
    entries.filter(|p: Pair| p.0 == key)
}

/// What can be read from a store, a snapshot or a transaction. A table is
/// named by a string that is not empty: the empty string names no table,
/// and the caller keeps it out.
pub trait ReadOperations: Sized {
    /// The table of the given name.
    spec fn table(&self, name: Seq<char>) -> Map<Seq<u8>, Seq<u8>>;

    /// The multimap table of the given name.
    spec fn multimap(&self, name: Seq<char>) -> Set<Pair>;

    type Item: OpaqueItem;

    /// The number of entries in a table.
    fn count(&self, table: &str) -> (r: Result<u64, KvError>)
        requires
            table@.len() > 0,
        ensures
            r matches Ok(n) ==> self.table(table@).dom().finite() && n == self.table(
                table@,
            ).dom().len(),
    ;

    /// The value that a table holds for a key.
    fn get(&self, table: &str, key: &[u8]) -> (r: Result<Option<Vec<u8>>, KvError>)
        requires
            table@.len() > 0,
        ensures
            r matches Ok(found) ==> match found {
                Some(value) => self.table(table@).dom().contains(key@) && self.table(table@)[key@]
                    == value@,
                None => !self.table(table@).dom().contains(key@),
            },
    ;

    /// The entries of a table whose key lies in a range, in ascending order
    /// of their keys.
    fn range(&self, table: &str, range: &GeneralRange<Vec<u8>>) -> (r: Result<
        Vec<Self::Item>,
        KvError,
    >)
        requires
            table@.len() > 0,
        ensures
            r matches Ok(items) ==> is_scan(entries_of(self.table(table@)), range@, pairs(items@)),
    ;

    /// The names of the tables: each table that holds an entry is named,
    /// and no table is named twice. A table without an entry may be named
    /// too, where it was created and is yet to be deleted.
    fn list_tables(&self) -> (r: Result<Vec<String>, KvError>)
        ensures
            r matches Ok(names) ==> {
                &&& distinct_names(names@)
                &&& forall|n: Seq<char>|
                    (#[trigger] self.table(n)).dom().len() > 0 ==> named(names@, n)
            },
    ;

    /// The number of key-value pairs in a multimap table.
    fn count_multimap(&self, table: &str) -> (r: Result<u64, KvError>)
        requires
            table@.len() > 0,
        ensures
            r matches Ok(n) ==> self.multimap(table@).finite() && n == self.multimap(table@).len(),
    ;

    /// The pairs that a multimap table holds for a key, in ascending order
    /// of their values.
    fn get_multimap(&self, table: &str, key: &[u8]) -> (r: Result<Vec<Self::Item>, KvError>)
        requires
            table@.len() > 0,
        ensures
            r matches Ok(items) ==> is_scan(
                with_key(self.multimap(table@), key@),
                ByteRange::full(),
                pairs(items@),
            ),
    ;

    /// The pairs of a multimap table whose key lies in a range, in ascending
    /// order of their keys, and of their values where the keys agree.
    fn range_multimap(&self, table: &str, range: &GeneralRange<Vec<u8>>) -> (r: Result<
        Vec<Self::Item>,
        KvError,
    >)
        requires
            table@.len() > 0,
        ensures
            r matches Ok(items) ==> is_scan(self.multimap(table@), range@, pairs(items@)),
    ;
}

/// What can be written to a store or a transaction. Where an operation
/// fails, nothing is said of the contents afterwards. A table is named by
/// a string that is not empty.
pub trait WriteOperations: ReadOperations {
    /// The store that is written to. A transaction writes to the store that
    /// it was begun on.
    spec fn store(&self) -> int;

    /// Add a key-value pair to a multimap table.
    fn insert_multimap(&mut self, table: &str, key: &[u8], value: &[u8]) -> (r: Result<(), KvError>)
        requires
            table@.len() > 0,
        ensures
            final(self).store() == old(self).store(),
            r is Ok ==> {
                &&& final(self).multimap(table@) == old(self).multimap(table@).insert(
                    (key@, value@),
                )
                &&& same_but_multimap(*old(self), *final(self), table@)
            },
    ;

    /// Remove a key-value pair from a multimap table, and say whether it
    /// was there.
    fn remove_multimap(&mut self, table: &str, key: &[u8], value: &[u8]) -> (r: Result<
        bool,
        KvError,
    >)
        requires
            table@.len() > 0,
        ensures
            final(self).store() == old(self).store(),
            r matches Ok(present) ==> {
                &&& present == old(self).multimap(table@).contains((key@, value@))
                &&& final(self).multimap(table@) == old(self).multimap(table@).remove(
                    (key@, value@),
                )
                &&& same_but_multimap(*old(self), *final(self), table@)
            },
    ;

    /// Remove every pair of a key from a multimap table.
    fn remove_all_multimap(&mut self, table: &str, key: &[u8]) -> (r: Result<(), KvError>)
        requires
            table@.len() > 0,
        ensures
            final(self).store() == old(self).store(),
            r is Ok ==> {
                &&& final(self).multimap(table@) == old(self).multimap(table@).difference(
                    with_key(old(self).multimap(table@), key@),
                )
                &&& same_but_multimap(*old(self), *final(self), table@)
            },
    ;

    /// Set the value of a key in a table, and hand out the value that the
    /// key had.
    fn insert(&mut self, table: &str, key: &[u8], value: &[u8]) -> (r: Result<
        Option<Vec<u8>>,
        KvError,
    >)
        requires
            table@.len() > 0,
        ensures
            final(self).store() == old(self).store(),
            r matches Ok(before) ==> {
                &&& was(old(self).table(table@), key@, before)
                &&& final(self).table(table@) == old(self).table(table@).insert(key@, value@)
                &&& same_but_table(*old(self), *final(self), table@)
            },
    ;

    /// Remove a key from a table, and hand out the value that the key had.
    fn remove(&mut self, table: &str, key: &[u8]) -> (r: Result<Option<Vec<u8>>, KvError>)
        requires
            table@.len() > 0,
        ensures
            final(self).store() == old(self).store(),
            r matches Ok(before) ==> {
                &&& was(old(self).table(table@), key@, before)
                &&& final(self).table(table@) == old(self).table(table@).remove(key@)
                &&& same_but_table(*old(self), *final(self), table@)
            },
    ;

    /// Remove every entry of a table.
    fn clear(&mut self, table: &str) -> (r: Result<(), KvError>)
        requires
            table@.len() > 0,
        ensures
            final(self).store() == old(self).store(),
            r is Ok ==> {
                &&& final(self).table(table@) == Map::<Seq<u8>, Seq<u8>>::empty()
                &&& same_but_table(*old(self), *final(self), table@)
            },
    ;

    /// Give a table another name. The store refuses where no table has the
    /// old name or where a table has the new one.
    fn rename_table(&mut self, old_name: &str, new_name: &str) -> (r: Result<(), KvError>)
        requires
            old_name@.len() > 0,
            new_name@.len() > 0,
        ensures
            final(self).store() == old(self).store(),
            r is Ok ==> {
                &&& final(self).table(new_name@) == old(self).table(old_name@)
                &&& old_name@ != new_name@ ==> final(self).table(old_name@) == Map::<
                    Seq<u8>,
                    Seq<u8>,
                >::empty()
                &&& forall|n: Seq<char>|
                    n != old_name@ && n != new_name@ ==> #[trigger] final(self).table(n) == old(
                        self,
                    ).table(n)
                &&& forall|n: Seq<char>| #[trigger] final(self).multimap(n) == old(self).multimap(n)
            },
    ;

    /// Give a multimap table another name. The store refuses where no
    /// multimap table has the old name or where a table has the new one.
    fn rename_multimap_table(&mut self, old_name: &str, new_name: &str) -> (r: Result<(), KvError>)
        requires
            old_name@.len() > 0,
            new_name@.len() > 0,
        ensures
            final(self).store() == old(self).store(),
            r is Ok ==> {
                &&& final(self).multimap(new_name@) == old(self).multimap(old_name@)
                &&& old_name@ != new_name@ ==> final(self).multimap(old_name@) == Set::<Pair>::empty()
                &&& forall|n: Seq<char>|
                    n != old_name@ && n != new_name@ ==> #[trigger] final(self).multimap(n) == old(
                        self,
                    ).multimap(n)
                &&& forall|n: Seq<char>| #[trigger] final(self).table(n) == old(self).table(n)
            },
    ;

    /// Remove every pair of a multimap table.
    fn clear_multimap(&mut self, table: &str) -> (r: Result<(), KvError>)
        requires
            table@.len() > 0,
        ensures
            final(self).store() == old(self).store(),
            r is Ok ==> {
                &&& final(self).multimap(table@) == Set::<Pair>::empty()
                &&& same_but_multimap(*old(self), *final(self), table@)
            },
    ;
}

/// `found` is what `table` holds for `key`.
pub open spec fn was(table: Map<Seq<u8>, Seq<u8>>, key: Seq<u8>, found: Option<Vec<u8>>) -> bool {
    match found {
        Some(value) => table.dom().contains(key) && table[key] == value@,
        None => !table.dom().contains(key),
    }
}

/// `after` holds what `before` holds, but for the table `name`.
pub open spec fn same_but_table<A: ReadOperations, B: ReadOperations>(
    before: A,
    after: B,
    name: Seq<char>,
) -> bool {
    &&& forall|n: Seq<char>| n != name ==> #[trigger] after.table(n) == before.table(n)
    &&& forall|n: Seq<char>| #[trigger] after.multimap(n) == before.multimap(n)
}

/// `after` holds what `before` holds, but for the multimap table `name`.
pub open spec fn same_but_multimap<A: ReadOperations, B: ReadOperations>(
    before: A,
    after: B,
    name: Seq<char>,
) -> bool {
    &&& forall|n: Seq<char>| #[trigger] after.table(n) == before.table(n)
    &&& forall|n: Seq<char>| n != name ==> #[trigger] after.multimap(n) == before.multimap(n)
}

/// `a` and `b` hold the same tables and multimap tables.
pub open spec fn same_contents<A: ReadOperations, B: ReadOperations>(a: A, b: B) -> bool {
    &&& forall|n: Seq<char>| #[trigger] a.table(n) == b.table(n)
    &&& forall|n: Seq<char>| #[trigger] a.multimap(n) == b.multimap(n)
}

/// A store without an entry.
pub open spec fn is_empty<A: ReadOperations>(a: A) -> bool {
    &&& forall|n: Seq<char>| #[trigger] a.table(n) == Map::<Seq<u8>, Seq<u8>>::empty()
    &&& forall|n: Seq<char>| #[trigger] a.multimap(n) == Set::<Pair>::empty()
}

/// The contents of a store: the table and the multimap table of every name.
pub struct StoreView {
    pub tables: Map<Seq<char>, Map<Seq<u8>, Seq<u8>>>,
    pub multimaps: Map<Seq<char>, Set<Pair>>,
}

impl StoreView {
    /// The store without an entry.
    pub open spec fn empty() -> StoreView {
        StoreView {
            tables: Map::total(|n: Seq<char>| Map::<Seq<u8>, Seq<u8>>::empty()),
            multimaps: Map::total(|n: Seq<char>| Set::<Pair>::empty()),
        }
    }

    /// Every name has a table and a multimap table.
    pub open spec fn total(self) -> bool {
        &&& forall|n: Seq<char>| self.tables.dom().contains(n)
        &&& forall|n: Seq<char>| self.multimaps.dom().contains(n)
    }

    /// The table of the given name.
    pub open spec fn table(self, name: Seq<char>) -> Map<Seq<u8>, Seq<u8>> {
        self.tables[name]
    }

    /// The multimap table of the given name.
    pub open spec fn multimap(self, name: Seq<char>) -> Set<Pair> {
        self.multimaps[name]
    }

    /// The contents with the table `name` replaced.
    pub open spec fn with_table(self, name: Seq<char>, table: Map<Seq<u8>, Seq<u8>>) -> StoreView {
        StoreView { tables: self.tables.insert(name, table), multimaps: self.multimaps }
    }

    /// The contents with the multimap table `name` replaced.
    pub open spec fn with_multimap(self, name: Seq<char>, pairs: Set<Pair>) -> StoreView {
        StoreView { tables: self.tables, multimaps: self.multimaps.insert(name, pairs) }
    }

    /// The contents with `key` set to `value` in the table `name`.
    pub open spec fn put(self, name: Seq<char>, key: Seq<u8>, value: Seq<u8>) -> StoreView {
        self.with_table(name, self.table(name).insert(key, value))
    }

    /// The contents without `key` in the table `name`.
    pub open spec fn delete(self, name: Seq<char>, key: Seq<u8>) -> StoreView {
        self.with_table(name, self.table(name).remove(key))
    }

    /// The contents with the pair of `key` and `value` added to the multimap
    /// table `name`.
    pub open spec fn add(self, name: Seq<char>, key: Seq<u8>, value: Seq<u8>) -> StoreView {
        self.with_multimap(name, self.multimap(name).insert((key, value)))
    }
}

/// The contents of a store, a snapshot or a transaction.
pub open spec fn view_of<A: ReadOperations>(a: A) -> StoreView {
    StoreView {
        tables: Map::total(|n: Seq<char>| a.table(n)),
        multimaps: Map::total(|n: Seq<char>| a.multimap(n)),
    }
}

/// The contents of a store assign a table to every name.
pub proof fn lemma_view_total<A: ReadOperations>(a: A)
    ensures
        view_of(a).total(),
{
}

/// Two stores that hold the same tables have the same contents.
pub proof fn lemma_same_view<A: ReadOperations, B: ReadOperations>(a: A, b: B)
    requires
        same_contents(a, b),
    ensures
        view_of(a) == view_of(b),
{
    assert(view_of(a).tables =~= view_of(b).tables);
    assert(view_of(a).multimaps =~= view_of(b).multimaps);
}

/// A store that differs from another in one table has the contents of the
/// other with that table replaced.
pub proof fn lemma_view_with_table<A: ReadOperations, B: ReadOperations>(
    before: A,
    after: B,
    name: Seq<char>,
)
    requires
        same_but_table(before, after, name),
    ensures
        view_of(after) == view_of(before).with_table(name, after.table(name)),
{
    let expected = view_of(before).with_table(name, after.table(name));
    assert(view_of(after).tables =~= expected.tables);
    assert(view_of(after).multimaps =~= expected.multimaps);
}

/// A store that differs from another in one multimap table has the contents
/// of the other with that multimap table replaced.
pub proof fn lemma_view_with_multimap<A: ReadOperations, B: ReadOperations>(
    before: A,
    after: B,
    name: Seq<char>,
)
    requires
        same_but_multimap(before, after, name),
    ensures
        view_of(after) == view_of(before).with_multimap(name, after.multimap(name)),
{
    let expected = view_of(before).with_multimap(name, after.multimap(name));
    assert(view_of(after).tables =~= expected.tables);
    assert(view_of(after).multimaps =~= expected.multimaps);
}

/// A table that was never created reads as a table without entries: it has
/// no entry to count, no key has a value in it, and no range of it holds
/// an entry.
pub proof fn lemma_empty_table_reads(
    range: ByteRange,
    items: Seq<Pair>,
    key: Seq<u8>,
    found: Option<Vec<u8>>,
)
    ensures
        Map::<Seq<u8>, Seq<u8>>::empty().dom().len() == 0,
        was(Map::<Seq<u8>, Seq<u8>>::empty(), key, found) ==> found is None,
        is_scan(entries_of(Map::<Seq<u8>, Seq<u8>>::empty()), range, items) ==> items.len() == 0,
        is_scan(Set::<Pair>::empty(), range, items) ==> items.len() == 0,
{
    if items.len() > 0 {
        if is_scan(entries_of(Map::<Seq<u8>, Seq<u8>>::empty()), range, items) {
            assert(entries_of(Map::<Seq<u8>, Seq<u8>>::empty()).contains(items[0]));
        }
        if is_scan(Set::<Pair>::empty(), range, items) {
            assert(Set::<Pair>::empty().contains(items[0]));
        }
    }
}

/// A write transaction: what it reads and writes is its own until it is
/// committed.
pub trait WriteTx: WriteOperations {
    /// Discard the transaction and everything written to it.
    fn abort(self) -> (r: Result<(), KvError>);
}

/// A transactional store of tables and multimap tables.
pub trait KV: WriteOperations {
    type ReadTransaction: ReadOperations;

    type WriteTransaction: WriteTx;

    /// A store held in memory. Without an initial image it is empty.
    fn in_memory(image: Option<&[u8]>) -> (r: Result<Self, KvError>)
        ensures
            r matches Ok(kv) ==> (image is None ==> is_empty(kv)),
    ;

    /// A snapshot of the store: it keeps showing what the store holds now,
    /// whatever is written to the store later.
    fn read_tx(&self) -> (r: Result<Self::ReadTransaction, KvError>)
        ensures
            r matches Ok(tx) ==> same_contents(tx, *self),
    ;

    /// A write transaction, which starts from what the store holds now.
    /// Blocks while another write transaction on the store is in progress.
    fn write_tx(&self) -> (r: Result<Self::WriteTransaction, KvError>)
        ensures
            r matches Ok(tx) ==> same_contents(tx, *self) && tx.store() == self.store(),
    ;

    /// Make what was written to `tx` the contents of the store, all of it
    /// or, where the commit fails, possibly none of it.
    fn commit(&mut self, tx: Self::WriteTransaction) -> (r: Result<(), KvError>)
        requires
            tx.store() == old(self).store(),
        ensures
            final(self).store() == old(self).store(),
            r is Ok ==> same_contents(*final(self), tx),
            r is Err ==> same_contents(*final(self), tx) || same_contents(*final(self), *old(self)),
    ;
}

} // verus!
