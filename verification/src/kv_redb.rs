//! The key-value abstraction over redb.
//!
//! Every table is a redb table from byte strings to byte strings, which redb
//! keeps in byte-lexicographic order of its keys. What redb holds is not
//! visible to the verifier: the contents of a database, of a snapshot and of
//! a write transaction are named here, and the contracts of the calls into
//! redb say over those names what redb documents of each call.

use vstd::prelude::*;
use std::ops::Bound;
use redb::ReadableDatabase;
use redb::ReadableMultimapTable;
use redb::ReadableTable;
use redb::ReadableTableMetadata;
use redb::StorageBackend;
use redb::TableHandle;
use crate::kv::{
    distinct_names, entries_of, is_scan, KV, KvError, named, OpaqueItem, Pair, pairs,
    ReadOperations, was, with_key, WriteOperations, WriteTx,
};
use crate::query::{slice_bound_bytes, ByteRange, GeneralRange};

verus! {

/// `redb::Database`.
#[verifier::external_type_specification]
#[verifier::external_body]
pub struct ExDatabase(redb::Database);

/// `redb::ReadTransaction`.
#[verifier::external_type_specification]
#[verifier::external_body]
pub struct ExReadTransaction(redb::ReadTransaction);

/// `redb::WriteTransaction`.
#[verifier::external_type_specification]
#[verifier::external_body]
pub struct ExWriteTransaction(redb::WriteTransaction);

/// `redb::Error`.
#[verifier::external_type_specification]
#[verifier::external_body]
pub struct ExError(redb::Error);

/// `redb::backends::InMemoryBackend`.
#[verifier::external_type_specification]
#[verifier::external_body]
pub struct ExInMemoryBackend(redb::backends::InMemoryBackend);

/// The bytes that the backend holds.
pub uninterp spec fn backend_bytes(backend: redb::backends::InMemoryBackend) -> Seq<u8>;

/// The entries of the table `name` of the database that the bytes `image`
/// are the image of.
pub uninterp spec fn image_table(image: Seq<u8>, name: Seq<char>) -> Map<Seq<u8>, Seq<u8>>;

/// The pairs of the multimap table `name` of the database that the bytes
/// `image` are the image of.
pub uninterp spec fn image_multimap(image: Seq<u8>, name: Seq<char>) -> Set<Pair>;

/// The entries of the table `name` in the last committed state of `db`. A
/// table that does not exist has no entries.
pub uninterp spec fn stored_table(db: redb::Database, name: Seq<char>) -> Map<Seq<u8>, Seq<u8>>;

/// The pairs of the multimap table `name` in the last committed state of `db`.
pub uninterp spec fn stored_multimap(db: redb::Database, name: Seq<char>) -> Set<Pair>;

/// The entries of the table `name` in the snapshot that `tx` reads.
pub uninterp spec fn snapshot_table(tx: redb::ReadTransaction, name: Seq<char>) -> Map<
    Seq<u8>,
    Seq<u8>,
>;

/// The pairs of the multimap table `name` in the snapshot that `tx` reads.
pub uninterp spec fn snapshot_multimap(tx: redb::ReadTransaction, name: Seq<char>) -> Set<Pair>;

/// The entries of the table `name` as the write transaction `tx` has them.
pub uninterp spec fn pending_table(tx: redb::WriteTransaction, name: Seq<char>) -> Map<
    Seq<u8>,
    Seq<u8>,
>;

/// The pairs of the multimap table `name` as the write transaction `tx` has
/// them.
pub uninterp spec fn pending_multimap(tx: redb::WriteTransaction, name: Seq<char>) -> Set<Pair>;

/// The database that the write transaction `tx` was begun on.
pub uninterp spec fn write_origin(tx: redb::WriteTransaction) -> int;

/// The database `db`, as the origin of its write transactions.
pub uninterp spec fn database_identity(db: redb::Database) -> int;

/// `after` is `before` but for the table `name`.
pub open spec fn pending_same_but_table(
    before: redb::WriteTransaction,
    after: redb::WriteTransaction,
    name: Seq<char>,
) -> bool {
    &&& write_origin(after) == write_origin(before)
    &&& forall|n: Seq<char>| n != name ==> #[trigger] pending_table(after, n) == pending_table(before, n)
    &&& forall|n: Seq<char>| #[trigger] pending_multimap(after, n) == pending_multimap(before, n)
}

/// `after` is `before` but for the multimap table `name`.
pub open spec fn pending_same_but_multimap(
    before: redb::WriteTransaction,
    after: redb::WriteTransaction,
    name: Seq<char>,
) -> bool {
    &&& write_origin(after) == write_origin(before)
    &&& forall|n: Seq<char>| #[trigger] pending_table(after, n) == pending_table(before, n)
    &&& forall|n: Seq<char>|
        n != name ==> #[trigger] pending_multimap(after, n) == pending_multimap(before, n)
}

/// One entry of a table, copied out of the store.
#[derive(Debug)]
pub struct RedbItem {
    pub item: (Vec<u8>, Vec<u8>),
}

impl OpaqueItem for RedbItem {
    open spec fn key_bytes(&self) -> Seq<u8> {
        self.item.0@
    }

    open spec fn value_bytes(&self) -> Seq<u8> {
        self.item.1@
    }

    fn key(&self) -> (k: &[u8]) {
        self.item.0.as_slice()
    }

    fn value(&self) -> (v: &[u8]) {
        self.item.1.as_slice()
    }
}

/// A redb database.
pub struct RedbKV {
    pub db: redb::Database,
}

/// A snapshot of a redb database.
pub struct RedbReadTransaction {
    pub read: redb::ReadTransaction,
}

/// A write transaction on a redb database.
pub struct RedbWriteTransaction {
    pub write: redb::WriteTransaction,
}

/// The `Display` text of a `redb::Error`.
#[verifier::external_body]
fn error_text(error: &redb::Error) -> String {
    error.to_string()
}

/// The store's error as the library hands it on, beside the store's words for it.
fn kv_error(error: redb::Error) -> (handed: KvError)
    ensures
        handed.source == error,
{
    KvError { message: error_text(&error), source: error }
}

/// `ReadTransaction::open_table` and `ReadOnlyTable::len`: the number of
/// entries of a table; nothing where redb reports that the table does not
/// exist, and so holds no entry.
#[verifier::external_body]
fn snapshot_count(tx: &redb::ReadTransaction, name: &str) -> (r: Result<Option<u64>, redb::Error>)
    requires
        name@.len() > 0,
    ensures
        r matches Ok(counted) ==> match counted {
            Some(n) => snapshot_table(*tx, name@).dom().finite() && n == snapshot_table(
                *tx,
                name@,
            ).dom().len(),
            None => snapshot_table(*tx, name@) == Map::<Seq<u8>, Seq<u8>>::empty(),
        },
{
    match tx.open_table(redb::TableDefinition::<&[u8], &[u8]>::new(name)) {
        Ok(table) => Ok(Some(table.len()?)),
        Err(redb::TableError::TableDoesNotExist(_)) => Ok(None),
        Err(error) => Err(error.into()),
    }
}

/// `ReadTransaction::open_table` and `ReadOnlyTable::get`: the value of a
/// key; nothing where redb reports that the table does not exist, and so
/// holds no entry.
#[verifier::external_body]
fn snapshot_get(tx: &redb::ReadTransaction, name: &str, key: &[u8]) -> (r: Result<
    Option<Option<Vec<u8>>>,
    redb::Error,
>)
    requires
        name@.len() > 0,
    ensures
        r matches Ok(read) ==> match read {
            Some(found) => was(snapshot_table(*tx, name@), key@, found),
            None => snapshot_table(*tx, name@) == Map::<Seq<u8>, Seq<u8>>::empty(),
        },
{
    match tx.open_table(redb::TableDefinition::<&[u8], &[u8]>::new(name)) {
        Ok(table) => Ok(Some(table.get(key)?.map(|guard| guard.value().to_vec()))),
        Err(redb::TableError::TableDoesNotExist(_)) => Ok(None),
        Err(error) => Err(error.into()),
    }
}

/// `ReadTransaction::open_table` and `ReadOnlyTable::range`: the entries
/// with a key in the range, in ascending order of their keys; nothing
/// where redb reports that the table does not exist, and so holds no entry.
#[verifier::external_body]
fn snapshot_range(
    tx: &redb::ReadTransaction,
    name: &str,
    start: Bound<&[u8]>,
    end: Bound<&[u8]>,
) -> (r: Result<Option<Vec<RedbItem>>, redb::Error>)
    requires
        name@.len() > 0,
    ensures
        r matches Ok(read) ==> match read {
            Some(items) => is_scan(
                entries_of(snapshot_table(*tx, name@)),
                ByteRange { start: slice_bound_bytes(start), end: slice_bound_bytes(end) },
                pairs(items@),
            ),
            None => snapshot_table(*tx, name@) == Map::<Seq<u8>, Seq<u8>>::empty(),
        },
{
    let table = match tx.open_table(redb::TableDefinition::<&[u8], &[u8]>::new(name)) {
        Ok(table) => table,
        Err(redb::TableError::TableDoesNotExist(_)) => return Ok(None),
        Err(error) => return Err(error.into()),
    };
    let entries = table.range::<&[u8]>((start, end))?;
    let items = entries.map(|e| e.map(|(k, v)| RedbItem { item: (k.value().to_vec(), v.value().to_vec()) }));
    Ok(Some(items.collect::<Result<Vec<RedbItem>, redb::StorageError>>()?))
}

/// `ReadTransaction::open_multimap_table` and `ReadOnlyMultimapTable::len`:
/// the number of pairs of a multimap table; nothing where redb reports
/// that the table does not exist, and so holds no pair.
#[verifier::external_body]
fn snapshot_count_multimap(tx: &redb::ReadTransaction, name: &str) -> (r: Result<
    Option<u64>,
    redb::Error,
>)
    requires
        name@.len() > 0,
    ensures
        r matches Ok(counted) ==> match counted {
            Some(n) => snapshot_multimap(*tx, name@).finite() && n == snapshot_multimap(
                *tx,
                name@,
            ).len(),
            None => snapshot_multimap(*tx, name@) == Set::<Pair>::empty(),
        },
{
    match tx.open_multimap_table(redb::MultimapTableDefinition::<&[u8], &[u8]>::new(name)) {
        Ok(table) => Ok(Some(table.len()?)),
        Err(redb::TableError::TableDoesNotExist(_)) => Ok(None),
        Err(error) => Err(error.into()),
    }
}

/// `ReadTransaction::open_multimap_table` and `ReadOnlyMultimapTable::get`:
/// the pairs of a key, in ascending order of their values; nothing where
/// redb reports that the table does not exist, and so holds no pair.
#[verifier::external_body]
fn snapshot_get_multimap(tx: &redb::ReadTransaction, name: &str, key: &[u8]) -> (r: Result<
    Option<Vec<RedbItem>>,
    redb::Error,
>)
    requires
        name@.len() > 0,
    ensures
        r matches Ok(read) ==> match read {
            Some(items) => is_scan(
                with_key(snapshot_multimap(*tx, name@), key@),
                ByteRange::full(),
                pairs(items@),
            ),
            None => snapshot_multimap(*tx, name@) == Set::<Pair>::empty(),
        },
{
    let table = match tx.open_multimap_table(redb::MultimapTableDefinition::<&[u8], &[u8]>::new(name)) {
        Ok(table) => table,
        Err(redb::TableError::TableDoesNotExist(_)) => return Ok(None),
        Err(error) => return Err(error.into()),
    };
    let values = table.get(key)?;
    let items = values.map(|v| v.map(|v| RedbItem { item: (key.to_vec(), v.value().to_vec()) }));
    Ok(Some(items.collect::<Result<Vec<RedbItem>, redb::StorageError>>()?))
}

/// `ReadTransaction::open_multimap_table` and `ReadOnlyMultimapTable::range`:
/// the pairs with a key in the range, in ascending order of their keys, and
/// of their values where the keys agree; nothing where redb reports that
/// the table does not exist, and so holds no pair.
#[verifier::external_body]
fn snapshot_range_multimap(
    tx: &redb::ReadTransaction,
    name: &str,
    start: Bound<&[u8]>,
    end: Bound<&[u8]>,
) -> (r: Result<Option<Vec<RedbItem>>, redb::Error>)
    requires
        name@.len() > 0,
    ensures
        r matches Ok(read) ==> match read {
            Some(items) => is_scan(
                snapshot_multimap(*tx, name@),
                ByteRange { start: slice_bound_bytes(start), end: slice_bound_bytes(end) },
                pairs(items@),
            ),
            None => snapshot_multimap(*tx, name@) == Set::<Pair>::empty(),
        },
{
    let table = match tx.open_multimap_table(redb::MultimapTableDefinition::<&[u8], &[u8]>::new(name)) {
        Ok(table) => table,
        Err(redb::TableError::TableDoesNotExist(_)) => return Ok(None),
        Err(error) => return Err(error.into()),
    };
    let mut items = Vec::new();
    for entry in table.range::<&[u8]>((start, end))? {
        let (key, values) = entry?;
        for value in values {
            items.push(RedbItem { item: (key.value().to_vec(), value?.value().to_vec()) });
        }
    }
    Ok(Some(items))
}

/// `ReadTransaction::list_tables`: the names of the tables. A table that
/// holds an entry exists and is named, and no table is named twice.
#[verifier::external_body]
fn snapshot_list(tx: &redb::ReadTransaction) -> (r: Result<Vec<String>, redb::Error>)
    ensures
        r matches Ok(names) ==> {
            &&& distinct_names(names@)
            &&& forall|n: Seq<char>|
                (#[trigger] snapshot_table(*tx, n)).dom().len() > 0 ==> named(names@, n)
        },
{
    Ok(tx.list_tables()?.map(|handle| handle.name().to_string()).collect())
}

impl ReadOperations for RedbReadTransaction {
    type Item = RedbItem;

    open spec fn table(&self, name: Seq<char>) -> Map<Seq<u8>, Seq<u8>> {
        snapshot_table(self.read, name)
    }

    open spec fn multimap(&self, name: Seq<char>) -> Set<Pair> {
        snapshot_multimap(self.read, name)
    }

    fn list_tables(&self) -> (r: Result<Vec<String>, KvError>) {
        match snapshot_list(&self.read) {
            Ok(names) => Ok(names),
            Err(error) => Err(kv_error(error)),
        }
    }

    /// A table that does not exist has no entry to count.
    fn count(&self, table: &str) -> (r: Result<u64, KvError>) {
        match snapshot_count(&self.read, table) {
            Ok(Some(n)) => Ok(n),
            Ok(None) => Ok(0),
            Err(error) => Err(kv_error(error)),
        }
    }

    /// A table that does not exist has no value for any key.
    fn get(&self, table: &str, key: &[u8]) -> (r: Result<Option<Vec<u8>>, KvError>) {
        match snapshot_get(&self.read, table, key) {
            Ok(Some(found)) => Ok(found),
            Ok(None) => Ok(None),
            Err(error) => Err(kv_error(error)),
        }
    }

    /// A table that does not exist has no entry in any range.
    fn range(&self, table: &str, range: &GeneralRange<Vec<u8>>) -> (r: Result<
        Vec<RedbItem>,
        KvError,
    >) {
        let bounds = range.as_slice();
        match snapshot_range(&self.read, table, bounds.0, bounds.1) {
            Ok(Some(items)) => Ok(items),
            Ok(None) => {
                let items: Vec<RedbItem> = Vec::new();
                proof {
                    lemma_nothing_to_scan(range@, pairs(items@));
                    assert(entries_of(Map::<Seq<u8>, Seq<u8>>::empty()) =~= Set::<Pair>::empty());
                }
                Ok(items)
            },
            Err(error) => Err(kv_error(error)),
        }
    }

    /// A multimap table that does not exist has no pair to count.
    fn count_multimap(&self, table: &str) -> (r: Result<u64, KvError>) {
        match snapshot_count_multimap(&self.read, table) {
            Ok(Some(n)) => Ok(n),
            Ok(None) => Ok(0),
            Err(error) => Err(kv_error(error)),
        }
    }

    /// A multimap table that does not exist has no pair for any key.
    fn get_multimap(&self, table: &str, key: &[u8]) -> (r: Result<Vec<RedbItem>, KvError>) {
        match snapshot_get_multimap(&self.read, table, key) {
            Ok(Some(items)) => Ok(items),
            Ok(None) => {
                let items: Vec<RedbItem> = Vec::new();
                proof {
                    lemma_nothing_to_scan(ByteRange::full(), pairs(items@));
                    assert(with_key(Set::<Pair>::empty(), key@) =~= Set::<Pair>::empty());
                }
                Ok(items)
            },
            Err(error) => Err(kv_error(error)),
        }
    }

    /// A multimap table that does not exist has no pair in any range.
    fn range_multimap(&self, table: &str, range: &GeneralRange<Vec<u8>>) -> (r: Result<
        Vec<RedbItem>,
        KvError,
    >) {
        let bounds = range.as_slice();
        match snapshot_range_multimap(&self.read, table, bounds.0, bounds.1) {
            Ok(Some(items)) => Ok(items),
            Ok(None) => {
                let items: Vec<RedbItem> = Vec::new();
                proof {
                    lemma_nothing_to_scan(range@, pairs(items@));
                }
                Ok(items)
            },
            Err(error) => Err(kv_error(error)),
        }
    }
}

/// `WriteTransaction::open_table` and `Table::len`: the number of entries of
/// a table. Opening creates the table where it does not exist, without an
/// entry.
#[verifier::external_body]
fn pending_count(tx: &redb::WriteTransaction, name: &str) -> (r: Result<u64, redb::Error>)
    requires
        name@.len() > 0,
    ensures
        r matches Ok(n) ==> pending_table(*tx, name@).dom().finite() && n == pending_table(
            *tx,
            name@,
        ).dom().len(),
{
    let table = tx.open_table(redb::TableDefinition::<&[u8], &[u8]>::new(name))?;
    Ok(table.len()?)
}

/// `WriteTransaction::open_table` and `Table::get`: the value of a key.
#[verifier::external_body]
fn pending_get(tx: &redb::WriteTransaction, name: &str, key: &[u8]) -> (r: Result<
    Option<Vec<u8>>,
    redb::Error,
>)
    requires
        name@.len() > 0,
    ensures
        r matches Ok(found) ==> was(pending_table(*tx, name@), key@, found),
{
    let table = tx.open_table(redb::TableDefinition::<&[u8], &[u8]>::new(name))?;
    let found = table.get(key)?.map(|guard| guard.value().to_vec());
    Ok(found)
}

/// `WriteTransaction::open_table` and `Table::range`: the entries with a
/// key in the range, in ascending order of their keys.
#[verifier::external_body]
fn pending_range(
    tx: &redb::WriteTransaction,
    name: &str,
    start: Bound<&[u8]>,
    end: Bound<&[u8]>,
) -> (r: Result<Vec<RedbItem>, redb::Error>)
    requires
        name@.len() > 0,
    ensures
        r matches Ok(items) ==> is_scan(
            entries_of(pending_table(*tx, name@)),
            ByteRange { start: slice_bound_bytes(start), end: slice_bound_bytes(end) },
            pairs(items@),
        ),
{
    let table = tx.open_table(redb::TableDefinition::<&[u8], &[u8]>::new(name))?;
    let entries = table.range::<&[u8]>((start, end))?;
    let items = entries.map(|e| e.map(|(k, v)| RedbItem { item: (k.value().to_vec(), v.value().to_vec()) }));
    Ok(items.collect::<Result<Vec<RedbItem>, redb::StorageError>>()?)
}

/// `WriteTransaction::open_multimap_table` and `MultimapTable::len`: the
/// number of pairs of a multimap table.
#[verifier::external_body]
fn pending_count_multimap(tx: &redb::WriteTransaction, name: &str) -> (r: Result<u64, redb::Error>)
    requires
        name@.len() > 0,
    ensures
        r matches Ok(n) ==> pending_multimap(*tx, name@).finite() && n == pending_multimap(
            *tx,
            name@,
        ).len(),
{
    let table = tx.open_multimap_table(redb::MultimapTableDefinition::<&[u8], &[u8]>::new(name))?;
    Ok(table.len()?)
}

/// `WriteTransaction::open_multimap_table` and `MultimapTable::get`: the
/// pairs of a key, in ascending order of their values.
#[verifier::external_body]
fn pending_get_multimap(tx: &redb::WriteTransaction, name: &str, key: &[u8]) -> (r: Result<
    Vec<RedbItem>,
    redb::Error,
>)
    requires
        name@.len() > 0,
    ensures
        r matches Ok(items) ==> is_scan(
            with_key(pending_multimap(*tx, name@), key@),
            ByteRange::full(),
            pairs(items@),
        ),
{
    let table = tx.open_multimap_table(redb::MultimapTableDefinition::<&[u8], &[u8]>::new(name))?;
    let values = table.get(key)?;
    let items = values.map(|v| v.map(|v| RedbItem { item: (key.to_vec(), v.value().to_vec()) }));
    Ok(items.collect::<Result<Vec<RedbItem>, redb::StorageError>>()?)
}

/// `WriteTransaction::open_multimap_table` and `MultimapTable::range`: the
/// pairs with a key in the range, in ascending order of their keys, and of
/// their values where the keys agree.
#[verifier::external_body]
fn pending_range_multimap(
    tx: &redb::WriteTransaction,
    name: &str,
    start: Bound<&[u8]>,
    end: Bound<&[u8]>,
) -> (r: Result<Vec<RedbItem>, redb::Error>)
    requires
        name@.len() > 0,
    ensures
        r matches Ok(items) ==> is_scan(
            pending_multimap(*tx, name@),
            ByteRange { start: slice_bound_bytes(start), end: slice_bound_bytes(end) },
            pairs(items@),
        ),
{
    let table = tx.open_multimap_table(redb::MultimapTableDefinition::<&[u8], &[u8]>::new(name))?;
    let mut items = Vec::new();
    for entry in table.range::<&[u8]>((start, end))? {
        let (key, values) = entry?;
        for value in values {
            items.push(RedbItem { item: (key.value().to_vec(), value?.value().to_vec()) });
        }
    }
    Ok(items)
}

/// `WriteTransaction::open_table` and `Table::insert`: the key is mapped to
/// the value, in place of the value that it had, which is handed out.
#[verifier::external_body]
fn pending_insert(tx: &mut redb::WriteTransaction, name: &str, key: &[u8], value: &[u8]) -> (r:
    Result<Option<Vec<u8>>, redb::Error>)
    requires
        name@.len() > 0,
    ensures
        write_origin(*final(tx)) == write_origin(*old(tx)),
        r matches Ok(before) ==> {
            &&& was(pending_table(*old(tx), name@), key@, before)
            &&& pending_table(*final(tx), name@) == pending_table(*old(tx), name@).insert(
                key@,
                value@,
            )
            &&& pending_same_but_table(*old(tx), *final(tx), name@)
        },
{
    let mut table = tx.open_table(redb::TableDefinition::<&[u8], &[u8]>::new(name))?;
    let before = table.insert(key, value)?.map(|guard| guard.value().to_vec());
    Ok(before)
}

/// `WriteTransaction::open_table` and `Table::remove`: the key is removed,
/// and the value that it had is handed out.
#[verifier::external_body]
fn pending_remove(tx: &mut redb::WriteTransaction, name: &str, key: &[u8]) -> (r: Result<
    Option<Vec<u8>>,
    redb::Error,
>)
    requires
        name@.len() > 0,
    ensures
        write_origin(*final(tx)) == write_origin(*old(tx)),
        r matches Ok(before) ==> {
            &&& was(pending_table(*old(tx), name@), key@, before)
            &&& pending_table(*final(tx), name@) == pending_table(*old(tx), name@).remove(key@)
            &&& pending_same_but_table(*old(tx), *final(tx), name@)
        },
{
    let mut table = tx.open_table(redb::TableDefinition::<&[u8], &[u8]>::new(name))?;
    let before = table.remove(key)?.map(|guard| guard.value().to_vec());
    Ok(before)
}

/// `WriteTransaction::delete_table`: the table is deleted, and so holds no
/// entry. The result says whether the table existed.
#[verifier::external_body]
fn pending_delete(tx: &mut redb::WriteTransaction, name: &str) -> (r: Result<bool, redb::Error>)
    requires
        name@.len() > 0,
    ensures
        write_origin(*final(tx)) == write_origin(*old(tx)),
        r matches Ok(existed) ==> {
            &&& !existed ==> pending_table(*old(tx), name@) == Map::<Seq<u8>, Seq<u8>>::empty()
            &&& pending_table(*final(tx), name@) == Map::<Seq<u8>, Seq<u8>>::empty()
            &&& pending_same_but_table(*old(tx), *final(tx), name@)
        },
{
    Ok(tx.delete_table(redb::TableDefinition::<&[u8], &[u8]>::new(name))?)
}

/// `WriteTransaction::open_multimap_table` and `MultimapTable::insert`: the
/// pair is added.
#[verifier::external_body]
fn pending_insert_multimap(tx: &mut redb::WriteTransaction, name: &str, key: &[u8], value: &[u8]) -> (r:
    Result<bool, redb::Error>)
    requires
        name@.len() > 0,
    ensures
        write_origin(*final(tx)) == write_origin(*old(tx)),
        r matches Ok(present) ==> {
            &&& present == pending_multimap(*old(tx), name@).contains((key@, value@))
            &&& pending_multimap(*final(tx), name@) == pending_multimap(*old(tx), name@).insert(
                (key@, value@),
            )
            &&& pending_same_but_multimap(*old(tx), *final(tx), name@)
        },
{
    let mut table = tx.open_multimap_table(redb::MultimapTableDefinition::<&[u8], &[u8]>::new(name))?;
    Ok(table.insert(key, value)?)
}

/// `WriteTransaction::open_multimap_table` and `MultimapTable::remove`: the
/// pair is removed. The result says whether it was there.
#[verifier::external_body]
fn pending_remove_multimap(tx: &mut redb::WriteTransaction, name: &str, key: &[u8], value: &[u8]) -> (r:
    Result<bool, redb::Error>)
    requires
        name@.len() > 0,
    ensures
        write_origin(*final(tx)) == write_origin(*old(tx)),
        r matches Ok(present) ==> {
            &&& present == pending_multimap(*old(tx), name@).contains((key@, value@))
            &&& pending_multimap(*final(tx), name@) == pending_multimap(*old(tx), name@).remove(
                (key@, value@),
            )
            &&& pending_same_but_multimap(*old(tx), *final(tx), name@)
        },
{
    let mut table = tx.open_multimap_table(redb::MultimapTableDefinition::<&[u8], &[u8]>::new(name))?;
    Ok(table.remove(key, value)?)
}

/// `WriteTransaction::open_multimap_table` and `MultimapTable::remove_all`:
/// every pair of the key is removed.
#[verifier::external_body]
fn pending_remove_all_multimap(tx: &mut redb::WriteTransaction, name: &str, key: &[u8]) -> (r:
    Result<(), redb::Error>)
    requires
        name@.len() > 0,
    ensures
        write_origin(*final(tx)) == write_origin(*old(tx)),
        r is Ok ==> {
            &&& pending_multimap(*final(tx), name@) == pending_multimap(
                *old(tx),
                name@,
            ).difference(with_key(pending_multimap(*old(tx), name@), key@))
            &&& pending_same_but_multimap(*old(tx), *final(tx), name@)
        },
{
    let mut table = tx.open_multimap_table(redb::MultimapTableDefinition::<&[u8], &[u8]>::new(name))?;
    table.remove_all(key)?;
    Ok(())
}

/// `WriteTransaction::delete_multimap_table`: the multimap table is
/// deleted, and so holds no pair.
#[verifier::external_body]
fn pending_delete_multimap(tx: &mut redb::WriteTransaction, name: &str) -> (r: Result<
    bool,
    redb::Error,
>)
    requires
        name@.len() > 0,
    ensures
        write_origin(*final(tx)) == write_origin(*old(tx)),
        r matches Ok(existed) ==> {
            &&& !existed ==> pending_multimap(*old(tx), name@) == Set::<Pair>::empty()
            &&& pending_multimap(*final(tx), name@) == Set::<Pair>::empty()
            &&& pending_same_but_multimap(*old(tx), *final(tx), name@)
        },
{
    Ok(tx.delete_multimap_table(redb::MultimapTableDefinition::<&[u8], &[u8]>::new(name))?)
}

/// `WriteTransaction::list_tables`: the names of the tables. A table that
/// holds an entry exists and is named, and no table is named twice.
#[verifier::external_body]
fn pending_list(tx: &redb::WriteTransaction) -> (r: Result<Vec<String>, redb::Error>)
    ensures
        r matches Ok(names) ==> {
            &&& distinct_names(names@)
            &&& forall|n: Seq<char>|
                (#[trigger] pending_table(*tx, n)).dom().len() > 0 ==> named(names@, n)
        },
{
    Ok(tx.list_tables()?.map(|handle| handle.name().to_string()).collect())
}

/// `WriteTransaction::rename_table`: the table has the new name, and no
/// table has the old one.
#[verifier::external_body]
fn pending_rename(tx: &mut redb::WriteTransaction, old_name: &str, new_name: &str) -> (r: Result<
    (),
    redb::Error,
>)
    requires
        old_name@.len() > 0,
        new_name@.len() > 0,
    ensures
        write_origin(*final(tx)) == write_origin(*old(tx)),
        r is Ok ==> {
            &&& pending_table(*final(tx), new_name@) == pending_table(*old(tx), old_name@)
            &&& old_name@ != new_name@ ==> pending_table(*final(tx), old_name@) == Map::<
                Seq<u8>,
                Seq<u8>,
            >::empty()
            &&& forall|n: Seq<char>|
                n != old_name@ && n != new_name@ ==> #[trigger] pending_table(*final(tx), n)
                    == pending_table(*old(tx), n)
            &&& forall|n: Seq<char>|
                #[trigger] pending_multimap(*final(tx), n) == pending_multimap(*old(tx), n)
        },
{
    let from = redb::TableDefinition::<&[u8], &[u8]>::new(old_name);
    let to = redb::TableDefinition::<&[u8], &[u8]>::new(new_name);
    Ok(tx.rename_table(from, to)?)
}

/// `WriteTransaction::rename_multimap_table`: the multimap table has the
/// new name, and no multimap table has the old one.
#[verifier::external_body]
fn pending_rename_multimap(tx: &mut redb::WriteTransaction, old_name: &str, new_name: &str) -> (r:
    Result<(), redb::Error>)
    requires
        old_name@.len() > 0,
        new_name@.len() > 0,
    ensures
        write_origin(*final(tx)) == write_origin(*old(tx)),
        r is Ok ==> {
            &&& pending_multimap(*final(tx), new_name@) == pending_multimap(*old(tx), old_name@)
            &&& old_name@ != new_name@ ==> pending_multimap(*final(tx), old_name@) == Set::<
                Pair,
            >::empty()
            &&& forall|n: Seq<char>|
                n != old_name@ && n != new_name@ ==> #[trigger] pending_multimap(*final(tx), n)
                    == pending_multimap(*old(tx), n)
            &&& forall|n: Seq<char>| #[trigger] pending_table(*final(tx), n) == pending_table(*old(tx), n)
        },
{
    let from = redb::MultimapTableDefinition::<&[u8], &[u8]>::new(old_name);
    let to = redb::MultimapTableDefinition::<&[u8], &[u8]>::new(new_name);
    Ok(tx.rename_multimap_table(from, to)?)
}

/// `WriteTransaction::abort`: the transaction is rolled back.
#[verifier::external_body]
fn abort_write(tx: redb::WriteTransaction) -> (r: Result<(), redb::Error>) {
    Ok(tx.abort()?)
}

impl ReadOperations for RedbWriteTransaction {
    type Item = RedbItem;

    open spec fn table(&self, name: Seq<char>) -> Map<Seq<u8>, Seq<u8>> {
        pending_table(self.write, name)
    }

    open spec fn multimap(&self, name: Seq<char>) -> Set<Pair> {
        pending_multimap(self.write, name)
    }

    fn list_tables(&self) -> (r: Result<Vec<String>, KvError>) {
        match pending_list(&self.write) {
            Ok(names) => Ok(names),
            Err(error) => Err(kv_error(error)),
        }
    }

    fn count(&self, table: &str) -> (r: Result<u64, KvError>) {
        match pending_count(&self.write, table) {
            Ok(n) => Ok(n),
            Err(error) => Err(kv_error(error)),
        }
    }

    fn get(&self, table: &str, key: &[u8]) -> (r: Result<Option<Vec<u8>>, KvError>) {
        match pending_get(&self.write, table, key) {
            Ok(found) => Ok(found),
            Err(error) => Err(kv_error(error)),
        }
    }

    fn range(&self, table: &str, range: &GeneralRange<Vec<u8>>) -> (r: Result<
        Vec<RedbItem>,
        KvError,
    >) {
        let bounds = range.as_slice();
        match pending_range(&self.write, table, bounds.0, bounds.1) {
            Ok(items) => Ok(items),
            Err(error) => Err(kv_error(error)),
        }
    }

    fn count_multimap(&self, table: &str) -> (r: Result<u64, KvError>) {
        match pending_count_multimap(&self.write, table) {
            Ok(n) => Ok(n),
            Err(error) => Err(kv_error(error)),
        }
    }

    fn get_multimap(&self, table: &str, key: &[u8]) -> (r: Result<Vec<RedbItem>, KvError>) {
        match pending_get_multimap(&self.write, table, key) {
            Ok(items) => Ok(items),
            Err(error) => Err(kv_error(error)),
        }
    }

    fn range_multimap(&self, table: &str, range: &GeneralRange<Vec<u8>>) -> (r: Result<
        Vec<RedbItem>,
        KvError,
    >) {
        let bounds = range.as_slice();
        match pending_range_multimap(&self.write, table, bounds.0, bounds.1) {
            Ok(items) => Ok(items),
            Err(error) => Err(kv_error(error)),
        }
    }
}

impl WriteOperations for RedbWriteTransaction {
    open spec fn store(&self) -> int {
        write_origin(self.write)
    }

    fn insert_multimap(
        &mut self,
        table: &str,
        key: &[u8],
        value: &[u8],
    ) -> (r: Result<(), KvError>) {
        match pending_insert_multimap(&mut self.write, table, key, value) {
            Ok(_) => Ok(()),
            Err(error) => Err(kv_error(error)),
        }
    }

    fn remove_multimap(&mut self, table: &str, key: &[u8], value: &[u8]) -> (r: Result<
        bool,
        KvError,
    >) {
        match pending_remove_multimap(&mut self.write, table, key, value) {
            Ok(present) => Ok(present),
            Err(error) => Err(kv_error(error)),
        }
    }

    fn remove_all_multimap(&mut self, table: &str, key: &[u8]) -> (r: Result<(), KvError>) {
        match pending_remove_all_multimap(&mut self.write, table, key) {
            Ok(_) => Ok(()),
            Err(error) => Err(kv_error(error)),
        }
    }

    fn insert(&mut self, table: &str, key: &[u8], value: &[u8]) -> (r: Result<
        Option<Vec<u8>>,
        KvError,
    >) {
        match pending_insert(&mut self.write, table, key, value) {
            Ok(before) => Ok(before),
            Err(error) => Err(kv_error(error)),
        }
    }

    fn remove(&mut self, table: &str, key: &[u8]) -> (r: Result<Option<Vec<u8>>, KvError>) {
        match pending_remove(&mut self.write, table, key) {
            Ok(before) => Ok(before),
            Err(error) => Err(kv_error(error)),
        }
    }

    fn clear(&mut self, table: &str) -> (r: Result<(), KvError>) {
        match pending_delete(&mut self.write, table) {
            Ok(_) => Ok(()),
            Err(error) => Err(kv_error(error)),
        }
    }

    fn rename_table(&mut self, old_name: &str, new_name: &str) -> (r: Result<(), KvError>) {
        match pending_rename(&mut self.write, old_name, new_name) {
            Ok(_) => Ok(()),
            Err(error) => Err(kv_error(error)),
        }
    }

    fn rename_multimap_table(
        &mut self,
        old_name: &str,
        new_name: &str,
    ) -> (r: Result<(), KvError>) {
        match pending_rename_multimap(&mut self.write, old_name, new_name) {
            Ok(_) => Ok(()),
            Err(error) => Err(kv_error(error)),
        }
    }

    fn clear_multimap(&mut self, table: &str) -> (r: Result<(), KvError>) {
        match pending_delete_multimap(&mut self.write, table) {
            Ok(_) => Ok(()),
            Err(error) => Err(kv_error(error)),
        }
    }
}

impl WriteTx for RedbWriteTransaction {
    fn abort(self) -> (r: Result<(), KvError>) {
        match abort_write(self.write) {
            Ok(_) => Ok(()),
            Err(error) => Err(kv_error(error)),
        }
    }
}

/// The bytes `held`, cut or filled with zero bytes to the length `len`.
pub open spec fn resized(held: Seq<u8>, len: int) -> Seq<u8> {
    Seq::new(
        len as nat,
        |i: int|
            if i < held.len() {
                held[i]
            } else {
                0u8
            },
    )
}

/// The bytes `held` with `data` in place of those from `offset` on.
pub open spec fn overwritten(held: Seq<u8>, offset: int, data: Seq<u8>) -> Seq<u8> {
    Seq::new(
        held.len(),
        |i: int|
            if offset <= i < offset + data.len() {
                data[i - offset]
            } else {
                held[i]
            },
    )
}

/// `InMemoryBackend::new`: a backend that holds no byte.
#[verifier::external_body]
fn new_backend() -> (backend: redb::backends::InMemoryBackend)
    ensures
        backend_bytes(backend) == Seq::<u8>::empty(),
{
    redb::backends::InMemoryBackend::new()
}

/// `StorageBackend::set_len` of the backend in memory: the backend holds
/// `len` bytes, those that it held as far as they go and zero bytes behind
/// them. It refuses only a length that does not fit `usize`, and then stays
/// as it is.
#[verifier::external_body]
fn resize_backend(backend: &mut redb::backends::InMemoryBackend, len: u64) -> (r: Result<
    (),
    redb::Error,
>)
    ensures
        r is Ok <==> len <= usize::MAX,
        backend_bytes(*final(backend)) == if r is Ok {
            resized(backend_bytes(*old(backend)), len as int)
        } else {
            backend_bytes(*old(backend))
        },
{
    Ok(backend.set_len(len)?)
}

/// `StorageBackend::write` of the backend in memory: `data` stands in
/// place of the bytes from `offset` on. The backend refuses, and stays as
/// it is, where `data` would reach beyond the bytes that it holds.
#[verifier::external_body]
fn write_backend(backend: &mut redb::backends::InMemoryBackend, offset: u64, data: &[u8]) -> (r:
    Result<(), redb::Error>)
    requires
        offset + data@.len() <= usize::MAX,
    ensures
        r is Ok <==> offset + data@.len() <= backend_bytes(*old(backend)).len(),
        backend_bytes(*final(backend)) == if r is Ok {
            overwritten(backend_bytes(*old(backend)), offset as int, data@)
        } else {
            backend_bytes(*old(backend))
        },
{
    Ok(backend.write(offset, data)?)
}

/// `Database::builder` and `Builder::create_with_backend`: the database
/// that the bytes of the backend are the image of; a new database without
/// an entry where the backend holds no byte.
#[verifier::external_body]
fn create_database(backend: redb::backends::InMemoryBackend) -> (r: Result<
    redb::Database,
    redb::Error,
>)
    ensures
        r matches Ok(db) ==> {
            &&& forall|n: Seq<char>|
                #[trigger] stored_table(db, n) == image_table(backend_bytes(backend), n)
            &&& forall|n: Seq<char>|
                #[trigger] stored_multimap(db, n) == image_multimap(backend_bytes(backend), n)
            &&& backend_bytes(backend).len() == 0 ==> {
                &&& forall|n: Seq<char>|
                    #[trigger] stored_table(db, n) == Map::<Seq<u8>, Seq<u8>>::empty()
                &&& forall|n: Seq<char>| #[trigger] stored_multimap(db, n) == Set::<Pair>::empty()
            }
        },
{
    Ok(redb::Database::builder().create_with_backend(backend)?)
}

/// The database `db` holds what the image `image` holds, and nothing where
/// the image has no byte.
pub open spec fn holds_image(db: redb::Database, image: Seq<u8>) -> bool {
    &&& forall|n: Seq<char>| #[trigger] stored_table(db, n) == image_table(image, n)
    &&& forall|n: Seq<char>| #[trigger] stored_multimap(db, n) == image_multimap(image, n)
    &&& image.len() == 0 ==> {
        &&& forall|n: Seq<char>| #[trigger] stored_table(db, n) == Map::<Seq<u8>, Seq<u8>>::empty()
        &&& forall|n: Seq<char>| #[trigger] stored_multimap(db, n) == Set::<Pair>::empty()
    }
}

/// `Database::begin_read`: a snapshot of what the database holds.
#[verifier::external_body]
fn begin_read(db: &redb::Database) -> (r: Result<redb::ReadTransaction, redb::Error>)
    ensures
        r matches Ok(tx) ==> shows(tx, *db),
{
    Ok(db.begin_read()?)
}

/// `Database::begin_write`: a write transaction on the database, which
/// starts from what the database holds. The call blocks while another write
/// transaction on the database is in progress.
#[verifier::external_body]
fn begin_write(db: &redb::Database) -> (r: Result<redb::WriteTransaction, redb::Error>)
    ensures
        r matches Ok(tx) ==> starts_from(tx, *db),
{
    Ok(db.begin_write()?)
}

/// `WriteTransaction::commit`, for a transaction that was begun on `db`:
/// what the transaction holds becomes what the database holds. Where the
/// commit fails, the database holds what the transaction holds or what it
/// held before.
#[verifier::external_body]
fn commit_write(db: &mut redb::Database, tx: redb::WriteTransaction) -> (r: Result<(), redb::Error>)
    requires
        write_origin(tx) == database_identity(*old(db)),
    ensures
        database_identity(*final(db)) == database_identity(*old(db)),
        r is Ok ==> holds_what(*final(db), tx),
        r is Err ==> holds_what(*final(db), tx) || unchanged(*old(db), *final(db)),
{
    Ok(tx.commit()?)
}

/// The snapshot `tx` shows what the database `db` holds.
pub open spec fn shows(tx: redb::ReadTransaction, db: redb::Database) -> bool {
    &&& forall|n: Seq<char>| #[trigger] snapshot_table(tx, n) == stored_table(db, n)
    &&& forall|n: Seq<char>| #[trigger] snapshot_multimap(tx, n) == stored_multimap(db, n)
}

/// The write transaction `tx` was begun on the database `db` and holds what
/// `db` holds.
pub open spec fn starts_from(tx: redb::WriteTransaction, db: redb::Database) -> bool {
    &&& write_origin(tx) == database_identity(db)
    &&& forall|n: Seq<char>| #[trigger] pending_table(tx, n) == stored_table(db, n)
    &&& forall|n: Seq<char>| #[trigger] pending_multimap(tx, n) == stored_multimap(db, n)
}

/// The database holds after what it held before.
pub open spec fn unchanged(before: redb::Database, after: redb::Database) -> bool {
    &&& forall|n: Seq<char>| #[trigger] stored_table(after, n) == stored_table(before, n)
    &&& forall|n: Seq<char>| #[trigger] stored_multimap(after, n) == stored_multimap(before, n)
}

/// The database `db` holds what the write transaction `tx` holds.
pub open spec fn holds_what(db: redb::Database, tx: redb::WriteTransaction) -> bool {
    &&& forall|n: Seq<char>| #[trigger] stored_table(db, n) == pending_table(tx, n)
    &&& forall|n: Seq<char>| #[trigger] stored_multimap(db, n) == pending_multimap(tx, n)
}

impl RedbKV {
    /// The store on a redb database that the caller has opened.
    pub fn new(db: redb::Database) -> (kv: Self)
        ensures
            kv.db == db,
    {
        RedbKV { db }
    }

    /// A write transaction on the store.
    fn begin(&self) -> (r: Result<RedbWriteTransaction, KvError>)
        ensures
            r matches Ok(tx) ==> {
                &&& tx.store() == self.store()
                &&& forall|n: Seq<char>| #[trigger] tx.table(n) == self.table(n)
                &&& forall|n: Seq<char>| #[trigger] tx.multimap(n) == self.multimap(n)
            },
    {
        match begin_write(&self.db) {
            Ok(write) => Ok(RedbWriteTransaction { write }),
            Err(error) => Err(kv_error(error)),
        }
    }

    /// A snapshot of the store.
    fn snapshot(&self) -> (r: Result<RedbReadTransaction, KvError>)
        ensures
            r matches Ok(tx) ==> {
                &&& forall|n: Seq<char>| #[trigger] tx.table(n) == self.table(n)
                &&& forall|n: Seq<char>| #[trigger] tx.multimap(n) == self.multimap(n)
            },
    {
        match begin_read(&self.db) {
            Ok(read) => Ok(RedbReadTransaction { read }),
            Err(error) => Err(kv_error(error)),
        }
    }

    /// Commit a transaction that was begun on this store.
    fn finish(&mut self, tx: RedbWriteTransaction) -> (r: Result<(), KvError>)
        requires
            tx.store() == old(self).store(),
        ensures
            final(self).store() == old(self).store(),
            r is Ok ==> {
                &&& forall|n: Seq<char>| #[trigger] final(self).table(n) == tx.table(n)
                &&& forall|n: Seq<char>| #[trigger] final(self).multimap(n) == tx.multimap(n)
            },
            r is Err ==> {
                ||| {
                    &&& forall|n: Seq<char>| #[trigger] final(self).table(n) == tx.table(n)
                    &&& forall|n: Seq<char>| #[trigger] final(self).multimap(n) == tx.multimap(n)
                }
                ||| {
                    &&& forall|n: Seq<char>| #[trigger] final(self).table(n) == old(self).table(n)
                    &&& forall|n: Seq<char>|
                        #[trigger] final(self).multimap(n) == old(self).multimap(n)
                }
            },
    {
        match commit_write(&mut self.db, tx.write) {
            Ok(_) => Ok(()),
            Err(error) => Err(kv_error(error)),
        }
    }
}

/// Reads outside of a transaction: each reads a snapshot of its own.
impl ReadOperations for RedbKV {
    type Item = RedbItem;

    open spec fn table(&self, name: Seq<char>) -> Map<Seq<u8>, Seq<u8>> {
        stored_table(self.db, name)
    }

    open spec fn multimap(&self, name: Seq<char>) -> Set<Pair> {
        stored_multimap(self.db, name)
    }

    fn list_tables(&self) -> (r: Result<Vec<String>, KvError>) {
        let tx = self.snapshot()?;
        let names = tx.list_tables()?;
        proof {
            assert forall|n: Seq<char>| (#[trigger] self.table(n)).dom().len() > 0 implies named(
                names@,
                n,
            ) by {
                assert(tx.table(n) == self.table(n));
            }
        }
        Ok(names)
    }

    fn count(&self, table: &str) -> (r: Result<u64, KvError>) {
        let tx = self.snapshot()?;
        tx.count(table)
    }

    fn get(&self, table: &str, key: &[u8]) -> (r: Result<Option<Vec<u8>>, KvError>) {
        let tx = self.snapshot()?;
        tx.get(table, key)
    }

    fn range(&self, table: &str, range: &GeneralRange<Vec<u8>>) -> (r: Result<
        Vec<RedbItem>,
        KvError,
    >) {
        let tx = self.snapshot()?;
        tx.range(table, range)
    }

    fn count_multimap(&self, table: &str) -> (r: Result<u64, KvError>) {
        let tx = self.snapshot()?;
        tx.count_multimap(table)
    }

    fn get_multimap(&self, table: &str, key: &[u8]) -> (r: Result<Vec<RedbItem>, KvError>) {
        let tx = self.snapshot()?;
        tx.get_multimap(table, key)
    }

    fn range_multimap(&self, table: &str, range: &GeneralRange<Vec<u8>>) -> (r: Result<
        Vec<RedbItem>,
        KvError,
    >) {
        let tx = self.snapshot()?;
        tx.range_multimap(table, range)
    }
}

/// Writes outside of a transaction: each is committed in a transaction of
/// its own. A write that fails is made in full or not at all: the store
/// holds what it held before, or, where the commit itself reported the
/// failure, possibly what the write makes of it.
impl WriteOperations for RedbKV {
    open spec fn store(&self) -> int {
        database_identity(self.db)
    }

    fn insert_multimap(
        &mut self,
        table: &str,
        key: &[u8],
        value: &[u8],
    ) -> (r: Result<(), KvError>)
        ensures
            r is Err ==> unchanged(old(self).db, final(self).db) || multimap_set(
                old(self).db,
                final(self).db,
                table@,
                stored_multimap(old(self).db, table@).insert((key@, value@)),
            ),
    {
        let mut tx = self.begin()?;
        tx.insert_multimap(table, key, value)?;
        let ghost written = tx;
        let done = self.finish(tx);
        proof {
            lemma_stored(*old(self));
            lemma_stored(*self);
            lemma_pending(written);
        }
        done
    }

    fn remove_multimap(&mut self, table: &str, key: &[u8], value: &[u8]) -> (r: Result<
        bool,
        KvError,
    >)
        ensures
            r is Err ==> unchanged(old(self).db, final(self).db) || multimap_set(
                old(self).db,
                final(self).db,
                table@,
                stored_multimap(old(self).db, table@).remove((key@, value@)),
            ),
    {
        let mut tx = self.begin()?;
        let removed = tx.remove_multimap(table, key, value)?;
        let ghost written = tx;
        let done = self.finish(tx);
        proof {
            lemma_stored(*old(self));
            lemma_stored(*self);
            lemma_pending(written);
        }
        match done {
            Ok(_) => Ok(removed),
            Err(error) => Err(error),
        }
    }

    fn remove_all_multimap(&mut self, table: &str, key: &[u8]) -> (r: Result<(), KvError>)
        ensures
            r is Err ==> unchanged(old(self).db, final(self).db) || multimap_set(
                old(self).db,
                final(self).db,
                table@,
                stored_multimap(old(self).db, table@).difference(
                    with_key(stored_multimap(old(self).db, table@), key@),
                ),
            ),
    {
        let mut tx = self.begin()?;
        tx.remove_all_multimap(table, key)?;
        let ghost written = tx;
        let done = self.finish(tx);
        proof {
            lemma_stored(*old(self));
            lemma_stored(*self);
            lemma_pending(written);
        }
        done
    }

    fn insert(&mut self, table: &str, key: &[u8], value: &[u8]) -> (r: Result<
        Option<Vec<u8>>,
        KvError,
    >)
        ensures
            r is Err ==> unchanged(old(self).db, final(self).db) || table_set(
                old(self).db,
                final(self).db,
                table@,
                stored_table(old(self).db, table@).insert(key@, value@),
            ),
    {
        let mut tx = self.begin()?;
        let existing = tx.insert(table, key, value)?;
        let ghost written = tx;
        let done = self.finish(tx);
        proof {
            lemma_stored(*old(self));
            lemma_stored(*self);
            lemma_pending(written);
        }
        match done {
            Ok(_) => Ok(existing),
            Err(error) => Err(error),
        }
    }

    fn remove(&mut self, table: &str, key: &[u8]) -> (r: Result<Option<Vec<u8>>, KvError>)
        ensures
            r is Err ==> unchanged(old(self).db, final(self).db) || table_set(
                old(self).db,
                final(self).db,
                table@,
                stored_table(old(self).db, table@).remove(key@),
            ),
    {
        let mut tx = self.begin()?;
        let removed = tx.remove(table, key)?;
        let ghost written = tx;
        let done = self.finish(tx);
        proof {
            lemma_stored(*old(self));
            lemma_stored(*self);
            lemma_pending(written);
        }
        match done {
            Ok(_) => Ok(removed),
            Err(error) => Err(error),
        }
    }

    fn clear(&mut self, table: &str) -> (r: Result<(), KvError>)
        ensures
            r is Err ==> unchanged(old(self).db, final(self).db) || table_set(
                old(self).db,
                final(self).db,
                table@,
                Map::empty(),
            ),
    {
        let mut tx = self.begin()?;
        tx.clear(table)?;
        let ghost written = tx;
        let done = self.finish(tx);
        proof {
            lemma_stored(*old(self));
            lemma_stored(*self);
            lemma_pending(written);
        }
        done
    }

    fn rename_table(&mut self, old_name: &str, new_name: &str) -> (r: Result<(), KvError>)
        ensures
            r is Err ==> unchanged(old(self).db, final(self).db) || table_renamed(
                old(self).db,
                final(self).db,
                old_name@,
                new_name@,
            ),
    {
        let mut tx = self.begin()?;
        tx.rename_table(old_name, new_name)?;
        let ghost written = tx;
        let done = self.finish(tx);
        proof {
            lemma_stored(*old(self));
            lemma_stored(*self);
            lemma_pending(written);
        }
        done
    }

    fn rename_multimap_table(
        &mut self,
        old_name: &str,
        new_name: &str,
    ) -> (r: Result<(), KvError>)
        ensures
            r is Err ==> unchanged(old(self).db, final(self).db) || multimap_renamed(
                old(self).db,
                final(self).db,
                old_name@,
                new_name@,
            ),
    {
        let mut tx = self.begin()?;
        tx.rename_multimap_table(old_name, new_name)?;
        let ghost written = tx;
        let done = self.finish(tx);
        proof {
            lemma_stored(*old(self));
            lemma_stored(*self);
            lemma_pending(written);
        }
        done
    }

    fn clear_multimap(&mut self, table: &str) -> (r: Result<(), KvError>)
        ensures
            r is Err ==> unchanged(old(self).db, final(self).db) || multimap_set(
                old(self).db,
                final(self).db,
                table@,
                Set::empty(),
            ),
    {
        let mut tx = self.begin()?;
        tx.clear_multimap(table)?;
        let ghost written = tx;
        let done = self.finish(tx);
        proof {
            lemma_stored(*old(self));
            lemma_stored(*self);
            lemma_pending(written);
        }
        done
    }
}

impl KV for RedbKV {
    type ReadTransaction = RedbReadTransaction;

    type WriteTransaction = RedbWriteTransaction;

    /// A store held in memory: a new one, or the one that `image` is the
    /// image of. The image is laid out in a backend of its length before
    /// redb opens it.
    fn in_memory(image: Option<&[u8]>) -> (r: Result<Self, KvError>)
        ensures
            r matches Ok(kv) ==> match image {
                Some(bytes) => holds_image(kv.db, bytes@),
                None => holds_image(kv.db, Seq::<u8>::empty()),
            },
    {
        let mut backend = new_backend();
        match image {
            Some(bytes) => {
                match resize_backend(&mut backend, bytes.len() as u64) {
                    Ok(_) => {},
                    Err(error) => {
                        return Err(kv_error(error));
                    },
                }
                match write_backend(&mut backend, 0, bytes) {
                    Ok(_) => {},
                    Err(error) => {
                        return Err(kv_error(error));
                    },
                }
                assert(backend_bytes(backend) =~= bytes@);
            },
            None => {},
        }
        match create_database(backend) {
            Ok(db) => Ok(RedbKV { db }),
            Err(error) => Err(kv_error(error)),
        }
    }

    fn read_tx(&self) -> (r: Result<RedbReadTransaction, KvError>) {
        self.snapshot()
    }

    fn write_tx(&self) -> (r: Result<RedbWriteTransaction, KvError>) {
        self.begin()
    }

    fn commit(&mut self, tx: RedbWriteTransaction) -> (r: Result<(), KvError>) {
        self.finish(tx)
    }
}

/// The database holds after what it held before, but that its table `name`
/// holds `entries`.
pub open spec fn table_set(
    before: redb::Database,
    after: redb::Database,
    name: Seq<char>,
    entries: Map<Seq<u8>, Seq<u8>>,
) -> bool {
    &&& stored_table(after, name) == entries
    &&& forall|n: Seq<char>| n != name ==> #[trigger] stored_table(after, n) == stored_table(before, n)
    &&& forall|n: Seq<char>| #[trigger] stored_multimap(after, n) == stored_multimap(before, n)
}

/// The database holds after what it held before, but that its multimap
/// table `name` holds `pairs`.
pub open spec fn multimap_set(
    before: redb::Database,
    after: redb::Database,
    name: Seq<char>,
    pairs: Set<Pair>,
) -> bool {
    &&& stored_multimap(after, name) == pairs
    &&& forall|n: Seq<char>| #[trigger] stored_table(after, n) == stored_table(before, n)
    &&& forall|n: Seq<char>|
        n != name ==> #[trigger] stored_multimap(after, n) == stored_multimap(before, n)
}

/// The database holds after what it held before, but that the table that
/// had the name `old_name` has the name `new_name`.
pub open spec fn table_renamed(
    before: redb::Database,
    after: redb::Database,
    old_name: Seq<char>,
    new_name: Seq<char>,
) -> bool {
    &&& stored_table(after, new_name) == stored_table(before, old_name)
    &&& old_name != new_name ==> stored_table(after, old_name) == Map::<Seq<u8>, Seq<u8>>::empty()
    &&& forall|n: Seq<char>|
        n != old_name && n != new_name ==> #[trigger] stored_table(after, n) == stored_table(before, n)
    &&& forall|n: Seq<char>| #[trigger] stored_multimap(after, n) == stored_multimap(before, n)
}

/// The database holds after what it held before, but that the multimap
/// table that had the name `old_name` has the name `new_name`.
pub open spec fn multimap_renamed(
    before: redb::Database,
    after: redb::Database,
    old_name: Seq<char>,
    new_name: Seq<char>,
) -> bool {
    &&& stored_multimap(after, new_name) == stored_multimap(before, old_name)
    &&& old_name != new_name ==> stored_multimap(after, old_name) == Set::<Pair>::empty()
    &&& forall|n: Seq<char>|
        n != old_name && n != new_name ==> #[trigger] stored_multimap(after, n) == stored_multimap(
            before,
            n,
        )
    &&& forall|n: Seq<char>| #[trigger] stored_table(after, n) == stored_table(before, n)
}

/// A table without entries has nothing in any range.
proof fn lemma_nothing_to_scan(range: ByteRange, items: Seq<Pair>)
    requires
        items.len() == 0,
    ensures
        is_scan(Set::<Pair>::empty(), range, items),
{
}

/// What a store holds, read from its database.
proof fn lemma_stored(kv: RedbKV)
    ensures
        forall|n: Seq<char>| #[trigger] stored_table(kv.db, n) == kv.table(n),
        forall|n: Seq<char>| #[trigger] stored_multimap(kv.db, n) == kv.multimap(n),
{
}

/// What a write transaction holds, read from redb's transaction.
proof fn lemma_pending(tx: RedbWriteTransaction)
    ensures
        forall|n: Seq<char>| #[trigger] pending_table(tx.write, n) == tx.table(n),
        forall|n: Seq<char>| #[trigger] pending_multimap(tx.write, n) == tx.multimap(n),
{
}

} // verus!
