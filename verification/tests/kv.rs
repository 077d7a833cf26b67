use anondb::kv::{OpaqueItem, ReadOperations, WriteOperations, WriteTx, KV};
use anondb::kv_redb::RedbKV;
use anondb::query::GeneralRange;
use std::io;
use std::ops::Bound;
use std::sync::{Arc, RwLock};

/// Bytes in memory that outlive the database that was written to them.
#[derive(Debug, Clone, Default)]
struct SharedBytes(Arc<RwLock<Vec<u8>>>);

impl redb::StorageBackend for SharedBytes {
    fn len(&self) -> Result<u64, io::Error> {
        Ok(self.0.read().unwrap().len() as u64)
    }

    fn read(&self, offset: u64, out: &mut [u8]) -> Result<(), io::Error> {
        let held = self.0.read().unwrap();
        let offset = offset as usize;
        if offset + out.len() > held.len() {
            return Err(io::Error::new(io::ErrorKind::InvalidInput, "out of range"));
        }
        out.copy_from_slice(&held[offset..offset + out.len()]);
        Ok(())
    }

    fn set_len(&self, len: u64) -> Result<(), io::Error> {
        self.0.write().unwrap().resize(len as usize, 0);
        Ok(())
    }

    fn sync_data(&self) -> Result<(), io::Error> {
        Ok(())
    }

    fn write(&self, offset: u64, data: &[u8]) -> Result<(), io::Error> {
        let mut held = self.0.write().unwrap();
        let offset = offset as usize;
        if offset + data.len() > held.len() {
            return Err(io::Error::new(io::ErrorKind::InvalidInput, "out of range"));
        }
        held[offset..offset + data.len()].copy_from_slice(data);
        Ok(())
    }
}

#[test]
fn committed_writes_are_visible() {
    let mut kv = RedbKV::in_memory(None).unwrap();
    let mut tx = kv.write_tx().unwrap();
    assert_eq!(tx.insert("t", b"k1", b"v1").unwrap(), None);
    assert_eq!(tx.insert("t", b"k1", b"v2").unwrap(), Some(b"v1".to_vec()));
    tx.insert("t", b"k0", b"v0").unwrap();
    kv.commit(tx).unwrap();
    assert_eq!(kv.count("t").unwrap(), 2);
    assert_eq!(kv.get("t", b"k1").unwrap(), Some(b"v2".to_vec()));
    let all = kv
        .range("t", &GeneralRange(Bound::Unbounded, Bound::Unbounded))
        .unwrap();
    assert_eq!(all.len(), 2);
    assert_eq!(all[0].key(), b"k0");
    assert_eq!(all[1].value(), b"v2");
}

#[test]
fn aborted_writes_are_discarded() {
    let kv = RedbKV::in_memory(None).unwrap();
    let mut tx = kv.write_tx().unwrap();
    tx.insert("t", b"k", b"v").unwrap();
    tx.abort().unwrap();
    assert_eq!(kv.get("t", b"k").unwrap(), None);
}

fn full() -> GeneralRange<Vec<u8>> {
    GeneralRange(Bound::Unbounded, Bound::Unbounded)
}

fn keys_and_values<I: OpaqueItem>(items: &[I]) -> Vec<(Vec<u8>, Vec<u8>)> {
    items.iter().map(|i| (i.key().to_vec(), i.value().to_vec())).collect()
}

#[test]
fn tables_that_were_never_created_read_as_empty() {
    let kv = RedbKV::in_memory(None).unwrap();
    assert_eq!(kv.count("never").unwrap(), 0);
    assert_eq!(kv.get("never", b"k").unwrap(), None);
    assert_eq!(kv.range("never", &full()).unwrap().len(), 0);
    assert_eq!(kv.count_multimap("never").unwrap(), 0);
    assert_eq!(kv.get_multimap("never", b"k").unwrap().len(), 0);
    assert_eq!(kv.range_multimap("never", &full()).unwrap().len(), 0);
    assert_eq!(kv.list_tables().unwrap().len(), 0);

    let read = kv.read_tx().unwrap();
    assert_eq!(read.count("never").unwrap(), 0);
    assert_eq!(read.get("never", b"k").unwrap(), None);
    assert_eq!(read.range("never", &full()).unwrap().len(), 0);

    let write = kv.write_tx().unwrap();
    assert_eq!(write.count("never").unwrap(), 0);
    assert_eq!(write.get("never", b"k").unwrap(), None);
    assert_eq!(write.range("never", &full()).unwrap().len(), 0);
    assert_eq!(write.count_multimap("never_m").unwrap(), 0);
    assert_eq!(write.get_multimap("never_m", b"k").unwrap().len(), 0);
    assert_eq!(write.range_multimap("never_m", &full()).unwrap().len(), 0);
    write.abort().unwrap();
}

#[test]
fn ranges_are_in_ascending_order_of_the_keys() {
    let mut kv = RedbKV::in_memory(None).unwrap();
    for key in [&b"b"[..], b"a", b"ab", b"", b"c", b"\xff"] {
        kv.insert("t", key, key).unwrap();
    }
    let all = keys_and_values(&kv.range("t", &full()).unwrap());
    let keys: Vec<&[u8]> = all.iter().map(|p| p.0.as_slice()).collect();
    assert_eq!(keys, vec![&b""[..], b"a", b"ab", b"b", b"c", b"\xff"]);

    let some = kv
        .range("t", &GeneralRange(Bound::Included(b"a".to_vec()), Bound::Excluded(b"c".to_vec())))
        .unwrap();
    assert_eq!(keys_and_values(&some).len(), 3);
    let some = kv
        .range("t", &GeneralRange(Bound::Excluded(b"a".to_vec()), Bound::Included(b"c".to_vec())))
        .unwrap();
    assert_eq!(
        keys_and_values(&some).into_iter().map(|p| p.0).collect::<Vec<_>>(),
        vec![b"ab".to_vec(), b"b".to_vec(), b"c".to_vec()]
    );
    let none = kv
        .range("t", &GeneralRange(Bound::Included(b"c".to_vec()), Bound::Included(b"a".to_vec())))
        .unwrap();
    assert_eq!(none.len(), 0);

    let tx = kv.write_tx().unwrap();
    assert_eq!(keys_and_values(&tx.range("t", &full()).unwrap()), all);
    tx.abort().unwrap();
}

#[test]
fn removal_hands_out_the_old_value() {
    let mut kv = RedbKV::in_memory(None).unwrap();
    kv.insert("t", b"k", b"v").unwrap();
    assert_eq!(kv.remove("t", b"absent").unwrap(), None);
    assert_eq!(kv.remove("t", b"k").unwrap(), Some(b"v".to_vec()));
    assert_eq!(kv.count("t").unwrap(), 0);
    kv.insert("t", b"k1", b"v").unwrap();
    kv.insert("t", b"k2", b"v").unwrap();
    kv.insert("u", b"k", b"v").unwrap();
    kv.clear("t").unwrap();
    assert_eq!(kv.count("t").unwrap(), 0);
    assert_eq!(kv.count("u").unwrap(), 1);
    kv.clear("never").unwrap();
}

#[test]
fn multimap_tables_hold_pairs() {
    let mut kv = RedbKV::in_memory(None).unwrap();
    kv.insert_multimap("m", b"k", b"2").unwrap();
    kv.insert_multimap("m", b"k", b"1").unwrap();
    kv.insert_multimap("m", b"k", b"1").unwrap();
    kv.insert_multimap("m", b"j", b"9").unwrap();
    kv.insert_multimap("m", b"l", b"0").unwrap();
    assert_eq!(kv.count_multimap("m").unwrap(), 4);
    assert_eq!(
        keys_and_values(&kv.get_multimap("m", b"k").unwrap()),
        vec![(b"k".to_vec(), b"1".to_vec()), (b"k".to_vec(), b"2".to_vec())]
    );
    assert_eq!(
        keys_and_values(&kv.range_multimap("m", &full()).unwrap()),
        vec![
            (b"j".to_vec(), b"9".to_vec()),
            (b"k".to_vec(), b"1".to_vec()),
            (b"k".to_vec(), b"2".to_vec()),
            (b"l".to_vec(), b"0".to_vec())
        ]
    );
    let from_k = GeneralRange(Bound::Included(b"k".to_vec()), Bound::Excluded(b"l".to_vec()));
    assert_eq!(kv.range_multimap("m", &from_k).unwrap().len(), 2);
    {
        let tx = kv.write_tx().unwrap();
        assert_eq!(tx.count_multimap("m").unwrap(), 4);
        assert_eq!(tx.get_multimap("m", b"k").unwrap().len(), 2);
        assert_eq!(
            keys_and_values(&tx.range_multimap("m", &full()).unwrap()),
            keys_and_values(&kv.range_multimap("m", &full()).unwrap())
        );
        tx.abort().unwrap();
    }
    assert!(kv.remove_multimap("m", b"k", b"1").unwrap());
    assert!(!kv.remove_multimap("m", b"k", b"1").unwrap());
    assert_eq!(kv.count_multimap("m").unwrap(), 3);
    kv.insert_multimap("m", b"k", b"3").unwrap();
    kv.remove_all_multimap("m", b"k").unwrap();
    assert_eq!(kv.get_multimap("m", b"k").unwrap().len(), 0);
    assert_eq!(kv.count_multimap("m").unwrap(), 2);
    kv.clear_multimap("m").unwrap();
    assert_eq!(kv.count_multimap("m").unwrap(), 0);
}

#[test]
fn tables_are_listed_and_renamed() {
    let mut kv = RedbKV::in_memory(None).unwrap();
    kv.insert("b", b"k", b"v").unwrap();
    kv.insert("a", b"k", b"w").unwrap();
    kv.insert_multimap("m", b"k", b"v").unwrap();
    let mut names = kv.list_tables().unwrap();
    names.sort();
    assert_eq!(names, vec!["a".to_string(), "b".to_string()]);
    kv.rename_table("a", "c").unwrap();
    assert_eq!(kv.get("c", b"k").unwrap(), Some(b"w".to_vec()));
    assert_eq!(kv.get("a", b"k").unwrap(), None);
    let mut names = kv.read_tx().unwrap().list_tables().unwrap();
    names.sort();
    assert_eq!(names, vec!["b".to_string(), "c".to_string()]);
    kv.rename_multimap_table("m", "n").unwrap();
    assert_eq!(kv.count_multimap("n").unwrap(), 1);
    assert_eq!(kv.count_multimap("m").unwrap(), 0);
    let tx = kv.write_tx().unwrap();
    assert_eq!(tx.list_tables().unwrap().len(), 2);
    tx.abort().unwrap();
}

#[test]
fn failures_of_the_store_are_reported_in_its_words() {
    let mut kv = RedbKV::in_memory(None).unwrap();
    let error = kv.rename_table("missing", "other").unwrap_err();
    assert!(!error.message.is_empty());
    assert!(error.message.contains("missing"));
    kv.insert("t", b"k", b"v").unwrap();
    // a table cannot be opened as a multimap table
    let error = kv.insert_multimap("t", b"k", b"v").unwrap_err();
    assert!(error.message.contains("t"));
    assert_eq!(kv.get("t", b"k").unwrap(), Some(b"v".to_vec()));
    // an image that is no database is refused
    assert!(RedbKV::in_memory(Some(&[1, 2, 3])).is_err());
}

#[test]
fn failures_carry_the_error_of_the_store() {
    let mut kv = RedbKV::in_memory(None).unwrap();
    let error = kv.rename_table("missing", "other").unwrap_err();
    assert!(matches!(&error.source, redb::Error::TableDoesNotExist(name) if name == "missing"));
    assert_eq!(error.message, error.source.to_string());
    kv.insert("t", b"k", b"v").unwrap();
    let error = kv.insert_multimap("t", b"k", b"v").unwrap_err();
    assert!(matches!(&error.source, redb::Error::TableIsNotMultimap(name) if name == "t"));
}

#[test]
fn a_write_that_fails_leaves_the_store_as_it_was() {
    let mut kv = RedbKV::in_memory(None).unwrap();
    kv.insert("t", b"a", b"1").unwrap();
    kv.insert_multimap("m", b"a", b"1").unwrap();
    // a table cannot be written as a multimap table, nor the other way round
    assert!(kv.insert_multimap("t", b"b", b"2").is_err());
    assert!(kv.remove_all_multimap("t", b"a").is_err());
    assert!(kv.insert("m", b"b", b"2").is_err());
    assert!(kv.remove("m", b"a").is_err());
    assert!(kv.rename_table("missing", "t").is_err());
    assert_eq!(kv.count("t").unwrap(), 1);
    assert_eq!(kv.get("t", b"a").unwrap(), Some(b"1".to_vec()));
    assert_eq!(kv.get("t", b"b").unwrap(), None);
    assert_eq!(kv.count_multimap("m").unwrap(), 1);
    assert_eq!(kv.count("missing").unwrap(), 0);
}

#[test]
fn snapshots_are_isolated_from_later_writes() {
    let mut kv = RedbKV::in_memory(None).unwrap();
    kv.insert("t", b"a", b"1").unwrap();
    let snapshot = kv.read_tx().unwrap();
    kv.insert("t", b"b", b"2").unwrap();
    kv.insert("t", b"a", b"3").unwrap();
    kv.insert_multimap("m", b"k", b"v").unwrap();
    assert_eq!(snapshot.count("t").unwrap(), 1);
    assert_eq!(snapshot.get("t", b"a").unwrap(), Some(b"1".to_vec()));
    assert_eq!(snapshot.get("t", b"b").unwrap(), None);
    assert_eq!(snapshot.range("t", &full()).unwrap().len(), 1);
    assert_eq!(snapshot.count_multimap("m").unwrap(), 0);
    assert_eq!(kv.count("t").unwrap(), 2);
    assert_eq!(kv.read_tx().unwrap().get("t", b"a").unwrap(), Some(b"3".to_vec()));
}

#[test]
fn a_store_on_an_opened_database_is_used_as_is() {
    let db = redb::Database::builder()
        .create_with_backend(redb::backends::InMemoryBackend::new())
        .unwrap();
    let mut kv = RedbKV::new(db);
    kv.insert("t", b"k", b"v").unwrap();
    assert_eq!(kv.count("t").unwrap(), 1);
}

#[test]
fn a_store_is_opened_from_its_image() {
    let bytes = SharedBytes::default();
    {
        let db = redb::Database::builder().create_with_backend(bytes.clone()).unwrap();
        let mut kv = RedbKV::new(db);
        kv.insert("t", b"k", b"v").unwrap();
        kv.insert("t", b"l", b"w").unwrap();
        kv.insert_multimap("m", b"a", b"1").unwrap();
    }
    let image = bytes.0.read().unwrap().clone();
    assert!(!image.is_empty());
    let mut kv = RedbKV::in_memory(Some(&image)).unwrap();
    assert_eq!(kv.count("t").unwrap(), 2);
    assert_eq!(kv.get("t", b"k").unwrap(), Some(b"v".to_vec()));
    assert_eq!(kv.get("t", b"l").unwrap(), Some(b"w".to_vec()));
    assert_eq!(kv.count_multimap("m").unwrap(), 1);
    assert_eq!(kv.count("other").unwrap(), 0);
    // the store that was opened is written to like any other
    kv.insert("t", b"k", b"x").unwrap();
    assert_eq!(kv.get("t", b"k").unwrap(), Some(b"x".to_vec()));
    // the image itself is left as it was
    let again = RedbKV::in_memory(Some(&image)).unwrap();
    assert_eq!(again.get("t", b"k").unwrap(), Some(b"v".to_vec()));
    // an image without a byte is a new store
    let fresh = RedbKV::in_memory(Some(&[])).unwrap();
    assert_eq!(fresh.count("t").unwrap(), 0);
    assert_eq!(fresh.list_tables().unwrap().len(), 0);
}
