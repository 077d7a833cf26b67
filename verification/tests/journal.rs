use anondb::bytes::Bytes;
use anondb::error::DbError;
use anondb::journal::Journal;
use anondb::state::{JournalState, JOURNAL_TABLE_NAME, TX_TABLE_NAME};
use anondb::kv::{ReadOperations, WriteOperations};
use anondb::kv_redb::RedbKV;
use anondb::transaction::{hash_bytes, JournalTransaction, TransactionOperation};

fn b(text: &str) -> Bytes {
    Bytes::from_str(text)
}

fn memory() -> Journal<RedbKV> {
    Journal::<RedbKV>::in_memory(None).unwrap()
}

#[test]
fn open_and_find_one() {
    let mut db = memory();
    db.insert("table", &b("key1"), &b("test_value_1")).unwrap();
    db.insert("table", &b("key2"), &b("test_value_2")).unwrap();

    let record = db
        .find_one("table", |_key: &Bytes, value: &Bytes| value.as_slice().ends_with(b"2"))
        .unwrap()
        .expect("did not find record");

    assert_eq!(record.0.as_slice(), b"key2");
    assert_eq!(record.1.as_slice(), b"test_value_2");
}

#[test]
fn open_and_find_many() {
    let mut db = memory();
    db.insert("table", &b("key1"), &b("test_value_1")).unwrap();
    db.insert("table", &b("key2"), &b("test_value_2")).unwrap();

    let records = db.find_many("table", |_key: &Bytes, _value: &Bytes| true).unwrap();

    assert_eq!(records.len(), 2);
}

#[test]
fn open_and_insert() {
    let mut db = memory();
    db.insert("test2", &b("test_key"), &b("test_value")).unwrap();
    assert_eq!(db.get_state().unwrap().next_tx_index, 1);
    db.insert("test3", &b("test_key"), &b("test_value")).unwrap();
    assert_eq!(db.get_state().unwrap().next_tx_index, 2);
}

#[test]
fn open_and_tx() {
    let mut db = memory();
    // first transaction
    db.insert("test2", &b("test_key"), &b("test_value")).unwrap();
    // second transaction
    let mut tx = db.begin_write().unwrap();
    {
        let table = tx.open_table("test").unwrap();
        table.insert_bytes(&mut tx, &b("ahfskasjf"), &b("AShaskfasfaf")).unwrap();
    }
    tx.commit(&mut db).unwrap();

    let transactions = db.drain_transactions();
    assert_eq!(transactions.len(), 2);
    assert_eq!(transactions.get(0).unwrap().operations.len(), 3);
    assert_eq!(transactions.get(1).unwrap().operations.len(), 3);
}

#[test]
fn open_and_get() {
    let mut db = memory();
    let mut tx = db.begin_write().unwrap();
    let test_val = b("tsdfadasdgasgag");
    {
        let table = tx.open_table("test").unwrap();
        table.insert_bytes(&mut tx, &b("test_key"), &test_val).unwrap();
    }
    tx.commit(&mut db).unwrap();

    assert_eq!(
        db.get("test", &b("test_key"))
            .unwrap()
            .expect("get operation errored in open_and_get"),
        test_val
    );
}

#[test]
fn open_and_remove() {
    let mut db = memory();
    let mut tx = db.begin_write().unwrap();
    {
        let table = tx.open_table("test").unwrap();
        table.remove_bytes(&mut tx, &b("ahfskasjf")).unwrap();
    }
    tx.commit(&mut db).unwrap();

    let transactions = db.drain_transactions();
    assert_eq!(transactions.len(), 1);
    assert_eq!(transactions.first().unwrap().operations.len(), 3);
}

#[test]
fn journaling_round_trip() {
    let mut source = memory();
    source.insert("t", &b("a"), &b("1")).unwrap();
    let mut tx = source.begin_write().unwrap();
    let table = tx.open_table("t").unwrap();
    table.insert_bytes(&mut tx, &b("b"), &b("2")).unwrap();
    table.remove_bytes(&mut tx, &b("a")).unwrap();
    tx.commit(&mut source).unwrap();
    let committed = source.drain_transactions();
    assert_eq!(committed.len(), 2);

    let mut replica = memory();
    replica.append_tx(&committed[0]).unwrap();
    replica.append_tx(&committed[1]).unwrap();

    let entries = replica.entries("t").unwrap();
    assert_eq!(entries.len(), 1);
    assert_eq!(entries[0].0, b("b"));
    assert_eq!(entries[0].1, b("2"));
    assert_eq!(replica.journal_tx_len().unwrap(), 2);
    let second = replica.db.get(JOURNAL_TABLE_NAME, &1u64.to_be_bytes()).unwrap().unwrap();
    assert_eq!(second, committed[1].hash().to_vec());
    assert_eq!(
        replica.db.get(JOURNAL_TABLE_NAME, &1u64.to_be_bytes()).unwrap(),
        source.db.get(JOURNAL_TABLE_NAME, &1u64.to_be_bytes()).unwrap()
    );
    assert_eq!(replica.get_state().unwrap().last_tx_hash, committed[1].hash());
}

#[test]
fn divergent_transaction_is_rejected() {
    let mut db = memory();
    db.insert("t", &b("a"), &b("1")).unwrap();
    let before: JournalState = db.get_state().unwrap();
    let mut other = [7u8; 32];
    if other == before.last_tx_hash {
        other = [8u8; 32];
    }
    let tx = JournalTransaction {
        last_tx_hash: other,
        operations: vec![
            TransactionOperation::OpenTable("t".to_string()),
            TransactionOperation::Insert {
                table_name: "t".to_string(),
                key_bytes: b("b"),
                value_bytes: b("2"),
            },
            TransactionOperation::Commit,
        ],
    };
    assert!(matches!(db.append_tx(&tx), Err(DbError::JournalDivergence)));
    let after = db.get_state().unwrap();
    assert_eq!(after.next_tx_index, before.next_tx_index);
    assert_eq!(after.last_tx_hash, before.last_tx_hash);
    assert_eq!(db.get("t", &b("b")).unwrap(), None);
    assert_eq!(db.count("t").unwrap(), 1);
}

#[test]
fn malformed_transactions_are_rejected() {
    let mut db = memory();
    let zero = [0u8; 32];
    let empty = JournalTransaction { last_tx_hash: zero, operations: vec![] };
    assert!(matches!(db.append_tx(&empty), Err(DbError::JournalInvariant)));
    let uncommitted = JournalTransaction {
        last_tx_hash: zero,
        operations: vec![TransactionOperation::OpenTable("t".to_string())],
    };
    assert!(matches!(db.append_tx(&uncommitted), Err(DbError::JournalInvariant)));
    let unopened = JournalTransaction {
        last_tx_hash: zero,
        operations: vec![
            TransactionOperation::Insert {
                table_name: "t".to_string(),
                key_bytes: b("k"),
                value_bytes: b("v"),
            },
            TransactionOperation::Commit,
        ],
    };
    assert!(matches!(db.append_tx(&unopened), Err(DbError::JournalInvariant)));
    let early_commit = JournalTransaction {
        last_tx_hash: zero,
        operations: vec![TransactionOperation::Commit, TransactionOperation::Commit],
    };
    assert!(matches!(db.append_tx(&early_commit), Err(DbError::JournalInvariant)));
    assert_eq!(db.journal_tx_len().unwrap(), 0);
}

#[test]
fn hashes_are_chained() {
    let mut db = memory();
    db.insert("t", &b("a"), &b("1")).unwrap();
    db.insert("t", &b("b"), &b("2")).unwrap();
    db.remove("t", &b("a")).unwrap();
    let txs = db.journal_transactions().unwrap();
    assert_eq!(txs.len(), 3);
    assert_eq!(txs[0].last_tx_hash, [0u8; 32]);
    for i in 1..txs.len() {
        assert_eq!(txs[i].last_tx_hash, hash_bytes(&txs[i - 1].encode()));
        assert_eq!(txs[i].last_tx_hash, txs[i - 1].hash());
    }
    let by_index = db.journal_tx_by_index(2).unwrap().unwrap();
    assert_eq!(by_index.hash(), txs[2].hash());
    assert!(db.journal_tx_by_index(3).unwrap().is_none());
}

#[test]
fn stored_transactions_read_back() {
    let tx = JournalTransaction {
        last_tx_hash: [9u8; 32],
        operations: vec![
            TransactionOperation::OpenTable("t".to_string()),
            TransactionOperation::OpenMultimapTable("m".to_string()),
            TransactionOperation::Insert {
                table_name: "t".to_string(),
                key_bytes: b("k"),
                value_bytes: Bytes::new(vec![0, 1, 2]),
            },
            TransactionOperation::Remove("t".to_string(), b("k")),
            TransactionOperation::RenameTable("t".to_string(), "u".to_string()),
            TransactionOperation::RenameMultimapTable("m".to_string(), "n".to_string()),
            TransactionOperation::DeleteTable("u".to_string()),
            TransactionOperation::DeleteMultimapTable("n".to_string()),
            TransactionOperation::Commit,
        ],
    };
    let bytes = tx.encode();
    let back = JournalTransaction::decode(&bytes).unwrap();
    assert_eq!(back.last_tx_hash, tx.last_tx_hash);
    assert_eq!(back.operations.len(), 9);
    assert_eq!(back.encode(), bytes);
    assert!(matches!(&back.operations[2], TransactionOperation::Insert { table_name, key_bytes, value_bytes }
        if table_name == "t" && key_bytes == &b("k") && value_bytes.as_slice() == [0, 1, 2]));
    assert!(matches!(&back.operations[4], TransactionOperation::RenameTable(a, c) if a == "t" && c == "u"));
    assert!(JournalTransaction::decode(&bytes[..bytes.len() - 1]).is_none());
    assert_ne!(tx.hash(), hash_bytes(b""));
}

#[test]
fn snapshot_restores_the_tables() {
    let mut db = memory();
    db.insert("t", &b("a"), &b("1")).unwrap();
    db.insert("t", &b("b"), &b("2")).unwrap();
    db.insert("u", &b("c"), &b("3")).unwrap();
    db.remove("t", &b("a")).unwrap();

    let flat = db.flatten().unwrap();
    assert_eq!(flat.last_tx_hash, [0u8; 32]);
    assert_eq!(flat.operations.len(), 5);
    assert!(matches!(flat.operations.last(), Some(TransactionOperation::Commit)));

    let mut replica = memory();
    replica.append_tx(&flat).unwrap();
    assert_eq!(replica.entries("t").unwrap(), db.entries("t").unwrap());
    assert_eq!(replica.entries("u").unwrap(), db.entries("u").unwrap());
    assert_eq!(replica.journal_tx_len().unwrap(), 1);
    assert_eq!(replica.db.count(TX_TABLE_NAME).unwrap(), 1);
}

#[test]
fn earlier_states_can_be_rebuilt() {
    let mut db = memory();
    db.insert("t", &b("a"), &b("1")).unwrap();
    db.insert("t", &b("b"), &b("2")).unwrap();
    db.remove("t", &b("a")).unwrap();

    let first = db.at_index(0).unwrap();
    assert_eq!(first.entries("t").unwrap(), vec![(b("a"), b("1"))]);
    let second = db.at_index(1).unwrap();
    assert_eq!(second.count("t").unwrap(), 2);
    let third = db.at_index(2).unwrap();
    assert_eq!(third.entries("t").unwrap(), vec![(b("b"), b("2"))]);
    assert_eq!(third.get_state().unwrap().last_tx_hash, db.get_state().unwrap().last_tx_hash);
    assert!(matches!(db.at_index(3), Err(DbError::JournalInvariant)));

    let flat = db.flatten_at_index(1).unwrap();
    assert_eq!(flat.operations.len(), 4);
}

#[test]
fn aborted_transactions_leave_no_trace() {
    let mut db = memory();
    let mut tx = db.begin_write().unwrap();
    let table = tx.open_table("t").unwrap();
    table.insert_bytes(&mut tx, &b("a"), &b("1")).unwrap();
    tx.abort().unwrap();
    assert!(matches!(tx.commit(&mut db), Err(DbError::TransactionClosed)));
    assert_eq!(db.count("t").unwrap(), 0);
    assert_eq!(db.journal_tx_len().unwrap(), 0);
    assert_eq!(db.drain_transactions().len(), 0);
}

#[test]
fn tables_can_be_renamed_and_deleted() {
    let mut db = memory();
    db.insert("t", &b("a"), &b("1")).unwrap();
    let mut tx = db.begin_write().unwrap();
    tx.rename_table("t", "u").unwrap();
    let table = tx.open_table("u").unwrap();
    assert_eq!(table.len(&tx).unwrap(), 1);
    tx.commit(&mut db).unwrap();
    assert_eq!(db.count("t").unwrap(), 0);
    assert_eq!(db.get("u", &b("a")).unwrap(), Some(b("1")));

    let mut tx = db.begin_write().unwrap();
    assert!(tx.delete_table("u").unwrap());
    assert!(!tx.delete_table("never").unwrap());
    tx.commit(&mut db).unwrap();
    assert_eq!(db.count("u").unwrap(), 0);
    assert_eq!(db.list_keys("u").unwrap().len(), 0);

    let replica = db.at_index(2).unwrap();
    assert_eq!(replica.count("u").unwrap(), 0);
    assert_eq!(replica.journal_tx_len().unwrap(), 3);
}

#[test]
fn the_hash_is_blake3() {
    // the BLAKE3 hash of the empty input
    let expected = [
        0xaf, 0x13, 0x49, 0xb9, 0xf5, 0xf9, 0xa1, 0xa6, 0xa0, 0x40, 0x4d, 0xea, 0x36, 0xdc, 0xc9,
        0x49, 0x9b, 0xcb, 0x25, 0xc9, 0xad, 0xc1, 0x12, 0xb7, 0xcc, 0x9a, 0x93, 0xca, 0xe4, 0x1f,
        0x32, 0x62,
    ];
    assert_eq!(hash_bytes(b""), expected);
    assert_ne!(hash_bytes(b"a"), expected);
}

#[test]
fn committed_transactions_are_queued_in_order() {
    let mut db = memory();
    db.insert("t", &b("a"), &b("1")).unwrap();
    db.insert("t", &b("b"), &b("2")).unwrap();
    let extra = JournalTransaction {
        last_tx_hash: [3u8; 32],
        operations: vec![TransactionOperation::Commit],
    };
    assert!(db.register_transaction(extra).is_ok());
    let drained = db.drain_transactions();
    assert_eq!(drained.len(), 3);
    assert_eq!(drained[0].last_tx_hash, [0u8; 32]);
    assert_eq!(drained[1].last_tx_hash, drained[0].hash());
    assert_eq!(drained[2].last_tx_hash, [3u8; 32]);
    assert!(matches!(&drained[0].operations[1], TransactionOperation::Insert { key_bytes, .. } if key_bytes == &b("a")));
    assert_eq!(db.drain_transactions().len(), 0);
    assert_eq!(Journal::<RedbKV>::system_tables(), vec![JOURNAL_TABLE_NAME.to_string(), TX_TABLE_NAME.to_string()]);
}

#[test]
fn byte_strings_are_built_from_values() {
    assert_eq!(Bytes::from_str("é").as_slice(), "é".as_bytes());
    assert_eq!(Bytes::from_u64(1).to_vec(), 1u64.to_le_bytes().to_vec());
    assert_eq!(Bytes::from(vec![1, 2]).len(), 2);
    assert_eq!(Bytes::from_slice(&[1, 2]), Bytes::new(vec![1, 2]));
    assert_eq!(Bytes::default().len(), 0);
    assert_eq!(Bytes::new(vec![5]).copy().into_vec(), vec![5]);
    assert_ne!(Bytes::new(vec![5]), Bytes::new(vec![6]));
}

#[test]
fn multimap_tables_are_journaled() {
    let mut db = memory();
    let mut tx = db.begin_write().unwrap();
    let table = tx.open_multimap_table("m").unwrap();
    table.insert_bytes(&mut tx, &b("k"), &b("1")).unwrap();
    table.insert_bytes(&mut tx, &b("k"), &b("2")).unwrap();
    assert_eq!(table.len(&tx).unwrap(), 2);
    tx.rename_multimap_table("m", "n").unwrap();
    assert!(matches!(
        table.insert_bytes(&mut tx, &b("k"), &b("3")),
        Err(DbError::JournalInvariant)
    ));
    assert!(tx.active_tx().is_ok());
    tx.commit(&mut db).unwrap();
    assert!(matches!(tx.active_tx(), Err(DbError::TransactionClosed)));
    assert_eq!(db.db.count_multimap("n").unwrap(), 2);

    let replica = db.at_index(0).unwrap();
    assert_eq!(replica.db.count_multimap("n").unwrap(), 2);
    assert_eq!(replica.db.count_multimap("m").unwrap(), 0);

    let mut tx = db.begin_write().unwrap();
    assert!(tx.delete_multimap_table("n").unwrap());
    assert_eq!(tx.list_tables(&db).unwrap().len(), 2);
    tx.commit(&mut db).unwrap();
    assert_eq!(db.db.count_multimap("n").unwrap(), 0);
}

#[test]
fn writes_to_closed_tables_are_refused() {
    let mut db = memory();
    let mut tx = db.begin_write().unwrap();
    let table = tx.open_table("t").unwrap();
    table.insert_bytes(&mut tx, &b("a"), &b("1")).unwrap();
    assert!(tx.delete_table("t").unwrap());
    assert!(matches!(
        table.insert_bytes(&mut tx, &b("a"), &b("1")),
        Err(DbError::JournalInvariant)
    ));
    assert!(matches!(table.remove_bytes(&mut tx, &b("a")), Err(DbError::JournalInvariant)));
    tx.commit(&mut db).unwrap();
    let txs = db.drain_transactions();
    assert_eq!(txs[0].operations.len(), 4);
}

fn insert_tx(last_tx_hash: [u8; 32], key: &str, value: &str) -> JournalTransaction {
    JournalTransaction {
        last_tx_hash,
        operations: vec![
            TransactionOperation::OpenTable("t".to_string()),
            TransactionOperation::Insert {
                table_name: "t".to_string(),
                key_bytes: b(key),
                value_bytes: b(value),
            },
            TransactionOperation::Commit,
        ],
    }
}

#[test]
fn divergent_journals_are_merged() {
    // two transactions in common, then one of our own
    let mut ours = memory();
    ours.insert("t", &b("a"), &b("1")).unwrap();
    ours.insert("t", &b("b"), &b("2")).unwrap();
    ours.insert("t", &b("c"), &b("ours")).unwrap();
    let txs = ours.journal_transactions().unwrap();

    // the canonical continuation of the common part
    let canonical = insert_tx(txs[1].hash(), "c", "theirs");
    // one pending transaction that follows the canonical one, one that does not
    let follows = insert_tx(canonical.hash(), "d", "4");
    let stale = insert_tx(txs[2].hash(), "e", "5");

    let (merged, applied) = ours
        .merge(2, vec![canonical], vec![stale, follows])
        .unwrap();
    assert_eq!(applied, vec![false, true]);
    assert_eq!(merged.get("t", &b("a")).unwrap(), Some(b("1")));
    assert_eq!(merged.get("t", &b("c")).unwrap(), Some(b("theirs")));
    assert_eq!(merged.get("t", &b("d")).unwrap(), Some(b("4")));
    assert_eq!(merged.get("t", &b("e")).unwrap(), None);
    assert_eq!(merged.journal_tx_len().unwrap(), 4);
    assert_eq!(ours.get("t", &b("c")).unwrap(), Some(b("ours")));

    // a canonical transaction that does not follow the common part is refused
    let wrong = insert_tx([1u8; 32], "c", "x");
    assert!(matches!(ours.merge(2, vec![wrong], vec![]), Err(DbError::JournalDivergence)));
    // so is a divergence behind the end of the journal
    assert!(matches!(ours.merge(9, vec![], vec![]), Err(DbError::JournalInvariant)));
    // a divergence at the start keeps nothing
    let (fresh, applied) = ours.merge(0, vec![], vec![insert_tx([0u8; 32], "z", "0")]).unwrap();
    assert_eq!(applied, vec![true]);
    assert_eq!(fresh.count("t").unwrap(), 1);
}

#[test]
fn the_empty_string_names_no_table() {
    let mut db = memory();
    assert!(matches!(db.insert("", &b("k"), &b("v")), Err(DbError::JournalInvariant)));
    assert!(matches!(db.remove("", &b("k")), Err(DbError::JournalInvariant)));
    assert!(matches!(db.get("", &b("k")), Err(DbError::JournalInvariant)));
    assert!(matches!(db.count(""), Err(DbError::JournalInvariant)));
    assert!(matches!(db.entries(""), Err(DbError::JournalInvariant)));
    assert!(matches!(db.list_keys(""), Err(DbError::JournalInvariant)));
    assert!(matches!(db.find_many("", |_, _| true), Err(DbError::JournalInvariant)));
    assert!(matches!(db.find_one("", |_, _| true), Err(DbError::JournalInvariant)));
    assert_eq!(db.journal_tx_len().unwrap(), 0);
    assert_eq!(db.drain_transactions().len(), 0);

    let mut tx = db.begin_write().unwrap();
    assert!(matches!(tx.open_table(""), Err(DbError::JournalInvariant)));
    assert!(matches!(tx.open_multimap_table(""), Err(DbError::JournalInvariant)));
    assert!(matches!(tx.rename_table("t", ""), Err(DbError::JournalInvariant)));
    assert!(matches!(tx.rename_table("", "t"), Err(DbError::JournalInvariant)));
    assert!(matches!(tx.delete_table(""), Err(DbError::JournalInvariant)));
    assert!(matches!(tx.delete_multimap_table(""), Err(DbError::JournalInvariant)));
    assert_eq!(tx.operations.len(), 0);
    // the transaction is still open
    let table = tx.open_table("t").unwrap();
    assert_eq!(table.insert_bytes(&mut tx, &b("k"), &b("v")).unwrap(), None);
    tx.commit(&mut db).unwrap();
    assert_eq!(db.get("t", &b("k")).unwrap(), Some(b("v")));

    let unnamed = JournalTransaction {
        last_tx_hash: db.get_state().unwrap().last_tx_hash,
        operations: vec![
            TransactionOperation::OpenTable("".to_string()),
            TransactionOperation::Commit,
        ],
    };
    assert!(matches!(db.append_tx(&unnamed), Err(DbError::JournalInvariant)));
    assert_eq!(db.journal_tx_len().unwrap(), 1);
}

#[test]
fn an_insert_hands_out_the_old_value_and_queues_its_transaction() {
    let mut db = memory();
    assert_eq!(db.insert("t", &b("k"), &b("1")).unwrap(), None);
    assert_eq!(db.insert("t", &b("k"), &b("2")).unwrap(), Some(b("1")));
    assert_eq!(db.remove("t", &b("k")).unwrap(), Some(b("2")));
    assert_eq!(db.remove("t", &b("k")).unwrap(), None);
    let drained = db.drain_transactions();
    assert_eq!(drained.len(), 4);
    assert_eq!(drained[0].last_tx_hash, [0u8; 32]);
    assert_eq!(drained[0].operations.len(), 3);
    assert!(matches!(&drained[0].operations[0], TransactionOperation::OpenTable(name) if name == "t"));
    assert!(matches!(
        &drained[1].operations[1],
        TransactionOperation::Insert { table_name, key_bytes, value_bytes }
            if table_name == "t" && key_bytes == &b("k") && value_bytes == &b("2")
    ));
    assert!(matches!(&drained[2].operations[1], TransactionOperation::Remove(name, key) if name == "t" && key == &b("k")));
    assert!(matches!(&drained[3].operations[2], TransactionOperation::Commit));
    for i in 1..4 {
        assert_eq!(drained[i].last_tx_hash, drained[i - 1].hash());
    }
    // the drained transactions rebuild the store elsewhere
    let mut replica = memory();
    for tx in &drained {
        replica.append_tx(tx).unwrap();
    }
    assert_eq!(replica.get_state().unwrap().next_tx_index, 4);
    assert_eq!(replica.get_state().unwrap().last_tx_hash, drained[3].hash());
    assert_eq!(replica.count("t").unwrap(), 0);
}

#[test]
fn a_journal_that_cannot_be_listed_says_why() {
    let mut db = memory();
    db.insert("t", &b("k"), &b("v")).unwrap();
    assert_eq!(db.journal_transactions().unwrap().len(), 1);
    // an index whose hash names no stored transaction
    let lost = [9u8; 32];
    db.db.insert(JOURNAL_TABLE_NAME, &1u64.to_be_bytes(), &lost).unwrap();
    assert!(matches!(db.journal_transactions(), Err(DbError::JournalInvariant)));
    // a stored transaction that cannot be read back
    db.db.insert(TX_TABLE_NAME, &lost, &[1, 2, 3]).unwrap();
    assert!(matches!(db.journal_transactions(), Err(DbError::CorruptRecord)));
    assert!(matches!(db.journal_tx_by_index(1), Err(DbError::CorruptRecord)));
}

#[test]
fn replayed_and_merged_journals_queue_what_they_appended() {
    let mut ours = memory();
    ours.insert("t", &b("a"), &b("1")).unwrap();
    ours.insert("t", &b("b"), &b("2")).unwrap();
    ours.insert("t", &b("c"), &b("ours")).unwrap();
    let txs = ours.journal_transactions().unwrap();
    let hashes: Vec<[u8; 32]> = txs.iter().map(|tx| tx.hash()).collect();

    let mut replica = ours.at_index(1).unwrap();
    let queued: Vec<[u8; 32]> = replica.drain_transactions().iter().map(|tx| tx.hash()).collect();
    assert_eq!(queued, vec![hashes[0], hashes[1]]);

    let canonical = insert_tx(hashes[1], "c", "theirs");
    let follows = insert_tx(canonical.hash(), "d", "4");
    let stale = insert_tx(hashes[2], "e", "5");
    let expected = vec![hashes[0], hashes[1], canonical.hash(), follows.hash()];
    let (mut merged, applied) = ours.merge(2, vec![canonical], vec![stale, follows]).unwrap();
    assert_eq!(applied, vec![false, true]);
    let queued: Vec<[u8; 32]> = merged.drain_transactions().iter().map(|tx| tx.hash()).collect();
    assert_eq!(queued, expected);

    // the snapshot of an earlier state names the tables that held an entry then
    let mut other = memory();
    other.insert("t", &b("a"), &b("1")).unwrap();
    other.insert("u", &b("b"), &b("2")).unwrap();
    let flat = other.flatten_at_index(0).unwrap();
    assert_eq!(flat.operations.len(), 3);
    assert!(matches!(&flat.operations[0], TransactionOperation::OpenTable(name) if name == "t"));
    let flat = other.flatten_at_index(1).unwrap();
    assert_eq!(flat.operations.len(), 5);
}
