use anondb::collection::Collection;
use anondb::document::{Document, Query};
use anondb::error::DbError;
use anondb::index::{Index, IndexField, IndexOptions, LexStats};
use anondb::kv::{ReadOperations, WriteOperations, WriteTx, KV};
use anondb::kv_redb::RedbKV;
use anondb::lexicographic::SerializeLexicographic;
use anondb::query::{GeneralRange, Param};
use std::ops::Bound;

fn field<T: SerializeLexicographic>(name: &str) -> IndexField {
    IndexField {
        name: name.to_string(),
        stats: LexStats {
            fixed_width: T::fixed_width(),
        },
    }
}

fn collection(name: &str, primary_key: Vec<IndexField>, indexes: Vec<(Vec<IndexField>, bool)>) -> Collection {
    let mut c = Collection::new();
    c.set_name(name.to_string()).unwrap();
    c.set_primary_key(primary_key).unwrap();
    for (fields, unique) in indexes {
        c.add_index(Index {
            collection_name: name.to_string(),
            field_names: fields,
            options: IndexOptions {
                unique,
                primary: false,
            },
        })
        .unwrap();
    }
    c.construct_indices().unwrap();
    c
}

fn bodies(results: Vec<Result<Document, DbError>>) -> Vec<Vec<u8>> {
    results.into_iter().map(|r| r.unwrap().body).collect()
}

#[test]
fn range_over_encoded_u32_finds_the_ids_in_the_range() {
    let mut kv = RedbKV::in_memory(None).unwrap();
    let c = collection("docs", vec![field::<u32>("id")], vec![]);
    for id in [0u32, 1, 2, 100, 101, 65535, 65536, u32::MAX] {
        let doc = Document::new(id.to_string().into_bytes()).with_field("id", id.serialize_lex());
        c.insert(&mut kv, &doc).unwrap();
    }
    assert_eq!(c.count(&kv).unwrap(), 8);
    let query = Query::default().with("id", Param::range(GeneralRange::from(100u32..102u32)));
    let found = bodies(c.find_many(&kv, &query).unwrap());
    assert_eq!(found, vec![b"100".to_vec(), b"101".to_vec()]);
}

fn pair(a: u8, b: &str) -> Document {
    Document::new(format!("{a}{b}").into_bytes())
        .with_field("a", a.serialize_lex())
        .with_field("b", b.to_string().serialize_lex())
}

#[test]
fn compound_primary_key_orders_and_refuses_duplicates() {
    let mut kv = RedbKV::in_memory(None).unwrap();
    let c = collection("pairs", vec![field::<u8>("a"), field::<String>("b")], vec![]);
    c.insert(&mut kv, &pair(1, "a")).unwrap();
    c.insert(&mut kv, &pair(1, "b")).unwrap();
    c.insert(&mut kv, &pair(2, "a")).unwrap();
    assert!(matches!(
        c.insert(&mut kv, &pair(1, "a")),
        Err(DbError::DuplicatePrimaryKey)
    ));
    assert_eq!(c.count(&kv).unwrap(), 3);

    let one = Query::default()
        .with("a", Param::eq(1u8))
        .with("b", Param::eq("b".to_string()));
    assert_eq!(c.find_one(&kv, &one).unwrap().unwrap().body, b"1b".to_vec());

    let many = Query::default().with("a", Param::eq(1u8));
    assert_eq!(
        bodies(c.find_many(&kv, &many).unwrap()),
        vec![b"1a".to_vec(), b"1b".to_vec()]
    );
}

#[test]
fn inclusive_upper_bound_excludes_longer_strings() {
    let mut kv = RedbKV::in_memory(None).unwrap();
    let c = collection(
        "people",
        vec![field::<u32>("id")],
        vec![(vec![field::<String>("name")], true)],
    );
    for (id, name) in [(0u32, "a"), (1, "ab"), (2, "ac"), (3, "b")] {
        let doc = Document::new(name.as_bytes().to_vec())
            .with_field("id", id.serialize_lex())
            .with_field("name", name.to_string().serialize_lex());
        c.insert(&mut kv, &doc).unwrap();
    }
    let only_a = Query::default().with(
        "name",
        Param::range(GeneralRange(
            Bound::Included("a".to_string()),
            Bound::Included("a".to_string()),
        )),
    );
    assert_eq!(c.best_index(&only_a).table_name(), "people_name_unique");
    assert_eq!(bodies(c.find_many(&kv, &only_a).unwrap()), vec![b"a".to_vec()]);
    let planned = c.best_index(&only_a).plan(&only_a);
    assert!(matches!(planned.1, Bound::Included(ref upper) if upper == &vec![b'a', 0, 1]));

    let up_to_ac = Query::default().with(
        "name",
        Param::range(GeneralRange(
            Bound::Included("a".to_string()),
            Bound::Included("ac".to_string()),
        )),
    );
    assert_eq!(
        bodies(c.find_many(&kv, &up_to_ac).unwrap()),
        vec![b"a".to_vec(), b"ab".to_vec(), b"ac".to_vec()]
    );
}

fn numbered(id: u128, other: u64) -> Document {
    Document::new(other.to_string().into_bytes())
        .with_field("id", id.serialize_lex())
        .with_field("other", other.serialize_lex())
}



#[test]
fn rebuilt_indexes_answer_as_before() {
    let mut kv = RedbKV::in_memory(None).unwrap();
    let c = collection(
        "things",
        vec![field::<u128>("id")],
        vec![(vec![field::<u64>("other")], false), (vec![field::<u64>("other")], true)],
    );
    c.insert(&mut kv, &numbered(1, 30)).unwrap();
    c.insert(&mut kv, &numbered(2, 20)).unwrap();
    c.insert(&mut kv, &numbered(3, 10)).unwrap();
    let query = Query::default().with("other", Param::range(GeneralRange::from(15u64..)));
    let before = bodies(c.find_many(&kv, &query).unwrap());
    c.rebuild_indices(&mut kv).unwrap();
    let after = bodies(c.find_many(&kv, &query).unwrap());
    assert_eq!(before, vec![b"20".to_vec(), b"30".to_vec()]);
    assert_eq!(after, before);
}

#[test]
fn writes_in_a_transaction_are_listed() {
    let kv = RedbKV::in_memory(None).unwrap();
    let mut tx = kv.write_tx().unwrap();
    tx.insert("fresh", b"k", b"v").unwrap();
    assert_eq!(tx.list_tables().unwrap(), vec!["fresh".to_string()]);
    assert_eq!(tx.count("fresh").unwrap(), 1);
    tx.abort().unwrap();
    assert_eq!(kv.list_tables().unwrap().len(), 0);
}

#[test]
fn entries_without_a_document_are_reported() {
    let mut kv = RedbKV::in_memory(None).unwrap();
    let c = collection(
        "things",
        vec![field::<u128>("id")],
        vec![(vec![field::<u64>("other")], false)],
    );
    c.insert(&mut kv, &numbered(1, 10)).unwrap();
    // an entry of the index that leads nowhere
    kv.insert_multimap("things_other", &20u64.serialize_lex(), &9u128.serialize_lex())
        .unwrap();
    let query = Query::default().with("other", Param::range(GeneralRange::from(0u64..)));
    let found = c.find_many(&kv, &query).unwrap();
    assert_eq!(found.len(), 2);
    assert_eq!(found[0].as_ref().unwrap().body, b"10".to_vec());
    assert!(matches!(found[1], Err(DbError::DanglingIndexEntry)));
    let first = Query::default().with("other", Param::eq(20u64));
    assert!(matches!(c.find_one(&kv, &first), Err(DbError::DanglingIndexEntry)));
}

#[test]
fn documents_that_cannot_be_read_are_reported() {
    let mut kv = RedbKV::in_memory(None).unwrap();
    let c = collection(
        "things",
        vec![field::<u128>("id")],
        vec![(vec![field::<u64>("other")], false)],
    );
    c.insert(&mut kv, &numbered(1, 10)).unwrap();
    kv.insert("things", &2u128.serialize_lex(), b"no document").unwrap();
    let found = c.find_many(&kv, &Query::default()).unwrap();
    assert_eq!(found.len(), 2);
    assert!(found[0].is_ok());
    assert!(matches!(found[1], Err(DbError::CorruptRecord)));
    assert!(matches!(c.rebuild_indices(&mut kv), Err(DbError::CorruptRecord)));
    // the failed rebuild left the index as it was
    let query = Query::default().with("other", Param::eq(10u64));
    assert_eq!(bodies(c.find_many(&kv, &query).unwrap()), vec![b"10".to_vec()]);
}

#[test]
fn failures_of_the_store_are_passed_on() {
    let mut kv = RedbKV::in_memory(None).unwrap();
    // the table of the collection is taken by a multimap table
    kv.insert_multimap("things", b"k", b"v").unwrap();
    let c = collection("things", vec![field::<u128>("id")], vec![]);
    assert!(matches!(c.insert(&mut kv, &numbered(1, 10)), Err(DbError::KVError(_))));
    assert!(matches!(c.find_many(&kv, &Query::default()), Err(DbError::KVError(_))));
    assert_eq!(kv.count_multimap("things").unwrap(), 1);
}

#[test]
fn a_refused_insert_leaves_no_trace() {
    let mut kv = RedbKV::in_memory(None).unwrap();
    let c = collection(
        "things",
        vec![field::<u128>("id")],
        vec![(vec![field::<u128>("id")], false), (vec![field::<u64>("other")], true)],
    );
    c.insert(&mut kv, &numbered(1, 10)).unwrap();
    assert!(matches!(c.insert(&mut kv, &numbered(2, 10)), Err(DbError::UniqueIndexViolation)));
    assert_eq!(kv.count("things").unwrap(), 1);
    assert_eq!(kv.count_multimap("things_id").unwrap(), 1);
    assert_eq!(kv.count("things_other_unique").unwrap(), 1);
    let lacking = Document::new(vec![]).with_field("id", 3u128.serialize_lex());
    assert!(matches!(c.insert(&mut kv, &lacking), Err(DbError::MissingField)));
    assert_eq!(kv.count("things").unwrap(), 1);
    assert_eq!(kv.count_multimap("things_id").unwrap(), 1);
}
