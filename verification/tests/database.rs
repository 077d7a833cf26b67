use anondb::database::{AnonDB, CollectionDef, IndexDef};
use anondb::document::{Document, Query};
use anondb::error::DbError;
use anondb::index::{IndexField, IndexOptions, LexStats};
use anondb::kv::KV;
use anondb::kv_redb::RedbKV;
use anondb::lexicographic::SerializeLexicographic;
use anondb::query::{GeneralRange, Param};

fn field<T: SerializeLexicographic>(name: &str) -> IndexField {
    IndexField {
        name: name.to_string(),
        stats: LexStats {
            fixed_width: T::fixed_width(),
        },
    }
}

fn index(fields: Vec<IndexField>, unique: bool) -> IndexDef {
    IndexDef {
        fields,
        options: IndexOptions {
            unique,
            primary: false,
        },
    }
}

fn collection(name: &str, primary_key: Vec<IndexField>, indices: Vec<IndexDef>) -> CollectionDef {
    CollectionDef {
        name: name.to_string(),
        primary_key,
        indices,
        fields: vec![],
    }
}

fn rand_utf8(len: usize) -> String {
    (0..len).map(|_| rand::random::<char>()).collect()
}

/// A document with an id and a text.
#[derive(Debug, PartialEq)]
struct TestDocument {
    id: u128,
    other: String,
}

impl TestDocument {
    fn random() -> Self {
        Self {
            id: rand::random(),
            other: rand_utf8(rand::random::<u16>().into()),
        }
    }

    fn stored(&self) -> Document {
        Document::new(format!("{}:{}", self.id, self.other).into_bytes())
            .with_field("id", self.id.serialize_lex())
            .with_field("other", self.other.serialize_lex())
    }
}

/// A document with an id and a number.
#[derive(Debug, PartialEq)]
struct OtherDocument {
    id: u128,
    other: u64,
}

impl OtherDocument {
    fn stored(&self) -> Document {
        Document::new(self.other.to_string().into_bytes())
            .with_field("id", self.id.serialize_lex())
            .with_field("other", self.other.serialize_lex())
    }
}

/// The database of a collection of each kind of document.
fn db() -> AnonDB<RedbKV> {
    AnonDB::setup(
        RedbKV::in_memory(None).unwrap(),
        vec![
            collection(
                "test_collection",
                vec![field::<u128>("id")],
                vec![index(vec![field::<u128>("id"), field::<String>("other")], true)],
            ),
            collection(
                "other_collection",
                vec![field::<u128>("id")],
                vec![index(vec![field::<u64>("other")], false)],
            ),
        ],
    )
    .unwrap()
}

fn creates_collections() {
    let mut db = db();
    let doc = TestDocument {
        id: 0,
        other: "".into(),
    };
    db.insert("test_collection", &doc.stored()).unwrap();
    assert_eq!(db.count("test_collection").unwrap(), 1);
}

fn fails_to_insert_duplicate_primary_key() {
    let mut db = db();
    let doc = TestDocument {
        id: 99,
        other: "".into(),
    };
    db.insert("test_collection", &doc.stored()).unwrap();
    let error = db
        .insert("test_collection", &doc.stored())
        .expect_err("Should fail to insert duplicate primary key");
    assert!(matches!(error, DbError::DuplicatePrimaryKey));
}

fn uses_non_unique_index() {
    let mut db = db();
    let doc = OtherDocument { id: 99, other: 99 };
    let doc2 = OtherDocument {
        id: 200,
        other: 200,
    };
    db.insert("other_collection", &doc.stored()).unwrap();
    db.insert("other_collection", &doc2.stored()).unwrap();

    let query = Query::default().with("other", Param::range(GeneralRange::from(0u64..)));
    let out: Vec<Document> = db
        .find_many("other_collection", &query)
        .unwrap()
        .into_iter()
        .map(|found| found.unwrap())
        .collect();
    assert_eq!(out.len(), 2);
    assert_eq!(out.get(0).unwrap().field("other"), Some(&99u64.serialize_lex()));
    assert_eq!(out.get(1).unwrap().field("other"), Some(&200u64.serialize_lex()));
}

fn queries_collection() {
    let mut db = db();
    let doc = TestDocument {
        id: 99,
        other: "".into(),
    };
    db.insert("test_collection", &doc.stored()).unwrap();
    {
        let query = Query::default()
            .with("id", Param::range(GeneralRange::from(80u128..)))
            .with("other", Param::eq(""));
        let out = db.find_one("test_collection", &query).unwrap();
        assert!(out.is_some());
        let out = out.unwrap();
        assert_eq!(out.body, doc.stored().body);
    }
    {
        let query = Query::default().with("id", Param::range(GeneralRange::from(1000u128..)));
        let out = db.find_one("test_collection", &query).unwrap();
        assert!(out.is_none());
    }
    {
        let query = Query::default().with("id", Param::eq(99u128));
        let out = db.find_one("test_collection", &query).unwrap();
        assert!(out.is_some());
        let out = out.unwrap();
        assert_eq!(out.body, doc.stored().body);
    }
}

#[test]
fn test_create_collections() {
    creates_collections();
}

#[test]
fn test_should_fail_to_insert_duplicate_primary_key() {
    fails_to_insert_duplicate_primary_key();
}

#[test]
fn test_should_use_non_unique_index() {
    uses_non_unique_index();
}

#[test]
fn test_should_query_collection() {
    queries_collection();
}

#[test]
fn misc_create_collections() {
    creates_collections();
}

#[test]
fn misc_should_fail_to_insert_duplicate_primary_key() {
    fails_to_insert_duplicate_primary_key();
}

#[test]
fn misc_should_use_non_unique_index() {
    uses_non_unique_index();
}

#[test]
fn misc_should_query_collection() {
    queries_collection();
}

#[test]
fn insert_should_insert_document() {
    let mut db = AnonDB::setup(
        RedbKV::in_memory(None).unwrap(),
        vec![collection(
            "test",
            vec![field::<u128>("id")],
            vec![index(vec![field::<u128>("id"), field::<String>("other")], true)],
        )],
    )
    .unwrap();
    let doc = TestDocument::random();

    assert_eq!(db.count("test").unwrap(), 0);
    db.insert("test", &doc.stored()).unwrap();
    assert_eq!(db.count("test").unwrap(), 1);

    let found_doc = db
        .find_one("test", &Query::default())
        .unwrap()
        .expect("expected to retrieve a document using empty query");
    assert_eq!(
        found_doc.body,
        doc.stored().body,
        "retrieved document mismatches inserted document"
    );
    assert_eq!(found_doc.field("other"), Some(&doc.other.serialize_lex()));
}

/// A document with five ids, a text and two byte strings.
#[derive(Debug, Clone, PartialEq)]
struct WideDocument {
    id0: u128,
    id1: u128,
    id2: u128,
    id3: u128,
    id4: u128,
    str: String,
    bytes: Vec<u8>,
    bytes_fixed: [u8; 32],
}

impl WideDocument {
    fn random() -> Self {
        Self {
            id0: rand::random(),
            id1: rand::random(),
            id2: rand::random(),
            id3: rand::random(),
            id4: rand::random(),
            str: rand_utf8(rand::random::<u16>().into()),
            bytes: vec![0u8; 100],
            bytes_fixed: rand::random(),
        }
    }

    fn stored(&self) -> Document {
        let mut body = self.str.clone().into_bytes();
        body.extend_from_slice(&self.bytes);
        body.extend_from_slice(&self.bytes_fixed);
        Document::new(body)
            .with_field("id0", self.id0.serialize_lex())
            .with_field("id1", self.id1.serialize_lex())
            .with_field("id2", self.id2.serialize_lex())
            .with_field("id3", self.id3.serialize_lex())
            .with_field("id4", self.id4.serialize_lex())
            .with_field("str", self.str.serialize_lex())
            .with_field("bytes_fixed", self.bytes_fixed.serialize_lex())
    }
}

fn wide(primary_key: Vec<&str>, indices: Vec<Vec<&str>>) -> AnonDB<RedbKV> {
    let fields = |names: Vec<&str>| names.into_iter().map(field::<u128>).collect::<Vec<_>>();
    AnonDB::setup(
        RedbKV::in_memory(None).unwrap(),
        vec![collection(
            "test",
            fields(primary_key),
            indices.into_iter().map(|names| index(fields(names), true)).collect(),
        )],
    )
    .unwrap()
}

#[test]
fn range_should_insert_document() {
    let mut db = wide(vec!["id0"], vec![vec!["id1", "id2", "id3", "id4"]]);
    for _ in 0..100 {
        db.insert("test", &WideDocument::random().stored()).unwrap();
    }
    let query = Query::default().with("id3", Param::range(GeneralRange::from(99u128..u128::MAX)));
    let found = db.find_many("test", &query).unwrap();
    println!("found {}", found.len());
    assert!(found.len() <= 100);
    assert!(found.iter().all(|doc| doc.is_ok()));
}

#[test]
fn compound_primary_key() {
    let mut db = wide(vec!["id0", "id1", "id2"], vec![]);
    let mut doc0 = WideDocument::random();
    db.insert("test", &doc0.stored()).unwrap();
    doc0.id1 = rand::random();
    db.insert("test", &doc0.stored()).unwrap();
    db.insert("test", &doc0.stored())
        .expect_err("Should fail to insert duplicate compound primary key");
    let doc = db
        .find_one("test", &Query::default().with("id1", Param::eq(doc0.id1)))
        .unwrap()
        .expect("unable to find inserted doc");
    assert_eq!(doc.body, doc0.stored().body);
    assert_eq!(doc.fields.len(), doc0.stored().fields.len());
    assert_eq!(doc.field("id1"), Some(&doc0.id1.serialize_lex()));
}

#[test]
fn fail_insert_unique_index() {
    let mut db = wide(vec!["id0"], vec![vec!["id1"]]);
    let doc0 = WideDocument::random();
    let mut doc1 = WideDocument::random();
    doc1.id1 = doc0.id1;
    db.insert("test", &doc0.stored()).unwrap();
    let error = db
        .insert("test", &doc1.stored())
        .expect_err("should fail to insert duplicate on index");
    assert!(matches!(error, DbError::UniqueIndexViolation));
    assert_eq!(db.count("test").unwrap(), 1);
}

#[test]
fn fail_insert_unique_compound_index_2() {
    let mut db = wide(vec!["id0"], vec![vec!["id1", "id2"]]);
    let doc0 = WideDocument::random();
    let mut doc1 = WideDocument::random();
    doc1.id1 = doc0.id1;
    doc1.id2 = doc0.id2;
    db.insert("test", &doc0.stored()).unwrap();
    db.insert("test", &doc1.stored())
        .expect_err("should fail to insert duplicate on index");
    doc1.id2 = rand::random();
    db.insert("test", &doc1.stored()).unwrap();
}

#[test]
fn fail_insert_unique_compound_index_3() {
    let mut db = wide(vec!["id0"], vec![vec!["id1", "id2", "id3"]]);
    let doc0 = WideDocument::random();
    let mut doc1 = WideDocument::random();
    doc1.id1 = doc0.id1;
    doc1.id2 = doc0.id2;
    doc1.id3 = doc0.id3;
    db.insert("test", &doc0.stored()).unwrap();
    db.insert("test", &doc1.stored())
        .expect_err("should fail to insert duplicate on index");
    doc1.id2 = rand::random();
    db.insert("test", &doc1.stored()).unwrap();
}

#[test]
fn unknown_collections_are_refused() {
    let mut db = db();
    let doc = Document::new(vec![]).with_field("id", 0u128.serialize_lex());
    assert_eq!(db.position("other_collection"), Some(1));
    assert_eq!(db.position("nowhere"), None);
    assert!(matches!(db.count("nowhere"), Err(DbError::InvalidSchema)));
    assert!(matches!(db.insert("nowhere", &doc), Err(DbError::InvalidSchema)));
    assert!(matches!(db.find_one("nowhere", &Query::default()), Err(DbError::InvalidSchema)));
    assert!(matches!(db.find_many("nowhere", &Query::default()), Err(DbError::InvalidSchema)));
    assert!(matches!(db.rebuild_indices("nowhere"), Err(DbError::InvalidSchema)));
    db.insert("test_collection", &Document::new(vec![])
        .with_field("id", 1u128.serialize_lex())
        .with_field("other", "x".to_string().serialize_lex())).unwrap();
    db.rebuild_indices("test_collection").unwrap();
    assert_eq!(db.find_many("test_collection", &Query::default()).unwrap().len(), 1);
}
