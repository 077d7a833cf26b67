use anondb::collection::Collection;
use anondb::database::{build, AnonDB, CollectionDef, IndexDef, METADATA_VERSION};
use anondb::document::{Document, Query};
use anondb::error::DbError;
use anondb::index::{Index, IndexField, IndexOptions, LexStats};
use anondb::kv::KV;
use anondb::kv_redb::RedbKV;
use anondb::lexicographic::SerializeLexicographic;
use anondb::metadata::{CollectionDescription, IndexDescription, MetadataDocument};
use anondb::query::Param;

fn field(name: &str, width: Option<u32>) -> IndexField {
    IndexField {
        name: name.to_string(),
        stats: LexStats { fixed_width: width },
    }
}

fn def(name: &str, primary_key: Vec<IndexField>, indices: Vec<IndexDef>) -> CollectionDef {
    CollectionDef {
        name: name.to_string(),
        primary_key,
        indices,
        fields: vec![("id".to_string(), "u32".to_string())],
    }
}

fn secondary(fields: Vec<IndexField>, unique: bool) -> IndexDef {
    IndexDef {
        fields,
        options: IndexOptions { unique, primary: false },
    }
}

fn open(defs: Vec<CollectionDef>) -> Result<AnonDB<RedbKV>, DbError> {
    AnonDB::setup(RedbKV::in_memory(None).unwrap(), defs)
}








#[test]
fn unusable_schemas_are_refused() {
    // a primary key without a field
    assert!(matches!(open(vec![def("a", vec![], vec![])]), Err(DbError::InvalidSchema)));
    // an index without a field
    assert!(matches!(
        open(vec![def("a", vec![field("id", None)], vec![secondary(vec![], false)])]),
        Err(DbError::InvalidSchema)
    ));
    // a second primary index
    let primary = IndexDef {
        fields: vec![field("x", None)],
        options: IndexOptions { unique: true, primary: true },
    };
    assert!(matches!(
        open(vec![def("a", vec![field("id", None)], vec![primary])]),
        Err(DbError::InvalidSchema)
    ));
    // two indexes with one table
    assert!(matches!(
        open(vec![def(
            "a",
            vec![field("id", None)],
            vec![secondary(vec![field("x", None)], false), secondary(vec![field("x", None)], false)]
        )]),
        Err(DbError::InvalidSchema)
    ));
    // two collections with one name
    assert!(matches!(
        open(vec![def("a", vec![field("id", None)], vec![]), def("a", vec![field("id", None)], vec![])]),
        Err(DbError::InvalidSchema)
    ));
    // the table of an index of one collection is the table of another collection
    assert!(matches!(
        open(vec![
            def("a", vec![field("id", None)], vec![secondary(vec![field("b", None)], false)]),
            def("a_b", vec![field("id", None)], vec![])
        ]),
        Err(DbError::InvalidSchema)
    ));
    // a collection without a name
    assert!(matches!(open(vec![def("", vec![field("id", None)], vec![])]), Err(DbError::InvalidSchema)));
    assert!(matches!(build(def("", vec![field("id", None)], vec![])), Err(DbError::InvalidSchema)));
    assert!(matches!(Collection::new().set_name(String::new()), Err(DbError::InvalidSchema)));
    assert!(open(vec![]).is_ok());
    assert!(build(def("a", vec![field("id", None)], vec![secondary(vec![field("x", None)], true)])).is_ok());
}

#[test]
fn a_database_holds_the_collections_that_were_declared() {
    let db = open(vec![
        def("a", vec![field("id", Some(4))], vec![secondary(vec![field("x", None), field("y", None)], true)]),
        def("b", vec![field("id", None), field("z", None)], vec![]),
    ])
    .unwrap();
    assert_eq!(db.collections.len(), 2);
    let a = &db.collections[0];
    assert_eq!(a.name(), "a");
    let primary = a.primary_key_index();
    assert_eq!(primary.collection_name, "a");
    assert_eq!(primary.field_names.len(), 1);
    assert_eq!(primary.field_names[0].name, "id");
    assert!(primary.options.primary && primary.options.unique);
    assert_eq!(a.indices().len(), 1);
    assert_eq!(a.indices()[0].collection_name, "a");
    assert_eq!(a.indices()[0].field_names[1].name, "y");
    assert!(a.indices()[0].options.unique && !a.indices()[0].options.primary);
    assert_eq!(a.indices()[0].table_name(), "a_x_y_unique");
    let b = &db.collections[1];
    assert_eq!(b.name(), "b");
    assert_eq!(b.primary_key_index().field_names.len(), 2);
    assert_eq!(b.indices().len(), 0);
}

#[test]
fn collections_are_set_up_once() {
    let mut c = Collection::new();
    assert!(!c.has_primary_key());
    assert!(matches!(c.set_primary_key(vec![field("id", None)]), Err(DbError::InvalidSchema)));
    assert!(matches!(c.construct_indices(), Err(DbError::InvalidSchema)));
    c.set_name("c".to_string()).unwrap();
    assert!(matches!(c.set_name("d".to_string()), Err(DbError::InvalidSchema)));
    assert_eq!(c.name(), "c");
    c.set_primary_key(vec![field("id", None)]).unwrap();
    assert!(c.has_primary_key());
    assert!(matches!(c.set_primary_key(vec![field("id", None)]), Err(DbError::InvalidSchema)));
    assert_eq!(c.primary_key_index().table_name(), "c");
    let other = Index {
        collection_name: "elsewhere".to_string(),
        field_names: vec![field("x", None)],
        options: IndexOptions::default(),
    };
    c.add_index(other).unwrap();
    assert_eq!(c.indices().len(), 1);
    assert!(matches!(c.construct_indices(), Err(DbError::InvalidSchema)));
    assert_eq!(c.table_names(), vec!["c".to_string(), "elsewhere_x".to_string()]);
    let doc = Document::new(vec![]);
    let mut kv = RedbKV::in_memory(None).unwrap();
    assert!(matches!(c.insert(&mut kv, &doc), Err(DbError::MissingField)));
    assert!(matches!(Collection::default().insert(&mut kv, &doc), Err(DbError::InvalidSchema)));
}

fn description(version: u64, table: &str, kind: &str) -> MetadataDocument {
    MetadataDocument {
        version,
        schema_version: 0,
        indices_by_collection: vec![(
            "c".to_string(),
            IndexDescription {
                collection_name: "c".to_string(),
                field_names: vec!["a".to_string()],
                options: IndexOptions { unique: false, primary: false },
                table_name: table.to_string(),
            },
        )],
        collections: vec![(
            "c".to_string(),
            CollectionDescription {
                fields: vec![("a".to_string(), kind.to_string())],
            },
        )],
    }
}

#[test]
fn stored_descriptions_are_compared() {
    let live = description(1, "c_a", "u32");
    assert!(live.compare(&description(1, "c_a", "u32")).is_ok());
    assert!(matches!(live.compare(&description(2, "c_a", "u32")), Err(DbError::SchemaDrift)));
    assert!(matches!(live.compare(&description(1, "c_b", "u32")), Err(DbError::SchemaDrift)));
    assert!(matches!(live.compare(&description(1, "c_a", "u64")), Err(DbError::SchemaDrift)));
    let mut more = description(1, "c_a", "u32");
    more.collections.push(("d".to_string(), CollectionDescription { fields: vec![] }));
    assert!(matches!(live.compare(&more), Err(DbError::SchemaDrift)));
    assert!(matches!(more.compare(&live), Err(DbError::SchemaDrift)));
}

#[test]
fn the_live_schema_is_described() {
    let db = open(vec![
        def("a", vec![field("id", None)], vec![secondary(vec![field("x", None), field("y", None)], true)]),
        def("b", vec![field("id", None)], vec![]),
    ])
    .unwrap();
    let d = db.describe(vec![]);
    assert_eq!(d.version, METADATA_VERSION);
    assert_eq!(d.indices_by_collection.len(), 1);
    assert_eq!(d.indices_by_collection[0].0, "a");
    assert_eq!(d.indices_by_collection[0].1.table_name, "a_x_y_unique");
    assert_eq!(d.indices_by_collection[0].1.field_names, vec!["x".to_string(), "y".to_string()]);
    assert!(d.compare(&db.describe(vec![])).is_ok());
}

#[test]
fn errors_have_names() {
    assert_eq!(DbError::InvalidSchema.to_string(), "InvalidSchema");
    assert_eq!(DbError::DuplicatePrimaryKey.to_string(), "DuplicatePrimaryKey");
    assert_eq!(DbError::UniqueIndexViolation.to_string(), "UniqueIndexViolation");
    assert_eq!(DbError::DanglingIndexEntry.to_string(), "DanglingIndexEntry");
    assert_eq!(DbError::CorruptRecord.to_string(), "CorruptRecord");
    assert_eq!(DbError::MissingField.to_string(), "MissingField");
    assert_eq!(DbError::JournalDivergence.to_string(), "JournalDivergence");
    assert_eq!(DbError::JournalInvariant.to_string(), "JournalInvariant");
    assert_eq!(DbError::SchemaDrift.to_string(), "SchemaDrift");
    assert_eq!(DbError::TransactionClosed.to_string(), "TransactionClosed");
}

#[test]
fn descriptions_are_maps_whose_order_says_nothing() {
    let fields = |names: &[(&str, &str)]| CollectionDescription {
        fields: names.iter().map(|(n, t)| (n.to_string(), t.to_string())).collect(),
    };
    let mut live = description(1, "c_a", "u32");
    live.collections = vec![
        ("c".to_string(), fields(&[("a", "u32"), ("b", "String")])),
        ("d".to_string(), fields(&[])),
    ];
    let mut stored = description(1, "c_a", "u32");
    stored.collections = vec![
        ("d".to_string(), fields(&[])),
        ("c".to_string(), fields(&[("b", "String"), ("a", "u32")])),
    ];
    assert!(live.well_formed());
    assert!(stored.well_formed());
    assert!(live.compare(&stored).is_ok());
    assert!(stored.compare(&live).is_ok());

    // a field that is named twice, a collection that is described twice,
    // two indexes with one table
    assert!(!fields(&[("a", "u32"), ("a", "u64")]).well_formed());
    assert!(fields(&[("a", "u32"), ("b", "u32")]).well_formed());
    let mut twice = description(1, "c_a", "u32");
    twice.collections.push(("c".to_string(), fields(&[])));
    assert!(!twice.well_formed());
    let mut shared = description(1, "c_a", "u32");
    let again = description(1, "c_a", "u32").indices_by_collection.pop().unwrap();
    shared.indices_by_collection.push(again);
    assert!(!shared.well_formed());
    let mut unsound = description(1, "c_a", "u32");
    unsound.collections[0].1 = fields(&[("a", "u32"), ("a", "u32")]);
    assert!(!unsound.well_formed());
}

#[test]
fn a_query_holds_one_constraint_for_each_field() {
    let q = Query::default()
        .with("a", Param::Eq(vec![1]))
        .with("b", Param::Eq(vec![2]))
        .with("a", Param::Eq(vec![3]));
    assert_eq!(q.constraints.len(), 2);
    assert!(matches!(q.get("a"), Some(Param::Eq(v)) if v == &vec![3]));
    assert!(matches!(q.get("b"), Some(Param::Eq(v)) if v == &vec![2]));
    assert!(q.get("c").is_none());
}
