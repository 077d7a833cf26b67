use anondb::document::{Document, Query, Queryable};
use anondb::index::{Index, IndexField, IndexOptions, LexStats};
use anondb::lexicographic::SerializeLexicographic;
use anondb::query::{GeneralRange, Param, ParamTyped};
use std::ops::Bound;

fn field(name: &str, width: Option<u32>) -> IndexField {
    IndexField {
        name: name.to_string(),
        stats: LexStats { fixed_width: width },
    }
}

fn index(fields: Vec<IndexField>, unique: bool, primary: bool) -> Index {
    Index {
        collection_name: "c".to_string(),
        field_names: fields,
        options: IndexOptions { unique, primary },
    }
}

#[test]
fn ranges_honor_their_bounds() {
    let r = GeneralRange::from(3u32..7);
    assert!(r.contains(&3) && r.contains(&6) && !r.contains(&7) && !r.contains(&2));
    let r = GeneralRange::from(3u32..);
    assert!(r.contains(&3) && r.contains(&u32::MAX) && !r.contains(&2));
    let r = GeneralRange::from(..7u32);
    assert!(r.contains(&0) && !r.contains(&7));
    let r = GeneralRange::from(..=7u32);
    assert!(r.contains(&7) && !r.contains(&8));
    let r = GeneralRange::from(3u32..=7);
    assert!(r.contains(&3) && r.contains(&7) && !r.contains(&8));
    let r = GeneralRange(Bound::Excluded(3u32), Bound::Unbounded);
    assert!(!r.contains(&3) && r.contains(&4));
    assert!(matches!(r.start_bound(), Bound::Excluded(3)));
    assert!(matches!(r.end_bound(), Bound::Unbounded));
    let bytes = GeneralRange(Bound::Included(vec![1u8, 2]), Bound::Excluded(vec![1u8, 3]));
    assert!(bytes.contains_bytes(&[1, 2]) && bytes.contains_bytes(&[1, 2, 9]));
    assert!(!bytes.contains_bytes(&[1, 3]) && !bytes.contains_bytes(&[1, 1, 9]));
    let slices = bytes.as_slice();
    assert!(matches!(slices.0, Bound::Included(s) if s == [1, 2]));
    assert!(matches!(slices.1, Bound::Excluded(s) if s == [1, 3]));
}

#[test]
fn typed_parameters_test_values() {
    assert!(ParamTyped::Eq(5u32).test(&5));
    assert!(!ParamTyped::Eq(5u32).test(&6));
    assert!(ParamTyped::Neq(5u32).test(&6));
    assert!(!ParamTyped::Neq(5u32).test(&5));
    assert!(ParamTyped::Range(GeneralRange::from(1u32..3)).test(&2));
    assert!(!ParamTyped::Range(GeneralRange::from(1u32..3)).test(&3));
    assert!(ParamTyped::In(vec![1u32, 5]).test(&5));
    assert!(!ParamTyped::In(vec![1u32, 5]).test(&2));
    assert!(ParamTyped::Nin(vec![1u32, 5]).test(&2));
    assert!(!ParamTyped::Nin(vec![1u32, 5]).test(&1));
    let typed = ParamTyped::typed(&0u32, ParamTyped::Eq(9u32));
    assert!(typed.test(&9));
}

#[test]
fn erased_parameters_test_encodings_as_typed_ones_test_values() {
    let typed = [
        ParamTyped::Eq(300u32),
        ParamTyped::Neq(300u32),
        ParamTyped::Range(GeneralRange::from(255u32..=300)),
        ParamTyped::Range(GeneralRange(Bound::Excluded(255u32), Bound::Excluded(300u32))),
        ParamTyped::Range(GeneralRange::from(..256u32)),
        ParamTyped::In(vec![1u32, 256, 300]),
        ParamTyped::Nin(vec![1u32, 256, 300]),
    ];
    for p in &typed {
        let erased = p.erase();
        for x in [0u32, 1, 255, 256, 299, 300, 301, u32::MAX] {
            assert_eq!(erased.test(&x.serialize_lex()), p.test(&x));
        }
    }
}

#[test]
fn parameters_are_built_from_values() {
    assert!(matches!(Param::eq(1u16), Param::Eq(b) if b == vec![0, 1]));
    assert!(matches!(Param::neq(1u16), Param::Neq(b) if b == vec![0, 1]));
    assert!(matches!(Param::inn(vec![1u8, 2]), Param::In(b) if b == vec![vec![1], vec![2]]));
    assert!(matches!(Param::nin(vec![1u8, 2]), Param::Nin(b) if b == vec![vec![1], vec![2]]));
    let range = Param::range(GeneralRange(Bound::Included(1u8), Bound::Excluded(9u8)));
    assert!(matches!(range, Param::Range(GeneralRange(Bound::Included(s), Bound::Excluded(e)))
        if s == vec![1] && e == vec![9]));
    assert!(Param::eq("a").test(&[b'a', 0]));
    assert!(!Param::eq("a").test(&[b'a']));
}

#[test]
fn queries_constrain_fields() {
    let query = Query::default()
        .with("a", Param::eq(1u8))
        .with("b", Param::eq(2u8))
        .with("a", Param::eq(3u8));
    assert_eq!(query.constraints.len(), 2);
    assert!(matches!(query.get("a"), Some(Param::Eq(b)) if b == &vec![3]));
    assert!(matches!(query.get("b"), Some(Param::Eq(b)) if b == &vec![2]));
    assert!(query.get("c").is_none());

    let doc = Document::new(vec![]).with_field("a", vec![3]).with_field("b", vec![2]);
    assert!(doc.matches(&query));
    assert!(doc.matches(&Query::default()));
    assert!(doc.matches(&Document::query()));
    let other = Document::new(vec![]).with_field("a", vec![3]).with_field("b", vec![9]);
    assert!(!other.matches(&query));
    let lacking = Document::new(vec![]).with_field("a", vec![3]);
    assert!(!lacking.matches(&query));
    assert_eq!(doc.field("b"), Some(&vec![2]));
    assert_eq!(doc.field("z"), None);
}

#[test]
fn documents_read_back_from_their_stored_form() {
    let doc = Document::new(vec![1, 2, 3])
        .with_field("id", 7u32.serialize_lex())
        .with_field("name", "é".to_string().serialize_lex())
        .with_field("", vec![]);
    let bytes = doc.encode();
    let back = Document::decode(&bytes).unwrap();
    assert_eq!(back.body, vec![1, 2, 3]);
    assert_eq!(back.fields.len(), 3);
    assert_eq!(back.fields[1].name, "name");
    assert_eq!(back.fields[1].value, "é".to_string().serialize_lex());
    assert_eq!(back.encode(), bytes);
    assert!(Document::decode(&bytes[..bytes.len() - 1]).is_none());
    assert!(Document::decode(&[]).is_none());
    let mut trailing = bytes.clone();
    trailing.push(0);
    assert!(Document::decode(&trailing).is_none());
    // a name that is not UTF-8
    let mut bad = Document::new(vec![]).with_field("a", vec![]).encode();
    let position = bad.iter().position(|b| *b == b'a').unwrap();
    bad[position] = 0xff;
    assert!(Document::decode(&bad).is_none());
    assert_eq!(Document::decode(&Document::new(vec![]).encode()).unwrap().fields.len(), 0);
}

#[test]
fn tables_are_named_after_the_collection_and_the_fields() {
    assert_eq!(index(vec![field("id", Some(4))], true, true).table_name(), "c");
    assert_eq!(index(vec![field("a", None)], false, false).table_name(), "c_a");
    assert_eq!(
        index(vec![field("a", None), field("b", Some(1))], true, false).table_name(),
        "c_a_b_unique"
    );
}

#[test]
fn keys_join_the_fields_of_the_index() {
    let i = index(vec![field("a", Some(1)), field("b", None)], false, false);
    let doc = Document::new(vec![])
        .with_field("b", vec![b'x', 0])
        .with_field("a", vec![7]);
    assert_eq!(i.key_of(&doc), Some(vec![7, 0, b'x', 0]));
    assert_eq!(i.key_of(&Document::new(vec![]).with_field("a", vec![7])), None);
}

fn planned(i: &Index, q: &Query) -> (Bound<Vec<u8>>, Bound<Vec<u8>>) {
    let r = i.plan(q);
    (r.0, r.1)
}

#[test]
fn queries_are_planned_as_ranges() {
    let i = index(vec![field("a", Some(2)), field("b", Some(1)), field("c", None)], false, false);
    // nothing constrained: the fixed-width fields are bracketed
    assert_eq!(
        planned(&i, &Query::default()),
        (
            Bound::Included(vec![0, 0, 0, 0]),
            Bound::Included(vec![255, 255, 0, 255, 1])
        )
    );
    // equality on the first field
    let q = Query::default().with("a", Param::eq(5u16));
    assert_eq!(
        planned(&i, &q),
        (
            Bound::Included(vec![0, 5, 0, 0]),
            Bound::Included(vec![0, 5, 0, 255, 1])
        )
    );
    // equality and then a range; an excluded end is included
    let q = Query::default()
        .with("a", Param::eq(5u16))
        .with("b", Param::range(GeneralRange::from(2u8..9)))
        .with("c", Param::eq("never".to_string()));
    assert_eq!(
        planned(&i, &q),
        (
            Bound::Included(vec![0, 5, 0, 2]),
            Bound::Included(vec![0, 5, 0, 9, 1])
        )
    );
    // an open side keeps the bound that was there
    let q = Query::default()
        .with("a", Param::eq(5u16))
        .with("b", Param::range(GeneralRange::from(2u8..)));
    assert_eq!(
        planned(&i, &q),
        (Bound::Included(vec![0, 5, 0, 2]), Bound::Included(vec![0, 5, 1]))
    );
    let q = Query::default().with("a", Param::range(GeneralRange::from(..=9u16)));
    assert_eq!(planned(&i, &q), (Bound::Unbounded, Bound::Included(vec![0, 9, 1])));
    // an inequality, an exclusion and a choice stop the walk
    for p in [Param::neq(1u16), Param::nin(vec![1u16]), Param::inn(vec![1u16])] {
        let q = Query::default().with("a", p).with("b", Param::eq(1u8));
        assert_eq!(planned(&i, &q), (Bound::Unbounded, Bound::Unbounded));
    }
    // an unconstrained field of variable width stops the walk
    let v = index(vec![field("c", None), field("a", Some(2))], false, false);
    let q = Query::default().with("a", Param::eq(5u16));
    assert_eq!(planned(&v, &q), (Bound::Unbounded, Bound::Unbounded));
}

#[test]
fn indexes_are_scored() {
    let i = index(vec![field("a", Some(2)), field("b", Some(1))], false, false);
    assert_eq!(i.query_compat(&Query::default()), 0);
    let eq = || Param::eq(1u16);
    assert_eq!(i.query_compat(&Query::default().with("a", eq())), 100_000);
    assert_eq!(
        i.query_compat(&Query::default().with("a", eq()).with("b", Param::eq(1u8))),
        1_100_000
    );
    assert_eq!(
        i.query_compat(&Query::default().with("a", Param::inn(vec![1u16]))),
        80_000
    );
    // a range before the last field costs the full prefix
    assert_eq!(
        i.query_compat(&Query::default().with("a", Param::range(GeneralRange::from(1u16..)))),
        5
    );
    assert_eq!(i.query_compat(&Query::default().with("a", Param::neq(1u16))), 2);
    assert_eq!(i.query_compat(&Query::default().with("a", Param::nin(vec![1u16]))), 2);
    // on the last field it does not
    assert_eq!(
        i.query_compat(&Query::default().with("b", Param::range(GeneralRange::from(1u8..)))),
        50_000
    );
    assert_eq!(
        i.query_compat(
            &Query::default()
                .with("a", eq())
                .with("b", Param::range(GeneralRange::from(1u8..)))
        ),
        550_000
    );
    // an unconstrained field of variable width ends the walk and costs the prefix
    let v = index(vec![field("s", None), field("a", Some(2))], false, false);
    assert_eq!(v.query_compat(&Query::default().with("a", eq())), 0);
    let w = index(vec![field("a", Some(2)), field("s", None)], false, false);
    assert_eq!(w.query_compat(&Query::default().with("a", eq())), 10);
    // the score saturates
    let many: Vec<IndexField> = (0..40).map(|k| field(&format!("f{k}"), Some(1))).collect();
    let mut q = Query::default();
    for k in 0..40 {
        q = q.with(&format!("f{k}"), Param::eq(1u8));
    }
    assert_eq!(index(many, false, false).query_compat(&q), usize::MAX);
}
