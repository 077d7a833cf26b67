use anondb::database::AnonDB;
use anondb::declaration::{declare, gather, parse, parse_tokens, tokenize, FieldType, Token};
use anondb::error::DbError;
use anondb::index::LexStats;
use anondb::kv::KV;
use anondb::kv_redb::RedbKV;
use anondb::sort::SortDirection;

fn names(fields: &[anondb::declaration::FieldDeclaration]) -> Vec<(String, bool)> {
    fields
        .iter()
        .map(|f| (f.name.clone(), f.direction == SortDirection::Desc))
        .collect()
}

#[test]
fn declarations_are_parsed() {
    let d = parse("primary_key = id0, id1, id2").unwrap();
    assert_eq!(d.keyword, "primary_key");
    assert_eq!(
        names(&d.fields),
        vec![("id0".to_string(), false), ("id1".to_string(), false), ("id2".to_string(), false)]
    );
    assert!(d.options.is_empty());

    let d = parse("index=id1,-id2;unique=true,primary=false").unwrap();
    assert_eq!(d.keyword, "index");
    assert_eq!(names(&d.fields), vec![("id1".to_string(), false), ("id2".to_string(), true)]);
    assert_eq!(
        d.options,
        vec![("unique".to_string(), true), ("primary".to_string(), false)]
    );

    let d = parse("  index\t=\n - _a1 ;  unique = false ").unwrap();
    assert_eq!(names(&d.fields), vec![("_a1".to_string(), true)]);
    assert_eq!(d.options, vec![("unique".to_string(), false)]);
}

#[test]
fn what_is_no_declaration_is_refused() {
    for text in [
        "",
        "index",
        "index =",
        "= a",
        "index = a,",
        "index = a b",
        "index = a, , b",
        "index = -",
        "index = --a",
        "index = 1a",
        "index = a; ",
        "index = a; unique",
        "index = a; unique =",
        "index = a; unique = maybe",
        "index = a; unique = true,",
        "index = a; unique = true; unique = true",
        "index = a $",
        "index = é",
        "index == a",
        "-index = a",
    ] {
        assert!(parse(text).is_none(), "{text}");
    }
}

#[test]
fn texts_are_made_of_tokens() {
    let tokens = tokenize(b"a1=-b_,;").unwrap();
    assert_eq!(tokens.len(), 6);
    assert!(matches!(&tokens[0], Token::Ident(name) if name == b"a1"));
    assert!(matches!(tokens[1], Token::Equals));
    assert!(matches!(tokens[2], Token::Minus));
    assert!(matches!(&tokens[3], Token::Ident(name) if name == b"b_"));
    assert!(matches!(tokens[4], Token::Comma));
    assert!(matches!(tokens[5], Token::Semicolon));
    assert_eq!(tokenize(b" \t\r\n").unwrap().len(), 0);
    assert!(tokenize(b"a.b").is_none());
    assert!(tokenize(b"9").is_none());
    assert!(parse_tokens(&tokens).is_none());
    // a name that is not in UTF-8 cannot come out of a text, but can stand among tokens
    let odd = vec![Token::Ident(vec![0xff]), Token::Equals, Token::Ident(b"a".to_vec())];
    assert!(parse_tokens(&odd).is_none());
    let fine = vec![Token::Ident(b"index".to_vec()), Token::Equals, Token::Ident(b"a".to_vec())];
    assert_eq!(parse_tokens(&fine).unwrap().fields.len(), 1);
}

fn texts(list: &[&str]) -> Vec<String> {
    list.iter().map(|t| t.to_string()).collect()
}

#[test]
fn declarations_are_gathered() {
    let g = gather(&texts(&[
        "index = a; unique = true",
        "primary_key = id",
        "index = a, b",
        "index = c; unique = true, unique = false",
    ]))
    .unwrap();
    assert_eq!(names(&g.primary_key.unwrap()), vec![("id".to_string(), false)]);
    assert_eq!(g.indices.len(), 3);
    assert!(g.indices[0].1);
    assert!(!g.indices[1].1);
    assert!(!g.indices[2].1);
    assert_eq!(names(&g.indices[1].0).len(), 2);

    for refused in [
        &["index = a"][..],
        &[],
        &["primary_key = id", "primary_key = id"],
        &["primary_key = id; unique = true"],
        &["primary_key = id", "index = a; primary = true"],
        &["primary_key = id", "index = a; primary = false"],
        &["primary_key = id", "index = a; other = true"],
        &["primary_key = id", "key = a"],
        &["primary_key = id", "index = "],
    ] {
        assert!(matches!(gather(&texts(refused)), Err(DbError::InvalidSchema)), "{refused:?}");
    }
}

fn types() -> Vec<FieldType> {
    vec![
        FieldType {
            name: "id".to_string(),
            stats: LexStats { fixed_width: Some(16) },
            kind: "u128".to_string(),
        },
        FieldType {
            name: "name".to_string(),
            stats: LexStats { fixed_width: None },
            kind: "String".to_string(),
        },
    ]
}

#[test]
fn declared_collections_are_set_up() {
    let def = declare(
        "people",
        &texts(&["primary_key = id", "index = name, id; unique = true", "index = name"]),
        &types(),
    )
    .unwrap();
    assert_eq!(def.name, "people");
    assert_eq!(def.primary_key.len(), 1);
    assert_eq!(def.primary_key[0].stats.fixed_width, Some(16));
    assert_eq!(def.indices.len(), 2);
    assert_eq!(def.indices[0].fields[0].name, "name");
    assert_eq!(def.indices[0].fields[0].stats.fixed_width, None);
    assert_eq!(def.indices[0].fields[1].stats.fixed_width, Some(16));
    assert!(def.indices[0].options.unique && !def.indices[0].options.primary);
    assert!(!def.indices[1].options.unique);
    assert_eq!(
        def.fields,
        vec![("id".to_string(), "u128".to_string()), ("name".to_string(), "String".to_string())]
    );
    let db = AnonDB::setup(RedbKV::in_memory(None).unwrap(), vec![def]).unwrap();
    assert_eq!(db.collections[0].table_names(), vec!["people", "people_name_id_unique", "people_name"]);

    assert!(matches!(
        declare("people", &texts(&["primary_key = nowhere"]), &types()),
        Err(DbError::InvalidSchema)
    ));
    assert!(matches!(
        declare("people", &texts(&["primary_key = id", "index = nowhere"]), &types()),
        Err(DbError::InvalidSchema)
    ));
    assert!(matches!(
        declare("people", &texts(&["index = id"]), &types()),
        Err(DbError::InvalidSchema)
    ));
}
