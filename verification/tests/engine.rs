//! Unit tests of the engine's pieces: filtering, dotted paths, operators,
//! range queries and glob matching.

use indexer::config::{IndexFloat, IndexInt, IndexJson, IndexOrd, Indexer, JsonPathOrder, Op};
use indexer::index::Index;
use serde_json::Value;

fn int_index() -> Index {
    let mut idx = Index::new(Indexer::Integer(IndexInt { ordering: IndexOrd::ASC }));
    idx.insert("a", Value::from(5i64));
    idx.insert("b", Value::from(2i64));
    idx.insert("c", Value::from(9i64));
    idx.insert("d", Value::from(5i64));
    idx
}

#[test]
fn filter_rejects_mismatched_scalars() {
    let mut idx = Index::new(Indexer::Integer(IndexInt { ordering: IndexOrd::ASC }));
    idx.insert("x", Value::String("not a number".to_string()));
    idx.insert("y", Value::from(1.5));
    idx.insert("z", Value::Null);
    assert_eq!(idx.size(), 0);
    idx.insert("w", Value::from(7i64));
    assert_eq!(idx.size(), 1);
}

#[test]
fn filter_requires_every_declared_path() {
    let indexer = Indexer::Json(IndexJson {
        path_orders: vec![
            JsonPathOrder::new("name", IndexOrd::ASC),
            JsonPathOrder::new("age", IndexOrd::ASC),
        ],
    });
    let mut idx = Index::new(indexer);
    let mut m = serde_json::Map::new();
    m.insert("name".to_string(), Value::String("Ama".to_string()));
    idx.insert("p1", Value::Object(m.clone()));
    assert_eq!(idx.size(), 0);
    m.insert("age".to_string(), Value::from(30i64));
    idx.insert("p1", Value::Object(m));
    assert_eq!(idx.size(), 1);
}

#[test]
fn insert_replaces_and_remove_deletes() {
    let mut idx = int_index();
    assert_eq!(idx.size(), 4);
    idx.insert("a", Value::from(11i64));
    assert_eq!(idx.size(), 4);
    let q = idx.find_where("*", Op::EQ, &Value::from(5i64));
    assert_eq!(q.count(), 1);
    assert_eq!(q.get()[0].0, "d");
    idx.remove("d");
    let q = idx.find_where("*", Op::EQ, &Value::from(5i64));
    assert_eq!(q.count(), 0);
    idx.remove("not-there");
    assert_eq!(idx.size(), 3);
}

#[test]
fn integer_range_queries_are_strict() {
    let idx = int_index();
    let lt = idx.find_where("*", Op::LT, &Value::from(5i64));
    assert_eq!(lt.count(), 1);
    assert_eq!(lt.get()[0].0, "b");

    let gt = idx.find_where("*", Op::GT, &Value::from(5i64));
    assert_eq!(gt.count(), 1);
    assert_eq!(gt.get()[0].0, "c");

    let eq = idx.find_where("*", Op::EQ, &Value::from(5i64));
    let mut keys: Vec<&str> = eq.get().iter().map(|(k, _)| k.as_str()).collect();
    keys.sort();
    assert_eq!(keys, vec!["a", "d"]);

    // Together the three strict operators cover every record.
    assert_eq!(lt.count() + eq.count() + gt.count(), idx.size());

    let like = idx.find_where("*", Op::LIKE, &Value::from(5i64));
    assert_eq!(like.count(), 0);
}

#[test]
fn float_range_queries_follow_numeric_order() {
    let mut idx = Index::new(Indexer::Float(IndexFloat { ordering: IndexOrd::ASC }));
    idx.insert("high", Value::from(3.25));
    idx.insert("low", Value::from(-2.5));
    idx.insert("mid", Value::from(0.5));
    assert_eq!(idx.size(), 3);

    let lt = idx.find_where("*", Op::LT, &Value::from(0.5));
    assert_eq!(lt.count(), 1);
    assert_eq!(lt.get()[0].0, "low");

    let gt = idx.find_where("*", Op::GT, &Value::from(0.5));
    assert_eq!(gt.count(), 1);
    assert_eq!(gt.get()[0].0, "high");

    let eq = idx.find_where("*", Op::EQ, &Value::from(0.5));
    assert_eq!(eq.count(), 1);
    assert_eq!(eq.get()[0].0, "mid");

    let items = idx.get_items();
    let keys: Vec<&str> = items.iter().map(|(k, _)| k.as_str()).collect();
    assert_eq!(keys, vec!["low", "mid", "high"]);
}

#[test]
fn dotted_paths_reach_nested_fields() {
    let indexer = Indexer::Json(IndexJson {
        path_orders: vec![JsonPathOrder::new("info.city", IndexOrd::ASC)],
    });
    let mut idx = Index::new(indexer);

    let mut inner = serde_json::Map::new();
    inner.insert("city".to_string(), Value::String("Accra".to_string()));
    let mut outer = serde_json::Map::new();
    outer.insert("info".to_string(), Value::Object(inner));
    idx.insert("r1", Value::Object(outer));
    assert_eq!(idx.size(), 1);

    let q = idx.find_where("info.city", Op::EQ, &Value::String("Accra".to_string()));
    assert_eq!(q.count(), 1);
    assert_eq!(q.get()[0].0, "r1");

    // A document without the nested field is rejected.
    let mut bare = serde_json::Map::new();
    bare.insert("info".to_string(), Value::String("flat".to_string()));
    idx.insert("r2", Value::Object(bare));
    assert_eq!(idx.size(), 1);
}

#[test]
fn mixed_value_types_split_across_trees() {
    let indexer = Indexer::Json(IndexJson {
        path_orders: vec![JsonPathOrder::new("v", IndexOrd::ASC)],
    });
    let mut idx = Index::new(indexer);
    let mut m1 = serde_json::Map::new();
    m1.insert("v".to_string(), Value::from(10i64));
    idx.insert("ints", Value::Object(m1));
    let mut m2 = serde_json::Map::new();
    m2.insert("v".to_string(), Value::from(10.0));
    idx.insert("floats", Value::Object(m2));
    let mut m3 = serde_json::Map::new();
    m3.insert("v".to_string(), Value::String("ten".to_string()));
    idx.insert("strings", Value::Object(m3));
    assert_eq!(idx.size(), 3);

    // An integer query value searches the integer tree alone.
    let q = idx.find_where("v", Op::EQ, &Value::from(10i64));
    assert_eq!(q.count(), 1);
    assert_eq!(q.get()[0].0, "ints");

    let q = idx.find_where("v", Op::EQ, &Value::from(10.0));
    assert_eq!(q.count(), 1);
    assert_eq!(q.get()[0].0, "floats");

    let q = idx.find_where("v", Op::EQ, &Value::String("ten".to_string()));
    assert_eq!(q.count(), 1);
    assert_eq!(q.get()[0].0, "strings");

    // A null query value matches no tree at all.
    let q = idx.find_where("v", Op::EQ, &Value::Null);
    assert_eq!(q.count(), 0);
}

#[test]
fn like_rejects_invalid_patterns_with_empty_result() {
    let mut idx = Index::new(Indexer::String(indexer::config::IndexString {
        ordering: IndexOrd::ASC,
    }));
    idx.insert("k", Value::String("abc".to_string()));
    // An unclosed character class does not compile.
    let q = idx.find_where("*", Op::LIKE, &Value::String("ab[".to_string()));
    assert_eq!(q.count(), 0);
    // Wildcards other than the prefix still match.
    let q = idx.find_where("*", Op::LIKE, &Value::String("a?c".to_string()));
    assert_eq!(q.count(), 1);
    // A bare star scans everything.
    let q = idx.find_where("*", Op::LIKE, &Value::String("*".to_string()));
    assert_eq!(q.count(), 1);
}

#[test]
fn operator_keywords_parse_in_any_case() {
    assert!(matches!(Op::parse("eq"), Ok(Op::EQ)));
    assert!(matches!(Op::parse("EQ"), Ok(Op::EQ)));
    assert!(matches!(Op::parse("Lt"), Ok(Op::LT)));
    assert!(matches!(Op::parse("gT"), Ok(Op::GT)));
    assert!(matches!(Op::parse("LIKE"), Ok(Op::LIKE)));
    let e = Op::parse("between");
    match e {
        Ok(_) => panic!("an unknown keyword must not parse"),
        Err(err) => assert_eq!(err.message(), "invalid operator"),
    }
}

#[test]
fn from_items_filters_and_builds() {
    let items = vec![
        ("a".to_string(), Value::String("x".to_string())),
        ("b".to_string(), Value::from(1i64)),
        ("c".to_string(), Value::String("y".to_string())),
        ("a".to_string(), Value::String("z".to_string())),
    ];
    let idx = Index::from_items(
        Indexer::String(indexer::config::IndexString { ordering: IndexOrd::ASC }),
        items,
    );
    // The integer was filtered out; the later "a" replaced the earlier.
    assert_eq!(idx.size(), 2);
    let q = idx.find_where("*", Op::EQ, &Value::String("z".to_string()));
    assert_eq!(q.count(), 1);
    let q = idx.find_where("*", Op::EQ, &Value::String("x".to_string()));
    assert_eq!(q.count(), 0);
}
