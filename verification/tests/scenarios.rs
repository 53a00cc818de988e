//! End-to-end scenarios over the index engine.

use indexer::batch::BatchTransaction;
use indexer::config::{IndexJson, IndexOrd, IndexString, Indexer, JsonPathOrder, Op};
use indexer::index::Index;
use serde_json::Value;

fn student(name: &str, age: i64, state: &str, gpa: f64) -> Value {
    let mut m = serde_json::Map::new();
    m.insert("name".to_string(), Value::String(name.to_string()));
    m.insert("age".to_string(), Value::from(age));
    m.insert("state".to_string(), Value::String(state.to_string()));
    m.insert("gpa".to_string(), Value::from(gpa));
    Value::Object(m)
}

fn string_index() -> Index {
    Index::new(Indexer::String(IndexString { ordering: IndexOrd::ASC }))
}

fn six_names() -> Index {
    let mut idx = string_index();
    idx.insert("user.1", Value::String("Kwadwo".to_string()));
    idx.insert("user.2", Value::String("Kwame".to_string()));
    idx.insert("user.3", Value::String("Joseph".to_string()));
    idx.insert("user.4", Value::String("Jake".to_string()));
    idx.insert("user.5", Value::String("Mambisi".to_string()));
    idx.insert("user.6", Value::String("Ama".to_string()));
    idx
}

#[test]
fn it_works() {
    let gpa_order = JsonPathOrder { path: "gpa".to_string(), ordering: IndexOrd::DESC };
    let name_order = JsonPathOrder { path: "name".to_string(), ordering: IndexOrd::ASC };
    let state_order = JsonPathOrder { path: "state".to_string(), ordering: IndexOrd::ASC };

    let indexer = Indexer::Json(IndexJson {
        path_orders: vec![name_order, gpa_order, state_order],
    });

    let mut students_index = Index::new(indexer);
    students_index.insert("student:0", student("Mambisi", 21, "CA", 3.1));
    students_index.insert("student:1", student("Joseph", 12, "CA", 3.1));
    students_index.insert("student:2", student("Elka", 12, "FL", 4.0));
    students_index.insert("student:18", student("Alex", 15, "NY", 3.7));
    students_index.insert("student:18", student("Jackson", 17, "NY", 3.8));

    let query = students_index.find_where("state", Op::EQ, &Value::String("CA".to_string()));
    println!("Find all students in CA: {:?}", query.get());
    assert_eq!(query.count(), 2);

    let query = students_index.find_where("gpa", Op::GT, &Value::from(3.5));
    println!("Find all students whose gpa greater than 3.5: {:?}", query.get());
    assert_eq!(query.count(), 2);

    let string_indexer = Indexer::String(IndexString { ordering: IndexOrd::ASC });

    let mut names_index = Index::new(string_indexer);
    let mut b = names_index.batch();
    b.insert("user.1", Value::String("Kwadwo".to_string()));
    b.insert("user.9", Value::String("Kwadwo".to_string()));
    b.insert("user.8", Value::String("Kwabena".to_string()));
    b.insert("user.2", Value::String("Kwame".to_string()));
    b.insert("user.3", Value::String("Joseph".to_string()));
    b.insert("user.4", Value::String("Jake".to_string()));
    b.insert("user.5", Value::String("Mambisi".to_string()));
    b.insert("user.6", Value::String("Ama".to_string()));
    b.commit(&mut names_index);

    println!("Index size: {}", names_index.size());
    assert_eq!(names_index.size(), 8);

    names_index.remove("user.1");
    assert_eq!(names_index.size(), 7);

    let res = names_index.find_where("*", Op::LIKE, &Value::String("k*".to_string()));
    println!("users whose name starts with K");
    println!("{:?}", res.get());
}

#[test]
fn ascending_string_iteration_order() {
    let idx = six_names();
    let items = idx.get_items();
    let keys: Vec<&str> = items.iter().map(|(k, _)| k.as_str()).collect();
    assert_eq!(keys, vec!["user.6", "user.4", "user.3", "user.1", "user.2", "user.5"]);
    let names: Vec<&str> = items.iter().map(|(_, v)| v.as_str().unwrap()).collect();
    assert_eq!(names, vec!["Ama", "Jake", "Joseph", "Kwadwo", "Kwame", "Mambisi"]);
}

#[test]
fn composite_config_equality_on_state() {
    let indexer = Indexer::Json(IndexJson {
        path_orders: vec![
            JsonPathOrder::new("name", IndexOrd::ASC),
            JsonPathOrder::new("gpa", IndexOrd::DESC),
            JsonPathOrder::new("state", IndexOrd::ASC),
        ],
    });
    let mut idx = Index::new(indexer);
    idx.insert("student:0", student("Mambisi", 21, "CA", 3.1));
    idx.insert("student:1", student("Joseph", 12, "CA", 3.5));
    idx.insert("student:2", student("Elka", 12, "FL", 4.0));
    idx.insert("student:3", student("Alex", 15, "NY", 3.7));

    let q = idx.find_where("state", Op::EQ, &Value::String("CA".to_string()));
    let mut keys: Vec<&str> = q.get().iter().map(|(k, _)| k.as_str()).collect();
    keys.sort();
    assert_eq!(keys, vec!["student:0", "student:1"]);
}

#[test]
fn like_prefix_is_case_sensitive() {
    let idx = six_names();

    // Capitalised, the pattern selects the two K-names.
    let q = idx.find_where("*", Op::LIKE, &Value::String("K*".to_string()));
    let mut keys: Vec<&str> = q.get().iter().map(|(k, _)| k.as_str()).collect();
    keys.sort();
    assert_eq!(keys, vec!["user.1", "user.2"]);
    let mut names: Vec<&str> = q.get().iter().map(|(_, v)| v.as_str().unwrap()).collect();
    names.sort();
    assert_eq!(names, vec!["Kwadwo", "Kwame"]);

    // Lower-case, it matches no stored name: matching is case-sensitive.
    let q = idx.find_where("*", Op::LIKE, &Value::String("k*".to_string()));
    assert_eq!(q.count(), 0);
}

#[test]
fn batch_commit_applies_inserts_updates_and_skips_absent_delete() {
    let mut idx = six_names();
    assert_eq!(idx.size(), 6);

    let mut b = idx.batch();
    b.insert("user.7", Value::String("Abena".to_string()));
    b.insert("user.8", Value::String("Kwabena".to_string()));
    b.update("user.3", Value::String("Yaw".to_string()));
    b.delete("user.404");
    b.commit(&mut idx);

    // The absent-key delete was a no-op and exactly two keys are new.
    assert_eq!(idx.size(), 8);

    let q = idx.find_where("*", Op::EQ, &Value::String("Yaw".to_string()));
    assert_eq!(q.count(), 1);
    assert_eq!(q.get()[0].0, "user.3");

    // The update's old value is gone.
    let q = idx.find_where("*", Op::EQ, &Value::String("Joseph".to_string()));
    assert_eq!(q.count(), 0);
}

#[test]
fn batch_update_of_absent_key_is_dropped_at_commit() {
    let mut idx = six_names();
    let mut b = idx.batch();
    b.update("user.404", Value::String("Nobody".to_string()));
    b.commit(&mut idx);
    assert_eq!(idx.size(), 6);
    let q = idx.find_where("*", Op::EQ, &Value::String("Nobody".to_string()));
    assert_eq!(q.count(), 0);
}

#[test]
fn order_by_resorts_and_limit_truncates() {
    let idx = six_names();
    let mut q = idx.find_where("*", Op::GT, &Value::String("".to_string()));
    assert_eq!(q.count(), 6);
    let mut ordered = q.order_by(Indexer::String(IndexString { ordering: IndexOrd::DESC }));
    assert_eq!(ordered.count(), 6);
    let names: Vec<&str> = ordered.get().iter().map(|(_, v)| v.as_str().unwrap()).collect();
    assert_eq!(names, vec!["Mambisi", "Kwame", "Kwadwo", "Joseph", "Jake", "Ama"]);
    ordered.limit(2);
    let names: Vec<&str> = ordered.get().iter().map(|(_, v)| v.as_str().unwrap()).collect();
    assert_eq!(names, vec!["Mambisi", "Kwame"]);
}

#[test]
fn and_then_composes_queries() {
    let indexer = Indexer::Json(IndexJson {
        path_orders: vec![
            JsonPathOrder::new("state", IndexOrd::ASC),
            JsonPathOrder::new("gpa", IndexOrd::DESC),
        ],
    });
    let mut idx = Index::new(indexer);
    idx.insert("student:0", student("Mambisi", 21, "CA", 3.1));
    idx.insert("student:1", student("Joseph", 12, "CA", 3.8));
    idx.insert("student:2", student("Elka", 12, "FL", 4.0));

    let mut q = idx.find_where("state", Op::EQ, &Value::String("CA".to_string()));
    assert_eq!(q.count(), 2);
    let narrowed = q.and_then().find_where("gpa", Op::GT, &Value::from(3.5));
    assert_eq!(narrowed.count(), 1);
    assert_eq!(narrowed.get()[0].0, "student:1");
}

#[test]
fn rebuild_without_mutation_changes_nothing() {
    let mut idx = six_names();
    let before = idx.get_items();
    // An empty commit applies nothing but still rebuilds the trees.
    let mut b = idx.batch();
    b.commit(&mut idx);
    let after = idx.get_items();
    assert_eq!(before.len(), after.len());
    for (x, y) in before.iter().zip(after.iter()) {
        assert_eq!(x.0, y.0);
        assert_eq!(x.1, y.1);
    }
    let q1 = idx.find_where("*", Op::EQ, &Value::String("Ama".to_string()));
    let mut b = idx.batch();
    b.commit(&mut idx);
    let q2 = idx.find_where("*", Op::EQ, &Value::String("Ama".to_string()));
    assert_eq!(q1.count(), q2.count());
    assert_eq!(q1.get()[0].0, q2.get()[0].0);
}
