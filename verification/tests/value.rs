use json_ns::{Object, OneOrMany, Table, Value};

fn string(text: &str) -> Value {
    Value::String(text.to_string())
}

fn number(n: u64) -> Value {
    Value::Number(serde_json::Number::from(n))
}

#[test]
fn a_new_object_is_empty() {
    let object = Object::new();
    assert_eq!(object.len(), 0);
    assert!(object.get("a").is_none());
    assert_eq!(Object::default().len(), 0);
}

#[test]
fn insert_keeps_the_order_of_first_writing() {
    let mut object = Object::new();
    object.insert("b".to_string(), number(1));
    object.insert("a".to_string(), number(2));
    object.insert("c".to_string(), number(3));
    assert_eq!(object.len(), 3);
    assert_eq!(object.entry(0), (&"b".to_string(), &number(1)));
    assert_eq!(object.entry(1), (&"a".to_string(), &number(2)));
    assert_eq!(object.entry(2), (&"c".to_string(), &number(3)));
}

#[test]
fn insert_over_a_key_replaces_in_place() {
    let mut object = Object::new();
    object.insert("a".to_string(), number(1));
    object.insert("b".to_string(), number(2));
    object.insert("a".to_string(), string("new"));
    assert_eq!(object.len(), 2);
    assert_eq!(object.entry(0), (&"a".to_string(), &string("new")));
    assert_eq!(object.entry(1), (&"b".to_string(), &number(2)));
    assert_eq!(object.get("a"), Some(&string("new")));
    assert_eq!(object.get("b"), Some(&number(2)));
    assert_eq!(object.get("c"), None);
}

#[test]
fn value_kinds_are_told_apart() {
    assert_eq!(string("x").as_str(), Some("x"));
    assert_eq!(Value::Null.as_str(), None);
    assert_eq!(number(1).as_str(), None);
    assert!(Value::Null.is_null());
    assert!(!string("").is_null());
    assert!(string("").is_string());
    assert!(!Value::Bool(true).is_string());
    assert!(!Value::Array(vec![]).is_string());
}

#[test]
fn clone_copies_the_whole_tree() {
    let mut inner = Object::new();
    inner.insert("n".to_string(), number(7));
    inner.insert("list".to_string(), Value::Array(vec![Value::Null, Value::Bool(false), string("s")]));
    let mut outer = Object::new();
    outer.insert("inner".to_string(), Value::Object(inner));
    let value = Value::Array(vec![Value::Object(outer), number(3)]);
    assert_eq!(value.clone(), value);
}

#[test]
fn one_or_many_walks_an_array_in_order() {
    let value = Value::Array(vec![number(1), Value::Array(vec![]), string("x")]);
    let mut walk = OneOrMany::from(&value);
    assert_eq!(walk.next(), Some(&number(1)));
    assert_eq!(walk.next(), Some(&Value::Array(vec![])));
    assert_eq!(walk.next(), Some(&string("x")));
    assert_eq!(walk.next(), None);
    assert_eq!(walk.next(), None);
}

#[test]
fn one_or_many_walks_a_single_value_once() {
    let value = string("x");
    let mut walk = OneOrMany::from(&value);
    assert_eq!(walk.next(), Some(&string("x")));
    assert_eq!(walk.next(), None);
    assert_eq!(walk.next(), None);
    let null = Value::Null;
    let mut walk = OneOrMany::from(&null);
    assert_eq!(walk.next(), Some(&Value::Null));
    assert_eq!(walk.next(), None);
}

#[test]
fn one_or_many_of_an_empty_array_is_empty() {
    let value = Value::Array(vec![]);
    let mut walk = OneOrMany::from(&value);
    assert_eq!(walk.next(), None);
}

#[test]
fn a_table_maps_names_to_names() {
    let mut table = Table::new();
    assert_eq!(table.len(), 0);
    table.insert("a".to_string(), "1".to_string());
    table.insert("b".to_string(), "2".to_string());
    table.insert("a".to_string(), "3".to_string());
    assert_eq!(table.len(), 2);
    assert_eq!(table.get("a"), Some(&"3".to_string()));
    assert_eq!(table.get("b"), Some(&"2".to_string()));
    assert_eq!(table.get("c"), None);
    table.remove("a");
    table.remove("missing");
    assert_eq!(table.len(), 1);
    assert_eq!(table.get("a"), None);
    assert_eq!(table.get("b"), Some(&"2".to_string()));
    let copy = table.clone();
    assert_eq!(copy.get("b"), Some(&"2".to_string()));
    assert_eq!(Table::default().len(), 0);
}
