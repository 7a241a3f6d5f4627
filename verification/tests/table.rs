use lib::table::Table;
use lib::value::Value;

#[test]
fn insert_then_get() {
    let mut t = Table::new();
    assert_eq!(t.len(), 0);
    assert!(t.insert("a".to_string(), Value::Number(1)));
    assert!(t.insert("b".to_string(), Value::Nil));
    assert_eq!(t.get(&"a".to_string()), Some(Value::Number(1)));
    assert_eq!(t.get(&"b".to_string()), Some(Value::Nil));
    assert_eq!(t.get(&"c".to_string()), None);
    assert_eq!(t.len(), 2);
}

#[test]
fn insert_replaces_an_existing_name() {
    let mut t = Table::new();
    assert!(t.insert("a".to_string(), Value::Number(1)));
    assert!(!t.insert("a".to_string(), Value::Bool(true)));
    assert_eq!(t.get(&"a".to_string()), Some(Value::Bool(true)));
    assert_eq!(t.len(), 1);
}

#[test]
fn values_keep_insertion_order() {
    let mut t = Table::new();
    t.insert("x".to_string(), Value::Number(1));
    t.insert("y".to_string(), Value::Number(2));
    t.insert("x".to_string(), Value::Number(3));
    assert_eq!(t.value_at(0), Value::Number(3));
    assert_eq!(t.value_at(1), Value::Number(2));
}

#[test]
fn copy_has_the_same_entries() {
    let mut t = Table::new();
    t.insert("x".to_string(), Value::Number(1));
    t.insert("y".to_string(), Value::Bool(false));
    let c = t.copy();
    assert_eq!(c.len(), 2);
    assert_eq!(c.get(&"x".to_string()), Some(Value::Number(1)));
    assert_eq!(c.get(&"y".to_string()), Some(Value::Bool(false)));
    assert_eq!(c.value_at(1), Value::Bool(false));
}
