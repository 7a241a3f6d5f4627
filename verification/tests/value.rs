use lib::gc::GcRef;
use lib::value::{values_equal, Value};

#[test]
fn equality_of_plain_values() {
    assert_eq!(values_equal(&Value::Nil, &Value::Nil), Some(true));
    assert_eq!(values_equal(&Value::Bool(true), &Value::Bool(true)), Some(true));
    assert_eq!(values_equal(&Value::Bool(true), &Value::Bool(false)), Some(false));
    assert_eq!(values_equal(&Value::Nil, &Value::Bool(false)), Some(false));
    assert_eq!(values_equal(&Value::Obj(GcRef(3)), &Value::Obj(GcRef(3))), Some(true));
    assert_eq!(values_equal(&Value::Obj(GcRef(3)), &Value::Obj(GcRef(4))), Some(false));
}

#[test]
fn two_numbers_are_left_to_the_host() {
    assert_eq!(values_equal(&Value::Number(1), &Value::Number(1)), None);
    assert_eq!(values_equal(&Value::Number(1), &Value::Nil), Some(false));
}
