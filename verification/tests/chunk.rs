use lib::chunk::{Chunk, OpCode};
use lib::value::Value;

#[test]
fn write_returns_the_index() {
    let mut c = Chunk::new();
    assert_eq!(c.write(OpCode::Nil, 1), 0);
    assert_eq!(c.write(OpCode::Return, 2), 1);
    assert_eq!(c.code, vec![OpCode::Nil, OpCode::Return]);
    assert_eq!(c.lines, vec![1, 2]);
    assert!(c.constants.is_empty());
}

#[test]
fn add_constant_returns_the_index() {
    let mut c = Chunk::new();
    assert_eq!(c.add_constant(Value::Nil), 0);
    assert_eq!(c.add_constant(Value::Bool(true)), 1);
    assert_eq!(c.constants, vec![Value::Nil, Value::Bool(true)]);
    assert!(c.code.is_empty());
}
