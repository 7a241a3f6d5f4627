use vstd::prelude::*;

use crate::gc::GcRef;
use crate::object::NativeFunction;

verus! {

/// A value of the language. A number is held as the bit pattern of a 64-bit
/// IEEE 754 floating-point number; the host computes with it.
#[derive(Debug, Copy, Clone, PartialEq, Eq, Structural)]
pub enum Value {
    Nil,
    Bool(bool),
    Number(u64),
    Obj(GcRef),
    Native(NativeFunction),
}

/// The outcome of `values_equal` on values that are not two numbers.
pub open spec fn spec_values_equal(a: Value, b: Value) -> bool {
    match (a, b) {
        (Value::Bool(b1), Value::Bool(b2)) => b1 == b2,
        (Value::Nil, Value::Nil) => true,
        (Value::Obj(r1), Value::Obj(r2)) => r1 == r2,
        _ => false,
    }
}

/// Whether two values are equal. Two numbers are compared as floating-point
/// numbers, which the host does: for them the result is `None`.
pub fn values_equal(a: &Value, b: &Value) -> (r: Option<bool>)
    ensures
        (a is Number && b is Number) <==> r is None,
        r is Some ==> r == Some(spec_values_equal(*a, *b)),
{
    match (a, b) {
        (Value::Bool(b1), Value::Bool(b2)) => Some(*b1 == *b2),
        (Value::Nil, Value::Nil) => Some(true),
        (Value::Number(_), Value::Number(_)) => None,
        (Value::Obj(r1), Value::Obj(r2)) => Some(r1.0 == r2.0),
        _ => Some(false),
    }
}


/// Equality of values that are not two numbers is symmetric, and `nil`,
/// booleans and object references equal themselves.
pub proof fn lemma_values_equal_symmetric(a: Value, b: Value)
    ensures
        spec_values_equal(a, b) == spec_values_equal(b, a),
        !(a is Number) && !(a is Native) ==> spec_values_equal(a, a),
{
}

} // verus!
