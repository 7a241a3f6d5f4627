use lib::gc::GcRef;
use lib::object::{BoundMethod, Class, Closure, FnUpValue, Function, GcObject, Instance, Obj, UpValue};
use lib::value::Value;

#[test]
fn constructors_start_empty() {
    let f = Function::new(GcRef(1));
    assert_eq!(f.arity, 0);
    assert_eq!(f.name, GcRef(1));
    assert!(f.chunk.code.is_empty() && f.upvalues.is_empty());
    let c = Closure::new(GcRef(2));
    assert_eq!(c.function, GcRef(2));
    assert!(c.upvalues.is_empty());
    let u = UpValue::new(5);
    assert_eq!(u.location, 5);
    assert_eq!(u.closed, None);
    let k = Class::new(GcRef(3));
    assert_eq!(k.name, GcRef(3));
    assert_eq!(k.methods.len(), 0);
    let i = Instance::new(GcRef(3));
    assert_eq!(i.class, GcRef(3));
    assert_eq!(i.fields.len(), 0);
    let d = FnUpValue::new(7, true);
    assert_eq!((d.index, d.is_local), (7, true));
    let b = BoundMethod::new(Value::Nil, GcRef(9));
    assert_eq!((b.receiver, b.method), (Value::Nil, GcRef(9)));
    let g = GcObject::new(Obj::String("s".to_string()));
    assert!(!g.is_marked);
}

#[test]
fn references_of_objects() {
    let mut f = Function::new(GcRef(1));
    f.chunk.add_constant(Value::Obj(GcRef(4)));
    f.chunk.add_constant(Value::Nil);
    let refs = Obj::Function(f).references();
    assert!(refs.contains(&GcRef(1)) && refs.contains(&GcRef(4)));
    assert_eq!(refs.len(), 2);
    let mut c = Closure::new(GcRef(2));
    c.upvalues.push(GcRef(6));
    let refs = Obj::Closure(c).references();
    assert!(refs.contains(&GcRef(2)) && refs.contains(&GcRef(6)));
    assert!(Obj::String("x".to_string()).references().is_empty());
    let mut u = UpValue::new(0);
    u.closed = Some(Value::Obj(GcRef(8)));
    assert_eq!(Obj::UpValue(u).references(), vec![GcRef(8)]);
}
