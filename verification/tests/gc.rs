use lib::gc::{Gc, GcRef, GC_INITIAL_CAPACITY};
use lib::object::{Closure, Function, Obj};
use lib::value::Value;

fn string(gc: &Gc, r: GcRef) -> String {
    match gc.deref(r) {
        Obj::String(s) => s.clone(),
        _ => panic!("not a string"),
    }
}

#[test]
fn a_new_heap_is_empty() {
    let gc = Gc::new();
    assert_eq!(gc.capacity, GC_INITIAL_CAPACITY);
    assert_eq!(gc.next_gc, GC_INITIAL_CAPACITY);
    assert_eq!(gc.bytes_allocated, 0);
    assert!(!gc.is_allocated(GcRef(0)));
}

#[test]
fn allocate_then_deref() {
    let mut gc = Gc::new();
    let a = gc.allocate(Obj::String("a".to_string()));
    let b = gc.allocate(Obj::String("b".to_string()));
    assert_ne!(a, b);
    assert_eq!(string(&gc, a), "a");
    assert_eq!(string(&gc, b), "b");
    assert_eq!(gc.bytes_allocated, 2);
}

#[test]
fn collection_frees_unmarked_objects() {
    let mut gc = Gc::new();
    let a = gc.allocate(Obj::String("a".to_string()));
    let b = gc.allocate(Obj::String("b".to_string()));
    gc.mark_object(a);
    gc.collect_garbage();
    assert!(gc.is_allocated(a));
    assert!(!gc.is_allocated(b));
    assert_eq!(string(&gc, a), "a");
    assert_eq!(gc.bytes_allocated, 1);
    assert_eq!(gc.next_gc, 2 * GC_INITIAL_CAPACITY);
}

#[test]
fn freed_slots_are_reused() {
    let mut gc = Gc::new();
    let a = gc.allocate(Obj::String("a".to_string()));
    gc.collect_garbage();
    assert!(!gc.is_allocated(a));
    let b = gc.allocate(Obj::String("b".to_string()));
    assert_eq!(a, b);
    assert_eq!(string(&gc, b), "b");
}

#[test]
fn collection_keeps_what_marked_objects_reach() {
    let mut gc = Gc::new();
    let name = gc.allocate(Obj::String("f".to_string()));
    let k = gc.allocate(Obj::String("k".to_string()));
    let mut f = Function::new(name);
    f.chunk.add_constant(Value::Obj(k));
    let fr = gc.allocate(Obj::Function(f));
    let c = gc.allocate(Obj::Closure(Closure::new(fr)));
    let loose = gc.allocate(Obj::String("loose".to_string()));
    gc.mark_value(&Value::Obj(c));
    gc.collect_garbage();
    assert!(gc.is_allocated(c));
    assert!(gc.is_allocated(fr));
    assert!(gc.is_allocated(name));
    assert!(gc.is_allocated(k));
    assert!(!gc.is_allocated(loose));
}

#[test]
fn marks_are_cleared_by_collection() {
    let mut gc = Gc::new();
    let a = gc.allocate(Obj::String("a".to_string()));
    gc.mark_object(a);
    gc.collect_garbage();
    gc.collect_garbage();
    assert!(!gc.is_allocated(a));
}

#[test]
fn the_heap_grows_when_full() {
    let mut gc = Gc::new();
    let mut last = GcRef(0);
    for i in 0..GC_INITIAL_CAPACITY + 1 {
        last = gc.allocate(Obj::String(i.to_string()));
    }
    assert_eq!(gc.capacity, 2 * GC_INITIAL_CAPACITY);
    assert_eq!(last, GcRef(GC_INITIAL_CAPACITY));
    assert_eq!(string(&gc, last), GC_INITIAL_CAPACITY.to_string());
}

#[test]
fn deref_mut_changes_the_object() {
    let mut gc = Gc::new();
    let a = gc.allocate(Obj::String("a".to_string()));
    *gc.deref_mut(a) = Obj::String("z".to_string());
    assert_eq!(string(&gc, a), "z");
}

#[test]
fn trace_and_blacken_reach_children() {
    let mut gc = Gc::new();
    let name = gc.allocate(Obj::String("f".to_string()));
    let fr = gc.allocate(Obj::Function(Function::new(name)));
    gc.mark_object(fr);
    gc.trace_references();
    gc.collect_garbage();
    assert!(gc.is_allocated(name));
    assert!(gc.is_allocated(fr));
}

#[test]
fn blackening_marks_the_children_and_queues_them() {
    let mut gc = Gc::new();
    let name = gc.allocate(Obj::String("f".to_string()));
    let f = gc.allocate(Obj::Function(Function::new(name)));
    gc.blacken_object(f.0);
    assert!(gc.objects[name.0].as_ref().unwrap().is_marked);
    assert!(!gc.objects[f.0].as_ref().unwrap().is_marked);
    assert_eq!(gc.gray_stack, vec![name.0]);
}

#[test]
fn a_freed_slot_is_reused_first() {
    let mut gc = Gc::new();
    let a = gc.allocate(Obj::String("a".to_string()));
    let b = gc.allocate(Obj::String("b".to_string()));
    gc.mark_object(b);
    gc.collect_garbage();
    assert!(gc.free_slots.contains(&a.0));
    let c = gc.allocate(Obj::String("c".to_string()));
    assert_eq!(c, a);
}
