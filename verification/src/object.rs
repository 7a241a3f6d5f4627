use vstd::prelude::*;

use crate::chunk::Chunk;
use crate::gc::GcRef;
use crate::table::Table;
use crate::value::Value;

verus! {

/// An object on the collected heap.
pub enum Obj {
    String(String),
    Function(Function),
    Closure(Closure),
    UpValue(UpValue),
    Class(Class),
    Instance(Instance),
    BoundMethod(BoundMethod),
}

/// A heap slot: an object and its mark for the collector.
pub struct GcObject {
    pub is_marked: bool,
    pub obj: Obj,
}

impl GcObject {
    pub fn new(obj: Obj) -> (g: Self)
        ensures
            !g.is_marked,
            g.obj == obj,
    {
        Self { is_marked: false, obj }
    }
}

/// A compiled function: its parameter count, code, name (a string object)
/// and the variables it captures.
pub struct Function {
    pub arity: usize,
    pub chunk: Chunk,
    pub name: GcRef,
    pub upvalues: Vec<FnUpValue>,
}

impl Function {
    pub fn new(name: GcRef) -> (f: Self)
        ensures
            f.arity == 0,
            f.name == name,
            f.chunk.code@ == Seq::<crate::chunk::OpCode>::empty(),
            f.chunk.lines@ == Seq::<usize>::empty(),
            f.chunk.constants@ == Seq::<Value>::empty(),
            f.upvalues@ == Seq::<FnUpValue>::empty(),
    {
        Self { arity: 0, name, chunk: Chunk::new(), upvalues: Vec::new() }
    }
}

/// A function of the host, named by its number.
#[derive(Debug, Copy, Clone, PartialEq, Eq, Structural)]
pub struct NativeFunction(pub usize);

/// A function together with the variables it has captured.
pub struct Closure {
    pub function: GcRef,
    pub upvalues: Vec<GcRef>,
}

impl Closure {
    pub fn new(function: GcRef) -> (c: Self)
        ensures
            c.function == function,
            c.upvalues@ == Seq::<GcRef>::empty(),
    {
        Self { function, upvalues: Vec::new() }
    }
}

/// Where a function finds a captured variable: a local slot of the
/// enclosing function, or one of the enclosing function's own captures.
#[derive(Debug, Copy, Clone, PartialEq, Eq, Structural)]
pub struct FnUpValue {
    pub index: u8,
    pub is_local: bool,
}

impl FnUpValue {
    pub fn new(index: u8, is_local: bool) -> (u: Self)
        ensures
            u.index == index,
            u.is_local == is_local,
    {
        Self { index, is_local }
    }
}

/// A captured variable: open while it lives in a stack slot, closed once
/// it holds its own value.
pub struct UpValue {
    pub location: usize,
    pub closed: Option<Value>,
}

impl UpValue {
    pub fn new(location: usize) -> (u: Self)
        ensures
            u.location == location,
            u.closed is None,
    {
        Self { location, closed: None }
    }
}

pub struct Class {
    pub name: GcRef,
    pub methods: Table,
}

impl Class {
    pub fn new(name: GcRef) -> (c: Self)
        ensures
            c.name == name,
            c.methods.view() == Map::<Seq<char>, Value>::empty(),
            c.methods.values() == Seq::<Value>::empty(),
    {
        Self { name, methods: Table::new() }
    }
}

pub struct Instance {
    pub class: GcRef,
    pub fields: Table,
}

impl Instance {
    pub fn new(class: GcRef) -> (i: Self)
        ensures
            i.class == class,
            i.fields.view() == Map::<Seq<char>, Value>::empty(),
            i.fields.values() == Seq::<Value>::empty(),
    {
        Self { class, fields: Table::new() }
    }
}

/// A method closure bound to the instance it was read from.
pub struct BoundMethod {
    pub receiver: Value,
    pub method: GcRef,
}

impl BoundMethod {
    pub fn new(receiver: Value, method: GcRef) -> (b: Self)
        ensures
            b.receiver == receiver,
            b.method == method,
    {
        Self { receiver, method }
    }
}

/// The heap slot that a value refers to, if any.
pub open spec fn value_refs(v: Value) -> Set<usize> {
    match v {
        Value::Obj(r) => set![r.0],
        _ => Set::empty(),
    }
}

/// The heap slots that a list of values refers to.
pub open spec fn values_refs(s: Seq<Value>) -> Set<usize> {
    Set::new(|i: usize| exists|k: int| 0 <= k < s.len() && s[k] == Value::Obj(GcRef(i)))
}

/// The heap slots that a list of references names.
pub open spec fn gcrefs_set(s: Seq<GcRef>) -> Set<usize> {
    Set::new(|i: usize| exists|k: int| 0 <= k < s.len() && s[k] == GcRef(i))
}

/// The heap slots that an object refers to directly.
pub open spec fn obj_refs(o: Obj) -> Set<usize> {
    match o {
        Obj::String(_) => Set::empty(),
        Obj::Function(f) => set![f.name.0].union(values_refs(f.chunk.constants@)),
        Obj::Closure(c) => set![c.function.0].union(gcrefs_set(c.upvalues@)),
        Obj::UpValue(u) => match u.closed {
            Some(v) => value_refs(v),
            None => Set::empty(),
        },
        Obj::Class(c) => set![c.name.0].union(values_refs(c.methods.values())),
        Obj::Instance(i) => set![i.class.0].union(values_refs(i.fields.values())),
        Obj::BoundMethod(b) => value_refs(b.receiver).insert(b.method.0),
    }
}

fn push_value_ref(out: &mut Vec<GcRef>, v: Value)
    ensures
        final(out)@ == match v {
            Value::Obj(r) => old(out)@.push(r),
            _ => old(out)@,
        },
{
    if let Value::Obj(r) = v {
        out.push(r);
    }
}

fn push_values_refs(out: &mut Vec<GcRef>, vals: &Vec<Value>)
    ensures
        gcrefs_set(final(out)@) == gcrefs_set(old(out)@).union(values_refs(vals@)),
{
    let ghost start = out@;
    let mut k: usize = 0;
    while k < vals.len()
        invariant
            k <= vals.len(),
            gcrefs_set(out@) == gcrefs_set(start).union(values_refs(vals@.take(k as int))),
        decreases vals.len() - k,
    {
        let ghost before = out@;
        push_value_ref(out, vals[k]);
        proof {
            lemma_values_refs_push(vals@.take(k as int), vals@[k as int]);
            assert(vals@.take(k + 1) =~= vals@.take(k as int).push(vals@[k as int]));
            lemma_gcrefs_push(before, out@, vals@[k as int]);
        }
        k += 1;
    }
    assert(vals@.take(vals.len() as int) =~= vals@);
}

fn push_table_refs(out: &mut Vec<GcRef>, t: &Table)
    ensures
        gcrefs_set(final(out)@) == gcrefs_set(old(out)@).union(values_refs(t.values())),
{
    let ghost start = out@;
    let mut k: usize = 0;
    let n = t.len();
    while k < n
        invariant
            n == t.values().len(),
            k <= n,
            gcrefs_set(out@) == gcrefs_set(start).union(values_refs(t.values().take(k as int))),
        decreases n - k,
    {
        let ghost before = out@;
        let v = t.value_at(k);
        push_value_ref(out, v);
        proof {
            lemma_values_refs_push(t.values().take(k as int), v);
            assert(t.values().take(k + 1) =~= t.values().take(k as int).push(v));
            lemma_gcrefs_push(before, out@, v);
        }
        k += 1;
    }
    assert(t.values().take(n as int) =~= t.values());
}

pub proof fn lemma_values_refs_push(s: Seq<Value>, v: Value)
    ensures
        values_refs(s.push(v)) == values_refs(s).union(value_refs(v)),
{
    assert forall|i: usize| #[trigger] values_refs(s.push(v)).contains(i) <==> values_refs(
        s,
    ).union(value_refs(v)).contains(i) by {
        if values_refs(s).contains(i) {
            let k = choose|k: int| 0 <= k < s.len() && s[k] == Value::Obj(GcRef(i));
            assert(s.push(v)[k] == Value::Obj(GcRef(i)));
        }
        if value_refs(v).contains(i) {
            assert(s.push(v)[s.len() as int] == Value::Obj(GcRef(i)));
        }
        if values_refs(s.push(v)).contains(i) {
            let k = choose|k: int| 0 <= k < s.len() + 1 && s.push(v)[k] == Value::Obj(GcRef(i));
            if k < s.len() {
                assert(s[k] == Value::Obj(GcRef(i)));
            }
        }
    }
    assert(values_refs(s.push(v)) =~= values_refs(s).union(value_refs(v)));
}

proof fn lemma_gcrefs_push(before: Seq<GcRef>, after: Seq<GcRef>, v: Value)
    requires
        after == match v {
            Value::Obj(r) => before.push(r),
            _ => before,
        },
    ensures
        gcrefs_set(after) == gcrefs_set(before).union(value_refs(v)),
{
    assert forall|i: usize| #[trigger] gcrefs_set(after).contains(i) <==> gcrefs_set(before).union(
        value_refs(v),
    ).contains(i) by {
        if let Value::Obj(r) = v {
            if gcrefs_set(before).contains(i) {
                let k = choose|k: int| 0 <= k < before.len() && before[k] == GcRef(i);
                assert(after[k] == GcRef(i));
            }
            if i == r.0 {
                assert(after[before.len() as int] == GcRef(i));
            }
            if gcrefs_set(after).contains(i) {
                let k = choose|k: int| 0 <= k < after.len() && after[k] == GcRef(i);
                if k < before.len() {
                    assert(before[k] == GcRef(i));
                }
            }
        }
    }
    assert(gcrefs_set(after) =~= gcrefs_set(before).union(value_refs(v)));
}

impl Obj {
    /// The heap references held directly by this object.
    pub fn references(&self) -> (out: Vec<GcRef>)
        ensures
            gcrefs_set(out@) == obj_refs(*self),
    {
        let mut out: Vec<GcRef> = Vec::new();
        assert(gcrefs_set(out@) =~= Set::<usize>::empty());
        assert(gcrefs_set(Seq::<GcRef>::empty()) =~= Set::<usize>::empty());
        match self {
            Obj::String(_) => {},
            Obj::Function(f) => {
                out.push(f.name);
                proof {
                    lemma_gcrefs_push(Seq::empty(), out@, Value::Obj(f.name));
                }
                assert(gcrefs_set(out@) =~= set![f.name.0]);
                push_values_refs(&mut out, &f.chunk.constants);
            },
            Obj::Closure(c) => {
                out.push(c.function);
                proof {
                    lemma_gcrefs_push(Seq::empty(), out@, Value::Obj(c.function));
                }
                let ghost first = out@;
                assert(gcrefs_set(first) =~= set![c.function.0]);
                let mut k: usize = 0;
                while k < c.upvalues.len()
                    invariant
                        k <= c.upvalues.len(),
                        gcrefs_set(out@) == gcrefs_set(first).union(
                            gcrefs_set(c.upvalues@.take(k as int)),
                        ),
                    decreases c.upvalues.len() - k,
                {
                    let ghost before = out@;
                    out.push(c.upvalues[k]);
                    proof {
                        lemma_gcrefs_push(before, out@, Value::Obj(c.upvalues@[k as int]));
                        assert(c.upvalues@.take(k + 1) =~= c.upvalues@.take(k as int).push(
                            c.upvalues@[k as int],
                        ));
                        lemma_gcrefs_push(
                            c.upvalues@.take(k as int),
                            c.upvalues@.take(k + 1),
                            Value::Obj(c.upvalues@[k as int]),
                        );
                        assert(gcrefs_set(out@) =~= gcrefs_set(first).union(
                            gcrefs_set(c.upvalues@.take(k + 1)),
                        ));
                    }
                    k += 1;
                }
                assert(c.upvalues@.take(c.upvalues.len() as int) =~= c.upvalues@);
            },
            Obj::UpValue(u) => {
                if let Some(v) = u.closed {
                    push_value_ref(&mut out, v);
                    proof {
                        lemma_gcrefs_push(Seq::empty(), out@, v);
                    }
                    assert(gcrefs_set(out@) =~= value_refs(v));
                }
            },
            Obj::Class(c) => {
                out.push(c.name);
                proof {
                    lemma_gcrefs_push(Seq::empty(), out@, Value::Obj(c.name));
                }
                assert(gcrefs_set(out@) =~= set![c.name.0]);
                push_table_refs(&mut out, &c.methods);
            },
            Obj::Instance(i) => {
                out.push(i.class);
                proof {
                    lemma_gcrefs_push(Seq::empty(), out@, Value::Obj(i.class));
                }
                assert(gcrefs_set(out@) =~= set![i.class.0]);
                push_table_refs(&mut out, &i.fields);
            },
            Obj::BoundMethod(b) => {
                push_value_ref(&mut out, b.receiver);
                proof {
                    lemma_gcrefs_push(Seq::empty(), out@, b.receiver);
                }
                let ghost before = out@;
                out.push(b.method);
                proof {
                    lemma_gcrefs_push(before, out@, Value::Obj(b.method));
                }
                assert(gcrefs_set(out@) =~= value_refs(b.receiver).insert(b.method.0));
            },
        }
        out
    }
}

} // verus!
