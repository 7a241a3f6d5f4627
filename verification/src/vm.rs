use vstd::prelude::*;
use vstd::string::{StringExecFns, StringSliceAdditionalSpecFns};

use crate::chunk::OpCode;
use crate::compiler::{chain_consts, Compiler, FunctionType};
use crate::error::SmsError;
use crate::gc::{lemma_reaches_live, lemma_same_objects_reaches, reachable_from_marked, reaches, Gc, GcRef, GC_HEAP_GROW_FACTOR};
use crate::object::{
    gcrefs_set, obj_refs, value_refs, values_refs, BoundMethod, Class, Closure, Function, Instance,
    NativeFunction, Obj, UpValue,
};
use crate::parser::{chain_refs_live, CompileError, Parser};
use crate::table::Table;
use crate::value::{spec_values_equal, values_equal, Value};

verus! {

/// The most call frames at once.
pub const FRAME_MAX: usize = 64;

/// The stack size that the machine reserves room for.
pub const STACK_MAX: usize = 256;

/// The number of the host's clock function.
pub const CLOCK_NATIVE: usize = 0;

/// A function call in progress: its closure, the index of its next
/// instruction, and the stack index of its slot zero.
#[derive(Copy, Clone)]
pub struct CallFrame {
    pub closure: GcRef,
    ip: usize,
    slot: usize,
}

impl CallFrame {
    fn new(closure: GcRef, slot: usize) -> (f: Self)
        ensures
            f.closure == closure,
            f.ip == 0,
            f.slot == slot,
    {
        Self { closure, ip: 0, slot }
    }

    pub closed spec fn spec_ip(&self) -> usize {
        self.ip
    }

    pub closed spec fn spec_slot(&self) -> usize {
        self.slot
    }

    /// The closure that the frame runs.
    pub closed spec fn spec_closure(&self) -> GcRef {
        self.closure
    }

    /// The same frame with its instruction index set to `ip`.
    pub closed spec fn at_ip(self, ip: int) -> CallFrame {
        CallFrame { closure: self.closure, ip: ip as usize, slot: self.slot }
    }

    /// A frame that starts `closure` at its first instruction with slot
    /// zero at stack index `slot`.
    pub closed spec fn fresh(closure: GcRef, slot: int) -> CallFrame {
        CallFrame { closure, ip: 0, slot: slot as usize }
    }

    /// Moving a frame to instruction `ip` keeps its closure and slot zero.
    pub proof fn lemma_at_ip(self, ip: int)
        requires
            0 <= ip <= usize::MAX,
        ensures
            self.at_ip(ip).spec_ip() == ip,
            self.at_ip(ip).spec_closure() == self.spec_closure(),
            self.at_ip(ip).spec_slot() == self.spec_slot(),
            self.at_ip(self.spec_ip() as int) == self,
    {
    }

    /// A fresh frame starts at the first instruction, with slot zero where
    /// it is told.
    pub proof fn lemma_fresh(closure: GcRef, slot: int)
        requires
            0 <= slot <= usize::MAX,
        ensures
            CallFrame::fresh(closure, slot).spec_closure() == closure,
            CallFrame::fresh(closure, slot).spec_ip() == 0,
            CallFrame::fresh(closure, slot).spec_slot() == slot,
    {
    }
}

/// An operation on two numbers, which the host computes.
#[derive(Debug, Copy, Clone, PartialEq, Eq, Structural)]
pub enum ArithOp {
    Add,
    Subtract,
    Multiply,
    Divide,
    Greater,
    Less,
    Equal,
}

/// A value made ready for printing: text, or a number for the host to format.
#[derive(Debug, PartialEq, Eq)]
pub enum Printed {
    Text(String),
    Number(u64),
}

/// The message of a runtime error.
#[derive(Debug, PartialEq, Eq)]
pub enum ErrorMessage {
    Text(String),
    /// "Expected {expected} arguments but got {got}."
    WrongArgCount(usize, usize),
    /// An error that is not reported.
    Silent,
}

/// One line of the stack trace of a runtime error: the source line and the
/// function ("script" for the top level, "name()" otherwise).
#[derive(Debug, PartialEq, Eq)]
pub struct TraceLine {
    pub line: usize,
    pub function: String,
}

#[derive(Debug, PartialEq, Eq)]
pub struct RuntimeErrorReport {
    pub message: ErrorMessage,
    pub trace: Vec<TraceLine>,
}

/// What the machine hands to its host after running.
#[derive(Debug, PartialEq, Eq)]
pub enum Action {
    /// Instructions remain; run again.
    Continue,
    /// The script returned.
    Finished,
    /// Print this, then run again.
    Print(Printed),
    /// Compute `a op b` on the two numbers, push the result (a number, or a
    /// boolean for the comparisons), then run again.
    Arith(ArithOp, u64, u64),
    /// Push the negation of the number, then run again.
    Negate(u64),
    /// Call the host function with the top `n` values of the stack as its
    /// arguments, hand the result to `return_native`, then run again.
    CallNative(NativeFunction, usize),
    /// The script failed; the frames have been cleared.
    Failed(RuntimeErrorReport),
}

/// The virtual machine: the value stack, the call frames, the global
/// variables, the captured variables still on the stack, and the heap.
pub struct Vm {
    pub frames: Vec<CallFrame>,
    pub stack: Vec<Value>,
    pub globals: Table,
    pub open_upvalues: Vec<GcRef>,
    pub gc: Gc,
    pub init_string: GcRef,
    /// The errors of the last compilation.
    pub errors: Vec<CompileError>,
}

/// `a` followed by `b`.
pub fn concat(a: &str, b: &str) -> (r: String)
    ensures
        r@ == a@ + b@,
{
    let mut r = String::from_str(a);
    r.append(b);
    r
}

impl Vm {
    /// Every object that the machine can reach directly is in the heap `gc`.
    pub closed spec fn roots_live_in(&self, gc: Gc) -> bool {
        &&& forall|i: int| 0 <= i < self.stack@.len() ==> gc.all_live(value_refs(#[trigger] self.stack@[i]))
        &&& gc.all_live(values_refs(self.globals.values()))
        &&& forall|i: int| 0 <= i < self.frames@.len() ==> gc.is_live(#[trigger] self.frames@[i].closure.0)
        &&& forall|i: int|
            0 <= i < self.open_upvalues@.len() ==> gc.is_live(#[trigger] self.open_upvalues@[i].0)
        &&& gc.is_live(self.init_string.0)
    }

    /// What the machine keeps true between instructions.
    pub closed spec fn inv(&self) -> bool {
        &&& self.gc.wf()
        &&& self.gc.unmarked()
        &&& self.roots_live_in(self.gc)
        &&& self.frames@.len() <= FRAME_MAX
    }

    /// The closure of each call frame, outermost first.
    pub closed spec fn frame_closures(&self) -> Seq<GcRef> {
        self.frames@.map_values(|f: CallFrame| f.closure)
    }

    pub open spec fn value_live(&self, v: Value) -> bool {
        self.gc.all_live(value_refs(v))
    }

    pub proof fn lemma_roots_grow(&self, old_gc: Gc, new_gc: Gc)
        requires
            self.roots_live_in(old_gc),
            forall|i: usize| #[trigger] old_gc.is_live(i) ==> new_gc.is_live(i),
        ensures
            self.roots_live_in(new_gc),
    {
        assert forall|i: int| 0 <= i < self.stack@.len() implies new_gc.all_live(
            value_refs(#[trigger] self.stack@[i]),
        ) by {
            assert(old_gc.all_live(value_refs(self.stack@[i])));
            assert forall|j: usize| #[trigger] value_refs(self.stack@[i]).contains(j) implies new_gc.is_live(j) by {
                assert(old_gc.is_live(j));
            }
        }
        assert forall|j: usize| #[trigger] values_refs(self.globals.values()).contains(j) implies new_gc.is_live(j) by {
            assert(old_gc.is_live(j));
        }
        assert forall|i: int| 0 <= i < self.frames@.len() implies new_gc.is_live(#[trigger] self.frames@[i].closure.0) by {
            assert(old_gc.is_live(self.frames@[i].closure.0));
        }
        assert forall|i: int| 0 <= i < self.open_upvalues@.len() implies new_gc.is_live(#[trigger] self.open_upvalues@[i].0) by {
            assert(old_gc.is_live(self.open_upvalues@[i].0));
        }
    }

    /// A machine with an empty stack, the host's clock defined as the global
    /// `clock`, and the string "init" in its heap.
    pub fn new() -> (vm: Self)
        ensures
            vm.inv(),
            vm.stack@.len() == 0,
            vm.frames@.len() == 0,
            vm.globals.view().contains_key("clock"@),
            vm.globals.view()["clock"@] == Value::Native(NativeFunction(CLOCK_NATIVE)),
            vm.string_at(vm.init_string) == Some("init"@),
    {
        let mut gc = Gc::new();
        let s = String::from_str("init");
        assert(obj_refs(Obj::String(s)) =~= Set::<usize>::empty());
        let init_string = gc.allocate(Obj::String(s));
        let mut vm = Self {
            frames: Vec::new(),
            stack: Vec::new(),
            globals: Table::new(),
            open_upvalues: Vec::new(),
            gc,
            init_string,
            errors: Vec::new(),
        };
        proof {
            assert forall|i: usize| !#[trigger] vm.gc.marked(i) by {
                if i != init_string.0 {
                    assert(!vm.gc.is_live(i));
                }
            }
            assert(values_refs(vm.globals.values()) =~= Set::<usize>::empty());
        }
        vm.define_native("clock", NativeFunction(CLOCK_NATIVE));
        vm
    }

    fn define_native(&mut self, name: &str, func: NativeFunction)
        requires
            old(self).inv(),
        ensures
            final(self).inv(),
            final(self).globals.view() == old(self).globals.view().insert(name@, Value::Native(func)),
            final(self).stack == old(self).stack,
            final(self).frames == old(self).frames,
            final(self).gc == old(self).gc,
            final(self).init_string == old(self).init_string,
    {
        let ghost before = *self;
        self.globals.insert(String::from_str(name), Value::Native(func));
        proof {
            assert forall|j: usize| #[trigger] values_refs(self.globals.values()).contains(j) implies self.gc.is_live(j) by {
                let k = choose|k: int| 0 <= k < self.globals.values().len() && self.globals.values()[k] == Value::Obj(GcRef(j));
                assert(self.globals.values().contains(Value::Obj(GcRef(j))));
                assert(before.globals.values().contains(Value::Obj(GcRef(j))));
                let k2 = choose|k2: int| 0 <= k2 < before.globals.values().len() && before.globals.values()[k2] == Value::Obj(GcRef(j));
                assert(values_refs(before.globals.values()).contains(j));
            }
        }
    }

    pub fn push(&mut self, value: Value)
        requires
            old(self).inv(),
            old(self).value_live(value),
        ensures
            final(self).inv(),
            final(self).stack@ == old(self).stack@.push(value),
            final(self).frames == old(self).frames,
            final(self).gc == old(self).gc,
            final(self).globals == old(self).globals,
            final(self).open_upvalues == old(self).open_upvalues,
            final(self).init_string == old(self).init_string,
    {
        self.stack.push(value);
        proof {
            assert forall|i: int| 0 <= i < self.stack@.len() implies self.gc.all_live(
                value_refs(#[trigger] self.stack@[i]),
            ) by {
                if i < old(self).stack@.len() {
                    assert(old(self).stack@[i] == self.stack@[i]);
                }
            }
        }
    }

    pub fn pop(&mut self) -> (v: Value)
        requires
            old(self).inv(),
            old(self).stack@.len() > 0,
        ensures
            final(self).inv(),
            final(self).value_live(v),
            v == old(self).stack@.last(),
            final(self).stack@ == old(self).stack@.drop_last(),
            final(self).frames == old(self).frames,
            final(self).gc == old(self).gc,
            final(self).globals == old(self).globals,
            final(self).open_upvalues == old(self).open_upvalues,
            final(self).init_string == old(self).init_string,
    {
        let v = self.stack.pop().unwrap();
        proof {
            assert(old(self).stack@[old(self).stack@.len() - 1] == v);
            assert forall|i: int| 0 <= i < self.stack@.len() implies self.gc.all_live(
                value_refs(#[trigger] self.stack@[i]),
            ) by {
                assert(old(self).stack@[i] == self.stack@[i]);
            }
        }
        v
    }

    /// The value `n` places below the top of the stack.
    fn peek(&self, n: usize) -> (v: Value)
        requires
            self.inv(),
            n < self.stack@.len(),
        ensures
            v == self.stack@[self.stack@.len() - 1 - n],
            self.value_live(v),
    {
        let size = self.stack.len();
        self.stack[size - 1 - n]
    }

    fn is_falsey(&self, val: &Value) -> (b: bool)
        ensures
            b == (*val == Value::Nil || *val == Value::Bool(false)),
    {
        match *val {
            Value::Bool(b) => !b,
            Value::Nil => true,
            _ => false,
        }
    }
}


/// The objects in `gc` that the same slots of `old` held, unchanged.
pub open spec fn heap_kept(old: Gc, new: Gc) -> bool {
    forall|i: usize| #[trigger] new.is_live(i) ==> old.is_live(i) && new.obj_at(i) == old.obj_at(i)
}

impl Vm {
    /// The text of the string object at `r`, if `r` holds one.
    pub open spec fn string_at(&self, r: GcRef) -> Option<Seq<char>> {
        if self.gc.is_live(r.0) {
            match self.gc.obj_at(r.0) {
                Obj::String(s) => Some(s@),
                _ => None,
            }
        } else {
            None
        }
    }

    /// The number of parameters of the function of the closure at `r`; 0
    /// when `r` holds no closure of a function.
    pub open spec fn arity_at(&self, r: GcRef) -> usize {
        if self.gc.is_live(r.0) {
            match self.gc.obj_at(r.0) {
                Obj::Closure(c) => if self.gc.is_live(c.function.0) {
                    match self.gc.obj_at(c.function.0) {
                        Obj::Function(f) => f.arity,
                        _ => 0,
                    }
                } else {
                    0
                },
                _ => 0,
            }
        } else {
            0
        }
    }

    /// The name of the function object at `f`, if `f` holds a function
    /// whose name is a string object.
    pub open spec fn function_name_at(&self, f: GcRef) -> Option<Seq<char>> {
        if self.gc.is_live(f.0) {
            match self.gc.obj_at(f.0) {
                Obj::Function(func) => self.string_at(func.name),
                _ => None,
            }
        } else {
            None
        }
    }

    /// The text that printing a value that is not a number shows.
    pub open spec fn printed_text(&self, v: Value) -> Seq<char> {
        match v {
            Value::Bool(b) => if b {
                "true"@
            } else {
                "false"@
            },
            Value::Nil => "nil"@,
            Value::Native(_) => "<native fn>"@,
            Value::Number(_) => Seq::empty(),
            Value::Obj(r) => if !self.gc.is_live(r.0) {
                "object"@
            } else {
                match self.gc.obj_at(r.0) {
                    Obj::String(s) => s@,
                    Obj::Closure(c) => match self.function_name_at(c.function) {
                        Some(n) => if n.len() == 0 {
                            "<script>"@
                        } else {
                            "<fn "@ + n + ">"@
                        },
                        None => "object"@,
                    },
                    Obj::Class(c) => match self.string_at(c.name) {
                        Some(n) => "<class "@ + n + ">"@,
                        None => "object"@,
                    },
                    Obj::Instance(_) => "<instance>"@,
                    Obj::BoundMethod(_) => "bound_method"@,
                    Obj::UpValue(_) => "upvalue"@,
                    Obj::Function(_) => "object"@,
                }
            },
        }
    }

    /// The function of the closure that a call frame runs, if it is one.
    pub closed spec fn frame_function_at(&self, fr: CallFrame) -> Option<Function> {
        if self.gc.is_live(fr.closure.0) {
            match self.gc.obj_at(fr.closure.0) {
                Obj::Closure(c) => if self.gc.is_live(c.function.0) {
                    match self.gc.obj_at(c.function.0) {
                        Obj::Function(f) => Some(f),
                        _ => None,
                    }
                } else {
                    None
                },
                _ => None,
            }
        } else {
            None
        }
    }

    /// The function that the innermost frame runs.
    pub closed spec fn current_function(&self) -> Option<Function> {
        if self.frames@.len() == 0 {
            None
        } else {
            self.frame_function_at(self.frames@.last())
        }
    }

    /// The instruction that the innermost frame runs next.
    pub closed spec fn current_op(&self) -> Option<OpCode> {
        match self.current_function() {
            Some(f) => {
                let ip = self.frames@.last().ip;
                if ip < f.chunk.code@.len() {
                    Some(f.chunk.code@[ip as int])
                } else {
                    None
                }
            },
            None => None,
        }
    }

    /// What the function of a frame, the current function and the next
    /// instruction are, in terms of the heap and the frames.
    pub proof fn lemma_current_op(&self, fr: CallFrame)
        ensures
            self.frame_function_at(fr) == (if self.gc.is_live(fr.spec_closure().0) && self.gc.obj_at(fr.spec_closure().0) is Closure
                && self.gc.is_live(self.gc.obj_at(fr.spec_closure().0)->Closure_0.function.0) && self.gc.obj_at(
                self.gc.obj_at(fr.spec_closure().0)->Closure_0.function.0,
            ) is Function {
                Some(self.gc.obj_at(self.gc.obj_at(fr.spec_closure().0)->Closure_0.function.0)->Function_0)
            } else {
                None::<Function>
            }),
            self.current_function() == (if self.frames@.len() == 0 {
                None::<Function>
            } else {
                self.frame_function_at(self.frames@.last())
            }),
            self.current_op() == (match self.current_function() {
                Some(f) => if self.frames@.last().spec_ip() < f.chunk.code@.len() {
                    Some(f.chunk.code@[self.frames@.last().spec_ip() as int])
                } else {
                    None::<OpCode>
                },
                None => None::<OpCode>,
            }),
    {
    }

    /// The trace line of a frame: the line of the instruction before its
    /// index (of its first one at index zero; 0 where the chunk has no line)
    /// and its function's name followed by "()" ("script" when the name is
    /// empty or not a string); line 0 and "unknown" without a function.
    pub proof fn lemma_frame_trace(&self, fr: CallFrame)
        ensures
            self.frame_trace(fr) == (match self.frame_function_at(fr) {
                Some(f) => {
                    let inst = if fr.spec_ip() > 0 {
                        fr.spec_ip() - 1
                    } else {
                        0
                    };
                    (if inst < f.chunk.lines@.len() {
                        f.chunk.lines@[inst]
                    } else {
                        0usize
                    }, match self.string_at(f.name) {
                        Some(n) => if n.len() == 0 {
                            "script"@
                        } else {
                            n + "()"@
                        },
                        None => "script"@,
                    })
                },
                None => (0usize, "unknown"@),
            }),
    {
    }

    /// The constant `idx` of the function that the innermost frame runs.
    pub open spec fn current_constant(&self, idx: u8) -> Option<Value> {
        match self.current_function() {
            Some(f) => if idx < f.chunk.constants@.len() {
                Some(f.chunk.constants@[idx as int])
            } else {
                None
            },
            None => None,
        }
    }

    /// The text of the string that a value refers to, if it refers to one.
    pub open spec fn string_value(&self, v: Value) -> Option<Seq<char>> {
        match v {
            Value::Obj(r) => self.string_at(r),
            _ => None,
        }
    }

    /// The fields of the instance that a value refers to, if it refers to one.
    pub open spec fn fields_of(&self, v: Value) -> Option<Map<Seq<char>, Value>> {
        match v {
            Value::Obj(r) => if self.gc.is_live(r.0) {
                match self.gc.obj_at(r.0) {
                    Obj::Instance(i) => Some(i.fields.view()),
                    _ => None,
                }
            } else {
                None
            },
            _ => None,
        }
    }

    /// The methods of the class that a value refers to, if it refers to one.
    pub open spec fn methods_of(&self, v: Value) -> Option<Map<Seq<char>, Value>> {
        match v {
            Value::Obj(r) => if self.gc.is_live(r.0) {
                match self.gc.obj_at(r.0) {
                    Obj::Class(c) => Some(c.methods.view()),
                    _ => None,
                }
            } else {
                None
            },
            _ => None,
        }
    }

    /// The captured variable `s` of the innermost frame's closure.
    pub closed spec fn frame_upvalue(&self, s: u8) -> Option<GcRef> {
        if self.frames@.len() == 0 {
            None
        } else {
            let c = self.frames@.last().closure;
            if self.gc.is_live(c.0) {
                match self.gc.obj_at(c.0) {
                    Obj::Closure(cl) => if s < cl.upvalues@.len() {
                        Some(cl.upvalues@[s as int])
                    } else {
                        None
                    },
                    _ => None,
                }
            } else {
                None
            }
        }
    }

    /// The captured variable at `u`, if `u` holds one.
    pub open spec fn upvalue_at(&self, u: GcRef) -> Option<UpValue> {
        if self.gc.is_live(u.0) {
            match self.gc.obj_at(u.0) {
                Obj::UpValue(uv) => Some(uv),
                _ => None,
            }
        } else {
            None
        }
    }

    /// The text of the string constant `idx` of the innermost frame's function.
    pub open spec fn constant_string(&self, idx: u8) -> Option<Seq<char>> {
        match self.current_constant(idx) {
            Some(v) => self.string_value(v),
            None => None,
        }
    }

    /// Whether two values are equal, as the machine compares them: two
    /// strings by their text, two numbers by the host (`None`), other values
    /// as `spec_values_equal` says.
    pub open spec fn equal_in(&self, a: Value, b: Value) -> Option<bool> {
        if a is Number && b is Number {
            None
        } else {
            match (self.string_value(a), self.string_value(b)) {
                (Some(x), Some(y)) => Some(x == y),
                _ => Some(spec_values_equal(a, b)),
            }
        }
    }

    /// The trace line of a call frame: the source line of the instruction
    /// before its instruction index (of its first one at index zero; 0 when
    /// the chunk has no line there) and the name of its function followed
    /// by "()" ("script" when the name is empty or not a string); line 0
    /// and "unknown" when the frame holds no closure of a function.
    pub closed spec fn frame_trace(&self, fr: CallFrame) -> (usize, Seq<char>) {
        match self.frame_function_at(fr) {
            Some(f) => {
                let inst = if fr.ip > 0 {
                    fr.ip - 1
                } else {
                    0
                };
                let line = if inst < f.chunk.lines@.len() {
                    f.chunk.lines@[inst]
                } else {
                    0
                };
                let name = match self.string_at(f.name) {
                    Some(n) => if n.len() == 0 {
                        "script"@
                    } else {
                        n + "()"@
                    },
                    None => "script"@,
                };
                (line, name)
            },
            None => (0, "unknown"@),
        }
    }

    /// `p` is what printing `v` hands to the host: a number as it is, any
    /// other value as its text.
    pub open spec fn printed_as(&self, v: Value, p: Printed) -> bool {
        match v {
            Value::Number(n) => p == Printed::Number(n),
            _ => p matches Printed::Text(t) && t@ == self.printed_text(v),
        }
    }
}

impl Vm {
    /// The closure and the function of the current call frame, when the
    /// frame holds a closure of a function.
    fn frame_function(&self) -> (r: Option<(GcRef, GcRef)>)
        requires
            self.inv(),
        ensures
            r matches Some((c, f)) ==> {
                &&& self.frames@.len() > 0
                &&& c == self.frames@.last().closure
                &&& self.gc.is_live(c.0)
                &&& self.gc.obj_at(c.0) matches Obj::Closure(cl) && cl.function == f
                &&& self.gc.is_live(f.0)
                &&& self.gc.obj_at(f.0) is Function
            },
            r is None ==> self.frames@.len() == 0 || !((self.gc.obj_at(self.frames@.last().closure.0) matches Obj::Closure(cl) && self.gc.obj_at(cl.function.0) is Function)),
    {
        let n = self.frames.len();
        if n == 0 {
            return None;
        }
        let c = self.frames[n - 1].closure;
        proof {
            assert(self.gc.is_live(self.frames@[n - 1].closure.0));
        }
        match self.gc.deref(c) {
            Obj::Closure(cl) => {
                let f = cl.function;
                proof {
                    assert(obj_refs(self.gc.obj_at(c.0)).contains(f.0));
                    assert(self.gc.all_live(obj_refs(self.gc.obj_at(c.0))));
                }
                match self.gc.deref(f) {
                    Obj::Function(_) => Some((c, f)),
                    _ => None,
                }
            },
            _ => None,
        }
    }

    /// The next instruction of the current frame, advancing its instruction
    /// index; `None` when there is no frame or no instruction there.
    pub fn read_byte(&mut self) -> (r: Option<OpCode>)
        requires
            old(self).inv(),
        ensures
            final(self).inv(),
            final(self).stack == old(self).stack,
            final(self).gc == old(self).gc,
            final(self).globals == old(self).globals,
            final(self).open_upvalues == old(self).open_upvalues,
            final(self).init_string == old(self).init_string,
            final(self).frame_closures() == old(self).frame_closures(),
            r == old(self).current_op(),
            r is Some ==> final(self).frames@ == old(self).frames@.update(
                old(self).frames@.len() - 1,
                old(self).frames@.last().at_ip(old(self).frames@.last().spec_ip() + 1),
            ),
            r is None ==> final(self).frames@ == old(self).frames@,
            r is Some ==> old(self).frames@.len() > 0 && old(self).frames@.last().spec_ip() < usize::MAX,
    {
        let (c, f) = match self.frame_function() {
            Some(p) => p,
            None => return None,
        };
        let n = self.frames.len();
        let mut frame = self.frames[n - 1];
        let ip = frame.ip;
        let code = match self.gc.deref(f) {
            Obj::Function(func) => {
                if ip < func.chunk.code.len() {
                    func.chunk.code[ip]
                } else {
                    return None;
                }
            },
            _ => return None,
        };
        frame.ip = ip + 1;
        self.frames.set(n - 1, frame);
        proof {
            assert forall|i: int| 0 <= i < self.frames@.len() implies self.gc.is_live(#[trigger] self.frames@[i].closure.0) by {
                assert(old(self).frames@[i].closure == self.frames@[i].closure);
            }
            assert(self.frame_closures() =~= old(self).frame_closures());
        }
        Some(code)
    }

    /// The constant `idx` of the current function.
    fn read_constant(&self, idx: u8) -> (r: Option<Value>)
        requires
            self.inv(),
        ensures
            r matches Some(v) ==> self.value_live(v),
            r == self.current_constant(idx),
    {
        let (c, f) = match self.frame_function() {
            Some(p) => p,
            None => return None,
        };
        match self.gc.deref(f) {
            Obj::Function(func) => {
                if (idx as usize) < func.chunk.constants.len() {
                    let v = func.chunk.constants[idx as usize];
                    proof {
                        assert(self.gc.all_live(obj_refs(self.gc.obj_at(f.0))));
                        assert forall|j: usize| #[trigger] value_refs(v).contains(j) implies self.gc.is_live(j) by {
                            assert(func.chunk.constants@[idx as int] == Value::Obj(GcRef(j)));
                            assert(values_refs(func.chunk.constants@).contains(j));
                            assert(obj_refs(self.gc.obj_at(f.0)).contains(j));
                        }
                    }
                    Some(v)
                } else {
                    None
                }
            },
            _ => None,
        }
    }

    /// The text of a string object.
    fn get_string(&self, r: GcRef) -> (s: Option<String>)
        ensures
            s matches Some(t) ==> self.gc.is_live(r.0) && (self.gc.obj_at(r.0) matches Obj::String(u) && t@ == u@),
            s is None ==> !(self.gc.is_live(r.0) && self.gc.obj_at(r.0) is String),
            match s {
                Some(t) => self.string_at(r) == Some(t@),
                None => self.string_at(r) is None,
            },
    {
        if !self.gc.is_allocated(r) {
            return None;
        }
        match self.gc.deref(r) {
            Obj::String(s) => Some(s.clone()),
            _ => None,
        }
    }

    fn is_string(&self, r: GcRef) -> (b: bool)
        ensures
            b == (self.gc.is_live(r.0) && self.gc.obj_at(r.0) is String),
    {
        if !self.gc.is_allocated(r) {
            return false;
        }
        match self.gc.deref(r) {
            Obj::String(_) => true,
            _ => false,
        }
    }

    /// The text of the string constant `idx`.
    pub fn read_string(&self, idx: u8) -> (r: Option<String>)
        requires
            self.inv(),
        ensures
            match r {
                Some(s) => self.constant_string(idx) == Some(s@),
                None => self.constant_string(idx) is None,
            },
    {
        match self.read_constant(idx) {
            Some(Value::Obj(s_ref)) => self.get_string(s_ref),
            _ => None,
        }
    }

    /// The string object of the string constant `idx`.
    pub fn read_string_gcref(&self, idx: u8) -> (r: Option<GcRef>)
        requires
            self.inv(),
        ensures
            r matches Some(g) ==> self.gc.is_live(g.0) && self.current_constant(idx) == Some(Value::Obj(g))
                && self.string_at(g) is Some,
            r is None ==> self.constant_string(idx) is None,
    {
        match self.read_constant(idx) {
            Some(Value::Obj(s_ref)) => {
                if self.is_string(s_ref) {
                    Some(s_ref)
                } else {
                    None
                }
            },
            _ => None,
        }
    }

    /// Reports a runtime error: the message and, innermost first, the line
    /// and function of each frame. The frames are cleared.
    pub fn runtime_error(&mut self, message: ErrorMessage) -> (report: RuntimeErrorReport)
        requires
            old(self).inv(),
        ensures
            final(self).inv(),
            final(self).frames@.len() == 0,
            final(self).stack == old(self).stack,
            final(self).gc == old(self).gc,
            final(self).globals == old(self).globals,
            final(self).open_upvalues == old(self).open_upvalues,
            final(self).init_string == old(self).init_string,
            report.message == message,
            report.trace@.len() == old(self).frames@.len(),
            forall|k: int|
                0 <= k < report.trace@.len() ==> (#[trigger] report.trace@[k].line, report.trace@[k].function@)
                    == old(self).frame_trace(old(self).frames@[old(self).frames@.len() - 1 - k]),
    {
        let mut trace: Vec<TraceLine> = Vec::new();
        let mut i = self.frames.len();
        while i > 0
            invariant
                i <= self.frames@.len(),
                trace@.len() == self.frames@.len() - i,
                *self == *old(self),
                forall|k: int|
                    0 <= k < trace@.len() ==> (#[trigger] trace@[k].line, trace@[k].function@) == self.frame_trace(
                        self.frames@[self.frames@.len() - 1 - k],
                    ),
            decreases i,
        {
            i -= 1;
            let frame = self.frames[i];
            let t = self.frame_trace_line(frame);
            trace.push(t);
        }
        self.frames.clear();
        RuntimeErrorReport { message, trace }
    }

    /// The trace line of a call frame.
    fn frame_trace_line(&self, frame: CallFrame) -> (t: TraceLine)
        ensures
            (t.line, t.function@) == self.frame_trace(frame),
    {
        let inst = if frame.ip > 0 {
            frame.ip - 1
        } else {
            0
        };
        if self.gc.is_allocated(frame.closure) {
            if let Obj::Closure(c) = self.gc.deref(frame.closure) {
                if self.gc.is_allocated(c.function) {
                    if let Obj::Function(f) = self.gc.deref(c.function) {
                        let line = if inst < f.chunk.lines.len() {
                            f.chunk.lines[inst]
                        } else {
                            0
                        };
                        let function = match self.get_string(f.name) {
                            Some(name) => {
                                if name.as_str().is_empty() {
                                    String::from_str("script")
                                } else {
                                    concat(name.as_str(), "()")
                                }
                            },
                            None => String::from_str("script"),
                        };
                        return TraceLine { line, function };
                    }
                }
            }
        }
        TraceLine { line: 0, function: String::from_str("unknown") }
    }

    /// The text that printing a value shows, or the number for the host to format.
    pub fn print_value(&self, v: &Value) -> (p: Printed)
        ensures
            self.printed_as(*v, p),
    {
        match v {
            Value::Number(n) => Printed::Number(*n),
            Value::Bool(b) => Printed::Text(String::from_str(if *b { "true" } else { "false" })),
            Value::Nil => Printed::Text(String::from_str("nil")),
            Value::Native(_) => Printed::Text(String::from_str("<native fn>")),
            Value::Obj(r) => {
                if !self.gc.is_allocated(*r) {
                    return Printed::Text(String::from_str("object"));
                }
                let text = match self.gc.deref(*r) {
                    Obj::String(s) => s.clone(),
                    Obj::Closure(c) => match self.get_string_of_function(c.function) {
                        Some(name) => {
                            if name.as_str().is_empty() {
                                String::from_str("<script>")
                            } else {
                                let t = concat("<fn ", name.as_str());
                                concat(t.as_str(), ">")
                            }
                        },
                        None => String::from_str("object"),
                    },
                    Obj::Class(c) => match self.get_string(c.name) {
                        Some(name) => {
                            let t = concat("<class ", name.as_str());
                            concat(t.as_str(), ">")
                        },
                        None => String::from_str("object"),
                    },
                    Obj::Instance(_) => String::from_str("<instance>"),
                    Obj::BoundMethod(_) => String::from_str("bound_method"),
                    Obj::UpValue(_) => String::from_str("upvalue"),
                    Obj::Function(_) => String::from_str("object"),
                };
                Printed::Text(text)
            },
        }
    }

    /// The name of a function object.
    fn get_string_of_function(&self, f: GcRef) -> (s: Option<String>)
        ensures
            match s {
                Some(t) => self.function_name_at(f) == Some(t@),
                None => self.function_name_at(f) is None,
            },
    {
        if !self.gc.is_allocated(f) {
            return None;
        }
        match self.gc.deref(f) {
            Obj::Function(func) => self.get_string(func.name),
            _ => None,
        }
    }
}

/// Every mark of `old` is kept in `new`.
pub open spec fn marks_grow(old: Gc, new: Gc) -> bool {
    forall|i: usize| #[trigger] old.marked(i) ==> new.marked(i)
}

impl Vm {
    /// Every object that the machine can reach directly is marked in `gc`.
    pub closed spec fn roots_marked_in(&self, gc: Gc) -> bool {
        &&& forall|i: int| 0 <= i < self.stack@.len() ==> gc.all_marked(value_refs(#[trigger] self.stack@[i]))
        &&& gc.all_marked(values_refs(self.globals.values()))
        &&& forall|i: int| 0 <= i < self.frames@.len() ==> gc.marked(#[trigger] self.frames@[i].closure.0)
        &&& forall|i: int|
            0 <= i < self.open_upvalues@.len() ==> gc.marked(#[trigger] self.open_upvalues@[i].0)
        &&& gc.marked(self.init_string.0)
    }

    /// A slot that the machine refers to directly: a value on its stack or
    /// in a global, the closure of a call frame, an open captured variable,
    /// or the string "init".
    pub closed spec fn is_root(&self, i: usize) -> bool {
        ||| values_refs(self.stack@).contains(i)
        ||| values_refs(self.globals.values()).contains(i)
        ||| exists|k: int| 0 <= k < self.frames@.len() && #[trigger] self.frames@[k].closure.0 == i
        ||| gcrefs_set(self.open_upvalues@).contains(i)
        ||| i == self.init_string.0
    }

    /// The machine reaches slot `i` from one of its roots.
    pub open spec fn reachable(&self, i: usize) -> bool {
        exists|r: usize| self.is_root(r) && #[trigger] reaches(self.gc, r, i)
    }

    /// Marks every root of the machine and every reference in `extra`, then
    /// collects: what they reach is kept, everything else is freed.
    fn collect_garbage(&mut self, extra: &Vec<GcRef>)
        requires
            old(self).inv(),
            forall|k: int| 0 <= k < extra@.len() ==> old(self).gc.is_live(#[trigger] extra@[k].0),
        ensures
            final(self).inv(),
            forall|i: usize| #[trigger] final(self).gc.is_live(i) <==> (old(self).reachable(i) || exists|m: usize|
                gcrefs_set(extra@).contains(m) && #[trigger] reaches(old(self).gc, m, i)),
            forall|k: int| 0 <= k < extra@.len() ==> final(self).gc.is_live(#[trigger] extra@[k].0),
            heap_kept(old(self).gc, final(self).gc),
            final(self).stack == old(self).stack,
            final(self).frames == old(self).frames,
            final(self).globals == old(self).globals,
            final(self).open_upvalues == old(self).open_upvalues,
            final(self).init_string == old(self).init_string,
            final(self).gc.capacity == old(self).gc.capacity,
            forall|i: usize| old(self).gc.is_live(i) && !final(self).gc.is_live(i) ==> #[trigger] final(self).gc.free_slots@.contains(i),
    {
        let ghost g0 = self.gc;
        let mut i: usize = 0;
        while i < self.stack.len()
            invariant
                self.gc.wf(),
                self.gc.same_objects(&g0),
                marks_grow(g0, self.gc),
                self.stack == old(self).stack,
                self.frames == old(self).frames,
                self.globals == old(self).globals,
                self.open_upvalues == old(self).open_upvalues,
                self.init_string == old(self).init_string,
                old(self).roots_live_in(g0),
                g0 == old(self).gc,
                i <= self.stack@.len(),
                forall|j: int| 0 <= j < i ==> self.gc.all_marked(value_refs(#[trigger] self.stack@[j])),
                forall|m: usize| #[trigger] self.gc.marked(m) ==> old(self).is_root(m) || gcrefs_set(extra@).contains(m),
            decreases self.stack.len() - i,
        {
            let v = self.stack[i];
            let ghost before = self.gc;
            proof {
                assert(g0.all_live(value_refs(old(self).stack@[i as int])));
                assert forall|j: usize| #[trigger] value_refs(v).contains(j) implies before.is_live(j) by {
                    assert(g0.is_live(j));
                }
            }
            self.gc.mark_value(&v);
            proof {
                assert(before.tricolor_except(-1));
                Gc::lemma_same_objects_trans(&self.gc, &before, &g0);
                assert forall|m: usize| #[trigger] self.gc.marked(m) implies old(self).is_root(m) || gcrefs_set(
                    extra@,
                ).contains(m) by {
                    if !before.marked(m) {
                        assert(value_refs(v).contains(m));
                        assert(old(self).stack@[i as int] == Value::Obj(GcRef(m)));
                        assert(values_refs(old(self).stack@).contains(m));
                    }
                }
                assert forall|j: int| 0 <= j < i + 1 implies self.gc.all_marked(value_refs(#[trigger] self.stack@[j])) by {
                    assert forall|m: usize| #[trigger] value_refs(self.stack@[j]).contains(m) implies self.gc.marked(m) by {
                        if j < i {
                            assert(before.all_marked(value_refs(self.stack@[j])));
                            assert(before.marked(m));
                        }
                    }
                }
            }
            i += 1;
        }
        let n = self.globals.len();
        let mut k: usize = 0;
        while k < n
            invariant
                self.gc.wf(),
                self.gc.same_objects(&g0),
                marks_grow(g0, self.gc),
                self.stack == old(self).stack,
                self.frames == old(self).frames,
                self.globals == old(self).globals,
                self.open_upvalues == old(self).open_upvalues,
                self.init_string == old(self).init_string,
                old(self).roots_live_in(g0),
                g0 == old(self).gc,
                n == self.globals.values().len(),
                k <= n,
                forall|j: int| 0 <= j < self.stack@.len() ==> self.gc.all_marked(value_refs(#[trigger] self.stack@[j])),
                forall|j: int| 0 <= j < k ==> self.gc.all_marked(value_refs(#[trigger] self.globals.values()[j])),
                forall|m: usize| #[trigger] self.gc.marked(m) ==> old(self).is_root(m) || gcrefs_set(extra@).contains(m),
            decreases n - k,
        {
            let v = self.globals.value_at(k);
            let ghost before = self.gc;
            proof {
                assert forall|j: usize| #[trigger] value_refs(v).contains(j) implies before.is_live(j) by {
                    assert(self.globals.values()[k as int] == Value::Obj(GcRef(j)));
                    assert(values_refs(self.globals.values()).contains(j));
                    assert(g0.is_live(j));
                }
            }
            self.gc.mark_value(&v);
            proof {
                assert(before.tricolor_except(-1));
                Gc::lemma_same_objects_trans(&self.gc, &before, &g0);
                assert forall|m: usize| #[trigger] self.gc.marked(m) implies old(self).is_root(m) || gcrefs_set(
                    extra@,
                ).contains(m) by {
                    if !before.marked(m) {
                        assert(value_refs(v).contains(m));
                        assert(self.globals.values()[k as int] == Value::Obj(GcRef(m)));
                        assert(values_refs(old(self).globals.values()).contains(m));
                    }
                }
                assert forall|j: int| 0 <= j < self.stack@.len() implies self.gc.all_marked(value_refs(#[trigger] self.stack@[j])) by {
                    assert forall|m: usize| #[trigger] value_refs(self.stack@[j]).contains(m) implies self.gc.marked(m) by {
                        assert(before.all_marked(value_refs(self.stack@[j])));
                        assert(before.marked(m));
                    }
                }
                assert forall|j: int| 0 <= j < k + 1 implies self.gc.all_marked(value_refs(#[trigger] self.globals.values()[j])) by {
                    assert forall|m: usize| #[trigger] value_refs(self.globals.values()[j]).contains(m) implies self.gc.marked(m) by {
                        if j < k {
                            assert(before.all_marked(value_refs(self.globals.values()[j])));
                            assert(before.marked(m));
                        }
                    }
                }
            }
            k += 1;
        }
        let ghost after_values = self.gc;
        let mut refs: Vec<GcRef> = Vec::new();
        let mut f: usize = 0;
        while f < self.frames.len()
            invariant
                f <= self.frames@.len(),
                refs@.len() == f,
                forall|j: int| 0 <= j < f ==> #[trigger] refs@[j] == self.frames@[j].closure,
            decreases self.frames.len() - f,
        {
            refs.push(self.frames[f].closure);
            f += 1;
        }
        let nf = refs.len();
        let mut u: usize = 0;
        while u < self.open_upvalues.len()
            invariant
                u <= self.open_upvalues@.len(),
                refs@.len() == nf + u,
                nf == self.frames@.len(),
                forall|j: int| 0 <= j < nf ==> #[trigger] refs@[j] == self.frames@[j].closure,
                forall|j: int| 0 <= j < u ==> #[trigger] refs@[nf + j] == self.open_upvalues@[j],
            decreases self.open_upvalues.len() - u,
        {
            refs.push(self.open_upvalues[u]);
            u += 1;
        }
        let nu = refs.len();
        refs.push(self.init_string);
        let mut e: usize = 0;
        while e < extra.len()
            invariant
                e <= extra@.len(),
                refs@.len() == nu + 1 + e,
                nu == nf + self.open_upvalues@.len(),
                nf == self.frames@.len(),
                forall|j: int| 0 <= j < nf ==> #[trigger] refs@[j] == self.frames@[j].closure,
                forall|j: int| 0 <= j < self.open_upvalues@.len() ==> #[trigger] refs@[nf + j] == self.open_upvalues@[j],
                refs@[nu as int] == self.init_string,
                forall|j: int| 0 <= j < e ==> #[trigger] refs@[nu + 1 + j] == extra@[j],
            decreases extra.len() - e,
        {
            refs.push(extra[e]);
            e += 1;
        }
        proof {
            assert forall|j: int| 0 <= j < refs@.len() implies old(self).is_root(#[trigger] refs@[j].0) || gcrefs_set(
                extra@,
            ).contains(refs@[j].0) by {
                if j < nf {
                    assert(self.frames@[j].closure.0 == refs@[j].0);
                } else if j < nu {
                    let q = j - nf;
                    assert(refs@[nf + q] == self.open_upvalues@[q]);
                    assert(gcrefs_set(self.open_upvalues@).contains(refs@[j].0));
                } else if j > nu {
                    let q = j - nu - 1;
                    assert(refs@[nu + 1 + q] == extra@[q]);
                    assert(gcrefs_set(extra@).contains(refs@[j].0));
                }
            }
            assert forall|j: int| 0 <= j < refs@.len() implies g0.is_live(#[trigger] refs@[j].0) by {
                if j < nf {
                    assert(g0.is_live(self.frames@[j].closure.0));
                } else if j < nu {
                    let q = j - nf;
                    assert(refs@[nf + q] == self.open_upvalues@[q]);
                    assert(g0.is_live(self.open_upvalues@[q].0));
                } else if j > nu {
                    let q = j - nu - 1;
                    assert(refs@[nu + 1 + q] == extra@[q]);
                }
            }
        }
        let mut r: usize = 0;
        while r < refs.len()
            invariant
                self.gc.wf(),
                self.gc.same_objects(&g0),
                marks_grow(g0, self.gc),
                marks_grow(after_values, self.gc),
                self.stack == old(self).stack,
                self.frames == old(self).frames,
                self.globals == old(self).globals,
                self.open_upvalues == old(self).open_upvalues,
                self.init_string == old(self).init_string,
                g0 == old(self).gc,
                r <= refs@.len(),
                forall|j: int| 0 <= j < refs@.len() ==> g0.is_live(#[trigger] refs@[j].0),
                forall|j: int| 0 <= j < r ==> self.gc.marked(#[trigger] refs@[j].0),
                forall|j: int| 0 <= j < refs@.len() ==> old(self).is_root(#[trigger] refs@[j].0) || gcrefs_set(
                    extra@,
                ).contains(refs@[j].0),
                forall|m: usize| #[trigger] self.gc.marked(m) ==> old(self).is_root(m) || gcrefs_set(extra@).contains(m),
            decreases refs.len() - r,
        {
            let ghost before = self.gc;
            proof {
                assert(g0.is_live(refs@[r as int].0));
            }
            self.gc.mark_object(refs[r]);
            proof {
                assert(before.tricolor_except(-1));
                Gc::lemma_same_objects_trans(&self.gc, &before, &g0);
                assert forall|m: usize| #[trigger] self.gc.marked(m) implies old(self).is_root(m) || gcrefs_set(
                    extra@,
                ).contains(m) by {
                    if !before.marked(m) {
                        assert(m == refs@[r as int].0);
                    }
                }
                assert forall|j: int| 0 <= j < r + 1 implies self.gc.marked(#[trigger] refs@[j].0) by {
                    if j < r {
                        assert(before.marked(refs@[j].0));
                    }
                }
                assert forall|i: usize| #[trigger] after_values.marked(i) implies self.gc.marked(i) by {
                    assert(before.marked(i));
                }
            }
            r += 1;
        }
        let ghost marked_gc = self.gc;
        proof {
            assert(self.roots_marked_in(marked_gc)) by {
                assert forall|j: int| 0 <= j < self.stack@.len() implies marked_gc.all_marked(value_refs(#[trigger] self.stack@[j])) by {
                    assert(after_values.all_marked(value_refs(self.stack@[j])));
                    assert forall|m: usize| #[trigger] value_refs(self.stack@[j]).contains(m) implies marked_gc.marked(m) by {
                        assert(after_values.marked(m));
                    }
                }
                assert forall|m: usize| #[trigger] values_refs(self.globals.values()).contains(m) implies marked_gc.marked(m) by {
                    let q = choose|q: int| 0 <= q < self.globals.values().len() && self.globals.values()[q] == Value::Obj(GcRef(m));
                    assert(value_refs(self.globals.values()[q]).contains(m));
                    assert(after_values.all_marked(value_refs(self.globals.values()[q])));
                    assert(after_values.marked(m));
                }
                assert forall|j: int| 0 <= j < self.frames@.len() implies marked_gc.marked(#[trigger] self.frames@[j].closure.0) by {
                    assert(refs@[j] == self.frames@[j].closure);
                }
                assert forall|j: int| 0 <= j < self.open_upvalues@.len() implies marked_gc.marked(#[trigger] self.open_upvalues@[j].0) by {
                    assert(refs@[nf + j] == self.open_upvalues@[j]);
                }
                assert(refs@[nu as int] == self.init_string);
            }
            assert forall|q: int| 0 <= q < extra@.len() implies marked_gc.marked(#[trigger] extra@[q].0) by {
                assert(refs@[nu + 1 + q] == extra@[q]);
            }
        }
        self.gc.collect_garbage();
        proof {
            assert forall|m: usize| #[trigger] marked_gc.marked(m) implies self.gc.is_live(m) by {}
            assert forall|j: int| 0 <= j < self.stack@.len() implies self.gc.all_live(value_refs(#[trigger] self.stack@[j])) by {
                assert(marked_gc.all_marked(value_refs(self.stack@[j])));
                assert forall|m: usize| #[trigger] value_refs(self.stack@[j]).contains(m) implies self.gc.is_live(m) by {
                    assert(marked_gc.marked(m));
                }
            }
            assert forall|m: usize| #[trigger] values_refs(self.globals.values()).contains(m) implies self.gc.is_live(m) by {
                assert(marked_gc.marked(m));
            }
            assert forall|j: int| 0 <= j < self.frames@.len() implies self.gc.is_live(#[trigger] self.frames@[j].closure.0) by {
                assert(marked_gc.marked(self.frames@[j].closure.0));
            }
            assert forall|j: int| 0 <= j < self.open_upvalues@.len() implies self.gc.is_live(#[trigger] self.open_upvalues@[j].0) by {
                assert(marked_gc.marked(self.open_upvalues@[j].0));
            }
            assert(marked_gc.marked(self.init_string.0));
            assert forall|q: int| 0 <= q < extra@.len() implies self.gc.is_live(#[trigger] extra@[q].0) by {
                assert(marked_gc.marked(extra@[q].0));
            }
            assert forall|m: usize| #[trigger] self.gc.is_live(m) implies g0.is_live(m) && self.gc.obj_at(m) == g0.obj_at(m) by {
                assert(marked_gc.is_live(m));
            }
            assert(self.roots_marked_in(marked_gc));
            assert forall|i: usize| #[trigger] self.gc.is_live(i) <==> (old(self).reachable(i) || exists|m: usize|
                gcrefs_set(extra@).contains(m) && #[trigger] reaches(old(self).gc, m, i)) by {
                if self.gc.is_live(i) {
                    assert(reachable_from_marked(marked_gc, i));
                    let m = choose|m: usize| marked_gc.marked(m) && #[trigger] reaches(marked_gc, m, i);
                    lemma_same_objects_reaches(marked_gc, g0, m, i);
                    if old(self).is_root(m) {
                        assert(old(self).reachable(i));
                    }
                }
                if old(self).reachable(i) {
                    let r = choose|r: usize| old(self).is_root(r) && #[trigger] reaches(old(self).gc, r, i);
                    self.lemma_root_marked(marked_gc, r);
                    lemma_same_objects_reaches(g0, marked_gc, r, i);
                    assert(reachable_from_marked(marked_gc, i));
                }
                if exists|m: usize| gcrefs_set(extra@).contains(m) && #[trigger] reaches(old(self).gc, m, i) {
                    let m = choose|m: usize| gcrefs_set(extra@).contains(m) && #[trigger] reaches(old(self).gc, m, i);
                    let q = choose|q: int| 0 <= q < extra@.len() && extra@[q] == GcRef(m);
                    assert(marked_gc.marked(extra@[q].0));
                    lemma_same_objects_reaches(g0, marked_gc, m, i);
                    assert(reachable_from_marked(marked_gc, i));
                }
            }
        }
    }

    /// Each root is live.
    proof fn lemma_root_live(&self, r: usize)
        requires
            self.inv(),
            self.is_root(r),
        ensures
            self.gc.is_live(r),
    {
        if values_refs(self.stack@).contains(r) {
            let k = choose|k: int| 0 <= k < self.stack@.len() && self.stack@[k] == Value::Obj(GcRef(r));
            assert(self.gc.all_live(value_refs(self.stack@[k])));
            assert(value_refs(self.stack@[k]).contains(r));
        } else if exists|k: int| 0 <= k < self.frames@.len() && #[trigger] self.frames@[k].closure.0 == r {
            let k = choose|k: int| 0 <= k < self.frames@.len() && #[trigger] self.frames@[k].closure.0 == r;
            assert(self.gc.is_live(self.frames@[k].closure.0));
        } else if gcrefs_set(self.open_upvalues@).contains(r) {
            let k = choose|k: int| 0 <= k < self.open_upvalues@.len() && self.open_upvalues@[k] == GcRef(r);
            assert(self.gc.is_live(self.open_upvalues@[k].0));
        }
    }

    /// Each root is marked in a heap that marks all roots.
    proof fn lemma_root_marked(&self, gc: Gc, r: usize)
        requires
            self.roots_marked_in(gc),
            self.is_root(r),
        ensures
            gc.marked(r),
    {
        if values_refs(self.stack@).contains(r) {
            let k = choose|k: int| 0 <= k < self.stack@.len() && self.stack@[k] == Value::Obj(GcRef(r));
            assert(gc.all_marked(value_refs(self.stack@[k])));
            assert(value_refs(self.stack@[k]).contains(r));
        } else if exists|k: int| 0 <= k < self.frames@.len() && #[trigger] self.frames@[k].closure.0 == r {
            let k = choose|k: int| 0 <= k < self.frames@.len() && #[trigger] self.frames@[k].closure.0 == r;
            assert(gc.marked(self.frames@[k].closure.0));
        } else if gcrefs_set(self.open_upvalues@).contains(r) {
            let k = choose|k: int| 0 <= k < self.open_upvalues@.len() && self.open_upvalues@[k] == GcRef(r);
            assert(gc.marked(self.open_upvalues@[k].0));
        }
    }

    /// Collects garbage once the heap has grown past its threshold.
    pub fn maybe_gc(&mut self)
        requires
            old(self).inv(),
        ensures
            final(self).inv(),
            heap_kept(old(self).gc, final(self).gc),
            forall|i: usize| #[trigger] old(self).reachable(i) ==> final(self).gc.is_live(i),
            final(self).gc == old(self).gc || forall|i: usize| #[trigger] final(self).gc.is_live(i)
                <==> old(self).reachable(i),
            final(self).stack == old(self).stack,
            final(self).frames == old(self).frames,
            final(self).globals == old(self).globals,
            final(self).open_upvalues == old(self).open_upvalues,
            final(self).init_string == old(self).init_string,
    {
        let none: Vec<GcRef> = Vec::new();
        self.maybe_gc_keeping(&none);
        proof {
            assert(gcrefs_set(none@) =~= Set::<usize>::empty());
        }
    }

    /// As `maybe_gc`, also keeping the objects that `extra` names.
    fn maybe_gc_keeping(&mut self, extra: &Vec<GcRef>)
        requires
            old(self).inv(),
            forall|k: int| 0 <= k < extra@.len() ==> old(self).gc.is_live(#[trigger] extra@[k].0),
        ensures
            final(self).inv(),
            forall|k: int| 0 <= k < extra@.len() ==> final(self).gc.is_live(#[trigger] extra@[k].0),
            heap_kept(old(self).gc, final(self).gc),
            final(self).stack == old(self).stack,
            final(self).frames == old(self).frames,
            final(self).globals == old(self).globals,
            final(self).open_upvalues == old(self).open_upvalues,
            final(self).init_string == old(self).init_string,
            final(self).gc.capacity == old(self).gc.capacity,
            forall|i: usize| #[trigger] old(self).reachable(i) ==> final(self).gc.is_live(i),
            final(self).gc == old(self).gc || forall|i: usize| #[trigger] final(self).gc.is_live(i) <==> (old(
                self,
            ).reachable(i) || exists|m: usize| gcrefs_set(extra@).contains(m) && #[trigger] reaches(old(self).gc, m, i)),
    {
        if self.gc.bytes_allocated >= self.gc.next_gc {
            self.collect_garbage(extra);
        } else {
            proof {
                assert forall|i: usize| #[trigger] self.reachable(i) implies self.gc.is_live(i) by {
                    let r = choose|r: usize| self.is_root(r) && #[trigger] reaches(self.gc, r, i);
                    self.lemma_root_live(r);
                    lemma_reaches_live(self.gc, r, i);
                }
            }
        }
    }

    /// Collects if due (keeping `extra`), then places `obj` in the heap;
    /// `None` when the heap cannot grow.
    fn alloc_obj(&mut self, obj: Obj, extra: &Vec<GcRef>, collect: bool) -> (r: Option<GcRef>)
        requires
            old(self).inv(),
            forall|k: int| 0 <= k < extra@.len() ==> old(self).gc.is_live(#[trigger] extra@[k].0),
            forall|j: usize| #[trigger] obj_refs(obj).contains(j) ==> exists|k: int| 0 <= k < extra@.len() && extra@[k].0 == j,
        ensures
            final(self).inv(),
            forall|k: int| 0 <= k < extra@.len() ==> final(self).gc.is_live(#[trigger] extra@[k].0),
            forall|i: usize|
                #[trigger] final(self).gc.is_live(i) && (r matches Some(g) ==> i != g.0)
                    ==> old(self).gc.is_live(i) && final(self).gc.obj_at(i) == old(self).gc.obj_at(i),
            r matches Some(g) ==> final(self).gc.is_live(g.0) && final(self).gc.obj_at(g.0) == obj,
            r matches Some(g) ==> forall|k: int| 0 <= k < extra@.len() ==> #[trigger] extra@[k].0 != g.0,
            r matches Some(g) ==> !old(self).is_root(g.0),
            r is None ==> final(self).gc.capacity > usize::MAX / GC_HEAP_GROW_FACTOR,
            r is Some ==> final(self).gc.capacity <= old(self).gc.capacity * GC_HEAP_GROW_FACTOR,
            r is None ==> final(self).gc.capacity == old(self).gc.capacity,
            !collect ==> forall|i: usize| #[trigger] old(self).gc.is_live(i) ==> final(self).gc.is_live(i),
            !collect ==> (r matches Some(g) ==> !old(self).gc.is_live(g.0)),
            final(self).stack == old(self).stack,
            final(self).frames == old(self).frames,
            final(self).globals == old(self).globals,
            final(self).open_upvalues == old(self).open_upvalues,
            final(self).init_string == old(self).init_string,
    {
        if collect {
            self.maybe_gc_keeping(extra);
        }
        if self.gc.capacity > usize::MAX / GC_HEAP_GROW_FACTOR {
            return None;
        }
        let ghost before = self.gc;
        let ghost collected = *self;
        proof {
            assert forall|j: usize| #[trigger] obj_refs(obj).contains(j) implies before.is_live(j) by {
                let k = choose|k: int| 0 <= k < extra@.len() && extra@[k].0 == j;
                assert(before.is_live(extra@[k].0));
            }
        }
        let r = self.gc.allocate(obj);
        proof {
            if old(self).is_root(r.0) {
                assert(collected.is_root(r.0));
                collected.lemma_root_live(r.0);
            }
        }
        proof {
            self.lemma_roots_grow(before, self.gc);
            assert forall|i: usize| !#[trigger] self.gc.marked(i) by {
                if i != r.0 {
                    assert(!before.marked(i));
                }
            }
            assert forall|k: int| 0 <= k < extra@.len() implies self.gc.is_live(#[trigger] extra@[k].0) by {
                assert(before.is_live(extra@[k].0));
            }
            assert forall|i: usize| #[trigger] self.gc.is_live(i) && i != r.0 implies old(self).gc.is_live(i)
                && self.gc.obj_at(i) == old(self).gc.obj_at(i) by {
                assert(before.is_live(i));
            }
            assert forall|k: int| 0 <= k < extra@.len() implies #[trigger] extra@[k].0 != r.0 by {
                assert(before.is_live(extra@[k].0));
            }
        }
        Some(r)
    }
}

impl Vm {
    /// Fails with the message `msg`.
    fn fail(&mut self, msg: &str) -> (a: Action)
        requires
            old(self).inv(),
        ensures
            final(self).inv(),
            a is Failed,
            fails_with(a, msg@),
            final(self).frames@.len() == 0,
            final(self).gc == old(self).gc,
            final(self).stack == old(self).stack,
            final(self).globals == old(self).globals,
            final(self).open_upvalues == old(self).open_upvalues,
            final(self).init_string == old(self).init_string,
    {
        let report = self.runtime_error(ErrorMessage::Text(String::from_str(msg)));
        Action::Failed(report)
    }

    /// Fails with the message `a` + `name` + `b`.
    fn fail_named(&mut self, a: &str, name: &String, b: &str) -> (r: Action)
        requires
            old(self).inv(),
        ensures
            final(self).inv(),
            r is Failed,
            fails_with(r, a@ + name@ + b@),
            final(self).frames@.len() == 0,
            final(self).gc == old(self).gc,
            final(self).stack == old(self).stack,
            final(self).globals == old(self).globals,
            final(self).open_upvalues == old(self).open_upvalues,
            final(self).init_string == old(self).init_string,
    {
        let t = concat(a, name.as_str());
        let msg = concat(t.as_str(), b);
        let report = self.runtime_error(ErrorMessage::Text(msg));
        Action::Failed(report)
    }

    /// Sets the stack slot `idx` to a live value.
    fn set_slot(&mut self, idx: usize, v: Value)
        requires
            old(self).inv(),
            old(self).value_live(v),
            idx < old(self).stack@.len(),
        ensures
            final(self).inv(),
            final(self).stack@ == old(self).stack@.update(idx as int, v),
            final(self).frames == old(self).frames,
            final(self).gc == old(self).gc,
            final(self).globals == old(self).globals,
            final(self).open_upvalues == old(self).open_upvalues,
            final(self).init_string == old(self).init_string,
    {
        self.stack.set(idx, v);
        proof {
            assert forall|i: int| 0 <= i < self.stack@.len() implies self.gc.all_live(
                value_refs(#[trigger] self.stack@[i]),
            ) by {
                if i != idx {
                    assert(old(self).stack@[i] == self.stack@[i]);
                }
            }
        }
    }

    /// The number of parameters of the function of a closure; 0 for
    /// anything else.
    fn arity_of(&self, clos_ref: GcRef) -> (n: usize)
        ensures
            n == self.arity_at(clos_ref),
    {
        if !self.gc.is_allocated(clos_ref) {
            return 0;
        }
        if let Obj::Closure(c) = self.gc.deref(clos_ref) {
            if self.gc.is_allocated(c.function) {
                if let Obj::Function(f) = self.gc.deref(c.function) {
                    return f.arity;
                }
            }
        }
        0
    }

    /// Starts a call of a closure with `arg_count` arguments on the stack.
    fn call(&mut self, clos_ref: GcRef, arg_count: usize) -> (r: Option<Action>)
        requires
            old(self).inv(),
            old(self).gc.is_live(clos_ref.0),
        ensures
            final(self).inv(),
            r matches Some(a) ==> a is Failed,
            r is None ==> final(self).frames@.len() == old(self).frames@.len() + 1,
            final(self).gc == old(self).gc,
            final(self).stack == old(self).stack,
            final(self).globals == old(self).globals,
            old(self).arity_at(clos_ref) != arg_count ==> (r matches Some(Action::Failed(rep))
                && rep.message == ErrorMessage::WrongArgCount(old(self).arity_at(clos_ref), arg_count)),
            old(self).arity_at(clos_ref) == arg_count && old(self).frames@.len() >= FRAME_MAX ==> (r matches Some(a)
                && fails_with(a, "Stack overflow."@)),
            old(self).arity_at(clos_ref) == arg_count && old(self).frames@.len() < FRAME_MAX && arg_count
                < old(self).stack@.len() ==> r is None && final(self).frames@ == old(self).frames@.push(
                CallFrame::fresh(clos_ref, old(self).stack@.len() - arg_count - 1),
            ),
            arg_count < old(self).stack@.len() ==> old(self).closure_call(
                clos_ref,
                arg_count as int,
                old(self).frames@,
                old(self).stack@,
                final(self),
                r,
            ),
            (r matches Some(Action::Failed(_))) ==> final(self).frames@.len() == 0,
    {
        let arity = self.arity_of(clos_ref);
        if arg_count != arity {
            let report = self.runtime_error(ErrorMessage::WrongArgCount(arity, arg_count));
            return Some(Action::Failed(report));
        }
        if self.frames.len() == FRAME_MAX {
            return Some(self.fail("Stack overflow."));
        }
        if arg_count >= self.stack.len() {
            return Some(self.fail("Stack is empty"));
        }
        let slot = self.stack.len() - arg_count - 1;
        self.frames.push(CallFrame::new(clos_ref, slot));
        proof {
            assert forall|i: int| 0 <= i < self.frames@.len() implies self.gc.is_live(#[trigger] self.frames@[i].closure.0) by {
                if i < old(self).frames@.len() {
                    assert(old(self).frames@[i] == self.frames@[i]);
                }
            }
        }
        None
    }
}

impl Vm {
    /// The text of the string "init".
    fn init_name(&self) -> (s: String)
        ensures
            s@ == match self.string_at(self.init_string) {
                Some(t) => t,
                None => Seq::<char>::empty(),
            },
    {
        match self.get_string(self.init_string) {
            Some(s) => s,
            None => String::new(),
        }
    }

    /// Calls a value: a closure, a class (making an instance and running its
    /// `init`), a bound method, or a function of the host.
    fn call_value(&mut self, callee: Value, arg_count: usize) -> (r: Option<Action>)
        requires
            old(self).inv(),
            old(self).value_live(callee),
        ensures
            final(self).inv(),
            r matches Some(a) ==> a is Failed || a is CallNative,
            callee matches Value::Native(f) ==> r == Some(Action::CallNative(f, arg_count)) && *final(self)
                == *old(self),
            callee is Nil || callee is Bool || callee is Number ==> (r matches Some(a) && fails_with(
                a,
                "Can only call functions and classes"@,
            )),
            !(callee is Native) && !(callee matches Value::Obj(g) && (old(self).gc.obj_at(g.0) is Closure
                || old(self).gc.obj_at(g.0) is BoundMethod || old(self).gc.obj_at(g.0) is Class)) ==> (r matches Some(
                a,
            ) && fails_with(a, "Can only call functions and classes"@)) && final(self).stack == old(self).stack
                && final(self).globals == old(self).globals,
            match callee {
                Value::Obj(g) => old(self).gc.obj_at(g.0) is Closure ==> {
                    &&& old(self).arity_at(g) != arg_count ==> (r matches Some(Action::Failed(rep))
                        && rep.message == ErrorMessage::WrongArgCount(old(self).arity_at(g), arg_count))
                    &&& old(self).arity_at(g) == arg_count && old(self).frames@.len() >= FRAME_MAX ==> (r matches Some(a)
                        && fails_with(a, "Stack overflow."@))
                    &&& old(self).arity_at(g) == arg_count && old(self).frames@.len() < FRAME_MAX && arg_count
                        < old(self).stack@.len() ==> r is None && final(self).stack == old(self).stack
                        && final(self).frames@ == old(self).frames@.push(
                        CallFrame::fresh(g, old(self).stack@.len() - arg_count - 1),
                    )
                },
                _ => true,
            },
            arg_count < old(self).stack@.len() ==> old(self).call_result(
                old(self).stack@,
                callee,
                arg_count as int,
                old(self).frames@,
                final(self),
                r,
            ),
            (r matches Some(Action::Failed(_))) ==> final(self).frames@.len() == 0,
    {
        match callee {
            Value::Obj(gc_ref) => {
                assert(value_refs(callee).contains(gc_ref.0));
                let kind: u8 = match self.gc.deref(gc_ref) {
                    Obj::Closure(_) => 0,
                    Obj::Class(_) => 1,
                    Obj::BoundMethod(_) => 2,
                    _ => 3,
                };
                if kind == 0 {
                    return self.call(gc_ref, arg_count);
                }
                if kind == 1 {
                    let init_string = self.init_name();
                    let init_method = match self.gc.deref(gc_ref) {
                        Obj::Class(class) => class.methods.get(&init_string),
                        _ => None,
                    };
                    proof {
                        if let Some(Value::Obj(m)) = init_method {
                            let c = self.gc.obj_at(gc_ref.0);
                            assert(c is Class);
                            let t = c->Class_0.methods;
                            assert(obj_refs(c).contains(m.0)) by {
                                let k = choose|k: int| 0 <= k < t.values().len() && t.values()[k] == Value::Obj(m);
                                assert(values_refs(t.values()).contains(m.0));
                            }
                            assert(self.gc.is_live(m.0));
                        }
                    }
                    if arg_count >= self.stack.len() {
                        return Some(self.fail("Stack is empty"));
                    }
                    let mut extra: Vec<GcRef> = Vec::new();
                    extra.push(gc_ref);
                    let instance = Instance::new(gc_ref);
                    assert(obj_refs(Obj::Instance(instance)) =~= set![gc_ref.0]);
                    assert(extra@[0] == gc_ref);
                    let ins_ref = match self.alloc_obj(Obj::Instance(instance), &extra, false) {
                        Some(r) => r,
                        None => return Some(self.fail("Out of memory.")),
                    };
                    let stack_len = self.stack.len();
                    assert(value_refs(Value::Obj(ins_ref)) =~= set![ins_ref.0]);
                    self.set_slot(stack_len - 1 - arg_count, Value::Obj(ins_ref));
                    let ghost mid = *self;
                    proof {
                        assert(mid.gc.obj_at(ins_ref.0) == Obj::Instance(instance));
                        assert(mid.fields_of(Value::Obj(ins_ref)) == Some(Map::<Seq<char>, Value>::empty()));
                    }
                    match init_method {
                        Some(Value::Obj(init_ref)) => {
                            proof {
                                assert(old(self).gc.is_live(init_ref.0));
                                assert(self.gc.is_live(init_ref.0));
                                assert(init_ref.0 != ins_ref.0);
                                assert(self.gc.obj_at(init_ref.0) == old(self).gc.obj_at(init_ref.0));
                                if let Obj::Closure(cl) = old(self).gc.obj_at(init_ref.0) {
                                    assert(obj_refs(old(self).gc.obj_at(init_ref.0)).contains(cl.function.0));
                                    if old(self).gc.is_live(cl.function.0) {
                                        assert(self.gc.is_live(cl.function.0));
                                        assert(cl.function.0 != ins_ref.0);
                                        assert(self.gc.obj_at(cl.function.0) == old(self).gc.obj_at(cl.function.0));
                                    }
                                }
                                assert(self.arity_at(init_ref) == old(self).arity_at(init_ref));
                            }
                            if !self.gc.is_allocated(init_ref) {
                                return Some(self.fail("Invalid frame state"));
                            }
                            return self.call(init_ref, arg_count);
                        },
                        Some(_) => {
                            if arg_count != 0 {
                                let report = self.runtime_error(ErrorMessage::WrongArgCount(0, arg_count));
                                return Some(Action::Failed(report));
                            }
                            return None;
                        },
                        None => return None,
                    }
                }
                if kind == 2 {
                    let (receiver, method) = match self.gc.deref(gc_ref) {
                        Obj::BoundMethod(bm) => (bm.receiver, bm.method),
                        _ => (Value::Nil, gc_ref),
                    };
                    proof {
                        let o = self.gc.obj_at(gc_ref.0);
                        assert(self.gc.all_live(obj_refs(o)));
                        if let Obj::BoundMethod(bm) = o {
                            assert(obj_refs(o).contains(bm.method.0));
                            assert forall|j: usize| #[trigger] value_refs(receiver).contains(j) implies self.gc.is_live(j) by {
                                assert(obj_refs(o).contains(j));
                            }
                        }
                    }
                    if arg_count >= self.stack.len() {
                        return Some(self.fail("Stack is empty"));
                    }
                    let stack_len = self.stack.len();
                    self.set_slot(stack_len - 1 - arg_count, receiver);
                    return self.call(method, arg_count);
                }
                Some(self.fail("Can only call functions and classes"))
            },
            Value::Native(native) => Some(Action::CallNative(native, arg_count)),
            _ => Some(self.fail("Can only call functions and classes")),
        }
    }
}

impl Vm {
    /// Takes the object at `r` out of the heap, leaving an empty string in
    /// its slot.
    fn take_obj(&mut self, r: GcRef) -> (o: Obj)
        requires
            old(self).inv(),
            old(self).gc.is_live(r.0),
        ensures
            final(self).inv(),
            o == old(self).gc.obj_at(r.0),
            final(self).gc.all_live(obj_refs(o)),
            forall|i: usize| #[trigger] final(self).gc.is_live(i) == old(self).gc.is_live(i),
            forall|i: usize| i != r.0 && old(self).gc.is_live(i) ==> #[trigger] final(self).gc.obj_at(i) == old(self).gc.obj_at(i),
            final(self).stack == old(self).stack,
            final(self).frames == old(self).frames,
            final(self).globals == old(self).globals,
            final(self).open_upvalues == old(self).open_upvalues,
            final(self).init_string == old(self).init_string,
    {
        let ghost before = self.gc;
        proof {
            assert(before.all_live(obj_refs(before.obj_at(r.0))));
        }
        let o = self.gc.swap_obj(r, Obj::String(String::new()));
        proof {
            assert forall|i: usize| i != r.0 && before.is_live(i) implies #[trigger] self.gc.obj_at(i) == before.obj_at(i) by {
                assert(self.gc.objects@[i as int] == before.objects@[i as int]);
            }
            self.lemma_roots_grow(before, self.gc);
            assert forall|j: usize| #[trigger] obj_refs(o).contains(j) implies self.gc.is_live(j) by {
                assert(before.is_live(j));
            }
        }
        o
    }

    /// Puts `o` back at `r`.
    fn put_obj(&mut self, r: GcRef, o: Obj)
        requires
            old(self).inv(),
            old(self).gc.is_live(r.0),
            old(self).gc.all_live(obj_refs(o)),
        ensures
            final(self).inv(),
            final(self).gc.obj_at(r.0) == o,
            forall|i: usize| #[trigger] final(self).gc.is_live(i) == old(self).gc.is_live(i),
            forall|i: usize| i != r.0 && old(self).gc.is_live(i) ==> #[trigger] final(self).gc.obj_at(i) == old(self).gc.obj_at(i),
            final(self).stack == old(self).stack,
            final(self).frames == old(self).frames,
            final(self).globals == old(self).globals,
            final(self).open_upvalues == old(self).open_upvalues,
            final(self).init_string == old(self).init_string,
    {
        let ghost before = self.gc;
        self.gc.swap_obj(r, o);
        proof {
            assert forall|i: usize| i != r.0 && before.is_live(i) implies #[trigger] self.gc.obj_at(i) == before.obj_at(i) by {
                assert(self.gc.objects@[i as int] == before.objects@[i as int]);
            }
            self.lemma_roots_grow(before, self.gc);
        }
    }

    /// Stores `value` under `name` in the methods of the class at `r`, or
    /// in the fields of the instance at `r`. Returns whether `r` was such
    /// an object.
    fn table_insert(&mut self, r: GcRef, name: String, value: Value, in_class: bool) -> (ok: bool)
        requires
            old(self).inv(),
            old(self).gc.is_live(r.0),
            old(self).value_live(value),
        ensures
            final(self).inv(),
            forall|i: usize| #[trigger] final(self).gc.is_live(i) == old(self).gc.is_live(i),
            forall|i: usize| i != r.0 && old(self).gc.is_live(i) ==> #[trigger] final(self).gc.obj_at(i) == old(self).gc.obj_at(i),
            ok == if in_class {
                old(self).gc.obj_at(r.0) is Class
            } else {
                old(self).gc.obj_at(r.0) is Instance
            },
            !ok ==> final(self).gc.obj_at(r.0) == old(self).gc.obj_at(r.0),
            ok && in_class ==> final(self).methods_of(Value::Obj(r)) == Some(
                old(self).methods_of(Value::Obj(r)).unwrap().insert(name@, value),
            ),
            ok && !in_class ==> final(self).fields_of(Value::Obj(r)) == Some(
                old(self).fields_of(Value::Obj(r)).unwrap().insert(name@, value),
            ),
            final(self).stack == old(self).stack,
            final(self).frames == old(self).frames,
            final(self).globals == old(self).globals,
            final(self).open_upvalues == old(self).open_upvalues,
            final(self).init_string == old(self).init_string,
    {
        let ghost before = self.gc;
        let prev = self.take_obj(r);
        let ghost p0 = prev;
        match prev {
            Obj::Class(mut c) if in_class => {
                let ghost old_values = c.methods.values();
                c.methods.insert(name, value);
                proof {
                    assert(self.gc.is_live(c.name.0)) by {
                        assert(obj_refs(p0).contains(c.name.0));
                    }
                    assert forall|j: usize| #[trigger] values_refs(c.methods.values()).contains(j) implies self.gc.is_live(j) by {
                        let k = choose|k: int| 0 <= k < c.methods.values().len() && c.methods.values()[k] == Value::Obj(GcRef(j));
                        assert(c.methods.values().contains(Value::Obj(GcRef(j))));
                        if Value::Obj(GcRef(j)) != value {
                            assert(old_values.contains(Value::Obj(GcRef(j))));
                            let k2 = choose|k2: int| 0 <= k2 < old_values.len() && old_values[k2] == Value::Obj(GcRef(j));
                            assert(values_refs(old_values).contains(j));
                            assert(obj_refs(p0).contains(j));
                        } else {
                            assert(value_refs(value).contains(j));
                        }
                    }
                    assert(obj_refs(Obj::Class(c)) =~= set![c.name.0].union(values_refs(c.methods.values())));
                }
                self.put_obj(r, Obj::Class(c));
                true
            },
            Obj::Instance(mut inst) if !in_class => {
                let ghost old_values = inst.fields.values();
                inst.fields.insert(name, value);
                proof {
                    assert(self.gc.is_live(inst.class.0)) by {
                        assert(obj_refs(p0).contains(inst.class.0));
                    }
                    assert forall|j: usize| #[trigger] values_refs(inst.fields.values()).contains(j) implies self.gc.is_live(j) by {
                        let k = choose|k: int| 0 <= k < inst.fields.values().len() && inst.fields.values()[k] == Value::Obj(GcRef(j));
                        assert(inst.fields.values().contains(Value::Obj(GcRef(j))));
                        if Value::Obj(GcRef(j)) != value {
                            assert(old_values.contains(Value::Obj(GcRef(j))));
                            let k2 = choose|k2: int| 0 <= k2 < old_values.len() && old_values[k2] == Value::Obj(GcRef(j));
                            assert(values_refs(old_values).contains(j));
                            assert(obj_refs(p0).contains(j));
                        } else {
                            assert(value_refs(value).contains(j));
                        }
                    }
                    assert(obj_refs(Obj::Instance(inst)) =~= set![inst.class.0].union(values_refs(inst.fields.values())));
                }
                self.put_obj(r, Obj::Instance(inst));
                true
            },
            other => {
                self.put_obj(r, other);
                false
            },
        }
    }
}

impl Vm {
    /// The captured variable for stack slot `pos`: the open one that exists
    /// already, or a new one. `None` when the heap cannot grow.
    fn capture_upvalue(&mut self, pos: usize, extra: &Vec<GcRef>) -> (r: Option<GcRef>)
        requires
            old(self).inv(),
            forall|k: int| 0 <= k < extra@.len() ==> old(self).gc.is_live(#[trigger] extra@[k].0),
        ensures
            final(self).inv(),
            forall|k: int| 0 <= k < extra@.len() ==> final(self).gc.is_live(#[trigger] extra@[k].0),
            forall|k: int| 0 <= k < extra@.len() ==> #[trigger] final(self).gc.obj_at(extra@[k].0) == old(self).gc.obj_at(extra@[k].0),
            r matches Some(g) ==> final(self).gc.is_live(g.0),
            r matches Some(g) ==> (final(self).upvalue_at(g) matches Some(uv) && uv.location == pos),
            forall|i: usize|
                #[trigger] final(self).gc.is_live(i) && (r matches Some(g) ==> i != g.0) ==> old(self).gc.is_live(i)
                    && final(self).gc.obj_at(i) == old(self).gc.obj_at(i),
            old(self).has_open_at(pos) ==> r is Some && *final(self) == *old(self),
            old(self).has_open_at(pos) ==> (r matches Some(g) && gcrefs_set(old(self).open_upvalues@).contains(g.0)),
            !old(self).has_open_at(pos) ==> (r matches Some(g) ==> final(self).open_upvalues@ == old(
                self,
            ).open_upvalues@.push(g) && final(self).upvalue_at(g) == Some(UpValue { location: pos, closed: None })),
            !old(self).has_open_at(pos) ==> (r matches Some(g) ==> !old(self).is_root(g.0)),
            r is None ==> heap_full(final(self).gc),
            old(self).open_distinct() ==> final(self).open_distinct(),
            final(self).stack == old(self).stack,
            final(self).frames == old(self).frames,
            final(self).globals == old(self).globals,
            final(self).init_string == old(self).init_string,
    {
        let mut i: usize = 0;
        while i < self.open_upvalues.len()
            invariant
                self.inv(),
                *self == *old(self),
                i <= self.open_upvalues@.len(),
                forall|k: int| 0 <= k < extra@.len() ==> old(self).gc.is_live(#[trigger] extra@[k].0),
                forall|k: int| 0 <= k < i ==> !(old(self).upvalue_at(#[trigger] old(self).open_upvalues@[k]) matches Some(
                    uv,
                ) && uv.location == pos),
            decreases self.open_upvalues.len() - i,
        {
            let upv_ref = self.open_upvalues[i];
            assert(self.gc.is_live(self.open_upvalues@[i as int].0));
            if let Obj::UpValue(upv) = self.gc.deref(upv_ref) {
                if upv.location == pos {
                    proof {
                        assert(self.open_upvalues@[i as int] == GcRef(upv_ref.0));
                    }
                    return Some(upv_ref);
                }
            }
            i += 1;
        }
        let ghost before = self.gc;
        let upv = UpValue::new(pos);
        assert(obj_refs(Obj::UpValue(upv)) =~= Set::<usize>::empty());
        let upv_ref = match self.alloc_obj(Obj::UpValue(upv), extra, true) {
            Some(r) => r,
            None => return None,
        };
        proof {
            assert forall|k: int| 0 <= k < extra@.len() implies #[trigger] self.gc.obj_at(extra@[k].0) == old(self).gc.obj_at(extra@[k].0) by {
                assert(extra@[k].0 != upv_ref.0);
                assert(self.gc.is_live(extra@[k].0));
            }
            assert forall|i: usize|
                #[trigger] self.gc.is_live(i) && i != upv_ref.0 implies old(self).gc.is_live(i) && self.gc.obj_at(i) == old(self).gc.obj_at(i) by {
            }
        }
        self.open_upvalues.push(upv_ref);
        proof {
            assert forall|k: int| 0 <= k < self.open_upvalues@.len() implies self.gc.is_live(#[trigger] self.open_upvalues@[k].0) by {
                if k < old(self).open_upvalues@.len() {
                    assert(old(self).open_upvalues@[k] == self.open_upvalues@[k]);
                }
            }
        }
        Some(upv_ref)
    }

    /// Closes every open captured variable at stack slot `pos` or above:
    /// each takes the value of its slot and stops being open. `false` when
    /// a captured variable names a slot past the stack.
    fn close_upvalues(&mut self, pos: usize) -> (ok: bool)
        requires
            old(self).inv(),
        ensures
            final(self).inv(),
            forall|i: usize| #[trigger] final(self).gc.is_live(i) == old(self).gc.is_live(i),
            final(self).stack == old(self).stack,
            final(self).frames == old(self).frames,
            final(self).globals == old(self).globals,
            final(self).init_string == old(self).init_string,
            ok ==> old(self).closed_from(pos, final(self)),
            ok ==> final(self).open_upvalues@ == old(self).open_upvalues@.filter(old(self).stays_open(pos)),
            forall|m: usize| #[trigger] final(self).gc.is_live(m) && !old(self).closes(pos, GcRef(m))
                ==> final(self).gc.obj_at(m) == old(self).gc.obj_at(m),
            !ok ==> exists|k: int|
                0 <= k < old(self).open_upvalues@.len() && old(self).closes(pos, #[trigger] old(self).open_upvalues@[k])
                    && old(self).upvalue_at(old(self).open_upvalues@[k]).unwrap().location >= old(self).stack@.len(),
    {
        let mut kept: Vec<GcRef> = Vec::new();
        let n = self.open_upvalues.len();
        let mut i: usize = 0;
        while i < n
            invariant
                self.inv(),
                n == self.open_upvalues@.len(),
                i <= n,
                self.open_upvalues == old(self).open_upvalues,
                self.stack == old(self).stack,
                self.frames == old(self).frames,
                self.globals == old(self).globals,
                self.init_string == old(self).init_string,
                forall|k: int| 0 <= k < kept@.len() ==> self.gc.is_live(#[trigger] kept@[k].0),
                forall|m: usize| #[trigger] self.gc.is_live(m) && !old(self).closes(pos, GcRef(m))
                    ==> self.gc.obj_at(m) == old(self).gc.obj_at(m),
                forall|m: usize| #[trigger] self.gc.is_live(m) == old(self).gc.is_live(m),
                forall|m: usize| #[trigger] self.upvalue_at(GcRef(m)) is Some == old(self).upvalue_at(GcRef(m)) is Some,
                forall|m: usize| #![trigger self.upvalue_at(GcRef(m))] old(self).upvalue_at(GcRef(m)) is Some ==> self.upvalue_at(
                    GcRef(m),
                ).unwrap().location == old(self).upvalue_at(GcRef(m)).unwrap().location,
                forall|k: int| 0 <= k < i ==> old(self).closes(pos, #[trigger] old(self).open_upvalues@[k]) ==> self.upvalue_at(
                    old(self).open_upvalues@[k],
                ) == Some(old(self).closed_upvalue(old(self).open_upvalues@[k])) && old(self).upvalue_at(
                    old(self).open_upvalues@[k],
                ).unwrap().location < old(self).stack@.len(),
                forall|j: int| 0 <= j < kept@.len() ==> !old(self).closes(pos, #[trigger] kept@[j]),
                kept@ == old(self).open_upvalues@.take(i as int).filter(old(self).stays_open(pos)),
                forall|k: int| 0 <= k < i ==> !old(self).closes(pos, #[trigger] old(self).open_upvalues@[k]) ==> gcrefs_set(
                    kept@,
                ).contains(old(self).open_upvalues@[k].0),
            decreases n - i,
        {
            let r = self.open_upvalues[i];
            assert(self.gc.is_live(self.open_upvalues@[i as int].0));
            let (is_upv, loc) = match self.gc.deref(r) {
                Obj::UpValue(u) => (true, u.location),
                _ => (false, 0),
            };
            if is_upv && loc >= pos {
                if loc >= self.stack.len() {
                    proof {
                        assert(self.upvalue_at(GcRef(r.0)) is Some);
                        assert(old(self).upvalue_at(GcRef(r.0)) is Some);
                        assert(old(self).closes(pos, old(self).open_upvalues@[i as int]));
                    }
                    return false;
                }
                let v = self.stack[loc];
                assert(self.gc.all_live(value_refs(self.stack@[loc as int])));
                let ghost g1 = self.gc;
                let ghost s1 = *self;
                let o = self.take_obj(r);
                match o {
                    Obj::UpValue(mut u) => {
                        u.closed = Some(v);
                        assert(obj_refs(Obj::UpValue(u)) == value_refs(v));
                        self.put_obj(r, Obj::UpValue(u));
                    },
                    other => {
                        self.put_obj(r, other);
                    },
                }
                proof {
                    assert forall|k: int| 0 <= k < kept@.len() implies self.gc.is_live(#[trigger] kept@[k].0) by {
                        assert(g1.is_live(kept@[k].0));
                    }
                    assert(old(self).upvalue_at(r) is Some);
                    assert(self.upvalue_at(r) == Some(old(self).closed_upvalue(r)));
                    assert forall|m: usize| #[trigger] self.upvalue_at(GcRef(m)) is Some == old(self).upvalue_at(GcRef(m)) is Some by {
                        if m != r.0 {
                            assert(s1.upvalue_at(GcRef(m)) == self.upvalue_at(GcRef(m)));
                        }
                    }
                    assert forall|m: usize| #![trigger self.upvalue_at(GcRef(m))] old(self).upvalue_at(GcRef(m)) is Some implies self.upvalue_at(
                        GcRef(m),
                    ).unwrap().location == old(self).upvalue_at(GcRef(m)).unwrap().location by {
                        if m != r.0 {
                            assert(s1.upvalue_at(GcRef(m)) == self.upvalue_at(GcRef(m)));
                        }
                    }
                    assert forall|k: int| 0 <= k < i + 1 && old(self).closes(pos, #[trigger] old(self).open_upvalues@[k]) implies self.upvalue_at(
                        old(self).open_upvalues@[k],
                    ) == Some(old(self).closed_upvalue(old(self).open_upvalues@[k])) by {
                        if k < i && old(self).open_upvalues@[k] != r {
                            assert(s1.upvalue_at(old(self).open_upvalues@[k]) == self.upvalue_at(old(self).open_upvalues@[k]));
                        }
                    }
                    assert forall|k: int| 0 <= k < i + 1 && !old(self).closes(pos, #[trigger] old(self).open_upvalues@[k]) implies gcrefs_set(
                        kept@,
                    ).contains(old(self).open_upvalues@[k].0) by {
                        if k == i {
                            assert(old(self).closes(pos, r));
                        }
                    }
                    reveal(Seq::filter);
                    let t = old(self).open_upvalues@.take(i + 1);
                    assert(t.drop_last() =~= old(self).open_upvalues@.take(i as int));
                    assert(t.last() == r);
                    assert(!(old(self).stays_open(pos))(r));
                }
            } else {
                let ghost kept0 = kept@;
                kept.push(r);
                proof {
                    assert forall|k: int| 0 <= k < kept@.len() implies self.gc.is_live(#[trigger] kept@[k].0) by {
                        if k == kept@.len() - 1 {
                            assert(kept@[k] == r);
                        }
                    }
                    assert(!old(self).closes(pos, r));
                    reveal(Seq::filter);
                    let t = old(self).open_upvalues@.take(i + 1);
                    assert(t.drop_last() =~= old(self).open_upvalues@.take(i as int));
                    assert(t.last() == r);
                    assert((old(self).stays_open(pos))(r));
                    assert forall|j: int| 0 <= j < kept@.len() implies !old(self).closes(pos, #[trigger] kept@[j]) by {
                        if j < kept0.len() {
                            assert(kept@[j] == kept0[j]);
                        }
                    }
                    assert forall|k: int| 0 <= k < i + 1 && !old(self).closes(pos, #[trigger] old(self).open_upvalues@[k]) implies gcrefs_set(
                        kept@,
                    ).contains(old(self).open_upvalues@[k].0) by {
                        if k < i {
                            assert(gcrefs_set(kept0).contains(old(self).open_upvalues@[k].0));
                            let q = choose|q: int| 0 <= q < kept0.len() && kept0[q] == GcRef(old(self).open_upvalues@[k].0);
                            assert(kept@[q] == kept0[q]);
                        } else if k == i {
                            assert(kept@[kept@.len() - 1] == r);
                        }
                    }
                }
            }
            i += 1;
        }
        let ghost after_loop = *self;
        assert(old(self).open_upvalues@.take(n as int) =~= old(self).open_upvalues@);
        self.open_upvalues = kept;
        proof {
            assert forall|j: int| 0 <= j < self.open_upvalues@.len() implies (self.upvalue_at(
                #[trigger] self.open_upvalues@[j],
            ) matches Some(uv) ==> uv.location < pos) by {
                let r = self.open_upvalues@[j];
                assert(!old(self).closes(pos, kept@[j]));
                assert(r == GcRef(r.0));
                if self.upvalue_at(r) is Some {
                    assert(after_loop.upvalue_at(GcRef(r.0)) is Some);
                    assert(old(self).upvalue_at(GcRef(r.0)) is Some);
                    assert(after_loop.upvalue_at(GcRef(r.0)).unwrap().location == old(self).upvalue_at(
                        GcRef(r.0),
                    ).unwrap().location);
                }
            }
        }
        true
    }

    /// Replaces the receiver on top of the stack by the method `name` of
    /// the class at `class_handle`, bound to that receiver.
    fn bind_method(&mut self, class_handle: GcRef, name: String) -> (r: Option<Action>)
        requires
            old(self).inv(),
        ensures
            final(self).inv(),
            r matches Some(a) ==> a is Failed,
            old(self).bind_result(old(self).stack@, class_handle, name@, final(self), r),
            (r matches Some(Action::Failed(_))) ==> final(self).frames@.len() == 0,
    {
        if !self.gc.is_allocated(class_handle) {
            return Some(self.fail("Internal Error: Expected a class reference."));
        }
        let method = match self.gc.deref(class_handle) {
            Obj::Class(c) => c.methods.get(&name),
            _ => return Some(self.fail("Internal Error: Expected a class reference.")),
        };
        match method {
            Some(Value::Obj(cl_ref)) => {
                proof {
                    let c = self.gc.obj_at(class_handle.0);
                    assert(self.gc.all_live(obj_refs(c)));
                    let t = c->Class_0.methods;
                    let k = choose|k: int| 0 <= k < t.values().len() && t.values()[k] == Value::Obj(cl_ref);
                    assert(values_refs(t.values()).contains(cl_ref.0));
                    assert(obj_refs(c).contains(cl_ref.0));
                }
                let is_closure = match self.gc.deref(cl_ref) {
                    Obj::Closure(_) => true,
                    _ => false,
                };
                if !is_closure {
                    return Some(self.fail("Internal Error: Method constant must be a closure."));
                }
                if self.stack.len() == 0 {
                    return Some(self.fail("Stack is empty"));
                }
                let receiver = self.peek(0);
                let mut extra: Vec<GcRef> = Vec::new();
                extra.push(cl_ref);
                if let Value::Obj(rr) = receiver {
                    extra.push(rr);
                }
                let bound = BoundMethod::new(receiver, cl_ref);
                proof {
                    assert forall|j: usize| #[trigger] obj_refs(Obj::BoundMethod(bound)).contains(j) implies exists|k: int| 0 <= k < extra@.len() && extra@[k].0 == j by {
                        if j == cl_ref.0 {
                            assert(extra@[0].0 == j);
                        } else {
                            assert(extra@[1].0 == j);
                        }
                    }
                    assert forall|k: int| 0 <= k < extra@.len() implies self.gc.is_live(#[trigger] extra@[k].0) by {
                        if k == 1 {
                            assert(value_refs(receiver).contains(extra@[1].0));
                        }
                    }
                }
                let m_ref = match self.alloc_obj(Obj::BoundMethod(bound), &extra, false) {
                    Some(m) => m,
                    None => return Some(self.fail("Out of memory.")),
                };
                if self.stack.len() == 0 {
                    return Some(self.fail("Stack is empty"));
                }
                self.pop();
                assert(value_refs(Value::Obj(m_ref)) =~= set![m_ref.0]);
                self.push(Value::Obj(m_ref));
                proof {
                    assert(self.gc.obj_at(m_ref.0) == Obj::BoundMethod(bound));
                    assert(self.bound_at(self.stack@.last()) == Some(bound));
                    assert(self.stack@.drop_last() =~= old(self).stack@.drop_last());
                    assert(old(self).methods_of(Value::Obj(class_handle)) is Some);
                    assert(old(self).methods_of(Value::Obj(class_handle)).unwrap()[name@] == Value::Obj(cl_ref));
                }
                None
            },
            _ => Some(self.fail_named("Undefined property '", &name, "'.")),
        }
    }

    /// Calls the method `name` of the instance `arg_count` places below the
    /// top of the stack: a field holding a callable first, else a method of
    /// its class.
    fn invoke(&mut self, name: String, arg_count: u8) -> (r: Option<Action>)
        requires
            old(self).inv(),
        ensures
            final(self).inv(),
            r matches Some(a) ==> a is Failed || a is CallNative,
            old(self).invoke_result(old(self).frames@, name@, arg_count as int, final(self), r),
            (r matches Some(Action::Failed(_))) ==> final(self).frames@.len() == 0,
    {
        if (arg_count as usize) >= self.stack.len() {
            return Some(self.fail("Stack is empty"));
        }
        if let Value::Obj(receiver_ref) = self.peek(arg_count as usize) {
            assert(value_refs(Value::Obj(receiver_ref)).contains(receiver_ref.0));
            let (field, class) = match self.gc.deref(receiver_ref) {
                Obj::Instance(instance) => (Some(instance.fields.get(&name)), instance.class),
                _ => (None, receiver_ref),
            };
            match field {
                Some(Some(value)) => {
                    proof {
                        let o = self.gc.obj_at(receiver_ref.0);
                        assert(self.gc.all_live(obj_refs(o)));
                        let t = o->Instance_0.fields;
                        assert forall|j: usize| #[trigger] value_refs(value).contains(j) implies self.gc.is_live(j) by {
                            let k = choose|k: int| 0 <= k < t.values().len() && t.values()[k] == value;
                            assert(values_refs(t.values()).contains(j));
                            assert(obj_refs(o).contains(j));
                        }
                    }
                    let pos = self.stack.len() - arg_count as usize - 1;
                    self.set_slot(pos, value);
                    return self.call_value(value, arg_count as usize);
                },
                Some(None) => {
                    proof {
                        let o = self.gc.obj_at(receiver_ref.0);
                        assert(obj_refs(o).contains(class.0));
                    }
                    return self.invoke_from_class(class, name, arg_count);
                },
                None => {
                    return Some(self.fail("Only instances have methods."));
                },
            }
        }
        let report = self.runtime_error(ErrorMessage::Silent);
        Some(Action::Failed(report))
    }

    /// Calls the method `name` of the class at `class`.
    fn invoke_from_class(&mut self, class: GcRef, name: String, arg_count: u8) -> (r: Option<Action>)
        requires
            old(self).inv(),
            old(self).gc.is_live(class.0),
        ensures
            final(self).inv(),
            r matches Some(a) ==> a is Failed,
            old(self).class_invoke_result(old(self).stack@, old(self).frames@, class, name@, arg_count as int, final(self), r),
            (r matches Some(Action::Failed(_))) ==> final(self).frames@.len() == 0,
    {
        let method = match self.gc.deref(class) {
            Obj::Class(klass) => klass.methods.get(&name),
            _ => {
                let report = self.runtime_error(ErrorMessage::Silent);
                return Some(Action::Failed(report));
            },
        };
        match method {
            Some(Value::Obj(c_ref)) => {
                proof {
                    let c = self.gc.obj_at(class.0);
                    assert(self.gc.all_live(obj_refs(c)));
                    let t = c->Class_0.methods;
                    let k = choose|k: int| 0 <= k < t.values().len() && t.values()[k] == Value::Obj(c_ref);
                    assert(values_refs(t.values()).contains(c_ref.0));
                    assert(obj_refs(c).contains(c_ref.0));
                }
                self.call(c_ref, arg_count as usize)
            },
            Some(_) => {
                let report = self.runtime_error(ErrorMessage::Silent);
                Some(Action::Failed(report))
            },
            None => Some(self.fail_named("Undefined property ", &name, ".")),
        }
    }

    /// Adds the closure on top of the stack as the method `name` of the
    /// class below it, and pops the closure.
    fn define_method(&mut self, name: String) -> (r: Option<Action>)
        requires
            old(self).inv(),
        ensures
            final(self).inv(),
            r matches Some(a) ==> a is Failed,
            old(self).stack@.len() >= 2 ==> {
                let n = old(self).stack@.len();
                let target = old(self).stack@[n - 2];
                match old(self).methods_of(target) {
                    Some(m) => r is None && final(self).stack@ == old(self).stack@.drop_last()
                        && final(self).methods_of(target) == Some(m.insert(name@, old(self).stack@.last())),
                    None => if target is Obj {
                        r is None && final(self).stack == old(self).stack
                    } else {
                        r is Some
                    },
                }
            },
            (r matches Some(Action::Failed(_))) ==> final(self).frames@.len() == 0,
    {
        if self.stack.len() < 2 {
            return Some(self.fail("Stack is empty"));
        }
        let method = self.peek(0);
        if let Value::Obj(class_obj) = self.peek(1) {
            assert(value_refs(Value::Obj(class_obj)).contains(class_obj.0));
            let is_class = match self.gc.deref(class_obj) {
                Obj::Class(_) => true,
                _ => false,
            };
            if is_class {
                self.table_insert(class_obj, name, method, true);
                proof {
                    self.lemma_roots_grow(old(self).gc, self.gc);
                }
                if self.stack.len() > 0 {
                    self.pop();
                }
            }
            None
        } else {
            Some(self.fail("Invalid state: trying to define a method of non class"))
        }
    }
}

impl Vm {
    /// A copy of the innermost call frame.
    fn current_frame(&self) -> (f: Option<CallFrame>)
        ensures
            f matches Some(fr) ==> self.frames@.len() > 0 && fr == self.frames@.last(),
            f is None ==> self.frames@.len() == 0,
    {
        let n = self.frames.len();
        if n == 0 {
            None
        } else {
            Some(self.frames[n - 1])
        }
    }

    /// Removes the innermost call frame.
    fn pop_frame(&mut self) -> (f: Option<CallFrame>)
        requires
            old(self).inv(),
        ensures
            final(self).inv(),
            f matches Some(fr) ==> old(self).frames@.len() > 0 && fr == old(self).frames@.last()
                && final(self).frames@ == old(self).frames@.drop_last(),
            f is None ==> old(self).frames@.len() == 0 && final(self).frames@ == old(self).frames@,
            final(self).stack == old(self).stack,
            final(self).gc == old(self).gc,
            final(self).globals == old(self).globals,
            final(self).open_upvalues == old(self).open_upvalues,
            final(self).init_string == old(self).init_string,
    {
        let f = self.frames.pop();
        proof {
            assert forall|i: int| 0 <= i < self.frames@.len() implies self.gc.is_live(#[trigger] self.frames@[i].closure.0) by {
                assert(old(self).frames@[i] == self.frames@[i]);
            }
        }
        f
    }

    /// Cuts the stack down to its first `len` values.
    fn truncate_stack(&mut self, len: usize)
        requires
            old(self).inv(),
        ensures
            final(self).inv(),
            len <= old(self).stack@.len() ==> final(self).stack@ == old(self).stack@.subrange(0, len as int),
            len > old(self).stack@.len() ==> final(self).stack@ == old(self).stack@,
            final(self).frames == old(self).frames,
            final(self).gc == old(self).gc,
            final(self).globals == old(self).globals,
            final(self).open_upvalues == old(self).open_upvalues,
            final(self).init_string == old(self).init_string,
    {
        self.stack.truncate(len);
        proof {
            assert forall|i: int| 0 <= i < self.stack@.len() implies self.gc.all_live(
                value_refs(#[trigger] self.stack@[i]),
            ) by {
                assert(old(self).stack@[i] == self.stack@[i]);
            }
        }
    }

    /// Stores a live value in a global variable.
    fn global_insert(&mut self, name: String, v: Value)
        requires
            old(self).inv(),
            old(self).value_live(v),
        ensures
            final(self).inv(),
            final(self).globals.view() == old(self).globals.view().insert(name@, v),
            final(self).stack == old(self).stack,
            final(self).frames == old(self).frames,
            final(self).gc == old(self).gc,
            final(self).open_upvalues == old(self).open_upvalues,
            final(self).init_string == old(self).init_string,
    {
        let ghost before = *self;
        self.globals.insert(name, v);
        proof {
            assert forall|j: usize| #[trigger] values_refs(self.globals.values()).contains(j) implies self.gc.is_live(j) by {
                assert(self.globals.values().contains(Value::Obj(GcRef(j))));
                if Value::Obj(GcRef(j)) != v {
                    assert(before.globals.values().contains(Value::Obj(GcRef(j))));
                    let k2 = choose|k2: int| 0 <= k2 < before.globals.values().len() && before.globals.values()[k2] == Value::Obj(GcRef(j));
                    assert(values_refs(before.globals.values()).contains(j));
                } else {
                    assert(value_refs(v).contains(j));
                }
            }
        }
    }

    /// Moves the instruction index of the innermost frame `offset` places
    /// forward, or back; `false` when that leaves the range of `usize` or
    /// there is no frame.
    fn jump(&mut self, forward: bool, offset: usize) -> (ok: bool)
        requires
            old(self).inv(),
        ensures
            final(self).inv(),
            final(self).stack == old(self).stack,
            final(self).gc == old(self).gc,
            final(self).globals == old(self).globals,
            final(self).open_upvalues == old(self).open_upvalues,
            final(self).init_string == old(self).init_string,
            final(self).frame_closures() == old(self).frame_closures(),
            final(self).frames@.len() == old(self).frames@.len(),
            ok == (old(self).frames@.len() > 0 && if forward {
                old(self).frames@.last().spec_ip() + offset <= usize::MAX
            } else {
                offset <= old(self).frames@.last().spec_ip()
            }),
            ok ==> final(self).frames@ == old(self).frames@.update(
                old(self).frames@.len() - 1,
                old(self).frames@.last().at_ip(
                    if forward {
                        old(self).frames@.last().spec_ip() + offset
                    } else {
                        old(self).frames@.last().spec_ip() - offset
                    },
                ),
            ),
            !ok ==> final(self).frames@ == old(self).frames@,
    {
        let n = self.frames.len();
        if n == 0 {
            return false;
        }
        let mut frame = self.frames[n - 1];
        if forward {
            match frame.ip.checked_add(offset) {
                Some(ip) => frame.ip = ip,
                None => return false,
            }
        } else {
            if frame.ip < offset {
                return false;
            }
            frame.ip = frame.ip - offset;
        }
        self.frames.set(n - 1, frame);
        proof {
            assert forall|i: int| 0 <= i < self.frames@.len() implies self.gc.is_live(#[trigger] self.frames@[i].closure.0) by {
                assert(old(self).frames@[i].closure == self.frames@[i].closure);
            }
            assert(self.frame_closures() =~= old(self).frame_closures());
        }
        true
    }
}


impl Vm {
    /// Pushes the constant `c` of the current function.
    fn op_constant(&mut self, c: u8) -> (a: Action)
        requires
            old(self).inv(),
        ensures
            final(self).inv(),
            old(self).current_constant(c) matches Some(v) ==> a == Action::Continue && final(self).stack@
                == old(self).stack@.push(v),
            a is Failed ==> final(self).frames@.len() == 0,
            !(a is Failed) ==> kept(*old(self), *final(self), true, true, true),
    {
        match self.read_constant(c) {
            Some(v) => {
                self.push(v);
                Action::Continue
            },
            None => self.fail("Invalid state reading constant"),
        }
    }

    /// Pops a value and hands it to the host to print.
    fn op_print(&mut self) -> (a: Action)
        requires
            old(self).inv(),
        ensures
            final(self).inv(),
            old(self).stack@.len() > 0 ==> final(self).stack@ == old(self).stack@.drop_last()
                && (a matches Action::Print(p) && old(self).printed_as(old(self).stack@.last(), p)),
            a is Failed ==> final(self).frames@.len() == 0,
            !(a is Failed) ==> kept(*old(self), *final(self), true, true, true),
    {
        if self.stack.len() == 0 {
            return self.fail("Stack is empty");
        }
        let v = self.pop();
        Action::Print(self.print_value(&v))
    }

    /// Pops the top value.
    fn op_pop(&mut self) -> (a: Action)
        requires
            old(self).inv(),
        ensures
            final(self).inv(),
            old(self).stack@.len() > 0 ==> final(self).stack@ == old(self).stack@.drop_last()
                && a == Action::Continue,
            a is Failed ==> final(self).frames@.len() == 0,
            !(a is Failed) ==> kept(*old(self), *final(self), true, true, true),
    {
        if self.stack.len() == 0 {
            return self.fail("Stack is empty");
        }
        self.pop();
        Action::Continue
    }

    /// The stack index of local `slot` of the innermost frame, if it is on
    /// the stack.
    fn local_index(&self, slot: u8) -> (r: Option<usize>)
        ensures
            r matches Some(i) ==> self.frames@.len() > 0 && i == self.frames@.last().slot + slot
                && i < self.stack@.len(),
            r is None ==> self.frames@.len() == 0 || self.frames@.last().slot + slot >= self.stack@.len(),
    {
        match self.current_frame() {
            Some(f) => {
                if f.slot < self.stack.len() && (slot as usize) < self.stack.len() - f.slot {
                    Some(f.slot + slot as usize)
                } else {
                    None
                }
            },
            None => None,
        }
    }

    /// Pushes local `slot` of the innermost frame.
    fn op_get_local(&mut self, slot: u8) -> (a: Action)
        requires
            old(self).inv(),
        ensures
            final(self).inv(),
            old(self).frames@.len() > 0 && old(self).frames@.last().slot + slot < old(self).stack@.len()
                ==> a == Action::Continue && final(self).stack@ == old(self).stack@.push(
                old(self).stack@[old(self).frames@.last().slot + slot],
            ),
            a is Failed ==> final(self).frames@.len() == 0,
            !(a is Failed) ==> kept(*old(self), *final(self), true, true, true),
    {
        match self.local_index(slot) {
            Some(i) => {
                let v = self.stack[i];
                proof {
                    assert(self.gc.all_live(value_refs(self.stack@[i as int])));
                }
                self.push(v);
                Action::Continue
            },
            None => self.fail("Stack index out of range."),
        }
    }

    /// Stores the top value in local `slot` of the innermost frame.
    fn op_set_local(&mut self, slot: u8) -> (a: Action)
        requires
            old(self).inv(),
        ensures
            final(self).inv(),
            old(self).frames@.len() > 0 && old(self).frames@.last().slot + slot < old(self).stack@.len()
                ==> a == Action::Continue && final(self).stack@ == old(self).stack@.update(
                old(self).frames@.last().slot + slot,
                old(self).stack@.last(),
            ),
            a is Failed ==> final(self).frames@.len() == 0,
            !(a is Failed) ==> kept(*old(self), *final(self), true, true, true),
    {
        match self.local_index(slot) {
            Some(i) => {
                let v = self.peek(0);
                self.set_slot(i, v);
                Action::Continue
            },
            None => self.fail("Stack index out of range."),
        }
    }

    /// Replaces the top value by whether it is false or nil.
    fn op_not(&mut self) -> (a: Action)
        requires
            old(self).inv(),
        ensures
            final(self).inv(),
            old(self).stack@.len() > 0 ==> a == Action::Continue && final(self).stack@
                == old(self).stack@.drop_last().push(
                Value::Bool(is_falsey_value(old(self).stack@.last())),
            ),
            a is Failed ==> final(self).frames@.len() == 0,
            !(a is Failed) ==> kept(*old(self), *final(self), true, true, true),
    {
        if self.stack.len() == 0 {
            return self.fail("Stack is empty");
        }
        let v = self.pop();
        let b = self.is_falsey(&v);
        self.push(Value::Bool(b));
        Action::Continue
    }

    /// Pops two numbers and hands them to the host with `op`; fails when
    /// either is not a number.
    fn op_binary(&mut self, op: ArithOp) -> (a: Action)
        requires
            old(self).inv(),
        ensures
            final(self).inv(),
            old(self).stack@.len() >= 2 ==> final(self).stack@ == old(self).stack@.subrange(
                0,
                old(self).stack@.len() - 2,
            ),
            old(self).stack@.len() >= 2 ==> match (
                old(self).stack@[old(self).stack@.len() - 2],
                old(self).stack@.last(),
            ) {
                (Value::Number(x), Value::Number(y)) => a == Action::Arith(op, x, y),
                _ => fails_with(a, "Operands must be numbers."@),
            },
            a is Failed ==> final(self).frames@.len() == 0,
            !(a is Failed) ==> kept(*old(self), *final(self), true, true, true),
    {
        if self.stack.len() < 2 {
            return self.fail("Stack is empty");
        }
        let b = self.pop();
        let a = self.pop();
        proof {
            assert(self.stack@ =~= old(self).stack@.subrange(0, old(self).stack@.len() - 2));
        }
        match (a, b) {
            (Value::Number(x), Value::Number(y)) => Action::Arith(op, x, y),
            _ => self.fail("Operands must be numbers."),
        }
    }

    /// Pops a number and hands it to the host to negate.
    fn op_negate(&mut self) -> (a: Action)
        requires
            old(self).inv(),
        ensures
            final(self).inv(),
            old(self).stack@.len() > 0 ==> final(self).stack@ == old(self).stack@.drop_last(),
            old(self).stack@.len() > 0 ==> match old(self).stack@.last() {
                Value::Number(x) => a == Action::Negate(x),
                _ => fails_with(a, "Operand must be a number"@),
            },
            a is Failed ==> final(self).frames@.len() == 0,
            !(a is Failed) ==> kept(*old(self), *final(self), true, true, true),
    {
        if self.stack.len() == 0 {
            return self.fail("Stack is empty");
        }
        match self.pop() {
            Value::Number(n) => Action::Negate(n),
            _ => self.fail("Operand must be a number"),
        }
    }
}

/// What an operation that starts a call hands back: `None` for
/// `Continue`, the action itself otherwise.
pub open spec fn started_or(a: Action) -> Option<Action> {
    if a is Continue {
        None
    } else {
        Some(a)
    }
}

/// What an instruction leaves alone, from `old` to `new`, besides what it
/// changes: `frames` says whether the frames stay, `globals` whether the
/// globals stay, `heap` whether the heap, the open captured variables and
/// the interned "init" string stay.
pub open spec fn kept(old: Vm, new: Vm, frames: bool, globals: bool, heap: bool) -> bool {
    &&& frames ==> new.frames == old.frames
    &&& globals ==> new.globals == old.globals
    &&& heap ==> new.gc == old.gc && new.open_upvalues == old.open_upvalues && new.init_string == old.init_string
}

/// Whether an instruction that does not fail leaves the frames as they
/// are (past the instruction itself).
pub open spec fn kept_frames(op: OpCode) -> bool {
    match op {
        OpCode::Constant(_) | OpCode::Nil | OpCode::True | OpCode::False | OpCode::Pop | OpCode::GetLocal(_)
        | OpCode::SetLocal(_) | OpCode::GetGlobal(_) | OpCode::DefineGlobal(_) | OpCode::SetGlobal(_)
        | OpCode::Equal | OpCode::Greater | OpCode::Less | OpCode::Add | OpCode::Subtract | OpCode::Multiply
        | OpCode::Divide | OpCode::Not | OpCode::Negate | OpCode::Print | OpCode::GetUpValue(_)
        | OpCode::SetUpValue(_) => true,
        _ => false,
    }
}

/// Whether an instruction that does not fail leaves the globals as they are.
pub open spec fn kept_globals(op: OpCode) -> bool {
    match op {
        OpCode::Constant(_) | OpCode::Nil | OpCode::True | OpCode::False | OpCode::Pop | OpCode::GetLocal(_)
        | OpCode::SetLocal(_) | OpCode::GetGlobal(_) | OpCode::Equal | OpCode::Greater | OpCode::Less
        | OpCode::Add | OpCode::Subtract | OpCode::Multiply | OpCode::Divide | OpCode::Not | OpCode::Negate
        | OpCode::Print | OpCode::GetUpValue(_) | OpCode::SetUpValue(_) | OpCode::Jump(_) | OpCode::Loop(_)
        | OpCode::JumpIfFalse(_) => true,
        _ => false,
    }
}

/// Whether an instruction that does not fail, handing `a` to the host,
/// leaves the heap as it is.
pub open spec fn kept_heap(op: OpCode, a: Action) -> bool {
    match op {
        OpCode::Constant(_) | OpCode::Nil | OpCode::True | OpCode::False | OpCode::Pop | OpCode::GetLocal(_)
        | OpCode::SetLocal(_) | OpCode::GetGlobal(_) | OpCode::DefineGlobal(_) | OpCode::SetGlobal(_)
        | OpCode::Equal | OpCode::Greater | OpCode::Less | OpCode::Subtract | OpCode::Multiply
        | OpCode::Divide | OpCode::Not | OpCode::Negate | OpCode::Print | OpCode::GetUpValue(_)
        | OpCode::Jump(_) | OpCode::Loop(_) | OpCode::JumpIfFalse(_) => true,
        OpCode::Add => a is Arith,
        _ => false,
    }
}

/// The heap cannot grow any more.
pub open spec fn heap_full(gc: Gc) -> bool {
    gc.capacity > usize::MAX / GC_HEAP_GROW_FACTOR
}

/// The machine failed with the message `msg`.
pub open spec fn fails_with(a: Action, msg: Seq<char>) -> bool {
    a matches Action::Failed(rep) && (rep.message matches ErrorMessage::Text(t) && t@ == msg)
}

/// Whether a value counts as false: `nil` and `false` do.
pub open spec fn is_falsey_value(v: Value) -> bool {
    v == Value::Nil || v == Value::Bool(false)
}


impl Vm {
    /// Whether two values are equal, as `equal_in` says.
    fn equal_values(&self, a: Value, b: Value) -> (r: Option<bool>)
        ensures
            r == self.equal_in(a, b),
    {
        if let (Value::Obj(r1), Value::Obj(r2)) = (a, b) {
            if let (Some(s1), Some(s2)) = (self.get_string(r1), self.get_string(r2)) {
                return Some(s1 == s2);
            }
        }
        values_equal(&a, &b)
    }

    /// Pops two values and pushes whether they are equal; two numbers go
    /// to the host.
    fn op_equal(&mut self) -> (a: Action)
        requires
            old(self).inv(),
        ensures
            final(self).inv(),
            old(self).stack@.len() >= 2 ==> {
                let n = old(self).stack@.len();
                let below = old(self).stack@[n - 2];
                let top = old(self).stack@[n - 1];
                let rest = old(self).stack@.subrange(0, n - 2);
                match old(self).equal_in(top, below) {
                    Some(e) => a == Action::Continue && final(self).stack@ == rest.push(Value::Bool(e)),
                    None => a == Action::Arith(ArithOp::Equal, below->Number_0, top->Number_0)
                        && final(self).stack@ == rest,
                }
            },
            a is Failed ==> final(self).frames@.len() == 0,
            !(a is Failed) ==> kept(*old(self), *final(self), true, true, true),
    {
        if self.stack.len() < 2 {
            return self.fail("Stack is empty");
        }
        let a = self.pop();
        let b = self.pop();
        proof {
            assert(self.stack@ =~= old(self).stack@.subrange(0, old(self).stack@.len() - 2));
        }
        match self.equal_values(a, b) {
            Some(e) => {
                self.push(Value::Bool(e));
                Action::Continue
            },
            None => match (b, a) {
                (Value::Number(x), Value::Number(y)) => Action::Arith(ArithOp::Equal, x, y),
                _ => Action::Continue,
            },
        }
    }

    /// Pops two values: two numbers go to the host to add; two strings are
    /// joined into a new string, which is pushed.
    fn op_add(&mut self) -> (a: Action)
        requires
            old(self).inv(),
        ensures
            final(self).inv(),
            old(self).stack@.len() >= 2 ==> {
                let n = old(self).stack@.len();
                let x = old(self).stack@[n - 2];
                let y = old(self).stack@[n - 1];
                let rest = old(self).stack@.subrange(0, n - 2);
                if x is Number && y is Number {
                    a == Action::Arith(ArithOp::Add, x->Number_0, y->Number_0) && final(self).stack@ == rest
                } else if old(self).string_value(x) is Some && old(self).string_value(y) is Some {
                    (fails_with(a, "Out of memory."@) && heap_full(final(self).gc)) || (a == Action::Continue
                        && final(self).stack@.len() == n - 1
                        && final(self).stack@.drop_last() == rest
                        && final(self).string_value(final(self).stack@.last()) == Some(
                        old(self).string_value(x).unwrap() + old(self).string_value(y).unwrap(),
                    ))
                } else {
                    fails_with(a, "Operands must be two numbers or two strings."@) && final(self).stack@
                        == old(self).stack@
                }
            },
            a is Failed ==> final(self).frames@.len() == 0,
            !(a is Failed) ==> kept(*old(self), *final(self), true, true, a is Arith),
    {
        if self.stack.len() < 2 {
            return self.fail("Stack is empty");
        }
        let b = self.pop();
        let a = self.pop();
        proof {
            assert(self.stack@ =~= old(self).stack@.subrange(0, old(self).stack@.len() - 2));
        }
        if let (Value::Number(x), Value::Number(y)) = (a, b) {
            return Action::Arith(ArithOp::Add, x, y);
        }
        if let (Value::Obj(r1), Value::Obj(r2)) = (a, b) {
            if let (Some(s1), Some(s2)) = (self.get_string(r1), self.get_string(r2)) {
                let t = concat(s1.as_str(), s2.as_str());
                let none: Vec<GcRef> = Vec::new();
                let ghost tv = t@;
                assert(obj_refs(Obj::String(t)) =~= Set::<usize>::empty());
                match self.alloc_obj(Obj::String(t), &none, true) {
                    Some(r) => {
                        assert(value_refs(Value::Obj(r)) =~= set![r.0]);
                        self.push(Value::Obj(r));
                        proof {
                            assert(self.stack@.drop_last() =~= old(self).stack@.subrange(0, old(self).stack@.len() - 2));
                        }
                        return Action::Continue;
                    },
                    None => return self.fail("Out of memory."),
                }
            }
        }
        self.push(a);
        self.push(b);
        proof {
            assert(self.stack@ =~= old(self).stack@);
        }
        self.fail("Operands must be two numbers or two strings.")
    }

    /// Pushes the value of the global named by constant `idx`.
    fn op_get_global(&mut self, idx: u8) -> (a: Action)
        requires
            old(self).inv(),
        ensures
            final(self).inv(),
            old(self).constant_string(idx) matches Some(name) ==> if old(self).globals.view().contains_key(name) {
                a == Action::Continue && final(self).stack@ == old(self).stack@.push(old(self).globals.view()[name])
            } else {
                fails_with(a, "Undefined variable '"@ + name + "'"@)
            },
            a is Failed ==> final(self).frames@.len() == 0,
            !(a is Failed) ==> kept(*old(self), *final(self), true, true, true),
    {
        let name = match self.read_string(idx) {
            Some(n) => n,
            None => return self.fail("Constant is not String!"),
        };
        match self.globals.get(&name) {
            Some(v) => {
                proof {
                    assert forall|j: usize| #[trigger] value_refs(v).contains(j) implies self.gc.is_live(j) by {
                        let k = choose|k: int| 0 <= k < self.globals.values().len() && self.globals.values()[k] == v;
                        assert(values_refs(self.globals.values()).contains(j));
                    }
                }
                self.push(v);
                Action::Continue
            },
            None => self.fail_named("Undefined variable '", &name, "'"),
        }
    }

    /// Pops a value into a new (or existing) global named by constant `idx`.
    fn op_define_global(&mut self, idx: u8) -> (a: Action)
        requires
            old(self).inv(),
        ensures
            final(self).inv(),
            old(self).constant_string(idx) matches Some(name) ==> old(self).stack@.len() > 0 ==> {
                &&& a == Action::Continue
                &&& final(self).stack@ == old(self).stack@.drop_last()
                &&& final(self).globals.view() == old(self).globals.view().insert(name, old(self).stack@.last())
            },
            a is Failed ==> final(self).frames@.len() == 0,
            !(a is Failed) ==> kept(*old(self), *final(self), true, false, true),
    {
        let name = match self.read_string(idx) {
            Some(n) => n,
            None => return self.fail("Constant is not String!"),
        };
        if self.stack.len() == 0 {
            return self.fail("Stack is empty");
        }
        let v = self.pop();
        self.global_insert(name, v);
        Action::Continue
    }

    /// Stores the top value in the existing global named by constant `idx`;
    /// fails when there is no such global.
    fn op_set_global(&mut self, idx: u8) -> (a: Action)
        requires
            old(self).inv(),
        ensures
            final(self).inv(),
            old(self).constant_string(idx) matches Some(name) ==> old(self).stack@.len() > 0 ==> if old(self).globals.view().contains_key(name) {
                &&& a == Action::Continue
                &&& final(self).stack@ == old(self).stack@
                &&& final(self).globals.view() == old(self).globals.view().insert(name, old(self).stack@.last())
            } else {
                fails_with(a, "Undefined variable '"@ + name + "'."@) && final(self).globals == old(self).globals
            },
            a is Failed ==> final(self).frames@.len() == 0,
            !(a is Failed) ==> kept(*old(self), *final(self), true, false, true),
    {
        let name = match self.read_string(idx) {
            Some(n) => n,
            None => return self.fail("Constant is not String!"),
        };
        if self.stack.len() == 0 {
            return self.fail("Stack is empty");
        }
        let v = self.peek(0);
        if self.globals.get(&name).is_none() {
            return self.fail_named("Undefined variable '", &name, "'.");
        }
        self.global_insert(name, v);
        Action::Continue
    }

    /// Jumps `offset` instructions forward or back.
    fn op_jump(&mut self, forward: bool, offset: u16) -> (a: Action)
        requires
            old(self).inv(),
        ensures
            final(self).inv(),
            a is Continue ==> final(self).frames@ == old(self).frames@.update(
                old(self).frames@.len() - 1,
                old(self).frames@.last().at_ip(
                    if forward {
                        old(self).frames@.last().spec_ip() + offset
                    } else {
                        old(self).frames@.last().spec_ip() - offset
                    },
                ),
            ) && final(self).stack == old(self).stack,
            !(a is Continue) ==> fails_with(a, "Jump out of range."@),
            a is Continue <==> (old(self).frames@.len() > 0 && if forward {
                old(self).frames@.last().spec_ip() + offset <= usize::MAX
            } else {
                offset <= old(self).frames@.last().spec_ip()
            }),
            a is Failed ==> final(self).frames@.len() == 0,
            !(a is Failed) ==> kept(*old(self), *final(self), false, true, true),
    {
        if self.jump(forward, offset as usize) {
            Action::Continue
        } else {
            self.fail("Jump out of range.")
        }
    }

    /// Jumps `offset` instructions forward when the top value counts as false.
    fn op_jump_if_false(&mut self, offset: u16) -> (a: Action)
        requires
            old(self).inv(),
        ensures
            final(self).inv(),
            old(self).stack@.len() > 0 && !is_falsey_value(old(self).stack@.last()) ==> a == Action::Continue
                && final(self).frames == old(self).frames && final(self).stack == old(self).stack,
            a is Continue || a is Failed,
            old(self).stack@.len() > 0 && is_falsey_value(old(self).stack@.last()) && a is Continue ==> final(self).stack == old(self).stack,
            old(self).stack@.len() > 0 && is_falsey_value(old(self).stack@.last()) ==> (a is Continue <==> (old(self).frames@.len() > 0
                && old(self).frames@.last().spec_ip() + offset <= usize::MAX)),
            !(a is Continue) ==> a is Failed,
            old(self).stack@.len() > 0 && !(a is Continue) ==> fails_with(a, "Jump out of range."@),
            old(self).stack@.len() > 0 && is_falsey_value(old(self).stack@.last()) && a is Continue ==> final(self).frames@
                == old(self).frames@.update(
                old(self).frames@.len() - 1,
                old(self).frames@.last().at_ip(old(self).frames@.last().spec_ip() + offset),
            ),
            a is Failed ==> final(self).frames@.len() == 0,
            !(a is Failed) ==> kept(*old(self), *final(self), false, true, true),
    {
        if self.stack.len() == 0 {
            return self.fail("Stack is empty");
        }
        let v = self.peek(0);
        if self.is_falsey(&v) {
            self.op_jump(true, offset)
        } else {
            Action::Continue
        }
    }

    /// Calls the value `arg_count` places below the top of the stack.
    fn op_call(&mut self, arg_count: u8) -> (a: Action)
        requires
            old(self).inv(),
        ensures
            final(self).inv(),
            old(self).call_effect(arg_count, old(self).frames@, final(self), a),
            a is Failed ==> final(self).frames@.len() == 0,
    {
        let n = arg_count as usize;
        if n >= self.stack.len() {
            return self.fail("Stack is empty");
        }
        let callee = self.peek(n);
        match self.call_value(callee, n) {
            Some(a) => a,
            None => Action::Continue,
        }
    }

    /// Returns from the innermost frame: closes its captured variables,
    /// drops its slots, and pushes the result; `Finished` when it was the
    /// outermost frame.
    fn op_return(&mut self) -> (a: Action)
        requires
            old(self).inv(),
        ensures
            final(self).inv(),
            a is Finished ==> final(self).frames@.len() == 0,
            a is Continue ==> final(self).frames@ == old(self).frames@.drop_last()
                && final(self).frames@.len() > 0
                && final(self).stack@ == old(self).stack@.subrange(0, old(self).frames@.last().spec_slot() as int).push(old(self).stack@.last()),
            a is Finished || a is Continue || a is Failed,
            !(a is Failed) ==> old(self).closed_from(old(self).frames@.last().spec_slot(), final(self)),
            a is Finished ==> old(self).frames@.len() == 1 && final(self).stack@ == old(self).stack@.drop_last(),
            a is Failed ==> old(self).stack@.len() == 0 || old(self).frames@.len() == 0 || old(self).open_past(
                old(self).frames@.last().spec_slot(),
                old(self).stack@.len() - 1,
            ) || (old(self).frames@.len() > 1 && old(self).frames@.last().spec_slot() > old(self).stack@.len() - 1),
            a is Failed ==> final(self).frames@.len() == 0,
    {
        if self.stack.len() == 0 {
            return self.fail("Stack is empty");
        }
        let ghost pre = *self;
        let res = self.pop();
        let ghost popped = *self;
        let frame = match self.pop_frame() {
            Some(f) => f,
            None => return self.fail("No frame to pop."),
        };
        let ghost mid = *self;
        if !self.close_upvalues(frame.slot) {
            return self.fail("Invalid frame state");
        }
        proof {
            pre.lemma_closed_from_popped(&mid, frame.slot, &*self);
        }
        if self.frames.len() == 0 {
            return Action::Finished;
        }
        if frame.slot > self.stack.len() {
            return self.fail("Stack is empty");
        }
        self.truncate_stack(frame.slot);
        self.push(res);
        Action::Continue
    }
}


impl Vm {
    /// The captured variable `slot` of the innermost frame's closure.
    fn closure_upvalue(&self, slot: u8) -> (r: Option<GcRef>)
        requires
            self.inv(),
        ensures
            r matches Some(g) ==> self.gc.is_live(g.0),
            r == self.frame_upvalue(slot),
    {
        let frame = match self.current_frame() {
            Some(f) => f,
            None => return None,
        };
        proof {
            assert(self.gc.is_live(self.frames@[self.frames@.len() - 1].closure.0));
        }
        match self.gc.deref(frame.closure) {
            Obj::Closure(c) => {
                if (slot as usize) < c.upvalues.len() {
                    let g = c.upvalues[slot as usize];
                    proof {
                        assert(gcrefs_set(c.upvalues@).contains(g.0));
                        assert(obj_refs(self.gc.obj_at(frame.closure.0)).contains(g.0));
                    }
                    Some(g)
                } else {
                    None
                }
            },
            _ => None,
        }
    }

    /// Pushes the value of captured variable `slot`.
    fn op_get_upvalue(&mut self, slot: u8) -> (a: Action)
        requires
            old(self).inv(),
        ensures
            final(self).inv(),
            a is Continue ==> final(self).stack@.drop_last() == old(self).stack@ && final(self).stack@.len()
                == old(self).stack@.len() + 1,
            a is Continue || a is Failed,
            old(self).get_upvalue_effect(slot, final(self), a),
            a is Failed ==> final(self).frames@.len() == 0,
            !(a is Failed) ==> kept(*old(self), *final(self), true, true, true),
    {
        let upv_ref = match self.closure_upvalue(slot) {
            Some(r) => r,
            None => return self.fail("Not a closure"),
        };
        let (is_upv, closed, loc) = match self.gc.deref(upv_ref) {
            Obj::UpValue(u) => (true, u.closed, u.location),
            _ => (false, None, 0),
        };
        if !is_upv {
            return self.fail("Not an upvalue");
        }
        let v = match closed {
            Some(v) => {
                proof {
                    assert(self.gc.all_live(obj_refs(self.gc.obj_at(upv_ref.0))));
                }
                v
            },
            None => {
                if loc >= self.stack.len() {
                    return self.fail("Stack index out of range.");
                }
                proof {
                    assert(self.gc.all_live(value_refs(self.stack@[loc as int])));
                }
                self.stack[loc]
            },
        };
        self.push(v);
        Action::Continue
    }

    /// Stores the top value in captured variable `slot`: in its stack slot
    /// while it is open, in itself once closed.
    fn op_set_upvalue(&mut self, slot: u8) -> (a: Action)
        requires
            old(self).inv(),
        ensures
            final(self).inv(),
            a is Continue || a is Failed,
            old(self).set_upvalue_effect(slot, final(self), a),
            a is Failed ==> final(self).frames@.len() == 0,
            !(a is Failed) ==> kept(*old(self), *final(self), true, true, false),
    {
        let upv_ref = match self.closure_upvalue(slot) {
            Some(r) => r,
            None => return self.fail("Not a closure"),
        };
        if self.stack.len() == 0 {
            return self.fail("Stack is empty");
        }
        let value = self.peek(0);
        let (is_upv, is_open, loc) = match self.gc.deref(upv_ref) {
            Obj::UpValue(u) => (true, u.closed.is_none(), u.location),
            _ => (false, false, 0),
        };
        if is_upv {
            if is_open {
                if loc >= self.stack.len() {
                    return self.fail("Stack index out of range.");
                }
                self.set_slot(loc, value);
            } else {
                let o = self.take_obj(upv_ref);
                match o {
                    Obj::UpValue(mut u) => {
                        u.closed = Some(value);
                        assert(obj_refs(Obj::UpValue(u)) == value_refs(value));
                        self.put_obj(upv_ref, Obj::UpValue(u));
                    },
                    other => self.put_obj(upv_ref, other),
                }
            }
        }
        Action::Continue
    }

    /// Closes the captured variables of the top slot and pops it.
    fn op_close_upvalue(&mut self) -> (a: Action)
        requires
            old(self).inv(),
        ensures
            final(self).inv(),
            a is Continue ==> final(self).stack@ == old(self).stack@.drop_last(),
            a is Continue || a is Failed,
            a is Continue ==> old(self).closed_from((old(self).stack@.len() - 1) as usize, final(self)),
            a is Failed ==> old(self).stack@.len() == 0 || old(self).open_past(
                (old(self).stack@.len() - 1) as usize,
                old(self).stack@.len() as int,
            ),
            a is Failed ==> final(self).frames@.len() == 0,
    {
        if self.stack.len() == 0 {
            return self.fail("Stack is empty");
        }
        let pos = self.stack.len() - 1;
        if !self.close_upvalues(pos) {
            return self.fail("Invalid frame state");
        }
        self.pop();
        Action::Continue
    }

    /// Makes a closure of the function constant `c`, capturing the variables
    /// that the function names, and pushes it.
    fn op_closure(&mut self, c: u8) -> (a: Action)
        requires
            old(self).inv(),
        ensures
            final(self).inv(),
            a is Continue ==> final(self).stack@.drop_last() == old(self).stack@ && final(self).stack@.len()
                == old(self).stack@.len() + 1,
            a is Continue || a is Failed,
            a is Continue ==> old(self).made_closure(c, final(self), final(self).stack@.last()),
            a is Failed ==> !old(self).closure_ok(c) || heap_full(final(self).gc),
            a is Failed ==> final(self).frames@.len() == 0,
    {
        let func_ref = match self.read_constant(c) {
            Some(Value::Obj(r)) => r,
            _ => return self.fail("Closure without function value."),
        };
        assert(value_refs(Value::Obj(func_ref)).contains(func_ref.0));
        let mut descs: Vec<crate::object::FnUpValue> = Vec::new();
        match self.gc.deref(func_ref) {
            Obj::Function(f) => {
                let mut i: usize = 0;
                while i < f.upvalues.len()
                    invariant
                        i <= f.upvalues@.len(),
                        descs@ == f.upvalues@.take(i as int),
                    decreases f.upvalues.len() - i,
                {
                    descs.push(f.upvalues[i]);
                    i += 1;
                }
            },
            _ => return self.fail("Expected function for closure."),
        }
        let ghost g0 = self.gc;
        proof {
            assert(g0.obj_at(func_ref.0) is Function);
            assert(g0.is_live(func_ref.0));
            assert(descs@ =~= g0.obj_at(func_ref.0)->Function_0.upvalues@);
        }
        let frame = match self.current_frame() {
            Some(f) => f,
            None => return self.fail("Not a closure"),
        };
        let mut extra: Vec<GcRef> = Vec::new();
        extra.push(func_ref);
        let mut ups: Vec<GcRef> = Vec::new();
        let mut i: usize = 0;
        while i < descs.len()
            invariant
                self.inv(),
                self.stack == old(self).stack,
                i <= descs@.len(),
                extra@.len() == ups@.len() + 1,
                extra@[0] == func_ref,
                ups@.len() == i,
                forall|k: int| 0 <= k < ups@.len() ==> #[trigger] ups@[k] == extra@[k + 1],
                forall|k: int| 0 <= k < extra@.len() ==> self.gc.is_live(#[trigger] extra@[k].0),
                self.frames == old(self).frames,
                old(self).frames@.len() > 0,
                frame == old(self).frames@.last(),
                descs@ == g0.obj_at(func_ref.0)->Function_0.upvalues@,
                g0 == old(self).gc,
                old(self).current_constant(c) == Some(Value::Obj(func_ref)),
                g0.is_live(func_ref.0),
                g0.obj_at(func_ref.0) is Function,
                forall|x: u8| #[trigger] self.frame_upvalue(x) == old(self).frame_upvalue(x),
                forall|k: int|
                    0 <= k < i && descs@[k].is_local ==> (self.upvalue_at(#[trigger] ups@[k]) matches Some(uv)
                        && uv.location == frame.slot + descs@[k].index),
                forall|k: int|
                    0 <= k < i && !descs@[k].is_local ==> old(self).frame_upvalue(descs@[k].index) == Some(
                        #[trigger] ups@[k],
                    ),
            decreases descs.len() - i,
        {
            let d = descs[i];
            let ghost before = *self;
            let ghost ups0 = ups@;
            let upv = if d.is_local {
                let loc = match frame.slot.checked_add(d.index as usize) {
                    Some(l) => l,
                    None => {
                        proof {
                            let f = g0.obj_at(func_ref.0)->Function_0;
                            assert(descs@[i as int] == f.upvalues@[i as int]);
                        }
                        return self.fail("Stack index out of range.");
                    },
                };
                let r = match self.capture_upvalue(loc, &extra) {
                    Some(r) => r,
                    None => return self.fail("Out of memory."),
                };
                proof {
                    let c0 = before.frames@.last().closure;
                    assert(before.frames@[before.frames@.len() - 1].closure.0 == c0.0);
                    assert(before.is_root(c0.0));
                    assert(self.gc.is_live(self.frames@[self.frames@.len() - 1].closure.0));
                    if !before.has_open_at(loc) {
                        assert(c0.0 != r.0);
                        assert(self.gc.obj_at(c0.0) == before.gc.obj_at(c0.0));
                    }
                    assert forall|x: u8| #[trigger] self.frame_upvalue(x) == old(self).frame_upvalue(x) by {
                        assert(before.frame_upvalue(x) == old(self).frame_upvalue(x));
                    }
                    assert forall|k: int|
                        0 <= k < i && descs@[k].is_local implies (self.upvalue_at(#[trigger] ups0[k]) matches Some(uv)
                            && uv.location == frame.slot + descs@[k].index) by {
                        assert(ups0[k] == extra@[k + 1]);
                        assert(self.gc.obj_at(extra@[k + 1].0) == before.gc.obj_at(extra@[k + 1].0));
                        assert(before.upvalue_at(ups0[k]) == self.upvalue_at(ups0[k]));
                    }
                }
                r
            } else {
                match self.closure_upvalue(d.index) {
                    Some(r) => r,
                    None => {
                        proof {
                            let f = g0.obj_at(func_ref.0)->Function_0;
                            assert(descs@[i as int] == f.upvalues@[i as int]);
                            assert(old(self).frame_upvalue(f.upvalues@[i as int].index) is None);
                        }
                        return self.fail("Not a closure");
                    },
                }
            };
            ups.push(upv);
            extra.push(upv);
            proof {
                assert forall|k: int| 0 <= k < ups@.len() implies #[trigger] ups@[k] == extra@[k + 1] by {}
                assert forall|k: int|
                    0 <= k < i + 1 && descs@[k].is_local implies (self.upvalue_at(#[trigger] ups@[k]) matches Some(uv)
                        && uv.location == frame.slot + descs@[k].index) by {
                    if k < i {
                        assert(ups@[k] == ups0[k]);
                    }
                }
                assert forall|k: int|
                    0 <= k < i + 1 && !descs@[k].is_local implies old(self).frame_upvalue(descs@[k].index) == Some(
                        #[trigger] ups@[k],
                    ) by {
                    if k < i {
                        assert(ups@[k] == ups0[k]);
                    }
                }
            }
            i += 1;
        }
        let clos = Closure { function: func_ref, upvalues: ups };
        proof {
            assert forall|j: usize| #[trigger] obj_refs(Obj::Closure(clos)).contains(j) implies exists|k: int|
                0 <= k < extra@.len() && extra@[k].0 == j by {
                if j == func_ref.0 {
                    assert(extra@[0].0 == j);
                } else {
                    assert(gcrefs_set(clos.upvalues@).contains(j));
                    let k = choose|k: int| 0 <= k < clos.upvalues@.len() && clos.upvalues@[k] == GcRef(j);
                    assert(extra@[k + 1].0 == j);
                }
            }
        }
        let ghost pre_alloc = *self;
        let clos_ref = match self.alloc_obj(Obj::Closure(clos), &extra, true) {
            Some(r) => r,
            None => return self.fail("Out of memory."),
        };
        assert(value_refs(Value::Obj(clos_ref)) =~= set![clos_ref.0]);
        self.push(Value::Obj(clos_ref));
        proof {
            assert(self.gc.obj_at(clos_ref.0) == Obj::Closure(clos));
            assert(old(self).current_constant(c) == Some(Value::Obj(func_ref)));
            assert forall|k: int| 0 <= k < clos.upvalues@.len() && descs@[k].is_local implies (self.upvalue_at(
                #[trigger] clos.upvalues@[k],
            ) matches Some(uv) && uv.location == frame.slot + descs@[k].index) by {
                assert(clos.upvalues@[k] == extra@[k + 1]);
                assert(self.gc.is_live(extra@[k + 1].0));
                assert(extra@[k + 1].0 != clos_ref.0);
                assert(pre_alloc.upvalue_at(clos.upvalues@[k]) == self.upvalue_at(clos.upvalues@[k]));
            }
        }
        Action::Continue
    }
}

impl Vm {
    /// Makes a class named by the string constant `idx` and pushes it.
    fn op_class(&mut self, idx: u8) -> (a: Action)
        requires
            old(self).inv(),
        ensures
            final(self).inv(),
            a is Continue ==> final(self).stack@.drop_last() == old(self).stack@ && final(self).stack@.len()
                == old(self).stack@.len() + 1,
            a is Continue || a is Failed,
            old(self).constant_string(idx) is None ==> a is Failed,
            a is Failed ==> old(self).constant_string(idx) is None || heap_full(final(self).gc),
            a is Continue ==> final(self).methods_of(final(self).stack@.last()) == Some(
                Map::<Seq<char>, Value>::empty(),
            ),
            a is Failed ==> final(self).frames@.len() == 0,
    {
        let name_ref = match self.read_string_gcref(idx) {
            Some(r) => r,
            None => return self.fail("Constant is not String!"),
        };
        let class = Class::new(name_ref);
        let mut extra: Vec<GcRef> = Vec::new();
        extra.push(name_ref);
        proof {
            assert(values_refs(class.methods.values()) =~= Set::<usize>::empty());
            assert forall|j: usize| #[trigger] obj_refs(Obj::Class(class)).contains(j) implies exists|k: int|
                0 <= k < extra@.len() && extra@[k].0 == j by {
                assert(extra@[0].0 == j);
            }
        }
        let class_ref = match self.alloc_obj(Obj::Class(class), &extra, false) {
            Some(r) => r,
            None => return self.fail("Out of memory."),
        };
        assert(value_refs(Value::Obj(class_ref)) =~= set![class_ref.0]);
        self.push(Value::Obj(class_ref));
        Action::Continue
    }

    /// Sets the field named by constant `idx` of the instance below the top
    /// value to that value, leaving the value alone on top.
    fn op_set_property(&mut self, idx: u8) -> (a: Action)
        requires
            old(self).inv(),
        ensures
            final(self).inv(),
            a is Continue ==> final(self).stack@ == old(self).stack@.subrange(0, old(self).stack@.len() - 2).push(old(self).stack@.last()),
            a is Continue || a is Failed,
            old(self).stack@.len() >= 2 && old(self).constant_string(idx) is Some ==> {
                let n = old(self).stack@.len();
                let target = old(self).stack@[n - 2];
                match old(self).fields_of(target) {
                    Some(f) => a == Action::Continue && final(self).fields_of(target) == Some(
                        f.insert(old(self).constant_string(idx).unwrap(), old(self).stack@.last()),
                    ),
                    None => fails_with(a, "Only instances have fields."@),
                }
            },
            a is Failed ==> final(self).frames@.len() == 0,
    {
        if self.stack.len() < 2 {
            return self.fail("Stack is empty");
        }
        let value = self.peek(0);
        let p_name = match self.read_string(idx) {
            Some(n) => n,
            None => return self.fail("Constant is not String!"),
        };
        if let Value::Obj(instance_ref) = self.peek(1) {
            assert(value_refs(Value::Obj(instance_ref)).contains(instance_ref.0));
            let is_instance = match self.gc.deref(instance_ref) {
                Obj::Instance(_) => true,
                _ => false,
            };
            if is_instance {
                self.table_insert(instance_ref, p_name, value, false);
                proof {
                    self.lemma_roots_grow(old(self).gc, self.gc);
                }
                let ghost mid = self.stack@;
                self.pop();
                self.pop();
                assert(value_refs(value).subset_of(value_refs(value)));
                self.push(value);
                proof {
                    assert(self.stack@ =~= old(self).stack@.subrange(0, old(self).stack@.len() - 2).push(old(self).stack@.last()));
                }
                return Action::Continue;
            }
        }
        self.fail("Only instances have fields.")
    }

    /// Replaces the instance on top by its field named by constant `idx`,
    /// or by its class's method of that name bound to it.
    fn op_get_property(&mut self, idx: u8) -> (a: Action)
        requires
            old(self).inv(),
        ensures
            final(self).inv(),
            a is Continue || a is Failed,
            old(self).stack@.len() > 0 && old(self).constant_string(idx) is Some ==> {
                let name = old(self).constant_string(idx).unwrap();
                match old(self).fields_of(old(self).stack@.last()) {
                    Some(f) => if f.contains_key(name) {
                        a == Action::Continue && final(self).stack@ == old(self).stack@.drop_last().push(f[name])
                    } else {
                        old(self).bind_result(
                            old(self).stack@,
                            old(self).instance_class(old(self).stack@.last()).unwrap(),
                            name,
                            final(self),
                            started_or(a),
                        )
                    },
                    None => if old(self).stack@.last() is Obj {
                        fails_with(a, "Only instances have properties."@)
                    } else {
                        fails_with(a, "Undefined property '"@ + name + "'."@)
                    },
                }
            },
            a is Failed ==> final(self).frames@.len() == 0,
    {
        let p_name = match self.read_string(idx) {
            Some(n) => n,
            None => return self.fail("Constant is not String!"),
        };
        if self.stack.len() == 0 {
            return self.fail("Stack is empty");
        }
        if let Value::Obj(instance_ref) = self.peek(0) {
            assert(value_refs(Value::Obj(instance_ref)).contains(instance_ref.0));
            let (field, class) = match self.gc.deref(instance_ref) {
                Obj::Instance(instance) => (Some(instance.fields.get(&p_name)), instance.class),
                _ => (None, instance_ref),
            };
            match field {
                Some(Some(val)) => {
                    proof {
                        let o = self.gc.obj_at(instance_ref.0);
                        assert(self.gc.all_live(obj_refs(o)));
                        let t = o->Instance_0.fields;
                        assert forall|j: usize| #[trigger] value_refs(val).contains(j) implies self.gc.is_live(j) by {
                            let k = choose|k: int| 0 <= k < t.values().len() && t.values()[k] == val;
                            assert(values_refs(t.values()).contains(j));
                            assert(obj_refs(o).contains(j));
                        }
                    }
                    self.pop();
                    self.push(val);
                    Action::Continue
                },
                Some(None) => match self.bind_method(class, p_name) {
                    Some(a) => a,
                    None => Action::Continue,
                },
                None => self.fail("Only instances have properties."),
            }
        } else {
            self.fail_named("Undefined property '", &p_name, "'.")
        }
    }

    /// Adds the closure on top as the method named by constant `c` of the
    /// class below it.
    fn op_method(&mut self, c: u8) -> (a: Action)
        requires
            old(self).inv(),
        ensures
            final(self).inv(),
            a is Continue || a is Failed,
            old(self).stack@.len() >= 2 && old(self).constant_string(c) is Some ==> {
                let n = old(self).stack@.len();
                let target = old(self).stack@[n - 2];
                match old(self).methods_of(target) {
                    Some(m) => a == Action::Continue && final(self).stack@ == old(self).stack@.drop_last()
                        && final(self).methods_of(target) == Some(
                        m.insert(old(self).constant_string(c).unwrap(), old(self).stack@.last()),
                    ),
                    None => if target is Obj {
                        a == Action::Continue && final(self).stack == old(self).stack
                    } else {
                        a is Failed
                    },
                }
            },
            a is Failed ==> final(self).frames@.len() == 0,
    {
        let name = match self.read_string(c) {
            Some(n) => n,
            None => return self.fail("Constant is not String!"),
        };
        match self.define_method(name) {
            Some(a) => a,
            None => Action::Continue,
        }
    }

    /// Calls the method named by constant `idx` of the receiver below the
    /// `arg_count` arguments.
    fn op_invoke(&mut self, idx: u8, arg_count: u8) -> (a: Action)
        requires
            old(self).inv(),
        ensures
            final(self).inv(),
            a is Continue || a is Failed || a is CallNative,
            old(self).constant_string(idx) matches Some(name) ==> old(self).invoke_result(
                old(self).frames@,
                name,
                arg_count as int,
                final(self),
                started_or(a),
            ),
            a is Failed ==> final(self).frames@.len() == 0,
    {
        let method = match self.read_string(idx) {
            Some(n) => n,
            None => return self.fail("Constant is not String!"),
        };
        match self.invoke(method, arg_count) {
            Some(a) => a,
            None => Action::Continue,
        }
    }

    /// Pops a superclass and calls its method named by constant `idx`.
    fn op_super_invoke(&mut self, idx: u8, arg_count: u8) -> (a: Action)
        requires
            old(self).inv(),
        ensures
            final(self).inv(),
            a is Continue || a is Failed,
            old(self).constant_string(idx) is Some && old(self).stack@.len() > 0 ==> match old(self).stack@.last() {
                Value::Obj(sup) => old(self).class_invoke_result(
                    old(self).stack@.drop_last(),
                    old(self).frames@,
                    sup,
                    old(self).constant_string(idx).unwrap(),
                    arg_count as int,
                    final(self),
                    started_or(a),
                ),
                _ => a == Action::Continue && final(self).stack@ == old(self).stack@.drop_last(),
            },
            a is Failed ==> final(self).frames@.len() == 0,
    {
        let method = match self.read_string(idx) {
            Some(n) => n,
            None => return self.fail("Constant is not String!"),
        };
        if self.stack.len() == 0 {
            return self.fail("Stack is empty");
        }
        let super_class = self.pop();
        if let Value::Obj(sup_ref) = super_class {
            assert(value_refs(super_class).contains(sup_ref.0));
            match self.invoke_from_class(sup_ref, method, arg_count) {
                Some(a) => a,
                None => Action::Continue,
            }
        } else {
            Action::Continue
        }
    }

    /// Copies the methods of the superclass below the top into the
    /// subclass on top, and pops the subclass.
    fn op_inherit(&mut self) -> (a: Action)
        requires
            old(self).inv(),
        ensures
            final(self).inv(),
            a is Continue ==> final(self).stack@ == old(self).stack@.drop_last(),
            a is Continue || a is Failed,
            old(self).stack@.len() >= 2 ==> {
                let n = old(self).stack@.len();
                let sup = old(self).stack@[n - 2];
                let sub = old(self).stack@[n - 1];
                if sup is Obj && sub is Obj {
                    match (old(self).methods_of(sup), old(self).methods_of(sub)) {
                        (Some(m), Some(_)) => a == Action::Continue && final(self).methods_of(sub) == Some(m),
                        (None, _) => fails_with(a, "Superclass must be a class."@),
                        (Some(_), None) => fails_with(a, "Subclass must be a class."@),
                    }
                } else {
                    a == Action::Continue
                }
            },
            a is Failed ==> final(self).frames@.len() == 0,
    {
        if self.stack.len() < 2 {
            return self.fail("Stack is empty");
        }
        let superclass = self.peek(1);
        let subclass = self.peek(0);
        if let (Value::Obj(sup), Value::Obj(sub)) = (superclass, subclass) {
            assert(value_refs(superclass).contains(sup.0));
            assert(value_refs(subclass).contains(sub.0));
            let methods = match self.gc.deref(sup) {
                Obj::Class(c) => c.methods.copy(),
                _ => return self.fail("Superclass must be a class."),
            };
            proof {
                let o = self.gc.obj_at(sup.0);
                assert(self.gc.all_live(obj_refs(o)));
                assert forall|j: usize| #[trigger] values_refs(methods.values()).contains(j) implies self.gc.is_live(j) by {
                    assert(obj_refs(o).contains(j));
                }
            }
            let ghost g0 = self.gc;
            let o = self.take_obj(sub);
            let ghost og = o;
            match o {
                Obj::Class(mut c) => {
                    proof {
                        assert(obj_refs(og).contains(c.name.0));
                        assert(self.gc.is_live(c.name.0));
                        assert forall|j: usize| #[trigger] values_refs(methods.values()).contains(j) implies self.gc.is_live(j) by {
                            assert(g0.is_live(j));
                        }
                    }
                    c.methods = methods;
                    assert(obj_refs(Obj::Class(c)) =~= set![c.name.0].union(values_refs(c.methods.values())));
                    self.put_obj(sub, Obj::Class(c));
                },
                other => {
                    self.put_obj(sub, other);
                    return self.fail("Subclass must be a class.");
                },
            }
            proof {
                self.lemma_roots_grow(old(self).gc, self.gc);
            }
        }
        self.pop();
        Action::Continue
    }

    /// Pops a superclass and replaces the receiver on top by its method
    /// named by constant `idx`, bound to that receiver.
    fn op_get_super(&mut self, idx: u8) -> (a: Action)
        requires
            old(self).inv(),
        ensures
            final(self).inv(),
            a is Continue || a is Failed,
            old(self).constant_string(idx) is Some && old(self).stack@.len() > 0 ==> match old(self).stack@.last() {
                Value::Obj(sup) => old(self).bind_result(
                    old(self).stack@.drop_last(),
                    sup,
                    old(self).constant_string(idx).unwrap(),
                    final(self),
                    started_or(a),
                ),
                _ => a == Action::Continue && final(self).stack@ == old(self).stack@.drop_last(),
            },
            a is Failed ==> final(self).frames@.len() == 0,
    {
        let name = match self.read_string(idx) {
            Some(n) => n,
            None => return self.fail("Constant is not String!"),
        };
        if self.stack.len() == 0 {
            return self.fail("Stack is empty");
        }
        let superclass = self.pop();
        if let Value::Obj(sup) = superclass {
            match self.bind_method(sup, name) {
                Some(a) => a,
                None => Action::Continue,
            }
        } else {
            Action::Continue
        }
    }
}


impl Vm {
    /// What running the instruction `op` does, from this state to `new`,
    /// handing `a` to the host; `next_ip` is the index of the instruction
    /// after `op`. The conditions name the inputs that the instruction is
    /// meant for; on others it fails.
    pub open spec fn effect(&self, op: OpCode, next_ip: int, new: &Vm, a: Action) -> bool {
        let st = self.stack@;
        let n = st.len();
        let fr = self.frames@;
        &&& !(a is Failed) ==> kept(*self, *new, kept_frames(op), kept_globals(op), kept_heap(op, a))
        &&& match op {
            OpCode::Constant(c) => self.current_constant(c) matches Some(v) ==> a == Action::Continue
                && new.stack@ == st.push(v),
            OpCode::Nil => a == Action::Continue && new.stack@ == st.push(Value::Nil),
            OpCode::True => a == Action::Continue && new.stack@ == st.push(Value::Bool(true)),
            OpCode::False => a == Action::Continue && new.stack@ == st.push(Value::Bool(false)),
            OpCode::Pop => n > 0 ==> a == Action::Continue && new.stack@ == st.drop_last(),
            OpCode::GetLocal(s) => fr.len() > 0 && fr.last().spec_slot() + s < n ==> a == Action::Continue
                && new.stack@ == st.push(st[fr.last().spec_slot() + s]),
            OpCode::SetLocal(s) => fr.len() > 0 && fr.last().spec_slot() + s < n ==> a == Action::Continue
                && new.stack@ == st.update(fr.last().spec_slot() + s, st.last()),
            OpCode::GetGlobal(i) => self.constant_string(i) matches Some(name) ==> if self.globals.view().contains_key(
                name,
            ) {
                a == Action::Continue && new.stack@ == st.push(self.globals.view()[name])
            } else {
                fails_with(a, "Undefined variable '"@ + name + "'"@)
            },
            OpCode::DefineGlobal(i) => self.constant_string(i) matches Some(name) ==> n > 0 ==> {
                &&& a == Action::Continue
                &&& new.stack@ == st.drop_last()
                &&& new.globals.view() == self.globals.view().insert(name, st.last())
            },
            OpCode::SetGlobal(i) => self.constant_string(i) matches Some(name) ==> n > 0 ==> if self.globals.view().contains_key(
                name,
            ) {
                &&& a == Action::Continue
                &&& new.stack@ == st
                &&& new.globals.view() == self.globals.view().insert(name, st.last())
            } else {
                fails_with(a, "Undefined variable '"@ + name + "'."@) && new.globals == self.globals
            },
            OpCode::Equal => n >= 2 ==> match self.equal_in(st[n - 1], st[n - 2]) {
                Some(e) => a == Action::Continue && new.stack@ == st.subrange(0, n - 2).push(Value::Bool(e)),
                None => a == Action::Arith(ArithOp::Equal, st[n - 2]->Number_0, st[n - 1]->Number_0)
                    && new.stack@ == st.subrange(0, n - 2),
            },
            OpCode::Greater => binary_effect(ArithOp::Greater, st, new.stack@, a),
            OpCode::Less => binary_effect(ArithOp::Less, st, new.stack@, a),
            OpCode::Subtract => binary_effect(ArithOp::Subtract, st, new.stack@, a),
            OpCode::Multiply => binary_effect(ArithOp::Multiply, st, new.stack@, a),
            OpCode::Divide => binary_effect(ArithOp::Divide, st, new.stack@, a),
            OpCode::Add => n >= 2 ==> {
                let x = st[n - 2];
                let y = st[n - 1];
                if x is Number && y is Number {
                    a == Action::Arith(ArithOp::Add, x->Number_0, y->Number_0) && new.stack@ == st.subrange(0, n - 2)
                } else if self.string_value(x) is Some && self.string_value(y) is Some {
                    (fails_with(a, "Out of memory."@) && heap_full(new.gc)) || (a == Action::Continue
                        && new.stack@.len() == n - 1 && new.stack@.drop_last()
                        == st.subrange(0, n - 2) && new.string_value(new.stack@.last()) == Some(
                        self.string_value(x).unwrap() + self.string_value(y).unwrap(),
                    ))
                } else {
                    fails_with(a, "Operands must be two numbers or two strings."@) && new.stack@ == st
                }
            },
            OpCode::Not => n > 0 ==> a == Action::Continue && new.stack@ == st.drop_last().push(
                Value::Bool(is_falsey_value(st.last())),
            ),
            OpCode::Negate => n > 0 ==> new.stack@ == st.drop_last() && match st.last() {
                Value::Number(x) => a == Action::Negate(x),
                _ => fails_with(a, "Operand must be a number"@),
            },
            OpCode::Print => n > 0 ==> new.stack@ == st.drop_last() && (a matches Action::Print(p)
                && self.printed_as(st.last(), p)),
            OpCode::Jump(o) => fr.len() > 0 ==> if next_ip + o <= usize::MAX {
                a == Action::Continue && new.stack == self.stack && new.frames@ == fr.update(
                    fr.len() - 1,
                    fr.last().at_ip(next_ip + o),
                )
            } else {
                fails_with(a, "Jump out of range."@)
            },
            OpCode::Loop(o) => fr.len() > 0 ==> if o <= next_ip {
                a == Action::Continue && new.stack == self.stack && new.frames@ == fr.update(
                    fr.len() - 1,
                    fr.last().at_ip(next_ip - o),
                )
            } else {
                fails_with(a, "Jump out of range."@)
            },
            OpCode::JumpIfFalse(o) => n > 0 && fr.len() > 0 ==> if is_falsey_value(st.last()) {
                if next_ip + o <= usize::MAX {
                    a == Action::Continue && new.stack == self.stack && new.frames@ == fr.update(
                        fr.len() - 1,
                        fr.last().at_ip(next_ip + o),
                    )
                } else {
                    fails_with(a, "Jump out of range."@)
                }
            } else {
                a == Action::Continue && new.stack == self.stack && new.frames@ == fr.update(
                    fr.len() - 1,
                    fr.last().at_ip(next_ip),
                )
            },
            OpCode::Return => (a is Finished || a is Continue || a is Failed) && (a is Finished
                ==> new.frames@.len() == 0) && (a is Continue ==> new.frames@ == fr.drop_last()
                && new.frames@.len() > 0 && new.stack@ == st.subrange(0, fr.last().spec_slot() as int).push(
                st.last(),
            )) && (!(a is Failed) ==> self.closed_from(fr.last().spec_slot(), new)) && (a is Finished ==> fr.len()
                == 1 && new.stack@ == st.drop_last()) && (a is Failed ==> n == 0 || fr.len() == 0 || self.open_past(fr.last().spec_slot(), n - 1) || (
            fr.len() > 1 && fr.last().spec_slot() > n - 1)),
            OpCode::Call(c) => self.call_effect(c, fr.update(fr.len() - 1, fr.last().at_ip(next_ip)), new, a),
            OpCode::Invoke(i, c) => (a is Continue || a is Failed || a is CallNative) && (self.constant_string(i) matches Some(
                name,
            ) ==> self.invoke_result(
                fr.update(fr.len() - 1, fr.last().at_ip(next_ip)),
                name,
                c as int,
                new,
                started_or(a),
            )),
            OpCode::SuperInvoke(i, c) => (a is Continue || a is Failed) && (self.constant_string(i) is Some && n > 0
                ==> match st.last() {
                Value::Obj(sup) => self.class_invoke_result(
                    st.drop_last(),
                    fr.update(fr.len() - 1, fr.last().at_ip(next_ip)),
                    sup,
                    self.constant_string(i).unwrap(),
                    c as int,
                    new,
                    started_or(a),
                ),
                _ => a == Action::Continue && new.stack@ == st.drop_last(),
            }),
            OpCode::Closure(c) => (a is Continue || a is Failed) && (a is Continue ==> new.stack@.drop_last()
                == st && new.stack@.len() == n + 1 && self.made_closure(c, new, new.stack@.last())) && (a is Failed
                ==> !self.closure_ok(c) || heap_full(new.gc)),
            OpCode::GetUpValue(s) => (a is Continue || a is Failed) && (a is Continue ==> new.stack@.drop_last()
                == st && new.stack@.len() == n + 1) && self.get_upvalue_effect(s, new, a),
            OpCode::SetUpValue(s) => (a is Continue || a is Failed) && self.set_upvalue_effect(s, new, a),
            OpCode::CloseUpValue => (a is Continue || a is Failed) && (a is Continue ==> new.stack@
                == st.drop_last() && self.closed_from((n - 1) as usize, new)) && (a is Failed ==> n == 0
                || self.open_past((n - 1) as usize, n as int)),
            OpCode::Class(i) => (a is Continue || a is Failed) && (self.constant_string(i) is None ==> a is Failed)
                && (a is Failed ==> self.constant_string(i) is None || heap_full(new.gc))
                && (a is Continue ==> new.stack@.drop_last() == st && new.stack@.len() == n + 1
                && new.methods_of(new.stack@.last()) == Some(Map::<Seq<char>, Value>::empty())),
            OpCode::SetProperty(i) => (a is Continue || a is Failed) && (a is Continue ==> new.stack@
                == st.subrange(0, n - 2).push(st.last())) && (n >= 2 && self.constant_string(i) is Some ==> match self.fields_of(
                st[n - 2],
            ) {
                Some(f) => a == Action::Continue && new.fields_of(st[n - 2]) == Some(
                    f.insert(self.constant_string(i).unwrap(), st.last()),
                ),
                None => fails_with(a, "Only instances have fields."@),
            }),
            OpCode::GetProperty(i) => (a is Continue || a is Failed) && (n > 0 && self.constant_string(i) is Some
                ==> match self.fields_of(st.last()) {
                Some(f) => if f.contains_key(self.constant_string(i).unwrap()) {
                    a == Action::Continue && new.stack@ == st.drop_last().push(f[self.constant_string(i).unwrap()])
                } else {
                    self.bind_result(st, self.instance_class(st.last()).unwrap(), self.constant_string(i).unwrap(), new, started_or(a))
                },
                None => if st.last() is Obj {
                    fails_with(a, "Only instances have properties."@)
                } else {
                    fails_with(a, "Undefined property '"@ + self.constant_string(i).unwrap() + "'."@)
                },
            }),
            OpCode::Method(i) => (a is Continue || a is Failed) && (n >= 2 && self.constant_string(i) is Some
                ==> match self.methods_of(st[n - 2]) {
                Some(m) => a == Action::Continue && new.stack@ == st.drop_last() && new.methods_of(st[n - 2])
                    == Some(m.insert(self.constant_string(i).unwrap(), st.last())),
                None => if st[n - 2] is Obj {
                    a == Action::Continue && new.stack == self.stack
                } else {
                    a is Failed
                },
            }),
            OpCode::Inherit => (a is Continue || a is Failed) && (a is Continue ==> new.stack@ == st.drop_last())
                && (n >= 2 ==> if st[n - 2] is Obj && st[n - 1] is Obj {
                match (self.methods_of(st[n - 2]), self.methods_of(st[n - 1])) {
                    (Some(m), Some(_)) => a == Action::Continue && new.methods_of(st[n - 1]) == Some(m),
                    (None, _) => fails_with(a, "Superclass must be a class."@),
                    (Some(_), None) => fails_with(a, "Subclass must be a class."@),
                }
            } else {
                a == Action::Continue
            }),
            OpCode::GetSuper(i) => (a is Continue || a is Failed) && (self.constant_string(i) is Some && n > 0 ==> match st.last() {
                Value::Obj(sup) => self.bind_result(st.drop_last(), sup, self.constant_string(i).unwrap(), new, started_or(a)),
                _ => a == Action::Continue && new.stack@ == st.drop_last(),
            }),
        }
    }
}

impl Vm {
    /// Some open captured variable names stack slot `pos`.
    pub open spec fn has_open_at(&self, pos: usize) -> bool {
        exists|k: int|
            0 <= k < self.open_upvalues@.len() && (self.upvalue_at(#[trigger] self.open_upvalues@[k]) matches Some(
                uv,
            ) && uv.location == pos)
    }

    /// Some open captured variable at stack slot `pos` or above names a slot
    /// at `len` or past it.
    pub open spec fn open_past(&self, pos: usize, len: int) -> bool {
        exists|k: int|
            0 <= k < self.open_upvalues@.len() && self.closes(pos, #[trigger] self.open_upvalues@[k])
                && self.upvalue_at(self.open_upvalues@[k]).unwrap().location >= len
    }

    /// No two open captured variables name the same stack slot.
    pub open spec fn open_distinct(&self) -> bool {
        forall|i: int, j: int|
            0 <= i < j < self.open_upvalues@.len() && self.upvalue_at(#[trigger] self.open_upvalues@[i]) is Some
                && self.upvalue_at(#[trigger] self.open_upvalues@[j]) is Some ==> self.upvalue_at(
                self.open_upvalues@[i],
            ).unwrap().location != self.upvalue_at(self.open_upvalues@[j]).unwrap().location
    }

    /// Whether the captured variable at a reference stays open when closing
    /// from stack slot `pos`.
    pub open spec fn stays_open(&self, pos: usize) -> spec_fn(GcRef) -> bool {
        |r: GcRef| !self.closes(pos, r)
    }

    /// Closing from stack slot `pos` closes the captured variable at `r`: it
    /// is one, and names slot `pos` or above.
    pub open spec fn closes(&self, pos: usize, r: GcRef) -> bool {
        self.upvalue_at(r) matches Some(uv) && uv.location >= pos
    }

    /// The captured variable at `r` closed over the value of its slot.
    pub open spec fn closed_upvalue(&self, r: GcRef) -> UpValue {
        let uv = self.upvalue_at(r).unwrap();
        UpValue { location: uv.location, closed: Some(self.stack@[uv.location as int]) }
    }

    /// Closing from stack slot `pos` led to `new`: each open captured
    /// variable at `pos` or above holds the value of its slot and is open no
    /// more; the others stay open.
    pub open spec fn closed_from(&self, pos: usize, new: &Vm) -> bool {
        &&& forall|k: int|
            0 <= k < self.open_upvalues@.len() && self.closes(pos, #[trigger] self.open_upvalues@[k])
                ==> new.upvalue_at(self.open_upvalues@[k]) == Some(self.closed_upvalue(self.open_upvalues@[k]))
        &&& forall|k: int|
            0 <= k < self.open_upvalues@.len() && !self.closes(pos, #[trigger] self.open_upvalues@[k])
                ==> gcrefs_set(new.open_upvalues@).contains(self.open_upvalues@[k].0)
        &&& forall|j: int|
            0 <= j < new.open_upvalues@.len() ==> (new.upvalue_at(#[trigger] new.open_upvalues@[j]) matches Some(
                uv,
            ) ==> uv.location < pos)
        &&& forall|k: int|
            0 <= k < self.open_upvalues@.len() && self.closes(pos, #[trigger] self.open_upvalues@[k])
                ==> self.upvalue_at(self.open_upvalues@[k]).unwrap().location < self.stack@.len()
    }

    /// Closing from `pos` in a state whose stack is `self`'s stack without
    /// its top value has the same outcome, seen from `self`.
    pub proof fn lemma_closed_from_popped(&self, mid: &Vm, pos: usize, new: &Vm)
        requires
            mid.stack@ == self.stack@.drop_last(),
            self.stack@.len() > 0,
            mid.gc == self.gc,
            mid.open_upvalues == self.open_upvalues,
            mid.closed_from(pos, new),
        ensures
            self.closed_from(pos, new),
    {
        assert forall|k: int|
            0 <= k < self.open_upvalues@.len() && self.closes(pos, #[trigger] self.open_upvalues@[k]) implies new.upvalue_at(
            self.open_upvalues@[k],
        ) == Some(self.closed_upvalue(self.open_upvalues@[k])) by {
            assert(mid.closes(pos, mid.open_upvalues@[k]));
            let loc = self.upvalue_at(self.open_upvalues@[k]).unwrap().location;
            assert(mid.stack@[loc as int] == self.stack@[loc as int]);
        }
        assert forall|k: int|
            0 <= k < self.open_upvalues@.len() && !self.closes(pos, #[trigger] self.open_upvalues@[k]) implies gcrefs_set(
            new.open_upvalues@,
        ).contains(self.open_upvalues@[k].0) by {
            assert(!mid.closes(pos, mid.open_upvalues@[k]));
        }
        assert forall|k: int|
            0 <= k < self.open_upvalues@.len() && self.closes(pos, #[trigger] self.open_upvalues@[k]) implies self.upvalue_at(
            self.open_upvalues@[k],
        ).unwrap().location < self.stack@.len() by {
            assert(mid.closes(pos, mid.open_upvalues@[k]));
        }
    }

    /// `v`, in the state `new`, is a closure of the function that constant
    /// `c` names here, with one captured variable for each that the
    /// function lists.
    pub open spec fn made_closure(&self, c: u8, new: &Vm, v: Value) -> bool {
        v matches Value::Obj(r) && new.gc.is_live(r.0) && (new.gc.obj_at(r.0) matches Obj::Closure(cl)
            && self.current_constant(c) == Some(Value::Obj(cl.function)) && (self.gc.obj_at(cl.function.0) matches Obj::Function(
            f,
        ) && cl.upvalues@.len() == f.upvalues@.len() && forall|k: int|
            0 <= k < f.upvalues@.len() ==> if f.upvalues@[k].is_local {
                new.upvalue_at(#[trigger] cl.upvalues@[k]) matches Some(uv) && uv.location == self.frames@.last().spec_slot()
                    + f.upvalues@[k].index
            } else {
                self.frame_upvalue(f.upvalues@[k].index) == Some(cl.upvalues@[k])
            }))
    }

    /// Constant `c` names a function whose captured variables can all be
    /// taken here: a local one names a slot of the innermost frame that
    /// fits in `usize`, an enclosing one exists in the frame's closure.
    pub open spec fn closure_ok(&self, c: u8) -> bool {
        &&& self.frames@.len() > 0
        &&& self.current_constant(c) matches Some(Value::Obj(fr))
        &&& self.gc.is_live(fr.0)
        &&& self.gc.obj_at(fr.0) matches Obj::Function(f)
        &&& forall|k: int|
            0 <= k < f.upvalues@.len() ==> if (#[trigger] f.upvalues@[k]).is_local {
                self.frames@.last().spec_slot() + f.upvalues@[k].index <= usize::MAX
            } else {
                self.frame_upvalue(f.upvalues@[k].index) is Some
            }
    }

    /// What reading captured variable `s` does: it pushes the variable's own
    /// value once closed, the value of its stack slot while open.
    pub open spec fn get_upvalue_effect(&self, s: u8, new: &Vm, a: Action) -> bool {
        let st = self.stack@;
        match self.frame_upvalue(s) {
            Some(u) => match self.upvalue_at(u) {
                Some(uv) => match uv.closed {
                    Some(v) => a == Action::Continue && new.stack@ == st.push(v),
                    None => if uv.location < st.len() {
                        a == Action::Continue && new.stack@ == st.push(st[uv.location as int])
                    } else {
                        fails_with(a, "Stack index out of range."@)
                    },
                },
                None => a is Failed,
            },
            None => a is Failed,
        }
    }

    /// What writing the top value into captured variable `s` does: into its
    /// stack slot while open, into the variable itself once closed.
    pub open spec fn set_upvalue_effect(&self, s: u8, new: &Vm, a: Action) -> bool {
        let st = self.stack@;
        match self.frame_upvalue(s) {
            Some(u) => st.len() > 0 ==> match self.upvalue_at(u) {
                Some(uv) => match uv.closed {
                    None => if uv.location < st.len() {
                        a == Action::Continue && new.stack@ == st.update(uv.location as int, st.last())
                    } else {
                        fails_with(a, "Stack index out of range."@)
                    },
                    Some(_) => a == Action::Continue && new.stack == self.stack && new.upvalue_at(u) == Some(
                        UpValue { location: uv.location, closed: Some(st.last()) },
                    ),
                },
                None => a == Action::Continue && new.stack == self.stack,
            },
            None => a is Failed,
        }
    }

    /// The bound method that a value refers to, if it refers to one.
    pub open spec fn bound_at(&self, v: Value) -> Option<BoundMethod> {
        match v {
            Value::Obj(r) => if self.gc.is_live(r.0) {
                match self.gc.obj_at(r.0) {
                    Obj::BoundMethod(b) => Some(b),
                    _ => None,
                }
            } else {
                None
            },
            _ => None,
        }
    }

    /// What binding the method `name` of the class at `class_handle` to the
    /// receiver on top of the stack `st` does: the receiver is replaced by a
    /// bound method of it and the method's closure.
    pub open spec fn bind_result(&self, st: Seq<Value>, class_handle: GcRef, name: Seq<char>, new: &Vm, r: Option<Action>) -> bool {
        match self.methods_of(Value::Obj(class_handle)) {
            None => r matches Some(a) && fails_with(a, "Internal Error: Expected a class reference."@),
            Some(m) => if m.contains_key(name) && m[name] is Obj {
                let c = m[name]->Obj_0;
                if !(self.gc.obj_at(c.0) is Closure) {
                    r matches Some(a) && fails_with(a, "Internal Error: Method constant must be a closure."@)
                } else if st.len() == 0 {
                    r matches Some(a) && fails_with(a, "Stack is empty"@)
                } else {
                    ||| r matches Some(a) && fails_with(a, "Out of memory."@) && heap_full(new.gc)
                    ||| r is None && new.stack@.len() == st.len() && new.stack@.drop_last() == st.drop_last()
                        && new.bound_at(new.stack@.last()) == Some(BoundMethod { receiver: st.last(), method: c })
                }
            } else {
                r matches Some(a) && fails_with(a, "Undefined property '"@ + name + "'."@)
            },
        }
    }

    /// What calling the method `name` of the class at `class` does, with
    /// `argc` arguments on the stack `st`: the method's closure is called.
    pub open spec fn class_invoke_result(
        &self,
        st: Seq<Value>,
        frames: Seq<CallFrame>,
        class: GcRef,
        name: Seq<char>,
        argc: int,
        new: &Vm,
        r: Option<Action>,
    ) -> bool {
        match self.methods_of(Value::Obj(class)) {
            None => r matches Some(Action::Failed(rep)) && rep.message == ErrorMessage::Silent,
            Some(m) => if !m.contains_key(name) {
                r matches Some(a) && fails_with(a, "Undefined property "@ + name + "."@)
            } else {
                match m[name] {
                    Value::Obj(c) => argc < st.len() ==> self.closure_call(c, argc, frames, st, new, r),
                    _ => r matches Some(Action::Failed(rep)) && rep.message == ErrorMessage::Silent,
                }
            },
        }
    }

    /// What calling the method `name` of the receiver below `argc` arguments
    /// does: a field of that name is called as a value; otherwise the
    /// method of the receiver's class.
    pub open spec fn invoke_result(&self, frames: Seq<CallFrame>, name: Seq<char>, argc: int, new: &Vm, r: Option<Action>) -> bool {
        let st = self.stack@;
        let n = st.len();
        if argc >= n {
            r matches Some(a) && fails_with(a, "Stack is empty"@)
        } else {
            let slot = n - 1 - argc;
            let recv = st[slot];
            match recv {
                Value::Obj(_) => match self.fields_of(recv) {
                    Some(f) => if f.contains_key(name) {
                        self.call_result(st.update(slot, f[name]), f[name], argc, frames, new, r)
                    } else {
                        self.class_invoke_result(st, frames, self.instance_class(recv).unwrap(), name, argc, new, r)
                    },
                    None => r matches Some(a) && fails_with(a, "Only instances have methods."@),
                },
                _ => r matches Some(Action::Failed(rep)) && rep.message == ErrorMessage::Silent,
            }
        }
    }

    /// The class of the instance that a value refers to, if it refers to one.
    pub open spec fn instance_class(&self, v: Value) -> Option<GcRef> {
        match v {
            Value::Obj(r) => if self.gc.is_live(r.0) {
                match self.gc.obj_at(r.0) {
                    Obj::Instance(i) => Some(i.class),
                    _ => None,
                }
            } else {
                None
            },
            _ => None,
        }
    }

    /// What starting a call of the closure at `g` with `argc` arguments
    /// does, where `frames` are the frames and `st` the stack at that point:
    /// a wrong number of arguments fails, so does a full frame stack, and
    /// otherwise a frame for the closure is pushed with slot zero `argc`
    /// places below the top. `r` is `None` when the call started.
    pub open spec fn closure_call(
        &self,
        g: GcRef,
        argc: int,
        frames: Seq<CallFrame>,
        st: Seq<Value>,
        new: &Vm,
        r: Option<Action>,
    ) -> bool {
        if self.arity_at(g) != argc {
            r matches Some(Action::Failed(rep)) && rep.message == ErrorMessage::WrongArgCount(
                self.arity_at(g),
                argc as usize,
            )
        } else if frames.len() >= FRAME_MAX {
            r matches Some(a) && fails_with(a, "Stack overflow."@)
        } else {
            r is None && new.stack@ == st && new.frames@ == frames.push(
                CallFrame::fresh(g, st.len() - 1 - argc),
            )
        }
    }

    /// What calling the class at `g` with `argc` arguments does: an
    /// instance of it, without fields, takes the callee's slot; then its
    /// `init` method, if it has one, is called as a closure.
    pub open spec fn class_call(
        &self,
        st: Seq<Value>,
        g: GcRef,
        k: Class,
        argc: int,
        frames: Seq<CallFrame>,
        new: &Vm,
        r: Option<Action>,
    ) -> bool {
        let slot = st.len() - 1 - argc;
        let init = match self.string_at(self.init_string) {
            Some(t) => t,
            None => Seq::<char>::empty(),
        };
        let ins = new.stack@[slot];
        ||| r matches Some(a) && fails_with(a, "Out of memory."@) && heap_full(new.gc)
        ||| {
            &&& new.fields_of(ins) == Some(Map::<Seq<char>, Value>::empty())
            &&& new.instance_class(ins) == Some(g)
            &&& if !k.methods.view().contains_key(init) {
                r is None && new.stack@ == st.update(slot, ins) && new.frames@ == frames
            } else {
                match k.methods.view()[init] {
                    Value::Obj(c) => self.closure_call(c, argc, frames, st.update(slot, ins), new, r),
                    _ => if argc != 0 {
                        r matches Some(Action::Failed(rep)) && rep.message == ErrorMessage::WrongArgCount(
                            0,
                            argc as usize,
                        )
                    } else {
                        r is None && new.stack@ == st.update(slot, ins) && new.frames@ == frames
                    },
                }
            }
        }
    }

    /// What calling `callee`, with `argc` arguments above it on the stack,
    /// does: a closure starts a call; a bound method puts its receiver in
    /// the callee's slot and calls its method; a class makes an instance;
    /// a function of the host goes to the host; anything else fails.
    pub open spec fn call_result(
        &self,
        st: Seq<Value>,
        callee: Value,
        argc: int,
        frames: Seq<CallFrame>,
        new: &Vm,
        r: Option<Action>,
    ) -> bool {
        let slot = st.len() - 1 - argc;
        match callee {
            Value::Native(f) => r == Some(Action::CallNative(f, argc as usize)) && new.stack@ == st
                && new.frames@ == frames,
            Value::Obj(g) => match self.gc.obj_at(g.0) {
                Obj::Closure(_) => self.closure_call(g, argc, frames, st, new, r),
                Obj::BoundMethod(b) => self.closure_call(b.method, argc, frames, st.update(slot, b.receiver), new, r),
                Obj::Class(k) => self.class_call(st, g, k, argc, frames, new, r),
                _ => r matches Some(a) && fails_with(a, "Can only call functions and classes"@),
            },
            _ => r matches Some(a) && fails_with(a, "Can only call functions and classes"@),
        }
    }

    /// What calling the value `arg_count` places below the top of the stack
    /// does, where `frames` are the frames at the time of the call.
    pub open spec fn call_effect(&self, arg_count: u8, frames: Seq<CallFrame>, new: &Vm, a: Action) -> bool {
        let st = self.stack@;
        let n = st.len();
        &&& a is Continue || a is Failed || a is CallNative
        &&& arg_count < n ==> self.call_result(st, st[n - 1 - arg_count], arg_count as int, frames, new, started_or(a))
    }
}

/// What an arithmetic or comparison instruction does: with two numbers on
/// top, it pops them and hands them to the host; otherwise it fails.
pub open spec fn binary_effect(op: ArithOp, st: Seq<Value>, new_st: Seq<Value>, a: Action) -> bool {
    st.len() >= 2 ==> new_st == st.subrange(0, st.len() - 2) && match (st[st.len() - 2], st.last()) {
        (Value::Number(x), Value::Number(y)) => a == Action::Arith(op, x, y),
        _ => fails_with(a, "Operands must be numbers."@),
    }
}

/// On two numbers, an instruction that asks the host for an operation
/// takes them off the stack and hands exactly that operation on them, in
/// the order they were pushed, to the host.
pub proof fn lemma_host_operation_effect(vm: Vm, op: OpCode, next_ip: int, new: Vm, a: Action, x: u64, y: u64)
    requires
        crate::parser::host_operation(op) is Some,
        vm.stack@.len() >= 2,
        vm.stack@[vm.stack@.len() - 2] == Value::Number(x),
        vm.stack@.last() == Value::Number(y),
        vm.effect(op, next_ip, &new, a),
    ensures
        a == Action::Arith(crate::parser::host_operation(op)->0, x, y),
        new.stack@ == vm.stack@.subrange(0, vm.stack@.len() - 2),
{
}

/// `Not` on a boolean replaces it by its negation.
pub proof fn lemma_not_effect(vm: Vm, next_ip: int, new: Vm, a: Action, b: bool)
    requires
        vm.stack@.len() >= 1,
        vm.stack@.last() == Value::Bool(b),
        vm.effect(OpCode::Not, next_ip, &new, a),
    ensures
        a == Action::Continue,
        new.stack@ == vm.stack@.drop_last().push(Value::Bool(!b)),
{
}

impl Vm {
    /// Runs the instruction `op`, whose index the innermost frame has
    /// already moved past.
    fn execute(&mut self, op: OpCode) -> (a: Action)
        requires
            old(self).inv(),
            old(self).frames@.len() > 0,
        ensures
            final(self).inv(),
            old(self).effect(op, old(self).frames@.last().spec_ip() as int, final(self), a),
            a is Failed ==> final(self).frames@.len() == 0,
    {
        match op {
            OpCode::Constant(c) => {
                let r = self.op_constant(c);
                assert(old(self).effect(op, old(self).frames@.last().spec_ip() as int, self, r));
                r
            },
            OpCode::Nil => {
                self.push(Value::Nil);
                Action::Continue
            },
            OpCode::True => {
                self.push(Value::Bool(true));
                Action::Continue
            },
            OpCode::False => {
                self.push(Value::Bool(false));
                Action::Continue
            },
            OpCode::Pop => {
                let r = self.op_pop();
                assert(old(self).effect(op, old(self).frames@.last().spec_ip() as int, self, r));
                r
            },
            OpCode::GetLocal(s) => {
                let r = self.op_get_local(s);
                assert(old(self).effect(op, old(self).frames@.last().spec_ip() as int, self, r));
                r
            },
            OpCode::SetLocal(s) => {
                let r = self.op_set_local(s);
                assert(old(self).effect(op, old(self).frames@.last().spec_ip() as int, self, r));
                r
            },
            OpCode::GetGlobal(i) => {
                let r = self.op_get_global(i);
                assert(old(self).effect(op, old(self).frames@.last().spec_ip() as int, self, r));
                r
            },
            OpCode::DefineGlobal(i) => {
                let r = self.op_define_global(i);
                assert(old(self).effect(op, old(self).frames@.last().spec_ip() as int, self, r));
                r
            },
            OpCode::SetGlobal(i) => {
                let r = self.op_set_global(i);
                assert(old(self).effect(op, old(self).frames@.last().spec_ip() as int, self, r));
                r
            },
            OpCode::GetUpValue(s) => {
                let r = self.op_get_upvalue(s);
                assert(old(self).effect(op, old(self).frames@.last().spec_ip() as int, self, r));
                r
            },
            OpCode::SetUpValue(s) => {
                let r = self.op_set_upvalue(s);
                assert(old(self).effect(op, old(self).frames@.last().spec_ip() as int, self, r));
                r
            },
            OpCode::GetProperty(i) => {
                let r = self.op_get_property(i);
                assert(old(self).effect(op, old(self).frames@.last().spec_ip() as int, self, r));
                r
            },
            OpCode::SetProperty(i) => {
                let r = self.op_set_property(i);
                assert(old(self).effect(op, old(self).frames@.last().spec_ip() as int, self, r));
                r
            },
            OpCode::GetSuper(i) => {
                let r = self.op_get_super(i);
                assert(old(self).effect(op, old(self).frames@.last().spec_ip() as int, self, r));
                r
            },
            OpCode::Equal => {
                let r = self.op_equal();
                assert(old(self).effect(op, old(self).frames@.last().spec_ip() as int, self, r));
                r
            },
            OpCode::Greater => {
                let r = self.op_binary(ArithOp::Greater);
                assert(old(self).effect(op, old(self).frames@.last().spec_ip() as int, self, r));
                r
            },
            OpCode::Less => {
                let r = self.op_binary(ArithOp::Less);
                assert(old(self).effect(op, old(self).frames@.last().spec_ip() as int, self, r));
                r
            },
            OpCode::Add => {
                let r = self.op_add();
                assert(old(self).effect(op, old(self).frames@.last().spec_ip() as int, self, r));
                r
            },
            OpCode::Subtract => {
                let r = self.op_binary(ArithOp::Subtract);
                assert(old(self).effect(op, old(self).frames@.last().spec_ip() as int, self, r));
                r
            },
            OpCode::Multiply => {
                let r = self.op_binary(ArithOp::Multiply);
                assert(old(self).effect(op, old(self).frames@.last().spec_ip() as int, self, r));
                r
            },
            OpCode::Divide => {
                let r = self.op_binary(ArithOp::Divide);
                assert(old(self).effect(op, old(self).frames@.last().spec_ip() as int, self, r));
                r
            },
            OpCode::Not => {
                let r = self.op_not();
                assert(old(self).effect(op, old(self).frames@.last().spec_ip() as int, self, r));
                r
            },
            OpCode::Negate => {
                let r = self.op_negate();
                assert(old(self).effect(op, old(self).frames@.last().spec_ip() as int, self, r));
                r
            },
            OpCode::Print => {
                let r = self.op_print();
                assert(old(self).effect(op, old(self).frames@.last().spec_ip() as int, self, r));
                r
            },
            OpCode::Jump(o) => {
                let r = self.op_jump(true, o);
                assert(old(self).effect(op, old(self).frames@.last().spec_ip() as int, self, r));
                r
            },
            OpCode::JumpIfFalse(o) => {
                proof {
                    let fr = old(self).frames@;
                    assert(fr.last().at_ip(fr.last().spec_ip() as int) == fr.last());
                    assert(fr.update(fr.len() - 1, fr.last()) =~= fr);
                }
                let r = self.op_jump_if_false(o);
                assert(old(self).effect(op, old(self).frames@.last().spec_ip() as int, self, r));
                r
            },
            OpCode::Loop(o) => {
                let r = self.op_jump(false, o);
                assert(old(self).effect(op, old(self).frames@.last().spec_ip() as int, self, r));
                r
            },
            OpCode::Call(n) => {
                proof {
                    let fr = old(self).frames@;
                    assert(fr.last().at_ip(fr.last().spec_ip() as int) == fr.last());
                    assert(fr.update(fr.len() - 1, fr.last()) =~= fr);
                }
                let r = self.op_call(n);
                assert(old(self).effect(op, old(self).frames@.last().spec_ip() as int, self, r));
                r
            },
            OpCode::Invoke(i, n) => {
                proof {
                    let fr = old(self).frames@;
                    assert(fr.last().at_ip(fr.last().spec_ip() as int) == fr.last());
                    assert(fr.update(fr.len() - 1, fr.last()) =~= fr);
                }
                let r = self.op_invoke(i, n);
                assert(old(self).effect(op, old(self).frames@.last().spec_ip() as int, self, r));
                r
            },
            OpCode::SuperInvoke(i, n) => {
                proof {
                    let fr = old(self).frames@;
                    assert(fr.last().at_ip(fr.last().spec_ip() as int) == fr.last());
                    assert(fr.update(fr.len() - 1, fr.last()) =~= fr);
                }
                let r = self.op_super_invoke(i, n);
                assert(old(self).effect(op, old(self).frames@.last().spec_ip() as int, self, r));
                r
            },
            OpCode::Closure(c) => {
                let r = self.op_closure(c);
                assert(old(self).effect(op, old(self).frames@.last().spec_ip() as int, self, r));
                r
            },
            OpCode::CloseUpValue => {
                let r = self.op_close_upvalue();
                assert(old(self).effect(op, old(self).frames@.last().spec_ip() as int, self, r));
                r
            },
            OpCode::Return => {
                let r = self.op_return();
                assert(old(self).effect(op, old(self).frames@.last().spec_ip() as int, self, r));
                r
            },
            OpCode::Class(i) => {
                let r = self.op_class(i);
                assert(old(self).effect(op, old(self).frames@.last().spec_ip() as int, self, r));
                r
            },
            OpCode::Inherit => {
                let r = self.op_inherit();
                assert(old(self).effect(op, old(self).frames@.last().spec_ip() as int, self, r));
                r
            },
            OpCode::Method(c) => {
                let r = self.op_method(c);
                assert(old(self).effect(op, old(self).frames@.last().spec_ip() as int, self, r));
                r
            },
        }
    }
}


impl Vm {
    /// `mid` is this machine with its innermost frame moved past the next
    /// instruction, and nothing else changed that an instruction reads.
    pub open spec fn advanced_to(&self, mid: &Vm) -> bool {
        let fr = self.frames@;
        &&& fr.len() > 0
        &&& mid.frames@ == fr.update(fr.len() - 1, fr.last().at_ip(fr.last().spec_ip() + 1))
        &&& mid.stack == self.stack
        &&& mid.gc == self.gc
        &&& mid.globals == self.globals
        &&& mid.open_upvalues == self.open_upvalues
        &&& mid.init_string == self.init_string
    }

    /// One step from this state leads to `new`, handing `a` to the host: the
    /// innermost frame moves past its next instruction, which then has the
    /// `effect` it states; without a next instruction the machine fails with
    /// no frames left.
    pub open spec fn steps_to(&self, new: &Vm, a: Action) -> bool {
        &&& a is Failed ==> new.frames@.len() == 0
        &&& match self.current_op() {
            Some(op) => exists|mid: Vm|
                #[trigger] self.advanced_to(&mid) && mid.effect(op, mid.frames@.last().spec_ip() as int, new, a),
            None => a is Failed && new.frames@.len() == 0,
        }
    }
}

/// `states` is a run from `start` to `end` of at most `fuel` steps that
/// hands `a` to the host: every step but the last continues, and the run
/// stops early only on a step that does not.
pub open spec fn ran(states: Seq<Vm>, start: Vm, end: Vm, fuel: int, a: Action) -> bool {
    let n = states.len() - 1;
    &&& states.len() >= 1
    &&& states[0] == start
    &&& states.last() == end
    &&& n <= fuel
    &&& forall|k: int| 0 <= k < n - 1 ==> (#[trigger] states[k]).steps_to(&states[k + 1], Action::Continue)
    &&& n > 0 ==> states[n - 1].steps_to(&states[n], a)
    &&& (a is Continue ==> n == fuel)
    &&& (n == 0 ==> a is Continue)
}

impl Vm {
    /// Runs the next instruction of the innermost frame and says what the
    /// host must do next.
    pub fn step(&mut self) -> (a: Action)
        requires
            old(self).inv(),
        ensures
            final(self).inv(),
            old(self).steps_to(final(self), a),
    {
        let ghost pre = *self;
        let op = match self.read_byte() {
            Some(op) => op,
            None => return self.fail("Invalid frame state"),
        };
        let ghost mid = *self;
        let a = self.execute(op);
        proof {
            assert(pre.advanced_to(&mid));
        }
        a
    }
}


impl Vm {
    /// Runs instructions until one needs the host or ends the script, or
    /// until `fuel` instructions have run (then `Continue`).
    pub fn run(&mut self, fuel: usize) -> (a: Action)
        requires
            old(self).inv(),
        ensures
            final(self).inv(),
            exists|states: Seq<Vm>| #[trigger] ran(states, *old(self), *final(self), fuel as int, a),
    {
        let ghost mut states: Seq<Vm> = seq![*self];
        let mut i: usize = 0;
        while i < fuel
            invariant
                self.inv(),
                i <= fuel,
                states.len() == i + 1,
                states[0] == *old(self),
                states.last() == *self,
                forall|k: int| 0 <= k < i ==> (#[trigger] states[k]).steps_to(&states[k + 1], Action::Continue),
            decreases fuel - i,
        {
            let a = self.step();
            proof {
                states = states.push(*self);
            }
            match a {
                Action::Continue => {},
                other => {
                    assert(ran(states, *old(self), *self, fuel as int, other));
                    return other;
                },
            }
            i += 1;
        }
        assert(ran(states, *old(self), *self, fuel as int, Action::Continue));
        Action::Continue
    }

    /// Ends a call of a host function: the callee and its `arg_count`
    /// arguments leave the stack and `result` takes their place. `false`,
    /// with nothing changed, when the stack holds fewer values than that.
    pub fn return_native(&mut self, arg_count: usize, result: Value) -> (ok: bool)
        requires
            old(self).inv(),
            old(self).value_live(result),
        ensures
            final(self).inv(),
            ok == (arg_count < old(self).stack@.len()),
            ok ==> final(self).stack@ == old(self).stack@.subrange(
                0,
                old(self).stack@.len() - arg_count - 1,
            ).push(result),
            !ok ==> final(self).stack == old(self).stack,
            final(self).frames == old(self).frames,
            final(self).globals == old(self).globals,
            final(self).gc == old(self).gc,
    {
        if arg_count >= self.stack.len() {
            return false;
        }
        let keep = self.stack.len() - arg_count - 1;
        self.truncate_stack(keep);
        self.push(result);
        true
    }

    /// Compiles `src`, taking the value of its k-th number literal from
    /// `numbers[k]`, and starts a call of the script. The errors of the
    /// compilation are left in `errors`.
    pub fn interpret(&mut self, src: &str, numbers: Vec<u64>) -> (r: Result<(), SmsError>)
        requires
            old(self).inv(),
            src.spec_bytes().len() < usize::MAX,
        ensures
            final(self).inv(),
            (r matches Err(SmsError::CompileError)) <==> final(self).errors@.len() > 0,
            r is Ok ==> final(self).started(old(self)),
            (r matches Err(SmsError::CompileError)) ==> final(self).stack == old(self).stack && final(self).frames
                == old(self).frames && final(self).globals == old(self).globals && final(self).open_upvalues
                == old(self).open_upvalues,
            crate::scanner::skip_trivia(src.spec_bytes(), 0, 1).0 >= src.spec_bytes().len() && old(self).frames@.len() < FRAME_MAX
                && old(self).gc.capacity <= usize::MAX / 64 ==> r is Ok,
            final(self).errors@.len() == 0 && old(self).frames@.len() < FRAME_MAX ==> r is Ok
                || final(self).gc.capacity > usize::MAX / GC_HEAP_GROW_FACTOR,
    {
        let none: Vec<GcRef> = Vec::new();
        let name = String::new();
        assert(obj_refs(Obj::String(name)) =~= Set::<usize>::empty());
        let name_ref = match self.alloc_obj(Obj::String(name), &none, false) {
            Some(r) => r,
            None => {
                self.errors = Vec::new();
                return Err(SmsError::RuntimeError);
            },
        };
        let compiler = Compiler::new(name_ref, FunctionType::Script);
        let mut heap = Gc::new();
        std::mem::swap(&mut heap, &mut self.gc);
        let ghost h1 = heap;
        proof {
            assert(compiler.function.chunk.constants@ =~= Seq::<Value>::empty());
            assert(chain_consts(compiler) =~= seq![(name_ref, Seq::<Value>::empty())]);
            assert(values_refs(Seq::<Value>::empty()) =~= Set::<usize>::empty());
            assert(chain_refs_live(compiler, heap));
        }
        let mut parser = Parser::new(src, compiler, heap, numbers);
        let function = parser.compile();
        let (heap, errors) = parser.into_parts();
        self.gc = heap;
        proof {
            assert forall|i: usize| #[trigger] h1.is_live(i) implies self.gc.is_live(i) by {}
            self.lemma_roots_grow(h1, self.gc);
        }
        match function {
            None => {
                self.errors = errors;
                Err(SmsError::CompileError)
            },
            Some(f) => {
                let r = self.start_script(f);
                self.errors = errors;
                r
            },
        }
    }
}


impl Vm {
    /// This machine is `before` with a script started: its closure pushed
    /// on the stack, and a new innermost frame that runs its function from
    /// the first instruction, with slot zero at the closure.
    pub closed spec fn started(&self, before: &Vm) -> bool {
        let fr = self.frames@;
        &&& fr.len() == before.frames@.len() + 1
        &&& fr.drop_last() == before.frames@
        &&& fr.last() == CallFrame::fresh(fr.last().closure, before.stack@.len() as int)
        &&& self.stack@ == before.stack@.push(Value::Obj(fr.last().closure))
        &&& self.current_function() is Some
    }

    /// Places a compiled script in the heap as a closure, pushes it, and
    /// calls it with no arguments.
    fn start_script(&mut self, f: Function) -> (r: Result<(), SmsError>)
        requires
            old(self).inv(),
            old(self).gc.is_live(f.name.0),
            old(self).gc.all_live(values_refs(f.chunk.constants@)),
        ensures
            final(self).inv(),
            !(r matches Err(SmsError::CompileError)),
            r is Ok ==> final(self).started(old(self)),
            f.arity == 0 && old(self).frames@.len() < FRAME_MAX && !(r is Ok) ==> final(self).gc.capacity
                > usize::MAX / GC_HEAP_GROW_FACTOR,
            f.arity == 0 && old(self).frames@.len() < FRAME_MAX && old(self).gc.capacity <= usize::MAX / 4
                ==> r is Ok,
    {
        let f_obj = Obj::Function(f);
        let refs = f_obj.references();
        proof {
            assert forall|k: int| 0 <= k < refs@.len() implies self.gc.is_live(#[trigger] refs@[k].0) by {
                assert(gcrefs_set(refs@).contains(refs@[k].0));
                assert(obj_refs(f_obj).contains(refs@[k].0));
            }
            assert forall|j: usize| #[trigger] obj_refs(f_obj).contains(j) implies exists|k: int|
                0 <= k < refs@.len() && refs@[k].0 == j by {
                assert(gcrefs_set(refs@).contains(j));
                let k = choose|k: int| 0 <= k < refs@.len() && refs@[k] == GcRef(j);
                assert(refs@[k].0 == j);
            }
        }
        let f_ref = match self.alloc_obj(f_obj, &refs, true) {
            Some(r) => r,
            None => return Err(SmsError::RuntimeError),
        };
        let ghost g1 = self.gc;
        proof {
            let c0 = old(self).gc.capacity;
            if c0 <= usize::MAX / 4 {
                assert(c0 * 2 <= usize::MAX / 2) by (nonlinear_arith)
                    requires c0 <= usize::MAX / 4;
            }
        }
        let clos = Closure::new(f_ref);
        let mut extra: Vec<GcRef> = Vec::new();
        extra.push(f_ref);
        proof {
            assert(g1.obj_at(f_ref.0) is Function);
            assert(gcrefs_set(clos.upvalues@) =~= Set::<usize>::empty());
            assert forall|j: usize| #[trigger] obj_refs(Obj::Closure(clos)).contains(j) implies exists|k: int|
                0 <= k < extra@.len() && extra@[k].0 == j by {
                assert(extra@[0].0 == j);
            }
        }
        let c_ref = match self.alloc_obj(Obj::Closure(clos), &extra, true) {
            Some(r) => r,
            None => return Err(SmsError::RuntimeError),
        };
        assert(value_refs(Value::Obj(c_ref)) =~= set![c_ref.0]);
        proof {
            assert(extra@[0] == f_ref);
            assert(self.gc.is_live(f_ref.0));
            assert(f_ref.0 != c_ref.0);
            assert(self.gc.obj_at(f_ref.0) == g1.obj_at(f_ref.0));
            assert(self.gc.obj_at(c_ref.0) == Obj::Closure(clos));
        }
        self.push(Value::Obj(c_ref));
        let ghost pushed = *self;
        match self.call(c_ref, 0) {
            None => {
                proof {
                    assert(self.frames@ == pushed.frames@.push(CallFrame::fresh(c_ref, pushed.stack@.len() - 1)));
                    assert(self.frames@.drop_last() =~= old(self).frames@);
                }
                Ok(())
            },
            Some(_) => Err(SmsError::RuntimeError),
        }
    }
}


impl Vm {
    /// Equality as the machine compares values is symmetric.
    pub proof fn lemma_equal_in_symmetric(&self, a: Value, b: Value)
        ensures
            self.equal_in(a, b) == self.equal_in(b, a),
    {
    }
}

} // verus!
