use lib::chunk::{Chunk, OpCode};
use lib::gc::GcRef;
use lib::object::{Closure, FnUpValue, Function, Obj};
use lib::value::Value;
use lib::vm::{Action, ArithOp, ErrorMessage, Printed, Vm};

/// A machine that has started an empty script, whose code the tests
/// replace.
fn machine() -> Vm {
    let mut vm = Vm::new();
    assert_eq!(vm.interpret("", Vec::new()), Ok(()));
    vm
}

fn string(vm: &mut Vm, s: &str) -> Value {
    Value::Obj(vm.gc.allocate(Obj::String(s.to_string())))
}

fn number(x: f64) -> Value {
    Value::Number(x.to_bits())
}

/// A closure of a function with `arity` parameters, the given code,
/// constants and captures.
fn closure(vm: &mut Vm, arity: usize, code: Vec<OpCode>, constants: Vec<Value>, ups: Vec<FnUpValue>) -> Value {
    let name = vm.gc.allocate(Obj::String("m".to_string()));
    let mut f = Function::new(name);
    f.arity = arity;
    for op in code {
        f.chunk.write(op, 1);
    }
    for v in constants {
        f.chunk.add_constant(v);
    }
    f.upvalues = ups;
    let fr = vm.gc.allocate(Obj::Function(f));
    Value::Obj(vm.gc.allocate(Obj::Closure(Closure::new(fr))))
}

/// Runs to the end, doing the host's part, and returns what was printed or
/// the failure message.
fn finish(vm: &mut Vm) -> Result<Vec<String>, ErrorMessage> {
    let mut out = Vec::new();
    loop {
        match vm.run(10_000) {
            Action::Continue => {}
            Action::Finished => return Ok(out),
            Action::Print(Printed::Text(s)) => out.push(s),
            Action::Print(Printed::Number(n)) => out.push(format!("{}", f64::from_bits(n))),
            Action::Arith(ArithOp::Add, a, b) => {
                vm.push(Value::Number((f64::from_bits(a) + f64::from_bits(b)).to_bits()))
            }
            Action::Failed(r) => return Err(r.message),
            other => panic!("unexpected {:?}", other),
        }
    }
}

#[test]
fn instance_fields() {
    let mut vm = machine();
    let point = string(&mut vm, "Point");
    let x = string(&mut vm, "x");
    let code = vec![
        OpCode::Class(0),
        OpCode::Call(0),
        OpCode::DefineGlobal(0),
        OpCode::GetGlobal(0),
        OpCode::Constant(2),
        OpCode::SetProperty(1),
        OpCode::Print,
        OpCode::GetGlobal(0),
        OpCode::GetProperty(1),
        OpCode::Print,
        OpCode::GetGlobal(0),
        OpCode::Print,
        OpCode::Nil,
        OpCode::Return,
    ];
    replace_code(&mut vm, code, vec![point, x, number(7.0)]);
    assert_eq!(finish(&mut vm), Ok(vec!["7".to_string(), "7".to_string(), "<instance>".to_string()]));
}

/// Replaces the script's code and constants in place.
fn replace_code(vm: &mut Vm, code: Vec<OpCode>, constants: Vec<Value>) {
    let script = match vm.stack[0] {
        Value::Obj(r) => r,
        _ => panic!("no script closure"),
    };
    let f = match vm.gc.deref(script) {
        Obj::Closure(c) => c.function,
        _ => panic!("not a closure"),
    };
    let mut chunk = Chunk::new();
    for op in code {
        chunk.write(op, 1);
    }
    for v in constants {
        chunk.add_constant(v);
    }
    match vm.gc.deref_mut(f) {
        Obj::Function(func) => func.chunk = chunk,
        _ => panic!("not a function"),
    }
}

#[test]
fn prints_a_class() {
    let mut vm = machine();
    let point = string(&mut vm, "Point");
    replace_code(&mut vm, vec![OpCode::Class(0), OpCode::Print, OpCode::Nil, OpCode::Return], vec![point]);
    assert_eq!(finish(&mut vm), Ok(vec!["<class Point>".to_string()]));
}

#[test]
fn missing_field_reads_a_method_or_fails() {
    let mut vm = machine();
    let point = string(&mut vm, "Point");
    let y = string(&mut vm, "y");
    let code = vec![OpCode::Class(0), OpCode::Call(0), OpCode::GetProperty(1), OpCode::Nil, OpCode::Return];
    replace_code(&mut vm, code, vec![point, y]);
    assert_eq!(finish(&mut vm), Err(ErrorMessage::Text("Undefined property 'y'.".to_string())));
}

#[test]
fn setting_a_field_of_a_number_fails() {
    let mut vm = machine();
    let x = string(&mut vm, "x");
    let code = vec![OpCode::Constant(1), OpCode::Constant(1), OpCode::SetProperty(0), OpCode::Nil, OpCode::Return];
    replace_code(&mut vm, code, vec![x, number(1.0)]);
    assert_eq!(finish(&mut vm), Err(ErrorMessage::Text("Only instances have fields.".to_string())));
}

#[test]
fn methods_are_invoked_on_instances() {
    let mut vm = machine();
    let point = string(&mut vm, "Point");
    let get = string(&mut vm, "get");
    let m = closure(&mut vm, 0, vec![OpCode::Constant(0), OpCode::Return], vec![number(42.0)], Vec::new());
    let code = vec![
        OpCode::Class(0),
        OpCode::Constant(2),
        OpCode::Method(1),
        OpCode::Call(0),
        OpCode::Invoke(1, 0),
        OpCode::Print,
        OpCode::Nil,
        OpCode::Return,
    ];
    replace_code(&mut vm, code, vec![point, get, m]);
    assert_eq!(finish(&mut vm), Ok(vec!["42".to_string()]));
}

#[test]
fn a_bound_method_keeps_its_receiver() {
    let mut vm = machine();
    let point = string(&mut vm, "Point");
    let me = string(&mut vm, "me");
    // The method returns its slot zero: the receiver.
    let m = closure(&mut vm, 0, vec![OpCode::GetLocal(0), OpCode::Return], Vec::new(), Vec::new());
    let code = vec![
        OpCode::Class(0),
        OpCode::Constant(2),
        OpCode::Method(1),
        OpCode::Call(0),
        OpCode::GetProperty(1),
        OpCode::Call(0),
        OpCode::Print,
        OpCode::Nil,
        OpCode::Return,
    ];
    replace_code(&mut vm, code, vec![point, me, m]);
    assert_eq!(finish(&mut vm), Ok(vec!["<instance>".to_string()]));
}

#[test]
fn init_runs_when_a_class_is_called() {
    let mut vm = machine();
    let point = string(&mut vm, "Point");
    let init = string(&mut vm, "init");
    let m = closure(&mut vm, 1, vec![OpCode::GetLocal(1), OpCode::Return], Vec::new(), Vec::new());
    let code = vec![
        OpCode::Class(0),
        OpCode::Constant(2),
        OpCode::Method(1),
        OpCode::Constant(3),
        OpCode::Call(1),
        OpCode::Print,
        OpCode::Nil,
        OpCode::Return,
    ];
    replace_code(&mut vm, code, vec![point, init, m, number(5.0)]);
    assert_eq!(finish(&mut vm), Ok(vec!["5".to_string()]));
}

#[test]
fn inherited_methods_are_found() {
    let mut vm = machine();
    let a = string(&mut vm, "A");
    let get = string(&mut vm, "get");
    let b = string(&mut vm, "B");
    let m = closure(&mut vm, 0, vec![OpCode::Constant(0), OpCode::Return], vec![number(1.5)], Vec::new());
    let code = vec![
        OpCode::Class(0),
        OpCode::Constant(2),
        OpCode::Method(1),
        OpCode::Class(3),
        OpCode::DefineGlobal(3),
        OpCode::GetGlobal(3),
        OpCode::Inherit,
        OpCode::Pop,
        OpCode::GetGlobal(3),
        OpCode::Call(0),
        OpCode::Invoke(1, 0),
        OpCode::Print,
        OpCode::Nil,
        OpCode::Return,
    ];
    replace_code(&mut vm, code, vec![a, get, m, b]);
    assert_eq!(finish(&mut vm), Ok(vec!["1.5".to_string()]));
}

#[test]
fn inheriting_from_a_non_class_fails() {
    let mut vm = machine();
    let b = string(&mut vm, "B");
    let code = vec![OpCode::Constant(0), OpCode::Class(0), OpCode::Inherit, OpCode::Nil, OpCode::Return];
    replace_code(&mut vm, code, vec![b]);
    assert_eq!(finish(&mut vm), Err(ErrorMessage::Text("Superclass must be a class.".to_string())));
}

#[test]
fn super_methods_bind_to_the_receiver() {
    let mut vm = machine();
    let a = string(&mut vm, "A");
    let get = string(&mut vm, "get");
    let m = closure(&mut vm, 0, vec![OpCode::Constant(0), OpCode::Return], vec![number(3.0)], Vec::new());
    let code = vec![
        OpCode::Class(0),
        OpCode::Constant(2),
        OpCode::Method(1),
        OpCode::DefineGlobal(0),
        OpCode::GetGlobal(0),
        OpCode::Call(0),
        OpCode::GetGlobal(0),
        OpCode::GetSuper(1),
        OpCode::Call(0),
        OpCode::Print,
        OpCode::GetGlobal(0),
        OpCode::Call(0),
        OpCode::GetGlobal(0),
        OpCode::SuperInvoke(1, 0),
        OpCode::Print,
        OpCode::Nil,
        OpCode::Return,
    ];
    replace_code(&mut vm, code, vec![a, get, m]);
    assert_eq!(finish(&mut vm), Ok(vec!["3".to_string(), "3".to_string()]));
}

#[test]
fn invoking_a_missing_method_fails() {
    let mut vm = machine();
    let a = string(&mut vm, "A");
    let get = string(&mut vm, "get");
    let code = vec![OpCode::Class(0), OpCode::Call(0), OpCode::Invoke(1, 0), OpCode::Nil, OpCode::Return];
    replace_code(&mut vm, code, vec![a, get]);
    assert_eq!(finish(&mut vm), Err(ErrorMessage::Text("Undefined property get.".to_string())));
}

#[test]
fn a_closure_reads_a_captured_local() {
    let mut vm = machine();
    let inner = closure(
        &mut vm,
        0,
        vec![OpCode::GetUpValue(0), OpCode::Return],
        Vec::new(),
        vec![FnUpValue::new(1, true)],
    );
    let code = vec![
        OpCode::Constant(0),
        OpCode::Closure(1),
        OpCode::Call(0),
        OpCode::Print,
        OpCode::Nil,
        OpCode::Return,
    ];
    let f = match inner {
        Value::Obj(c) => match vm.gc.deref(c) {
            Obj::Closure(cl) => Value::Obj(cl.function),
            _ => panic!("not a closure"),
        },
        _ => panic!("not an object"),
    };
    replace_code(&mut vm, code, vec![number(9.0), f]);
    assert_eq!(finish(&mut vm), Ok(vec!["9".to_string()]));
}

#[test]
fn a_closed_variable_keeps_its_value() {
    let mut vm = machine();
    // The inner function adds one to its captured variable and returns it.
    let inner = closure(
        &mut vm,
        0,
        vec![
            OpCode::GetUpValue(0),
            OpCode::Constant(0),
            OpCode::Add,
            OpCode::SetUpValue(0),
            OpCode::Return,
        ],
        vec![number(1.0)],
        vec![FnUpValue::new(1, true)],
    );
    let f = match inner {
        Value::Obj(c) => match vm.gc.deref(c) {
            Obj::Closure(cl) => Value::Obj(cl.function),
            _ => panic!("not a closure"),
        },
        _ => panic!("not an object"),
    };
    let counter = string(&mut vm, "counter");
    // Slot 1 holds 10; the closure captures it; the slot is closed and
    // popped; the closure is called twice.
    let code = vec![
        OpCode::Constant(0),
        OpCode::Closure(1),
        OpCode::DefineGlobal(2),
        OpCode::CloseUpValue,
        OpCode::GetGlobal(2),
        OpCode::Call(0),
        OpCode::Print,
        OpCode::GetGlobal(2),
        OpCode::Call(0),
        OpCode::Print,
        OpCode::Nil,
        OpCode::Return,
    ];
    replace_code(&mut vm, code, vec![number(10.0), f, counter]);
    assert_eq!(finish(&mut vm), Ok(vec!["11".to_string(), "12".to_string()]));
}

#[test]
fn stack_overflow_is_reported() {
    let mut vm = machine();
    let name = string(&mut vm, "f");
    // The function calls itself through the global `f` without end.
    let f = closure(
        &mut vm,
        0,
        vec![OpCode::GetGlobal(0), OpCode::Call(0), OpCode::Return],
        vec![name],
        Vec::new(),
    );
    let code = vec![
        OpCode::Constant(1),
        OpCode::DefineGlobal(0),
        OpCode::GetGlobal(0),
        OpCode::Call(0),
        OpCode::Nil,
        OpCode::Return,
    ];
    replace_code(&mut vm, code, vec![name, f]);
    assert_eq!(finish(&mut vm), Err(ErrorMessage::Text("Stack overflow.".to_string())));
}

#[test]
fn unknown_instance_property_on_a_number_fails() {
    let mut vm = machine();
    let x = string(&mut vm, "x");
    let code = vec![OpCode::Constant(1), OpCode::GetProperty(0), OpCode::Nil, OpCode::Return];
    replace_code(&mut vm, code, vec![x, number(2.0)]);
    assert_eq!(finish(&mut vm), Err(ErrorMessage::Text("Undefined property 'x'.".to_string())));
}

#[test]
fn jumps_move_the_instruction_index() {
    let mut vm = machine();
    let code = vec![
        OpCode::Jump(2),
        OpCode::True,
        OpCode::Print,
        OpCode::False,
        OpCode::JumpIfFalse(1),
        OpCode::Print,
        OpCode::Print,
        OpCode::Nil,
        OpCode::Return,
    ];
    replace_code(&mut vm, code, Vec::new());
    assert_eq!(finish(&mut vm), Ok(vec!["false".to_string()]));
}

#[test]
fn a_loop_before_the_start_fails() {
    let mut vm = machine();
    replace_code(&mut vm, vec![OpCode::Loop(5)], Vec::new());
    assert_eq!(finish(&mut vm), Err(ErrorMessage::Text("Jump out of range.".to_string())));
}

#[test]
fn a_frame_ref_is_kept() {
    let vm = machine();
    assert_eq!(vm.frames.len(), 1);
    assert_eq!(vm.frames[0].closure, match vm.stack[0] {
        Value::Obj(r) => r,
        _ => GcRef(usize::MAX),
    });
}

#[test]
fn closures_over_one_slot_share_the_variable() {
    let mut vm = machine();
    // `set` stores 5 in its captured variable; `get` returns its own.
    let set = closure(
        &mut vm,
        0,
        vec![OpCode::Constant(0), OpCode::SetUpValue(0), OpCode::Return],
        vec![number(5.0)],
        vec![FnUpValue::new(1, true)],
    );
    let get = closure(&mut vm, 0, vec![OpCode::GetUpValue(0), OpCode::Return], Vec::new(), vec![FnUpValue::new(1, true)]);
    let function_of = |vm: &Vm, v: Value| match v {
        Value::Obj(c) => match vm.gc.deref(c) {
            Obj::Closure(cl) => Value::Obj(cl.function),
            _ => panic!("not a closure"),
        },
        _ => panic!("not an object"),
    };
    let set_f = function_of(&vm, set);
    let get_f = function_of(&vm, get);
    // Slot 1 holds 1; both closures capture it; `set` runs, then `get`.
    let code = vec![
        OpCode::Constant(0),
        OpCode::Closure(1),
        OpCode::Closure(2),
        OpCode::GetLocal(2),
        OpCode::Call(0),
        OpCode::Pop,
        OpCode::GetLocal(3),
        OpCode::Call(0),
        OpCode::Print,
        OpCode::GetLocal(1),
        OpCode::Print,
        OpCode::Nil,
        OpCode::Return,
    ];
    replace_code(&mut vm, code, vec![number(1.0), set_f, get_f]);
    assert_eq!(finish(&mut vm), Ok(vec!["5".to_string(), "5".to_string()]));
    assert!(vm.open_upvalues.is_empty());
}
