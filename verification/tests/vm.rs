use lib::chunk::OpCode;
use lib::error::SmsError;
use lib::object::NativeFunction;
use lib::parser::ErrorLocation;
use lib::scanner::number_literals;
use lib::value::Value;
use lib::vm::{Action, ArithOp, ErrorMessage, Printed, RuntimeErrorReport, Vm, CLOCK_NATIVE};

/// What running a script gave: the outcome, what it printed, and the report
/// of a runtime error.
struct Outcome {
    result: Result<(), SmsError>,
    printed: Vec<String>,
    report: Option<RuntimeErrorReport>,
}

fn number_values(src: &str) -> Vec<u64> {
    number_literals(src)
        .iter()
        .map(|b| std::str::from_utf8(b).unwrap().parse::<f64>().unwrap().to_bits())
        .collect()
}

fn format_number(bits: u64) -> String {
    format!("{}", f64::from_bits(bits))
}

fn arith(op: ArithOp, a: u64, b: u64) -> Value {
    let (x, y) = (f64::from_bits(a), f64::from_bits(b));
    match op {
        ArithOp::Add => Value::Number((x + y).to_bits()),
        ArithOp::Subtract => Value::Number((x - y).to_bits()),
        ArithOp::Multiply => Value::Number((x * y).to_bits()),
        ArithOp::Divide => Value::Number((x / y).to_bits()),
        ArithOp::Greater => Value::Bool(x > y),
        ArithOp::Less => Value::Bool(x < y),
        ArithOp::Equal => Value::Bool(x == y),
    }
}

fn drive(vm: &mut Vm, src: &str) -> Outcome {
    let mut printed = Vec::new();
    if let Err(e) = vm.interpret(src, number_values(src)) {
        return Outcome { result: Err(e), printed, report: None };
    }
    loop {
        match vm.run(1_000_000) {
            Action::Continue => {}
            Action::Finished => return Outcome { result: Ok(()), printed, report: None },
            Action::Print(Printed::Text(s)) => printed.push(s),
            Action::Print(Printed::Number(n)) => printed.push(format_number(n)),
            Action::Arith(op, a, b) => vm.push(arith(op, a, b)),
            Action::Negate(n) => vm.push(Value::Number((-f64::from_bits(n)).to_bits())),
            Action::CallNative(f, n) => {
                assert_eq!(f, NativeFunction(CLOCK_NATIVE));
                assert!(vm.return_native(n, Value::Number(1.5f64.to_bits())));
            }
            Action::Failed(report) => {
                return Outcome { result: Err(SmsError::RuntimeError), printed, report: Some(report) }
            }
        }
    }
}

fn run(src: &str) -> Outcome {
    let mut vm = Vm::new();
    drive(&mut vm, src)
}

fn output(src: &str) -> Vec<String> {
    let o = run(src);
    assert_eq!(o.result, Ok(()), "script failed: {:?}", o.report);
    o.printed
}

fn text(m: &ErrorMessage) -> String {
    match m {
        ErrorMessage::Text(s) => s.clone(),
        other => panic!("not a text message: {:?}", other),
    }
}

#[test]
fn prints_arithmetic() {
    assert_eq!(output("print 1 + 2 * 3;"), vec!["7"]);
    assert_eq!(output("print (1 + 2) * 3;"), vec!["9"]);
    assert_eq!(output("print 10 / 4 - 1;"), vec!["1.5"]);
}

#[test]
fn prints_negation_and_not() {
    assert_eq!(output("print -3;"), vec!["-3"]);
    assert_eq!(output("print !nil; print !true; print !0;"), vec!["true", "false", "false"]);
}

#[test]
fn prints_literals() {
    assert_eq!(output("print nil; print true; print false;"), vec!["nil", "true", "false"]);
}

#[test]
fn joins_strings() {
    assert_eq!(output("print \"foo\" + \"bar\";"), vec!["foobar"]);
}

#[test]
fn compares_numbers() {
    assert_eq!(
        output("print 1 < 2; print 1 > 2; print 2 <= 2; print 3 >= 4;"),
        vec!["true", "false", "true", "false"]
    );
}

#[test]
fn bang_equal_compares_strings_by_text() {
    assert_eq!(output("print \"a\" != \"a\"; print \"a\" != \"b\";"), vec!["false", "true"]);
    assert_eq!(output("print 1 != 2; print 2 != 2;"), vec!["true", "false"]);
    assert_eq!(output("print nil != false;"), vec!["true"]);
}

#[test]
fn equal_equal_compiles_to_no_comparison() {
    // `==` leaves both operands; `print` shows the right one.
    assert_eq!(output("print 1 == 2;"), vec!["2"]);
}

#[test]
fn logical_operators() {
    assert_eq!(
        output("print true and false; print false or true; print nil or \"x\";"),
        vec!["false", "true", "x"]
    );
}

#[test]
fn global_variables() {
    assert_eq!(output("var a = 1; var b = 2; print a + b; a = 10; print a;"), vec!["3", "10"]);
    assert_eq!(output("var a; print a;"), vec!["nil"]);
}

#[test]
fn local_variables() {
    assert_eq!(output("{ var a = 1; var b = a + 1; print b; b = 7; print b; }"), vec!["2", "7"]);
    assert_eq!(output("var a = 1; { var a = 2; print a; } print a;"), vec!["2", "1"]);
}

#[test]
fn if_else() {
    assert_eq!(output("if (1 > 2) print \"a\"; else print \"b\";"), vec!["b"]);
    assert_eq!(output("if (1 < 2) print \"a\"; else print \"b\";"), vec!["a"]);
    assert_eq!(output("if (nil) print \"a\"; print \"c\";"), vec!["c"]);
}

#[test]
fn while_loop() {
    assert_eq!(output("var i = 0; while (i < 3) { print i; i = i + 1; }"), vec!["0", "1", "2"]);
}

#[test]
fn for_loop() {
    assert_eq!(output("for (var i = 0; i < 3; i = i + 1) print i;"), vec!["0", "1", "2"]);
}

#[test]
fn function_call() {
    assert_eq!(output("fun add(a, b) { return a + b; } print add(2, 3);"), vec!["5"]);
    assert_eq!(output("fun f() { return; } print f();"), vec!["nil"]);
}

#[test]
fn falling_off_the_end_of_a_function_fails() {
    // A function body gets no implicit return: running past its last
    // instruction is an error.
    let o = run("fun f() { print \"in\"; }\nf();");
    assert_eq!(o.printed, vec!["in"]);
    let r = o.report.unwrap();
    assert_eq!(text(&r.message), "Invalid frame state");
    assert_eq!(r.trace.len(), 2);
}

#[test]
fn recursion() {
    let src = "fun fib(n) { if (n < 2) return n; return fib(n - 1) + fib(n - 2); } print fib(10);";
    assert_eq!(output(src), vec!["55"]);
}

#[test]
fn prints_functions_and_natives() {
    assert_eq!(output("fun f() {} print f;"), vec!["<fn f>"]);
    assert_eq!(output("print clock;"), vec!["<native fn>"]);
}

#[test]
fn calls_the_host_clock() {
    assert_eq!(output("print clock();"), vec!["1.5"]);
}

#[test]
fn collects_garbage_while_running() {
    let src = "var s = \"\"; for (var i = 0; i < 1500; i = i + 1) { s = s + \"x\"; } print s;";
    let out = output(src);
    assert_eq!(out.len(), 1);
    assert_eq!(out[0], "x".repeat(1500));
}

#[test]
fn globals_persist_between_scripts() {
    let mut vm = Vm::new();
    assert_eq!(drive(&mut vm, "var a = 41;").result, Ok(()));
    let o = drive(&mut vm, "print a + 1;");
    assert_eq!(o.result, Ok(()));
    assert_eq!(o.printed, vec!["42"]);
}

#[test]
fn undefined_variable_is_a_runtime_error() {
    let o = run("print x;");
    assert_eq!(o.result, Err(SmsError::RuntimeError));
    let r = o.report.unwrap();
    assert_eq!(text(&r.message), "Undefined variable 'x'");
    assert_eq!(r.trace.len(), 1);
    assert_eq!(r.trace[0].line, 1);
    assert_eq!(r.trace[0].function, "script");
}

#[test]
fn assigning_an_undefined_global_fails() {
    let o = run("x = 1;");
    assert_eq!(text(&o.report.unwrap().message), "Undefined variable 'x'.");
}

#[test]
fn operand_errors() {
    let o = run("print 1 + nil;");
    assert_eq!(text(&o.report.unwrap().message), "Operands must be two numbers or two strings.");
    let o = run("print -\"a\";");
    assert_eq!(text(&o.report.unwrap().message), "Operand must be a number");
    let o = run("print 1 < \"a\";");
    assert_eq!(text(&o.report.unwrap().message), "Operands must be numbers.");
}

#[test]
fn wrong_argument_count() {
    let o = run("fun f(a) {}\nf();");
    let r = o.report.unwrap();
    assert_eq!(r.message, ErrorMessage::WrongArgCount(1, 0));
    assert_eq!(r.trace.len(), 1);
    assert_eq!(r.trace[0].line, 2);
}

#[test]
fn calling_a_number_fails() {
    let o = run("var a = 1; a();");
    assert_eq!(text(&o.report.unwrap().message), "Can only call functions and classes");
}

#[test]
fn trace_lists_frames_innermost_first() {
    let o = run("fun f() {\n return x;\n}\nf();");
    let r = o.report.unwrap();
    assert_eq!(r.trace.len(), 2);
    assert_eq!((r.trace[0].line, r.trace[0].function.as_str()), (2, "f()"));
    assert_eq!((r.trace[1].line, r.trace[1].function.as_str()), (4, "script"));
}

#[test]
fn compile_error_is_reported() {
    let mut vm = Vm::new();
    let o = drive(&mut vm, "print 1");
    assert_eq!(o.result, Err(SmsError::CompileError));
    assert_eq!(vm.errors.len(), 1);
    assert_eq!(vm.errors[0].line, 1);
    assert_eq!(vm.errors[0].location, ErrorLocation::AtEnd);
    assert_eq!(vm.errors[0].message, "Expect ';' after value.");
}

#[test]
fn compile_error_at_token() {
    let mut vm = Vm::new();
    let o = drive(&mut vm, "var 1 = 2;");
    assert_eq!(o.result, Err(SmsError::CompileError));
    assert_eq!(vm.errors[0].location, ErrorLocation::At(b"1".to_vec()));
    assert_eq!(vm.errors[0].message, "Expect variable name.");
}

#[test]
fn reading_a_captured_variable_fails() {
    // The compiler numbers a capture one past its position, so the closure
    // has no capture at the number that the instruction names.
    let src = "fun outer() { var x = 1; fun inner() { return x; } return inner(); } print outer();";
    let o = run(src);
    assert_eq!(o.result, Err(SmsError::RuntimeError));
    assert_eq!(o.report.unwrap().trace.len(), 3);
}

#[test]
fn a_new_machine_defines_clock() {
    let mut vm = Vm::new();
    assert!(vm.stack.is_empty());
    assert!(vm.frames.is_empty());
    let o = drive(&mut vm, "print clock;");
    assert_eq!(o.printed, vec!["<native fn>"]);
}

#[test]
fn push_then_pop() {
    let mut vm = Vm::new();
    vm.push(Value::Bool(true));
    vm.push(Value::Nil);
    assert_eq!(vm.pop(), Value::Nil);
    assert_eq!(vm.pop(), Value::Bool(true));
    assert!(vm.stack.is_empty());
}

#[test]
fn step_without_frames_fails() {
    let mut vm = Vm::new();
    match vm.step() {
        Action::Failed(r) => assert_eq!(text(&r.message), "Invalid frame state"),
        other => panic!("unexpected {:?}", other),
    }
}

#[test]
fn run_with_no_fuel_does_nothing() {
    let mut vm = Vm::new();
    let src = "print 1;";
    assert_eq!(vm.interpret(src, number_values(src)), Ok(()));
    let before = vm.stack.len();
    assert_eq!(vm.run(0), Action::Continue);
    assert_eq!(vm.stack.len(), before);
}

#[test]
fn arithmetic_goes_to_the_host() {
    let mut vm = Vm::new();
    let src = "print 2 - 5;";
    assert_eq!(vm.interpret(src, number_values(src)), Ok(()));
    match vm.run(100) {
        Action::Arith(ArithOp::Subtract, a, b) => {
            assert_eq!(f64::from_bits(a), 2.0);
            assert_eq!(f64::from_bits(b), 5.0);
        }
        other => panic!("unexpected {:?}", other),
    }
}

#[test]
fn return_native_replaces_callee_and_arguments() {
    let mut vm = Vm::new();
    vm.push(Value::Nil);
    vm.push(Value::Bool(true));
    vm.push(Value::Bool(false));
    assert!(vm.return_native(2, Value::Number(7)));
    assert_eq!(vm.stack, vec![Value::Number(7)]);
    assert!(!vm.return_native(3, Value::Nil));
    assert_eq!(vm.stack, vec![Value::Number(7)]);
}

#[test]
fn runtime_error_clears_frames() {
    let mut vm = Vm::new();
    let src = "print 1;";
    assert_eq!(vm.interpret(src, number_values(src)), Ok(()));
    assert_eq!(vm.frames.len(), 1);
    let r = vm.runtime_error(ErrorMessage::Silent);
    assert_eq!(r.message, ErrorMessage::Silent);
    assert_eq!(r.trace.len(), 1);
    assert!(vm.frames.is_empty());
}

#[test]
fn print_value_of_plain_values() {
    let vm = Vm::new();
    assert_eq!(vm.print_value(&Value::Nil), Printed::Text("nil".to_string()));
    assert_eq!(vm.print_value(&Value::Bool(false)), Printed::Text("false".to_string()));
    assert_eq!(vm.print_value(&Value::Number(3)), Printed::Number(3));
    assert_eq!(
        vm.print_value(&Value::Native(NativeFunction(CLOCK_NATIVE))),
        Printed::Text("<native fn>".to_string())
    );
}

#[test]
fn read_string_of_the_current_function() {
    let mut vm = Vm::new();
    let src = "var name = 1;";
    assert_eq!(vm.interpret(src, number_values(src)), Ok(()));
    assert_eq!(vm.read_string(0), Some("name".to_string()));
    assert_eq!(vm.read_string(1), None);
    assert!(vm.read_string_gcref(0).is_some());
    assert!(vm.read_string_gcref(5).is_none());
}

#[test]
fn read_byte_walks_the_code() {
    let mut vm = Vm::new();
    let src = "nil;";
    assert_eq!(vm.interpret(src, number_values(src)), Ok(()));
    assert_eq!(vm.read_byte(), Some(OpCode::Nil));
    assert_eq!(vm.read_byte(), Some(OpCode::Pop));
    assert_eq!(vm.read_byte(), Some(OpCode::Nil));
    assert_eq!(vm.read_byte(), Some(OpCode::Return));
    assert_eq!(vm.read_byte(), None);
}

#[test]
fn maybe_gc_keeps_the_roots() {
    let mut vm = Vm::new();
    assert_eq!(drive(&mut vm, "var s = \"kept\";").result, Ok(()));
    vm.gc.next_gc = 0;
    vm.maybe_gc();
    let o = drive(&mut vm, "print s;");
    assert_eq!(o.printed, vec!["kept"]);
}

#[test]
fn interpreting_only_comments_starts_the_script() {
    let mut vm = Vm::new();
    let src = "  // nothing here\n\t\n";
    assert_eq!(vm.interpret(src, Vec::new()), Ok(()));
    assert_eq!(vm.frames.len(), 1);
    assert_eq!(vm.stack.len(), 1);
    assert!(vm.errors.is_empty());
    assert!(matches!(vm.run(10), Action::Finished));
    assert!(vm.frames.is_empty());
}

#[test]
fn compile_error_leaves_stack_and_frames_alone() {
    let mut vm = Vm::new();
    assert_eq!(vm.interpret("print ;", Vec::new()), Err(SmsError::CompileError));
    assert!(vm.frames.is_empty());
    assert!(vm.stack.is_empty());
    assert_eq!(vm.errors.len(), 1);
}
