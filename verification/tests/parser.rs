use lib::chunk::OpCode;
use lib::compiler::{Compiler, FunctionType};
use lib::gc::Gc;
use lib::object::{Function, Obj};
use lib::parser::{ErrorLocation, ParseFn, ParseRule, Parser, Precedence};
use lib::scanner::number_literals;
use lib::value::Value;

fn numbers(src: &str) -> Vec<u64> {
    number_literals(src)
        .iter()
        .map(|b| std::str::from_utf8(b).unwrap().parse::<f64>().unwrap().to_bits())
        .collect()
}

fn compile(src: &str) -> (Option<Function>, Parser<'_>) {
    let mut gc = Gc::new();
    let name = gc.allocate(Obj::String(String::new()));
    let compiler = Compiler::new(name, FunctionType::Script);
    let mut p = Parser::new(src, compiler, gc, numbers(src));
    let f = p.compile();
    (f, p)
}

#[test]
fn compiles_a_print_statement() {
    let (f, _) = compile("print 1;");
    let f = f.unwrap();
    assert_eq!(f.chunk.code, vec![OpCode::Constant(0), OpCode::Print, OpCode::Nil, OpCode::Return]);
    assert_eq!(f.chunk.constants, vec![Value::Number(1.0f64.to_bits())]);
    assert_eq!(f.chunk.lines, vec![1, 1, 1, 1]);
}

#[test]
fn compiles_a_global_definition() {
    let (f, p) = compile("var a = true;");
    let f = f.unwrap();
    assert_eq!(
        f.chunk.code,
        vec![OpCode::True, OpCode::DefineGlobal(0), OpCode::Nil, OpCode::Return]
    );
    match f.chunk.constants[0] {
        Value::Obj(r) => match p.gc.deref(r) {
            Obj::String(s) => assert_eq!(s, "a"),
            _ => panic!("not a string"),
        },
        _ => panic!("not an object"),
    }
}

#[test]
fn compiles_locals_to_slots() {
    let (f, _) = compile("{ var a = nil; print a; }");
    assert_eq!(
        f.unwrap().chunk.code,
        vec![OpCode::Nil, OpCode::GetLocal(1), OpCode::Print, OpCode::Pop, OpCode::Nil, OpCode::Return]
    );
}

#[test]
fn compiles_comparisons_with_not() {
    let (f, _) = compile("true <= false;");
    assert_eq!(
        f.unwrap().chunk.code,
        vec![OpCode::True, OpCode::False, OpCode::Greater, OpCode::Not, OpCode::Pop, OpCode::Nil, OpCode::Return]
    );
}

#[test]
fn compiles_if_with_patched_jumps() {
    let (f, _) = compile("if (true) nil;");
    assert_eq!(
        f.unwrap().chunk.code,
        vec![
            OpCode::True,
            OpCode::JumpIfFalse(4),
            OpCode::Pop,
            OpCode::Nil,
            OpCode::Pop,
            OpCode::Jump(1),
            OpCode::Pop,
            OpCode::Nil,
            OpCode::Return,
        ]
    );
}

#[test]
fn compiles_while_with_a_loop_back() {
    let (f, _) = compile("while (false) nil;");
    assert_eq!(
        f.unwrap().chunk.code,
        vec![
            OpCode::False,
            OpCode::JumpIfFalse(4),
            OpCode::Pop,
            OpCode::Nil,
            OpCode::Pop,
            OpCode::Loop(6),
            OpCode::Pop,
            OpCode::Nil,
            OpCode::Return,
        ]
    );
}

#[test]
fn compiles_a_function_into_a_closure_constant() {
    let (f, p) = compile("fun g(a) { return a; }");
    let f = f.unwrap();
    assert_eq!(
        f.chunk.code,
        vec![OpCode::Closure(1), OpCode::DefineGlobal(0), OpCode::Nil, OpCode::Return]
    );
    match f.chunk.constants[1] {
        Value::Obj(r) => match p.gc.deref(r) {
            Obj::Function(g) => {
                assert_eq!(g.arity, 1);
                assert_eq!(g.chunk.code, vec![OpCode::GetLocal(1), OpCode::Return]);
            }
            _ => panic!("not a function"),
        },
        _ => panic!("not an object"),
    }
}

#[test]
fn reports_a_missing_semicolon() {
    let (f, p) = compile("print 1");
    assert!(f.is_none());
    assert_eq!(p.errors.len(), 1);
    assert_eq!(p.errors[0].location, ErrorLocation::AtEnd);
    assert_eq!(p.errors[0].message, "Expect ';' after value.");
}

#[test]
fn reports_one_error_per_statement() {
    let (f, p) = compile("print ;\nprint );");
    assert!(f.is_none());
    assert_eq!(p.errors.len(), 2);
    assert_eq!(p.errors[0].line, 1);
    assert_eq!(p.errors[0].location, ErrorLocation::At(b";".to_vec()));
    assert_eq!(p.errors[0].message, "Expect expression.");
    assert_eq!(p.errors[1].line, 2);
    assert_eq!(p.errors[1].location, ErrorLocation::At(b")".to_vec()));
}

#[test]
fn reports_scanner_errors() {
    let (f, p) = compile("print @;");
    assert!(f.is_none());
    assert_eq!(p.errors[0].location, ErrorLocation::Unplaced);
    assert_eq!(p.errors[0].message, "Unexpected character.");
}

#[test]
fn reports_a_redeclared_local() {
    let (_, p) = compile("{ var a = 1; var a = 2; }");
    assert_eq!(p.errors[0].message, "Already a variable with this name in this scope.");
}

#[test]
fn reports_an_invalid_assignment_target() {
    let (_, p) = compile("1 + 2 = 3;");
    assert_eq!(p.errors[0].message, "Invalid assignment target.");
}

#[test]
fn reports_reading_a_local_in_its_initializer() {
    let (_, p) = compile("{ var a = a; }");
    assert_eq!(p.errors[0].message, "Can't read local variable in its own initializer.");
}

#[test]
fn precedence_levels_ascend() {
    assert_eq!(Precedence::Lowest.next(), Precedence::Assignment);
    assert_eq!(Precedence::Unary.next(), Precedence::Call);
    assert_eq!(Precedence::Primary.next(), Precedence::Lowest);
    assert!(Precedence::Or.level() < Precedence::And.level());
}

#[test]
fn parse_rule_new_keeps_its_parts() {
    let r = ParseRule::new(Some(ParseFn::Grouping), None, Precedence::Call);
    assert_eq!(r.prefix, Some(ParseFn::Grouping));
    assert_eq!(r.infix, None);
    assert_eq!(r.prec, Precedence::Call);
}

#[test]
fn pop_compiler_without_enclosing_renames_the_script() {
    let mut gc = Gc::new();
    let name = gc.allocate(Obj::String(String::new()));
    let compiler = Compiler::new(name, FunctionType::Script);
    let mut p = Parser::new("", compiler, gc, Vec::new());
    let f = p.pop_compiler();
    assert_eq!(f.name, name);
    let g = p.pop_compiler();
    match p.gc.deref(g.name) {
        Obj::String(s) => assert_eq!(s, "<script>"),
        _ => panic!("not a string"),
    }
}

#[test]
fn compiles_and_as_a_conditional_jump() {
    let (f, _) = compile("true and false;");
    assert_eq!(
        f.unwrap().chunk.code,
        vec![
            OpCode::True,
            OpCode::JumpIfFalse(2),
            OpCode::Pop,
            OpCode::False,
            OpCode::Pop,
            OpCode::Nil,
            OpCode::Return,
        ]
    );
}

#[test]
fn compiles_or_as_two_jumps() {
    let (f, _) = compile("true or false;");
    assert_eq!(
        f.unwrap().chunk.code,
        vec![
            OpCode::True,
            OpCode::JumpIfFalse(1),
            OpCode::Jump(2),
            OpCode::Pop,
            OpCode::False,
            OpCode::Pop,
            OpCode::Nil,
            OpCode::Return,
        ]
    );
}

#[test]
fn compiles_unary_operators_after_their_operand() {
    let (f, _) = compile("-true; !nil;");
    assert_eq!(
        f.unwrap().chunk.code,
        vec![
            OpCode::True,
            OpCode::Negate,
            OpCode::Pop,
            OpCode::Nil,
            OpCode::Not,
            OpCode::Pop,
            OpCode::Nil,
            OpCode::Return,
        ]
    );
}

#[test]
fn compiles_not_equal_as_equal_then_not() {
    let (f, _) = compile("true != false;");
    assert_eq!(
        f.unwrap().chunk.code,
        vec![
            OpCode::True,
            OpCode::False,
            OpCode::Equal,
            OpCode::Not,
            OpCode::Pop,
            OpCode::Nil,
            OpCode::Return,
        ]
    );
}

#[test]
fn compiles_a_bare_return_to_nil_return() {
    let (f, _) = compile("return;");
    assert_eq!(
        f.unwrap().chunk.code,
        vec![OpCode::Nil, OpCode::Return, OpCode::Nil, OpCode::Return]
    );
}

#[test]
fn entering_and_leaving_a_function_restores_the_compiler() {
    let mut gc = Gc::new();
    let name = gc.allocate(Obj::String(String::new()));
    let compiler = Compiler::new(name, FunctionType::Script);
    let mut p = Parser::new("fun g() {}", compiler, gc, Vec::new());
    p.current_chunk().write(OpCode::Nil, 1);
    p.push_compiler(FunctionType::Function);
    assert!(p.current_chunk().code.is_empty());
    let g = p.pop_compiler();
    assert_eq!(g.arity, 0);
    assert!(g.chunk.code.is_empty());
    assert!(g.upvalues.is_empty());
    assert_eq!(p.current_chunk().code, vec![OpCode::Nil]);
}

#[test]
fn compiles_products_before_differences_from_the_left() {
    let (f, _) = compile("1 - 2 * 3 - 4;");
    let f = f.unwrap();
    assert_eq!(
        f.chunk.constants,
        vec![
            Value::Number(1.0f64.to_bits()),
            Value::Number(2.0f64.to_bits()),
            Value::Number(3.0f64.to_bits()),
            Value::Number(4.0f64.to_bits()),
        ]
    );
    assert_eq!(
        f.chunk.code,
        vec![
            OpCode::Constant(0),
            OpCode::Constant(1),
            OpCode::Constant(2),
            OpCode::Multiply,
            OpCode::Subtract,
            OpCode::Constant(3),
            OpCode::Subtract,
            OpCode::Pop,
            OpCode::Nil,
            OpCode::Return,
        ]
    );
}

#[test]
fn compiles_a_for_loop_with_patched_jumps_and_back_jumps() {
    let (f, _) = compile("for (var i = 0; i < 3; i = i + 1) print i;");
    let f = f.unwrap();
    assert_eq!(
        f.chunk.code,
        vec![
            OpCode::Constant(0),
            OpCode::GetLocal(1),
            OpCode::Constant(1),
            OpCode::Less,
            OpCode::JumpIfFalse(11),
            OpCode::Pop,
            OpCode::Jump(6),
            OpCode::GetLocal(1),
            OpCode::Constant(2),
            OpCode::Add,
            OpCode::SetLocal(1),
            OpCode::Pop,
            OpCode::Loop(12),
            OpCode::GetLocal(1),
            OpCode::Print,
            OpCode::Loop(9),
            OpCode::Pop,
            OpCode::Pop,
            OpCode::Nil,
            OpCode::Return,
        ]
    );
}

#[test]
fn compiles_a_for_loop_without_clauses() {
    let (f, _) = compile("for (;;) print 1;");
    assert_eq!(
        f.unwrap().chunk.code,
        vec![OpCode::Constant(0), OpCode::Print, OpCode::Loop(3), OpCode::Nil, OpCode::Return]
    );
}

#[test]
fn reports_assigning_to_a_sum() {
    let (f, p) = compile("a + b = c;");
    assert!(f.is_none());
    assert_eq!(p.errors[0].line, 1);
    assert_eq!(p.errors[0].location, ErrorLocation::At(b"=".to_vec()));
    assert_eq!(p.errors[0].message, "Invalid assignment target.");
}

#[test]
fn names_a_compiled_function_after_its_declaration() {
    let (f, p) = compile("fun area(w, h) { return w * h; }");
    let f = f.unwrap();
    match f.chunk.constants[1] {
        Value::Obj(r) => match p.gc.deref(r) {
            Obj::Function(g) => {
                assert_eq!(g.arity, 2);
                match p.gc.deref(g.name) {
                    Obj::String(s) => assert_eq!(s, "area"),
                    _ => panic!("not a string"),
                }
            }
            _ => panic!("not a function"),
        },
        _ => panic!("not an object"),
    }
}

#[test]
fn resumes_after_an_error_at_the_next_statement() {
    let (f, p) = compile("print ) 1 2; print 3;\nprint );");
    assert!(f.is_none());
    assert_eq!(p.errors.len(), 2);
    assert_eq!(p.errors[0].message, "Expect expression.");
    assert_eq!(p.errors[1].line, 2);
}
