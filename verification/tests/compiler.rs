use lib::compiler::{Compiler, FunctionType, Local};
use lib::gc::GcRef;
use lib::scanner::{Token, TokenType};

fn ident(name: &'static [u8]) -> Token<'static> {
    Token::new(TokenType::Identifier, name, 1)
}

#[test]
fn a_new_compiler_has_slot_zero() {
    let c = Compiler::new(GcRef(0), FunctionType::Script);
    assert_eq!(c.locals.len(), 1);
    assert_eq!(c.locals[0].depth, 0);
    assert_eq!(c.scope_depth, 0);
    assert_eq!(c.function.name, GcRef(0));
    assert_eq!(c.fn_ty, FunctionType::Script);
    assert!(c.enclosing.is_none());
}

#[test]
fn resolves_the_innermost_local() {
    let mut c = Compiler::new(GcRef(0), FunctionType::Function);
    c.locals.push(Local::new(ident(b"a"), 1));
    c.locals.push(Local::new(ident(b"b"), 1));
    c.locals.push(Local::new(ident(b"a"), 2));
    assert_eq!(c.resolve_local(ident(b"a")), Ok(Some(3)));
    assert_eq!(c.resolve_local(ident(b"b")), Ok(Some(2)));
    assert_eq!(c.resolve_local(ident(b"c")), Ok(None));
}

#[test]
fn reading_a_local_in_its_initializer_fails() {
    let mut c = Compiler::new(GcRef(0), FunctionType::Function);
    c.locals.push(Local::new(ident(b"a"), -1));
    assert_eq!(
        c.resolve_local(ident(b"a")),
        Err("Can't read local variable in its own initializer.".to_string())
    );
}

#[test]
fn resolves_a_local_of_the_enclosing_function() {
    let mut outer = Compiler::new(GcRef(0), FunctionType::Script);
    outer.locals.push(Local::new(ident(b"x"), 1));
    let mut inner = Compiler::new(GcRef(1), FunctionType::Function);
    inner.enclosing = Some(Box::new(outer));
    // The capture is recorded at position 0 and numbered 1.
    assert_eq!(inner.resolve_upvalue(ident(b"x")), Ok(Some(1)));
    assert_eq!(inner.function.upvalues.len(), 1);
    assert_eq!(inner.function.upvalues[0].index, 1);
    assert!(inner.function.upvalues[0].is_local);
    // Asking again finds the recorded capture at its position.
    assert_eq!(inner.resolve_upvalue(ident(b"x")), Ok(Some(0)));
    assert_eq!(inner.function.upvalues.len(), 1);
    assert_eq!(inner.resolve_upvalue(ident(b"y")), Ok(None));
}

#[test]
fn without_an_enclosing_function_nothing_is_captured() {
    let mut c = Compiler::new(GcRef(0), FunctionType::Script);
    assert_eq!(c.resolve_upvalue(ident(b"x")), Ok(None));
}

#[test]
fn current_chunk_is_the_function_chunk() {
    let mut c = Compiler::new(GcRef(0), FunctionType::Script);
    c.current_chunk().write(lib::chunk::OpCode::Nil, 4);
    assert_eq!(c.function.chunk.code.len(), 1);
    assert_eq!(c.function.chunk.lines, vec![4]);
}
