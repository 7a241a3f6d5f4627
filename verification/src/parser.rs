use vstd::prelude::*;
use vstd::string::{StringExecFns, StringSliceAdditionalSpecFns};

use crate::chunk::{Chunk, OpCode};
use crate::compiler::{
    upvalue_added,
    chain_consts, chain_has_local, chain_len, enclosing_arities, enclosing_codes, enclosing_scopes, spec_resolve_local, Compiler, FunctionType, Local,
    LOCAL_COUNT,
};
use crate::gc::{Gc, GcRef, GC_HEAP_GROW_FACTOR};
use crate::object::{obj_refs, values_refs, Function, Obj};
use crate::scanner::{next_token, skip_trivia, Scanner, Token, TokenType};
use crate::text::{lossy_text, text_from_bytes};
use crate::value::Value;
use crate::vm::ArithOp;

verus! {

/// Binding strength of operators, from loosest to tightest.
#[derive(Debug, Copy, Clone, PartialEq, Eq, Structural)]
pub enum Precedence {
    Lowest,
    Assignment,
    Or,
    And,
    Equality,
    Comparison,
    Term,
    Factor,
    Unary,
    Call,
    Primary,
}

pub open spec fn prec_level(p: Precedence) -> int {
    match p {
        Precedence::Lowest => 0,
        Precedence::Assignment => 1,
        Precedence::Or => 2,
        Precedence::And => 3,
        Precedence::Equality => 4,
        Precedence::Comparison => 5,
        Precedence::Term => 6,
        Precedence::Factor => 7,
        Precedence::Unary => 8,
        Precedence::Call => 9,
        Precedence::Primary => 10,
    }
}

impl Precedence {
    /// The position of this precedence in the order.
    pub fn level(&self) -> (l: u8)
        ensures
            l == prec_level(*self),
    {
        match self {
            Precedence::Lowest => 0,
            Precedence::Assignment => 1,
            Precedence::Or => 2,
            Precedence::And => 3,
            Precedence::Equality => 4,
            Precedence::Comparison => 5,
            Precedence::Term => 6,
            Precedence::Factor => 7,
            Precedence::Unary => 8,
            Precedence::Call => 9,
            Precedence::Primary => 10,
        }
    }

    /// The next tighter precedence; the tightest wraps round to `Lowest`.
    pub fn next(&self) -> (p: Precedence)
        ensures
            prec_level(*self) < 10 ==> prec_level(p) == prec_level(*self) + 1,
            prec_level(*self) == 10 ==> p == Precedence::Lowest,
    {
        match self {
            Precedence::Lowest => Precedence::Assignment,
            Precedence::Assignment => Precedence::Or,
            Precedence::Or => Precedence::And,
            Precedence::And => Precedence::Equality,
            Precedence::Equality => Precedence::Comparison,
            Precedence::Comparison => Precedence::Term,
            Precedence::Term => Precedence::Factor,
            Precedence::Factor => Precedence::Unary,
            Precedence::Unary => Precedence::Call,
            Precedence::Call => Precedence::Primary,
            Precedence::Primary => Precedence::Lowest,
        }
    }
}

/// The parsing function that a rule names.
#[derive(Debug, Copy, Clone, PartialEq, Eq, Structural)]
pub enum ParseFn {
    Grouping,
    Call,
    Unary,
    Binary,
    Variable,
    String,
    Number,
    Literal,
    And,
    Or,
}

/// How a token is parsed at the start of an expression (`prefix`), after
/// an operand (`infix`), and how tightly it binds as an infix operator.
#[derive(Debug, Copy, Clone, PartialEq, Eq, Structural)]
pub struct ParseRule {
    pub prefix: Option<ParseFn>,
    pub infix: Option<ParseFn>,
    pub prec: Precedence,
}

impl ParseRule {
    pub fn new(prefix: Option<ParseFn>, infix: Option<ParseFn>, prec: Precedence) -> (r: Self)
        ensures
            r.prefix == prefix,
            r.infix == infix,
            r.prec == prec,
    {
        Self { prefix, infix, prec }
    }
}

/// The table of parse rules.
pub open spec fn rule_of(kind: TokenType) -> ParseRule {
    match kind {
        TokenType::LeftParen => ParseRule {
            prefix: Some(ParseFn::Grouping),
            infix: Some(ParseFn::Call),
            prec: Precedence::Call,
        },
        TokenType::Minus => ParseRule {
            prefix: Some(ParseFn::Unary),
            infix: Some(ParseFn::Binary),
            prec: Precedence::Term,
        },
        TokenType::Plus => ParseRule {
            prefix: None,
            infix: Some(ParseFn::Binary),
            prec: Precedence::Term,
        },
        TokenType::Slash | TokenType::Star => ParseRule {
            prefix: None,
            infix: Some(ParseFn::Binary),
            prec: Precedence::Factor,
        },
        TokenType::Bang => ParseRule {
            prefix: Some(ParseFn::Unary),
            infix: None,
            prec: Precedence::Lowest,
        },
        TokenType::BangEqual | TokenType::EqualEqual => ParseRule {
            prefix: None,
            infix: Some(ParseFn::Binary),
            prec: Precedence::Equality,
        },
        TokenType::Greater | TokenType::GreaterEqual | TokenType::Less
        | TokenType::LessEqual => ParseRule {
            prefix: None,
            infix: Some(ParseFn::Binary),
            prec: Precedence::Comparison,
        },
        TokenType::Identifier => ParseRule {
            prefix: Some(ParseFn::Variable),
            infix: None,
            prec: Precedence::Lowest,
        },
        TokenType::String => ParseRule {
            prefix: Some(ParseFn::String),
            infix: None,
            prec: Precedence::Lowest,
        },
        TokenType::Number => ParseRule {
            prefix: Some(ParseFn::Number),
            infix: None,
            prec: Precedence::Lowest,
        },
        TokenType::And => ParseRule {
            prefix: None,
            infix: Some(ParseFn::And),
            prec: Precedence::And,
        },
        TokenType::Or => ParseRule { prefix: None, infix: Some(ParseFn::Or), prec: Precedence::Or },
        TokenType::False | TokenType::Nil | TokenType::True => ParseRule {
            prefix: Some(ParseFn::Literal),
            infix: None,
            prec: Precedence::Lowest,
        },
        _ => ParseRule { prefix: None, infix: None, prec: Precedence::Lowest },
    }
}

/// The code after the jump at `offset` is given the distance to the end of
/// the code; left unchanged where there is no jump there or the distance
/// does not fit in 16 bits.
pub open spec fn patched(code: Seq<OpCode>, offset: int) -> Seq<OpCode> {
    let dist = code.len() - 1 - offset;
    if 0 <= offset < code.len() && dist <= 0xffff {
        match code[offset] {
            OpCode::JumpIfFalse(_) => code.update(offset, OpCode::JumpIfFalse(dist as u16)),
            OpCode::Jump(_) => code.update(offset, OpCode::Jump(dist as u16)),
            _ => code,
        }
    } else {
        code
    }
}

/// The instructions that a binary operator compiles to, after its operands.
pub open spec fn binary_code(kind: TokenType) -> Seq<OpCode> {
    match kind {
        TokenType::Plus => seq![OpCode::Add],
        TokenType::Minus => seq![OpCode::Subtract],
        TokenType::Star => seq![OpCode::Multiply],
        TokenType::Slash => seq![OpCode::Divide],
        TokenType::BangEqual => seq![OpCode::Equal, OpCode::Not],
        TokenType::Equal => seq![OpCode::Equal],
        TokenType::Greater => seq![OpCode::Greater],
        TokenType::GreaterEqual => seq![OpCode::Less, OpCode::Not],
        TokenType::Less => seq![OpCode::Less],
        TokenType::LessEqual => seq![OpCode::Greater, OpCode::Not],
        _ => seq![],
    }
}

/// Whether a local named `name` is declared in the innermost block at
/// depth `d`: among the locals from the end back to the first one of a
/// shallower block (a local still being initialized counts as this block's).
pub open spec fn declared_in_block(locals: Seq<Local>, d: i32, name: Seq<u8>) -> bool
    decreases locals.len(),
{
    if locals.len() == 0 {
        false
    } else if locals.last().depth != -1 && locals.last().depth < d {
        false
    } else if locals.last().name.lexeme@ == name {
        true
    } else {
        declared_in_block(locals.drop_last(), d, name)
    }
}

/// The operation that an instruction has the host compute on the two
/// numbers on top of the stack, if it is one of those.
pub open spec fn host_operation(op: OpCode) -> Option<ArithOp> {
    match op {
        OpCode::Add => Some(ArithOp::Add),
        OpCode::Subtract => Some(ArithOp::Subtract),
        OpCode::Multiply => Some(ArithOp::Multiply),
        OpCode::Divide => Some(ArithOp::Divide),
        OpCode::Greater => Some(ArithOp::Greater),
        OpCode::Less => Some(ArithOp::Less),
        _ => None,
    }
}

/// The boolean that comparison instructions leave when they run on two
/// numbers `x` and `y` (pushed in that order), where the host answers
/// `x < y` with `lt` and `x > y` with `gt`, and the machine finds them
/// equal or not (`eq`): `Less` and `Greater` leave the host's answer,
/// `Equal` the machine's, and `Not` turns the boolean before it around.
/// `None` where the instructions do not leave one boolean.
pub open spec fn comparison_result(code: Seq<OpCode>, lt: bool, eq: bool, gt: bool) -> Option<bool>
    decreases code.len(),
{
    if code.len() == 0 {
        None
    } else if code.len() == 1 {
        match code[0] {
            OpCode::Less => Some(lt),
            OpCode::Greater => Some(gt),
            OpCode::Equal => Some(eq),
            _ => None,
        }
    } else {
        match (code.last(), comparison_result(code.drop_last(), lt, eq, gt)) {
            (OpCode::Not, Some(b)) => Some(!b),
            _ => None,
        }
    }
}

/// Comparisons compile to code that leaves what the operator means, for
/// whatever the host and the machine answer: `<` and `>` leave the host's
/// answers, `>=` leaves "not less", `<=` "not greater" and `!=` "not
/// equal". So `x >= x` and `x <= x` leave true where `x < x` and `x > x`
/// are false, and on numbers of which exactly one of `<`, `==`, `>` holds,
/// `>=` is "greater or equal" and `<=` "less or equal".
pub proof fn lemma_comparisons_compile_to_their_meaning(lt: bool, eq: bool, gt: bool)
    ensures
        comparison_result(binary_code(TokenType::Less), lt, eq, gt) == Some(lt),
        comparison_result(binary_code(TokenType::Greater), lt, eq, gt) == Some(gt),
        comparison_result(binary_code(TokenType::GreaterEqual), lt, eq, gt) == Some(!lt),
        comparison_result(binary_code(TokenType::LessEqual), lt, eq, gt) == Some(!gt),
        comparison_result(binary_code(TokenType::BangEqual), lt, eq, gt) == Some(!eq),
        (lt && !eq && !gt) || (!lt && eq && !gt) || (!lt && !eq && gt) ==> comparison_result(
            binary_code(TokenType::GreaterEqual),
            lt,
            eq,
            gt,
        ) == Some(gt || eq) && comparison_result(binary_code(TokenType::LessEqual), lt, eq, gt) == Some(lt || eq),
{
    reveal_with_fuel(comparison_result, 3);
    assert(binary_code(TokenType::GreaterEqual).drop_last() =~= seq![OpCode::Less]);
    assert(binary_code(TokenType::LessEqual).drop_last() =~= seq![OpCode::Greater]);
    assert(binary_code(TokenType::BangEqual).drop_last() =~= seq![OpCode::Equal]);
}

/// The arithmetic operators compile to the one instruction that has the
/// host compute that operation: `+` adds, `-` subtracts, `*` multiplies and
/// `/` divides, in the order of the operands.
pub proof fn lemma_arithmetic_compiles_to_its_operation()
    ensures
        binary_code(TokenType::Plus).len() == 1 && host_operation(binary_code(TokenType::Plus)[0]) == Some(ArithOp::Add),
        binary_code(TokenType::Minus).len() == 1 && host_operation(binary_code(TokenType::Minus)[0]) == Some(
            ArithOp::Subtract,
        ),
        binary_code(TokenType::Star).len() == 1 && host_operation(binary_code(TokenType::Star)[0]) == Some(
            ArithOp::Multiply,
        ),
        binary_code(TokenType::Slash).len() == 1 && host_operation(binary_code(TokenType::Slash)[0]) == Some(
            ArithOp::Divide,
        ),
{
}

/// Operators bind in the usual order, each level tighter than the next:
/// `*` and `/` alike; `+` and `-` alike; the four comparisons alike; `==`
/// and `!=` alike; then `and`; then `or`, which still binds tighter than
/// assignment. A call binds tighter than all of them. All of them are infix
/// operators, so an expression like `a + b / c` divides first. `-` and `!`
/// also start an expression as prefix operators, `(` starts a group and
/// calls, and literals and names start an expression. Tokens that end an
/// expression (`;`, `)`, `,`, `=`, the end of the text) bind weaker than any
/// operator, so an expression stops in front of them.
pub proof fn lemma_operators_bind_in_order()
    ensures
        rule_of(TokenType::Minus).prefix == Some(ParseFn::Unary) && rule_of(TokenType::Bang).prefix == Some(
            ParseFn::Unary,
        ),
        rule_of(TokenType::LeftParen).prefix == Some(ParseFn::Grouping) && rule_of(TokenType::LeftParen).infix
            == Some(ParseFn::Call),
        rule_of(TokenType::Number).prefix == Some(ParseFn::Number) && rule_of(TokenType::String).prefix == Some(
            ParseFn::String,
        ) && rule_of(TokenType::Identifier).prefix == Some(ParseFn::Variable),
        rule_of(TokenType::True).prefix == Some(ParseFn::Literal) && rule_of(TokenType::False).prefix == Some(
            ParseFn::Literal,
        ) && rule_of(TokenType::Nil).prefix == Some(ParseFn::Literal),
        rule_of(TokenType::And).infix == Some(ParseFn::And) && rule_of(TokenType::Or).infix == Some(ParseFn::Or),
        prec_level(rule_of(TokenType::Semicolon).prec) < prec_level(Precedence::Assignment),
        prec_level(rule_of(TokenType::RightParen).prec) < prec_level(Precedence::Assignment),
        prec_level(rule_of(TokenType::Comma).prec) < prec_level(Precedence::Assignment),
        prec_level(rule_of(TokenType::Equal).prec) < prec_level(Precedence::Assignment),
        prec_level(rule_of(TokenType::Eof).prec) < prec_level(Precedence::Assignment),
        prec_level(rule_of(TokenType::Star).prec) == prec_level(rule_of(TokenType::Slash).prec),
        prec_level(rule_of(TokenType::Plus).prec) == prec_level(rule_of(TokenType::Minus).prec),
        prec_level(rule_of(TokenType::Slash).prec) > prec_level(rule_of(TokenType::Plus).prec),
        prec_level(rule_of(TokenType::Greater).prec) == prec_level(rule_of(TokenType::Less).prec),
        prec_level(rule_of(TokenType::GreaterEqual).prec) == prec_level(rule_of(TokenType::Less).prec),
        prec_level(rule_of(TokenType::LessEqual).prec) == prec_level(rule_of(TokenType::Less).prec),
        prec_level(rule_of(TokenType::Minus).prec) > prec_level(rule_of(TokenType::Less).prec),
        prec_level(rule_of(TokenType::EqualEqual).prec) == prec_level(rule_of(TokenType::BangEqual).prec),
        prec_level(rule_of(TokenType::Less).prec) > prec_level(rule_of(TokenType::EqualEqual).prec),
        prec_level(rule_of(TokenType::BangEqual).prec) > prec_level(rule_of(TokenType::And).prec),
        prec_level(rule_of(TokenType::And).prec) > prec_level(rule_of(TokenType::Or).prec),
        prec_level(rule_of(TokenType::Or).prec) > prec_level(Precedence::Assignment),
        prec_level(rule_of(TokenType::LeftParen).prec) > prec_level(rule_of(TokenType::Star).prec),
        rule_of(TokenType::Plus).infix == Some(ParseFn::Binary) && rule_of(TokenType::Minus).infix == Some(
            ParseFn::Binary,
        ) && rule_of(TokenType::Star).infix == Some(ParseFn::Binary) && rule_of(TokenType::Slash).infix == Some(
            ParseFn::Binary,
        ),
        rule_of(TokenType::Greater).infix == Some(ParseFn::Binary) && rule_of(TokenType::GreaterEqual).infix
            == Some(ParseFn::Binary) && rule_of(TokenType::Less).infix == Some(ParseFn::Binary) && rule_of(
            TokenType::LessEqual,
        ).infix == Some(ParseFn::Binary) && rule_of(TokenType::BangEqual).infix == Some(ParseFn::Binary),
{
}

/// A local may shadow one of an outer block: where every local named
/// `name` is initialized and belongs to a block shallower than `d`,
/// declaring `name` at depth `d` is no redeclaration.
pub proof fn lemma_shadowing_is_allowed(locals: Seq<Local>, d: i32, name: Seq<u8>)
    requires
        forall|k: int|
            0 <= k < locals.len() && (#[trigger] locals[k]).name.lexeme@ == name ==> 0 <= locals[k].depth < d,
    ensures
        !declared_in_block(locals, d, name),
    decreases locals.len(),
{
    if locals.len() > 0 {
        let rest = locals.drop_last();
        assert forall|k: int| 0 <= k < rest.len() && (#[trigger] rest[k]).name.lexeme@ == name implies 0
            <= rest[k].depth < d by {
            assert(rest[k] == locals[k]);
        }
        lemma_shadowing_is_allowed(rest, d, name);
    }
}

/// A redeclaration is reported only for a local of the same name that
/// belongs to the block at depth `d` (or a deeper one) or is still being
/// initialized; and a local of that name in that block, with only locals of
/// that block after it, is always reported.
pub proof fn lemma_redeclaration_is_within_the_block(locals: Seq<Local>, d: i32, name: Seq<u8>)
    ensures
        declared_in_block(locals, d, name) ==> exists|k: int|
            0 <= k < locals.len() && (#[trigger] locals[k]).name.lexeme@ == name && (locals[k].depth == -1
                || locals[k].depth >= d),
        forall|k: int|
            0 <= k < locals.len() && (#[trigger] locals[k]).name.lexeme@ == name && (locals[k].depth == -1
                || locals[k].depth >= d) && (forall|j: int|
                k < j < locals.len() ==> locals[j].depth == -1 || locals[j].depth >= d) ==> declared_in_block(
                locals,
                d,
                name,
            ),
    decreases locals.len(),
{
    if locals.len() > 0 {
        let rest = locals.drop_last();
        lemma_redeclaration_is_within_the_block(rest, d, name);
        if declared_in_block(locals, d, name) && locals.last().name.lexeme@ != name {
            let k = choose|k: int|
                0 <= k < rest.len() && (#[trigger] rest[k]).name.lexeme@ == name && (rest[k].depth == -1
                    || rest[k].depth >= d);
            assert(locals[k] == rest[k]);
        }
        assert forall|k: int|
            0 <= k < locals.len() && (#[trigger] locals[k]).name.lexeme@ == name && (locals[k].depth == -1
                || locals[k].depth >= d) && (forall|j: int|
                k < j < locals.len() ==> locals[j].depth == -1 || locals[j].depth >= d) implies declared_in_block(
            locals,
            d,
            name,
        ) by {
            if k < locals.len() - 1 {
                assert(locals[locals.len() - 1].depth == -1 || locals[locals.len() - 1].depth >= d);
                assert(rest[k] == locals[k]);
                assert forall|j: int| k < j < rest.len() implies rest[j].depth == -1 || rest[j].depth >= d by {
                    assert(rest[j] == locals[j]);
                }
            }
        }
    }
}

/// `after` holds the code `before`, then more code that ends with `tail`.
pub open spec fn emitted_last(before: Seq<OpCode>, after: Seq<OpCode>, tail: Seq<OpCode>) -> bool {
    &&& before.len() + tail.len() <= after.len()
    &&& after.subrange(after.len() - tail.len(), after.len() as int) == tail
}

/// Code emitted after `before` and then one more instruction ends with it.
pub proof fn lemma_emitted_push(before: Seq<OpCode>, mid: Seq<OpCode>, op: OpCode)
    requires
        before.len() <= mid.len(),
    ensures
        emitted_last(before, mid.push(op), seq![op]),
{
    assert(mid.push(op).subrange(mid.len() as int, mid.len() + 1int) =~= seq![op]);
}

/// Code emitted after `before` and then two more instructions ends with both.
pub proof fn lemma_emitted_push2(before: Seq<OpCode>, mid: Seq<OpCode>, a: OpCode, b: OpCode)
    requires
        before.len() <= mid.len(),
    ensures
        emitted_last(before, mid.push(a).push(b), seq![a, b]),
{
    assert(mid.push(a).push(b).subrange(mid.len() as int, mid.len() + 2int) =~= seq![a, b]);
}

/// Whether a token of this kind begins a declaration or statement that
/// error recovery resumes at.
pub open spec fn starts_statement(kind: TokenType) -> bool {
    matches!(kind, TokenType::Class | TokenType::Fun | TokenType::Var | TokenType::For
        | TokenType::If | TokenType::While | TokenType::Print | TokenType::Return)
}

/// The block depth that ending a block at depth `d` returns to.
pub open spec fn outer_depth(d: i32) -> i32 {
    if d > 0 {
        (d - 1) as i32
    } else {
        d
    }
}

/// How many of `locals` stay when the code returns to block depth `d`:
/// those at the end declared deeper than `d` go.
pub open spec fn kept_locals(locals: Seq<Local>, d: i32) -> nat
    decreases locals.len(),
{
    if locals.len() == 0 {
        0
    } else if locals.last().depth > d {
        kept_locals(locals.drop_last(), d)
    } else {
        locals.len()
    }
}

/// `n` instructions that each pop one value.
pub open spec fn pops(n: nat) -> Seq<OpCode> {
    Seq::new(n, |i: int| OpCode::Pop)
}

/// Compilers with the same enclosing compiler have the same functions
/// around them.
pub proof fn lemma_outer_consts_same(a: Compiler, b: Compiler)
    requires
        a.enclosing == b.enclosing,
    ensures
        chain_consts(a).drop_first() == chain_consts(b).drop_first(),
{
    let rest = match a.enclosing {
        Some(e) => chain_consts(*e),
        None => Seq::empty(),
    };
    assert(chain_consts(a).drop_first() =~= rest);
    assert(chain_consts(b).drop_first() =~= rest);
}

/// The code of an `if` statement placed after `before_len` instructions,
/// with its conditional jump at `t` and its jump over the `else` branch at
/// `e`: each is followed by a pop of the condition, and each lands after
/// the code it skips, as far as the distance fits in 16 bits.
pub open spec fn if_shape(before_len: int, code: Seq<OpCode>, t: int, e: int) -> bool {
    &&& before_len <= t && t + 2 <= e && e + 2 <= code.len()
    &&& code[t] is JumpIfFalse && code[t + 1] == OpCode::Pop
    &&& code[e] is Jump && code[e + 1] == OpCode::Pop
    &&& e - t <= 0xffff ==> code[t] == OpCode::JumpIfFalse((e - t) as u16)
    &&& code.len() - 1 - e <= 0xffff ==> code[e] == OpCode::Jump((code.len() - 1 - e) as u16)
}

/// The instruction at `l`, after `before_len`, jumps back to `st`.
pub open spec fn loops_back_at(before_len: int, code: Seq<OpCode>, l: int, st: int) -> bool {
    &&& before_len <= st <= l < code.len()
    &&& code[l] == OpCode::Loop((l - st + 1) as u16)
}

/// The code of a `for` loop emitted after `before_len`, whose condition
/// starts at `c`: the back jump at `l` goes to `st`, which is the condition
/// itself, or the increment, which a jump just before it skips on the way
/// into the body and which ends in a back jump to the condition. Only `Pop`s
/// follow the back jump. Where the loop has a condition (`cond`), its exit
/// jump at `j` lands on the first of them.
pub open spec fn for_loop_code(before_len: int, code: Seq<OpCode>, c: int, st: int, l: int, cond: bool) -> bool {
    &&& before_len <= c <= st
    &&& loops_back_at(before_len, code, l, st)
    &&& st == c || exists|k: int|
        #![trigger loops_back_at(before_len, code, k, c)]
        st <= k < l && code[st - 1] == OpCode::Jump((k - st + 1) as u16) && loops_back_at(before_len, code, k, c)
    &&& forall|i: int| l < i < code.len() ==> #[trigger] code[i] == OpCode::Pop
    &&& cond ==> {
        &&& l + 1 < code.len()
        &&& exists|j: int|
            c <= j < l && (st == c || j < st - 1) && #[trigger] code[j] == OpCode::JumpIfFalse((l - j) as u16)
    }
}

/// Entering a new function and leaving it again, with nothing compiled in
/// between, comes back to the function that was being compiled, in the
/// state it was in, with the same locals, block depth and enclosing
/// functions.
pub proof fn lemma_enter_leave<'c>(before: Parser<'c>, inside: Parser<'c>, after: Parser<'c>)
    requires
        inside.entered_from(&before),
        after.left_to(&inside),
    ensures
        after.same_compiler(&before),
        after.compiling() == before.compiling(),
        after.scope() == before.scope(),
        after.nesting() == before.nesting(),
        after.outer_codes() == before.outer_codes(),
{
}

/// Ending a block drops exactly the locals declared in it, when those came
/// after locals of the enclosing blocks.
pub proof fn lemma_kept_after_block(outer: Seq<Local>, inner: Seq<Local>, d: i32)
    requires
        outer.len() > 0,
        outer.last().depth <= d,
        forall|k: int| 0 <= k < inner.len() ==> (#[trigger] inner[k]).depth > d,
    ensures
        kept_locals(outer + inner, d) == outer.len(),
    decreases inner.len(),
{
    if inner.len() == 0 {
        assert(outer + inner =~= outer);
    } else {
        let s = outer + inner;
        assert(s.drop_last() =~= outer + inner.drop_last());
        assert(s.last() == inner.last());
        lemma_kept_after_block(outer, inner.drop_last(), d);
    }
}

/// `v` refers to a function object of the heap `gc`.
pub open spec fn function_value(gc: Gc, v: Value) -> bool {
    v matches Value::Obj(g) && gc.is_live(g.0) && gc.obj_at(g.0) is Function
}

/// `v` refers to a function object of the heap `gc` whose name is `name`.
pub open spec fn function_named(gc: Gc, v: Value, name: Seq<char>) -> bool {
    v matches Value::Obj(g) && gc.is_live(g.0) && (gc.obj_at(g.0) matches Obj::Function(f) && string_value(
        gc,
        Value::Obj(f.name),
        name,
    ))
}

/// `v` refers to a function object of the heap `gc` that takes at most
/// `max` arguments.
pub open spec fn function_arity_within(gc: Gc, v: Value, max: int) -> bool {
    v matches Value::Obj(g) && (gc.obj_at(g.0) matches Obj::Function(f) && f.arity <= max)
}

/// `v` refers to a string object of the heap `gc` whose text is `text`.
pub open spec fn string_value(gc: Gc, v: Value, text: Seq<char>) -> bool {
    v matches Value::Obj(g) && gc.is_live(g.0) && (gc.obj_at(g.0) matches Obj::String(t) && t@ == text)
}

/// Where a compile error was found.
#[derive(Debug, PartialEq, Eq)]
pub enum ErrorLocation {
    /// At the end of the source text.
    AtEnd,
    /// At a token whose text is given.
    At(Vec<u8>),
    /// Nowhere in particular (the scanner's own errors).
    Unplaced,
}

/// A compile error: the line, where on it, and the message.
pub struct CompileError {
    pub line: usize,
    pub location: ErrorLocation,
    pub message: String,
}

/// Every function, and the function around each, refers only to live objects.
pub open spec fn chain_refs_live(c: Compiler, gc: Gc) -> bool {
    forall|k: int|
        0 <= k < chain_consts(c).len() ==> gc.is_live(#[trigger] chain_consts(c)[k].0.0)
            && gc.all_live(values_refs(chain_consts(c)[k].1))
}

/// A single-pass compiler from source text to bytecode: it scans tokens,
/// parses them by precedence climbing, and emits code as it goes.
pub struct Parser<'c> {
    scanner: Scanner<'c>,
    compiler: Compiler<'c>,
    previous: Token<'c>,
    current: Token<'c>,
    had_error: bool,
    panic_mode: bool,
    /// The heap in which the compiler places names, strings and functions.
    pub gc: Gc,
    /// The values of the number literals of the source, in order.
    numbers: Vec<u64>,
    /// How many number tokens have been scanned.
    number_count: usize,
    /// The position among the number literals of the current token.
    current_number: usize,
    /// The position among the number literals of the previous token.
    previous_number: usize,
    /// The errors reported so far, in order.
    pub errors: Vec<CompileError>,
}

/// Every object that `old` holds, `new` holds unchanged.
pub open spec fn heap_grows(old: Gc, new: Gc) -> bool {
    forall|i: usize| #[trigger] old.is_live(i) ==> new.is_live(i) && new.objects@[i as int] == old.objects@[i as int]
}

pub proof fn lemma_chain_refs_live_grow(c: Compiler, old: Gc, new: Gc)
    requires
        chain_refs_live(c, old),
        heap_grows(old, new),
    ensures
        chain_refs_live(c, new),
{
    assert forall|k: int| 0 <= k < chain_consts(c).len() implies new.is_live(#[trigger] chain_consts(c)[k].0.0)
        && new.all_live(values_refs(chain_consts(c)[k].1)) by {
        assert(old.is_live(chain_consts(c)[k].0.0));
        assert forall|j: usize| #[trigger] values_refs(chain_consts(c)[k].1).contains(j) implies new.is_live(j) by {
            assert(old.all_live(values_refs(chain_consts(c)[k].1)));
            assert(old.is_live(j));
        }
    }
}

/// Changing only the innermost function, keeping its references live, keeps
/// the chain's references live.
pub proof fn lemma_top_refs(old_c: Compiler, new_c: Compiler, gc: Gc)
    requires
        chain_refs_live(old_c, gc),
        new_c.enclosing == old_c.enclosing,
        gc.is_live(new_c.function.name.0),
        gc.all_live(values_refs(new_c.function.chunk.constants@)),
    ensures
        chain_refs_live(new_c, gc),
{
    let a = chain_consts(old_c);
    let b = chain_consts(new_c);
    assert(b.len() == a.len());
    assert forall|k: int| 0 <= k < b.len() implies gc.is_live(#[trigger] b[k].0.0) && gc.all_live(
        values_refs(b[k].1),
    ) by {
        if k > 0 {
            assert(b[k] == a[k]);
            assert(gc.is_live(a[k].0.0));
        }
    }
}

/// The innermost function of a chain refers only to live objects.
pub proof fn lemma_top_live(c: Compiler, gc: Gc)
    requires
        chain_refs_live(c, gc),
    ensures
        gc.is_live(c.function.name.0),
        gc.all_live(values_refs(c.function.chunk.constants@)),
{
    assert(chain_consts(c)[0] == (c.function.name, c.function.chunk.constants@));
    assert(gc.is_live(chain_consts(c)[0].0.0));
}

impl<'c> Parser<'c> {
    pub closed spec fn text(&self) -> Seq<u8> {
        self.scanner.text()
    }

    /// Twice the number of bytes left, plus one while the current token is
    /// not the end: every token consumed lowers it.
    pub closed spec fn progress(&self) -> int {
        2 * (self.scanner.text().len() - self.scanner.current) + if self.current.kind
            != TokenType::Eof {
            1int
        } else {
            0int
        }
    }

    /// How many bytes of the text have been scanned.
    pub closed spec fn position(&self) -> int {
        self.scanner.current as int
    }

    /// The number of errors reported.
    pub closed spec fn error_count(&self) -> nat {
        self.errors@.len()
    }

    /// The heap that the compiler allocates in.
    pub closed spec fn heap(&self) -> Gc {
        self.gc
    }

    /// The chunk of the function being compiled.
    pub closed spec fn chunk(&self) -> Chunk {
        self.compiler.function.chunk
    }

    /// This parser with `c` as the chunk of the function being compiled.
    pub closed spec fn with_chunk(&self, c: Chunk) -> Parser<'c> {
        Parser {
            compiler: Compiler {
                function: Function { chunk: c, ..self.compiler.function },
                ..self.compiler
            },
            ..*self
        }
    }

    /// The code of each function around the one being compiled, innermost
    /// first.
    pub closed spec fn outer_codes(&self) -> Seq<Seq<OpCode>> {
        enclosing_codes(self.compiler.enclosing)
    }

    /// The number of parameters of each function around the one being
    /// compiled, innermost first.
    pub closed spec fn outer_arities(&self) -> Seq<usize> {
        enclosing_arities(self.compiler.enclosing)
    }

    /// The name and constants of each function around the one being
    /// compiled, innermost first.
    pub closed spec fn outer_consts(&self) -> Seq<(GcRef, Seq<Value>)> {
        chain_consts(self.compiler).drop_first()
    }

    /// The locals and block depth of each function around the one being
    /// compiled, innermost first.
    pub closed spec fn outer_scopes(&self) -> Seq<(Seq<Local<'c>>, i32)> {
        enclosing_scopes(self.compiler.enclosing)
    }

    /// The locals and block depth of the function being compiled.
    pub closed spec fn scope(&self) -> (Seq<Local<'c>>, i32) {
        (self.compiler.locals@, self.compiler.scope_depth)
    }

    /// Only whitespace and comments are left of the text.
    pub closed spec fn trivia_to_end(&self) -> bool {
        skip_trivia(self.scanner.text(), self.scanner.current as int, self.scanner.line as int).0
            >= self.scanner.text().len()
    }

    /// This parser compiles a new function inside the function that `old`
    /// was compiling, which becomes the enclosing one as it was.
    pub closed spec fn entered_from(&self, old: &Parser<'c>) -> bool {
        self.compiler.enclosing == Some(Box::new(old.compiler))
    }

    /// This parser is back at the function around the one that `old` was
    /// compiling, as that enclosing function stood in `old`.
    pub closed spec fn left_to(&self, old: &Parser<'c>) -> bool {
        old.compiler.enclosing matches Some(e) && self.compiler == *e
    }

    /// Both parsers compile the same function in the same state, inside the
    /// same functions.
    pub closed spec fn same_compiler(&self, other: &Parser<'c>) -> bool {
        self.compiler == other.compiler
    }

    /// The last local was declared at the current block depth or outside
    /// it (or is still being initialized).
    pub closed spec fn ends_within(&self) -> bool {
        &&& self.compiler.locals@.len() > 0
        &&& self.compiler.locals@.last().depth <= self.compiler.scope_depth
    }

    /// Unless an error was reported, a statement leaves the locals and the
    /// block depth as they were, where `old` ended within its block.
    pub closed spec fn keeps_locals(&self, old: &Parser<'c>) -> bool {
        !self.failed() && old.ends_within() ==> self.compiler.locals@ == old.compiler.locals@
            && self.compiler.scope_depth == old.compiler.scope_depth
    }

    /// Unless an error was reported, declarations keep the locals that were
    /// there and add only locals of the current block, where `old` ended
    /// within its block.
    pub closed spec fn adds_block_locals(&self, old: &Parser<'c>) -> bool {
        !self.failed() && old.ends_within() ==> {
            &&& self.compiler.scope_depth == old.compiler.scope_depth
            &&& old.compiler.locals@.len() <= self.compiler.locals@.len()
            &&& self.compiler.locals@.take(old.compiler.locals@.len() as int) == old.compiler.locals@
            &&& forall|k: int|
                old.compiler.locals@.len() <= k < self.compiler.locals@.len() ==> (#[trigger] self.compiler.locals@[k]).depth
                    == old.compiler.scope_depth
            &&& self.ends_within()
        }
    }

    /// Nothing added is something a declaration may add.
    proof fn lemma_adds_same(&self, other: &Parser<'c>)
        requires
            self.compiler.locals@ == other.compiler.locals@,
            self.compiler.scope_depth == other.compiler.scope_depth,
        ensures
            self.adds_block_locals(other),
    {
        assert(self.compiler.locals@.take(other.compiler.locals@.len() as int) =~= other.compiler.locals@);
    }

    /// One local of the current block added is what a declaration may add.
    proof fn lemma_adds_push(&self, other: &Parser<'c>, l: Local<'c>)
        requires
            self.compiler.locals@ == other.compiler.locals@.push(l),
            l.depth == other.compiler.scope_depth,
            self.compiler.scope_depth == other.compiler.scope_depth,
        ensures
            self.adds_block_locals(other),
    {
        assert(self.compiler.locals@.take(other.compiler.locals@.len() as int) =~= other.compiler.locals@);
    }

    /// Declarations one after the other add only locals of the block.
    proof fn lemma_adds_trans(&self, mid: &Parser<'c>, first: &Parser<'c>)
        requires
            mid.adds_block_locals(first),
            self.adds_block_locals(mid),
            mid.failed() ==> self.failed(),
        ensures
            self.adds_block_locals(first),
    {
        if !self.failed() && first.ends_within() {
            let n = first.compiler.locals@.len() as int;
            let m = mid.compiler.locals@.len() as int;
            assert(self.compiler.locals@.take(n) =~= self.compiler.locals@.take(m).take(n));
            assert forall|k: int| n <= k < self.compiler.locals@.len() implies (#[trigger] self.compiler.locals@[k]).depth
                == first.compiler.scope_depth by {
                if k < m {
                    assert(self.compiler.locals@[k] == self.compiler.locals@.take(m)[k]);
                    assert(mid.compiler.locals@[k].depth == first.compiler.scope_depth);
                }
            }
        }
    }

    /// The text of the previous token.
    pub closed spec fn previous_lexeme(&self) -> Seq<u8> {
        self.previous.lexeme@
    }

    /// The function being compiled.
    pub closed spec fn compiling(&self) -> Function {
        self.compiler.function
    }

    /// Whether an error has been reported.
    pub closed spec fn failed(&self) -> bool {
        self.had_error
    }

    /// What the parser keeps true between steps.
    pub closed spec fn inv(&self) -> bool {
        &&& self.scanner.wf()
        &&& (self.current.kind == TokenType::Eof ==> self.scanner.current == self.scanner.text().len())
        &&& self.compiler.wf()
        &&& self.gc.wf()
        &&& self.gc.unmarked()
        &&& chain_refs_live(self.compiler, self.gc)
        &&& self.number_count <= self.scanner.current
        &&& self.had_error == (self.errors@.len() > 0)
        &&& self.panic_mode ==> self.had_error
        &&& self.previous.kind == TokenType::String ==> self.previous.lexeme@.len() >= 2
        &&& self.current.kind == TokenType::String ==> self.current.lexeme@.len() >= 2
    }

    /// The frame of a parsing step: same text, same or later position,
    /// heap only grown, errors only added.
    pub closed spec fn step(&self, old: &Parser<'c>) -> bool {
        &&& self.scanner.src == old.scanner.src
        &&& self.progress() <= old.progress()
        &&& heap_grows(old.gc, self.gc)
        &&& self.errors@.len() >= old.errors@.len()
        &&& old.had_error ==> self.had_error
    }

    /// A parser over `src` that compiles into `compiler`, allocates in `gc`,
    /// and takes the value of the k-th number literal from `numbers[k]`.
    pub fn new(src: &'c str, compiler: Compiler<'c>, gc: Gc, numbers: Vec<u64>) -> (p: Self)
        requires
            src.spec_bytes().len() < usize::MAX,
            compiler.wf(),
            gc.wf(),
            gc.unmarked(),
            chain_refs_live(compiler, gc),
        ensures
            p.inv(),
            p.text() == src.spec_bytes(),
            p.position() == 0,
            !p.failed(),
            p.heap() == gc,
            p.compiling() == compiler.function,
            p.trivia_to_end() == (skip_trivia(src.spec_bytes(), 0, 1).0 >= src.spec_bytes().len()),
    {
        let empty: &[u8] = &[];
        Self {
            scanner: Scanner::new(src),
            compiler,
            previous: Token::new(TokenType::Error, empty, 0),
            current: Token::new(TokenType::Error, empty, 0),
            had_error: false,
            panic_mode: false,
            gc,
            numbers,
            number_count: 0,
            current_number: 0,
            previous_number: 0,
            errors: Vec::new(),
        }
    }

    /// Moves to the next token that is not an error, reporting each error
    /// token on the way.
    fn advance(&mut self)
        requires
            old(self).inv(),
        ensures
            final(self).inv(),
            final(self).step(&*old(self)),
            final(self).previous == old(self).current,
            final(self).current.kind != TokenType::Error,
            old(self).current.kind != TokenType::Eof ==> final(self).progress() < old(self).progress(),
            final(self).compiler == old(self).compiler,
            final(self).gc == old(self).gc,
            old(self).trivia_to_end() ==> final(self).current.kind == TokenType::Eof && final(self).errors
                == old(self).errors && final(self).had_error == old(self).had_error && final(self).trivia_to_end(),
            final(self).panic_mode ==> old(self).panic_mode || final(self).errors@.len() > old(self).errors@.len(),
    {
        self.previous = self.current;
        self.previous_number = self.current_number;
        loop
            invariant_except_break
                self.inv(),
                self.scanner.src == old(self).scanner.src,
                self.scanner.current >= old(self).scanner.current,
                old(self).current.kind == TokenType::Eof ==> self.scanner.current
                    == self.scanner.text().len(),
                self.previous == old(self).current,
                self.compiler == old(self).compiler,
                self.gc == old(self).gc,
                self.errors@.len() >= old(self).errors@.len(),
                old(self).had_error ==> self.had_error,
                old(self).trivia_to_end() ==> self.scanner == old(self).scanner && self.errors == old(self).errors
                    && self.had_error == old(self).had_error,
                self.panic_mode ==> old(self).panic_mode || self.errors@.len() > old(self).errors@.len(),
            ensures
                self.panic_mode ==> old(self).panic_mode || self.errors@.len() > old(self).errors@.len(),
                old(self).trivia_to_end() ==> self.current.kind == TokenType::Eof && self.errors == old(self).errors
                    && self.had_error == old(self).had_error && self.trivia_to_end(),
                self.inv(),
                self.scanner.src == old(self).scanner.src,
                self.current.kind != TokenType::Error,
                old(self).current.kind != TokenType::Eof ==> self.progress() < old(self).progress(),
                old(self).current.kind == TokenType::Eof ==> self.current.kind == TokenType::Eof,
                self.previous == old(self).current,
                self.compiler == old(self).compiler,
                self.gc == old(self).gc,
                self.errors@.len() >= old(self).errors@.len(),
                old(self).had_error ==> self.had_error,
            decreases self.scanner.text().len() - self.scanner.current,
        {
            let ghost before = self.scanner;
            proof {
                crate::scanner::lemma_next_token(
                    before.text(),
                    before.current as int,
                    before.line as int,
                );
            }
            self.current = self.scanner.scan();
            if self.current.kind == TokenType::Number {
                self.current_number = self.number_count;
                self.number_count += 1;
            }
            if self.current.kind != TokenType::Error {
                break;
            }
            let msg = text_from_bytes(self.current.lexeme);
            self.error_at_current(msg);
        }
    }

    fn error_at_current(&mut self, msg: String)
        requires
            old(self).inv(),
        ensures
            final(self).inv(),
            final(self).errors@.len() >= old(self).errors@.len(),
            final(self).panic_mode ==> old(self).panic_mode || final(self).errors@.len() > old(self).errors@.len(),
            final(self).had_error,
            final(self).scanner == old(self).scanner,
            final(self).current == old(self).current,
            final(self).previous == old(self).previous,
            final(self).compiler == old(self).compiler,
            final(self).gc == old(self).gc,
            final(self).number_count == old(self).number_count,
            final(self).current_number == old(self).current_number,
            final(self).previous_number == old(self).previous_number,
            final(self).numbers == old(self).numbers,
    {
        let token = self.current;
        self.error_at(token, msg);
    }

    fn error(&mut self, msg: &str)
        requires
            old(self).inv(),
        ensures
            final(self).inv(),
            !old(self).panic_mode ==> final(self).errors@.len() == old(self).errors@.len() + 1
                && final(self).errors@.last().message@ == msg@ && final(self).errors@.last().line
                == old(self).previous.line,
            final(self).panic_mode,
            old(self).panic_mode ==> final(self).errors@ == old(self).errors@,
            final(self).errors@.len() >= old(self).errors@.len(),
            final(self).had_error,
            final(self).scanner == old(self).scanner,
            final(self).current == old(self).current,
            final(self).previous == old(self).previous,
            final(self).compiler == old(self).compiler,
            final(self).gc == old(self).gc,
            final(self).number_count == old(self).number_count,
            final(self).current_number == old(self).current_number,
            final(self).previous_number == old(self).previous_number,
            final(self).numbers == old(self).numbers,
    {
        let token = self.previous;
        self.error_at(token, String::from_str(msg));
    }

    /// Records an error at `token`, unless an error is already being
    /// recovered from.
    fn error_at(&mut self, token: Token, msg: String)
        requires
            old(self).inv(),
        ensures
            final(self).inv(),
            final(self).had_error,
            final(self).panic_mode,
            old(self).panic_mode ==> final(self).errors@ == old(self).errors@,
            !old(self).panic_mode ==> final(self).errors@.len() == old(self).errors@.len() + 1
                && final(self).errors@.last().line == token.line
                && final(self).errors@.last().message@ == msg@
                && final(self).errors@.drop_last() == old(self).errors@,
            !old(self).panic_mode && token.kind == TokenType::Eof ==> final(self).errors@.last().location
                == ErrorLocation::AtEnd,
            !old(self).panic_mode && token.kind == TokenType::Error ==> final(self).errors@.last().location
                == ErrorLocation::Unplaced,
            !old(self).panic_mode && token.kind != TokenType::Eof && token.kind != TokenType::Error ==> (final(self).errors@.last().location
                matches ErrorLocation::At(v) && v@ == token.lexeme@),
            final(self).errors@.len() >= old(self).errors@.len(),
            final(self).scanner == old(self).scanner,
            final(self).current == old(self).current,
            final(self).previous == old(self).previous,
            final(self).compiler == old(self).compiler,
            final(self).gc == old(self).gc,
            final(self).number_count == old(self).number_count,
            final(self).current_number == old(self).current_number,
            final(self).previous_number == old(self).previous_number,
            final(self).numbers == old(self).numbers,
    {
        if self.panic_mode {
            return;
        }
        self.panic_mode = true;
        let location = match token.kind {
            TokenType::Eof => ErrorLocation::AtEnd,
            TokenType::Error => ErrorLocation::Unplaced,
            _ => ErrorLocation::At(vstd::slice::slice_to_vec(token.lexeme)),
        };
        self.errors.push(CompileError { line: token.line, location, message: msg });
        self.had_error = true;
    }
}


impl<'c> Parser<'c> {
    /// The frame of an emitting step: only the chunk of the current
    /// function, the heap and the error list may have changed.
    pub closed spec fn same_but_chunk(&self, old: &Parser<'c>) -> bool {
        &&& self.scanner == old.scanner
        &&& self.previous == old.previous
        &&& self.current == old.current
        &&& self.compiler.enclosing == old.compiler.enclosing
        &&& self.compiler.locals@ == old.compiler.locals@
        &&& self.compiler.scope_depth == old.compiler.scope_depth
        &&& self.compiler.fn_ty == old.compiler.fn_ty
        &&& self.compiler.function.upvalues == old.compiler.function.upvalues
        &&& self.compiler.function.name == old.compiler.function.name
        &&& self.compiler.function.arity == old.compiler.function.arity
        &&& self.compiler.function.chunk.code@.len() >= old.compiler.function.chunk.code@.len()
        &&& self.number_count == old.number_count
        &&& self.current_number == old.current_number
        &&& self.previous_number == old.previous_number
        &&& self.numbers == old.numbers
    }

    /// Within the same function: the code emitted before stays as it was,
    /// new code only follows it, and the number of parameters of this
    /// function, and the code and parameters of the functions around it,
    /// are untouched.
    pub closed spec fn extends(&self, old: &Parser<'c>) -> bool {
        &&& chain_len(self.compiler) == chain_len(old.compiler)
        &&& enclosing_codes(self.compiler.enclosing) == enclosing_codes(old.compiler.enclosing)
        &&& enclosing_arities(self.compiler.enclosing) == enclosing_arities(old.compiler.enclosing)
        &&& chain_consts(self.compiler).drop_first() == chain_consts(old.compiler).drop_first()
        &&& enclosing_scopes(self.compiler.enclosing) == enclosing_scopes(old.compiler.enclosing)
        &&& self.compiler.function.arity == old.compiler.function.arity
        &&& self.compiler.function.name == old.compiler.function.name
        &&& old.chunk().code@.len() <= self.chunk().code@.len()
        &&& forall|j: int|
            0 <= j < old.chunk().code@.len() ==> #[trigger] self.chunk().code@[j] == old.chunk().code@[j]
        &&& old.chunk().constants@.len() <= self.chunk().constants@.len()
        &&& forall|j: int|
            0 <= j < old.chunk().constants@.len() ==> #[trigger] self.chunk().constants@[j]
                == old.chunk().constants@[j]
    }

    /// The locals and the block depth of the function being compiled are
    /// as in `old`.
    pub closed spec fn keeps_scope(&self, old: &Parser<'c>) -> bool {
        &&& self.compiler.locals@ == old.compiler.locals@
        &&& self.compiler.scope_depth == old.compiler.scope_depth
    }

    fn match_token(&mut self, kind: TokenType) -> (r: bool)
        requires
            old(self).inv(),
        ensures
            final(self).inv(),
            final(self).step(&*old(self)),
            r == (old(self).current.kind == kind),
            r ==> final(self).previous == old(self).current,
            r && kind != TokenType::Eof ==> final(self).progress() < old(self).progress(),
            !r ==> *final(self) == *old(self),
            final(self).compiler == old(self).compiler,
            final(self).gc == old(self).gc,
            old(self).trivia_to_end() ==> final(self).trivia_to_end() && final(self).had_error == old(self).had_error
                && (r ==> final(self).current.kind == TokenType::Eof),
    {
        if !(self.current.kind == kind) {
            return false;
        }
        self.advance();
        true
    }

    fn check(&self, kind: TokenType) -> (r: bool)
        ensures
            r == (self.current.kind == kind),
    {
        self.current.kind == kind
    }

    fn consume(&mut self, kind: TokenType, msg: &str)
        requires
            old(self).inv(),
        ensures
            final(self).inv(),
            final(self).step(&*old(self)),
            old(self).current.kind == kind && kind != TokenType::Eof ==> final(self).progress()
                < old(self).progress(),
            final(self).compiler == old(self).compiler,
            final(self).gc == old(self).gc,
            old(self).current.kind == kind ==> final(self).previous == old(self).current,
            old(self).current.kind != kind ==> final(self).failed() && final(self).previous == old(self).previous
                && final(self).current == old(self).current,
    {
        if self.current.kind == kind {
            self.advance();
        } else {
            self.error_at_current(String::from_str(msg));
        }
    }

    /// The chunk that code is being emitted into.
    pub fn current_chunk(&mut self) -> (c: &mut Chunk)
        ensures
            *c == old(self).chunk(),
            final(self).chunk() == *final(c),
            *final(self) == old(self).with_chunk(*final(c)),
    {
        self.compiler.current_chunk()
    }

    /// Emits an instruction at the line of the previous token; returns its index.
    fn emit_code(&mut self, code: OpCode) -> (idx: usize)
        requires
            old(self).inv(),
        ensures
            final(self).inv(),
            final(self).step(&*old(self)),
            final(self).same_but_chunk(&*old(self)),
            final(self).gc == old(self).gc,
            final(self).errors == old(self).errors,
            final(self).had_error == old(self).had_error,
            final(self).panic_mode == old(self).panic_mode,
            final(self).compiler.function.chunk.code@ == old(self).compiler.function.chunk.code@.push(code),
            final(self).compiler.function.chunk.constants@ == old(self).compiler.function.chunk.constants@,
            idx == old(self).compiler.function.chunk.code@.len(),
            final(self).extends(&*old(self)),
    {
        let line = self.previous.line;
        let ghost before = *self;
        let idx = self.compiler.function.chunk.write(code, line);
        proof {
            lemma_top_live(before.compiler, self.gc);
            lemma_top_refs(before.compiler, self.compiler, self.gc);
        }
        idx
    }

    fn emit_return(&mut self)
        requires
            old(self).inv(),
        ensures
            final(self).inv(),
            final(self).step(&*old(self)),
            final(self).same_but_chunk(&*old(self)),
            final(self).extends(&*old(self)),
            final(self).chunk().code@ == old(self).chunk().code@ + seq![OpCode::Nil, OpCode::Return],
            final(self).gc == old(self).gc,
            final(self).had_error == old(self).had_error,
    {
        self.emit_code(OpCode::Nil);
        self.emit_code(OpCode::Return);
    }

    /// Adds a constant whose references are live; returns its index, or 0
    /// with an error when the chunk has 256 constants already.
    fn make_constant(&mut self, v: Value) -> (idx: u8)
        requires
            old(self).inv(),
            old(self).gc.all_live(crate::object::value_refs(v)),
        ensures
            final(self).inv(),
            final(self).step(&*old(self)),
            final(self).same_but_chunk(&*old(self)),
            final(self).gc == old(self).gc,
            final(self).compiler.function.chunk.constants@ == old(self).compiler.function.chunk.constants@.push(v),
            old(self).compiler.function.chunk.constants@.len() < 256 ==> idx == old(self).compiler.function.chunk.constants@.len(),
            old(self).compiler.function.chunk.constants@.len() >= 256 ==> idx == 0 && final(self).had_error,
            final(self).chunk().code@ == old(self).chunk().code@,
            final(self).extends(&*old(self)),
            final(self).keeps_scope(&*old(self)),
    {
        let ghost before = *self;
        let c = self.compiler.function.chunk.add_constant(v);
        proof {
            lemma_outer_consts_same(before.compiler, self.compiler);
            let cs = before.compiler.function.chunk.constants@;
            crate::object::lemma_values_refs_push(cs, v);
            lemma_top_live(before.compiler, self.gc);
            assert(self.gc.all_live(values_refs(cs.push(v))));
            lemma_top_refs(before.compiler, self.compiler, self.gc);
        }
        if c < 256 {
            c as u8
        } else {
            self.error("Too many constants in one chunk.");
            0
        }
    }

    fn emit_constant(&mut self, v: Value)
        requires
            old(self).inv(),
            old(self).gc.all_live(crate::object::value_refs(v)),
        ensures
            final(self).inv(),
            final(self).step(&*old(self)),
            final(self).same_but_chunk(&*old(self)),
            final(self).gc == old(self).gc,
            final(self).extends(&*old(self)),
            final(self).chunk().constants@ == old(self).chunk().constants@.push(v),
            old(self).chunk().constants@.len() < 256 ==> final(self).chunk().code@ == old(self).chunk().code@.push(
                OpCode::Constant(old(self).chunk().constants@.len() as u8),
            ),
            final(self).chunk().code@.len() == old(self).chunk().code@.len() + 1,
            final(self).keeps_scope(&*old(self)),
    {
        let idx = self.make_constant(v);
        self.emit_code(OpCode::Constant(idx));
    }

    /// Places a string object made of `bytes` in the heap, or reports that
    /// the heap cannot grow.
    fn alloc_string(&mut self, bytes: &[u8]) -> (r: Option<GcRef>)
        requires
            old(self).inv(),
        ensures
            final(self).inv(),
            final(self).step(&*old(self)),
            final(self).same_but_chunk(&*old(self)),
            final(self).compiler == old(self).compiler,
            r matches Some(g) ==> final(self).gc.is_live(g.0) && string_value(
                final(self).gc,
                Value::Obj(g),
                lossy_text(bytes@),
            ),
            r is None <==> old(self).gc.capacity > usize::MAX / GC_HEAP_GROW_FACTOR,
            r is None ==> final(self).had_error && final(self).gc == old(self).gc,
            r is Some ==> final(self).had_error == old(self).had_error && final(self).gc.capacity
                <= old(self).gc.capacity * GC_HEAP_GROW_FACTOR,
            final(self).keeps_scope(&*old(self)),
    {
        if self.gc.capacity > usize::MAX / GC_HEAP_GROW_FACTOR {
            self.error("Out of memory.");
            return None;
        }
        let ghost before = *self;
        let s = text_from_bytes(bytes);
        assert(obj_refs(Obj::String(s)) =~= Set::<usize>::empty());
        let r = self.gc.allocate(Obj::String(s));
        proof {
            assert(heap_grows(before.gc, self.gc));
            lemma_chain_refs_live_grow(self.compiler, before.gc, self.gc);
            assert forall|i: usize| !#[trigger] self.gc.marked(i) by {
                if i != r.0 {
                    assert(!before.gc.marked(i));
                }
            }
        }
        Some(r)
    }

    /// The string constant of an identifier.
    fn identifier_constant(&mut self, name: Token) -> (idx: u8)
        requires
            old(self).inv(),
        ensures
            final(self).inv(),
            final(self).step(&*old(self)),
            final(self).same_but_chunk(&*old(self)),
            final(self).extends(&*old(self)),
            final(self).chunk().code@ == old(self).chunk().code@,
            old(self).gc.capacity > usize::MAX / GC_HEAP_GROW_FACTOR ==> idx == 0 && final(self).failed()
                && final(self).chunk() == old(self).chunk(),
            old(self).gc.capacity <= usize::MAX / GC_HEAP_GROW_FACTOR ==> final(self).chunk().constants@.len()
                == old(self).chunk().constants@.len() + 1 && final(self).chunk().constants@.drop_last()
                == old(self).chunk().constants@ && string_value(
                final(self).gc,
                final(self).chunk().constants@.last(),
                lossy_text(name.lexeme@),
            ),
            old(self).gc.capacity <= usize::MAX / GC_HEAP_GROW_FACTOR && old(self).chunk().constants@.len()
                < 256 ==> idx == old(self).chunk().constants@.len(),
            final(self).keeps_scope(&*old(self)),
    {
        match self.alloc_string(name.lexeme) {
            Some(r) => self.make_constant(Value::Obj(r)),
            None => 0,
        }
    }

    fn begin_scope(&mut self)
        requires
            old(self).inv(),
        ensures
            final(self).inv(),
            final(self).step(&*old(self)),
            final(self).extends(&*old(self)),
            old(self).compiler.scope_depth < i32::MAX ==> *final(self) == (Parser {
                compiler: Compiler { scope_depth: (old(self).compiler.scope_depth + 1) as i32, ..old(self).compiler },
                ..*old(self)
            }),
            old(self).compiler.scope_depth == i32::MAX ==> final(self).failed() && final(self).compiler
                == old(self).compiler,
    {
        let ghost before = *self;
        if self.compiler.scope_depth < i32::MAX {
            self.compiler.scope_depth += 1;
        } else {
            self.error("Too many nested scopes.");
        }
        proof {
            lemma_top_live(before.compiler, self.gc);
            lemma_top_refs(before.compiler, self.compiler, self.gc);
        }
    }

    /// Leaves a block: drops its locals, popping each from the stack.
    fn end_scope(&mut self)
        requires
            old(self).inv(),
        ensures
            final(self).inv(),
            final(self).step(&*old(self)),
            final(self).extends(&*old(self)),
            final(self).compiler.scope_depth == outer_depth(old(self).compiler.scope_depth),
            final(self).compiler.locals@ == old(self).compiler.locals@.take(
                kept_locals(old(self).compiler.locals@, outer_depth(old(self).compiler.scope_depth)) as int,
            ),
            final(self).chunk().code@ == old(self).chunk().code@ + pops(
                (old(self).compiler.locals@.len() - kept_locals(
                    old(self).compiler.locals@,
                    outer_depth(old(self).compiler.scope_depth),
                )) as nat,
            ),
    {
        let ghost before = *self;
        if self.compiler.scope_depth > 0 {
            self.compiler.scope_depth -= 1;
        }
        proof {
            lemma_top_live(before.compiler, self.gc);
            lemma_top_refs(before.compiler, self.compiler, self.gc);
            assert(old(self).compiler.locals@.take(old(self).compiler.locals@.len() as int) =~= old(self).compiler.locals@);
            assert(old(self).chunk().code@ + pops(0) =~= old(self).chunk().code@);
        }
        let ghost d = outer_depth(old(self).compiler.scope_depth);
        let ghost kept = kept_locals(old(self).compiler.locals@, d);
        while self.compiler.locals.len() > 0
            invariant_except_break
                self.inv(),
                self.step(&*old(self)),
                self.extends(&*old(self)),
                self.compiler.scope_depth == d,
                kept_locals(self.compiler.locals@, d) == kept,
                self.compiler.locals@.len() <= old(self).compiler.locals@.len(),
                self.compiler.locals@ == old(self).compiler.locals@.take(self.compiler.locals@.len() as int),
                self.chunk().code@ == old(self).chunk().code@ + pops(
                    (old(self).compiler.locals@.len() - self.compiler.locals@.len()) as nat,
                ),
            ensures
                self.inv(),
                self.step(&*old(self)),
                self.extends(&*old(self)),
                self.compiler.scope_depth == d,
                self.compiler.locals@.len() == kept,
                self.compiler.locals@.len() <= old(self).compiler.locals@.len(),
                self.compiler.locals@ == old(self).compiler.locals@.take(self.compiler.locals@.len() as int),
                self.chunk().code@ == old(self).chunk().code@ + pops(
                    (old(self).compiler.locals@.len() - self.compiler.locals@.len()) as nat,
                ),
            decreases self.compiler.locals.len(),
        {
            let l = self.compiler.locals[self.compiler.locals.len() - 1];
            if l.depth > self.compiler.scope_depth {
                let ghost pre = *self;
                self.emit_code(OpCode::Pop);
                let ghost mid = *self;
                self.compiler.locals.pop();
                proof {
                    lemma_top_live(mid.compiler, self.gc);
                    lemma_top_refs(mid.compiler, self.compiler, self.gc);
                    let n = (old(self).compiler.locals@.len() - pre.compiler.locals@.len()) as nat;
                    assert(old(self).chunk().code@ + pops(n + 1) =~= (old(self).chunk().code@ + pops(n)).push(
                        OpCode::Pop,
                    ));
                    assert(self.compiler.locals@ =~= old(self).compiler.locals@.take(
                        self.compiler.locals@.len() as int,
                    ));
                    assert(pre.compiler.locals@.drop_last() == self.compiler.locals@);
                }
            } else {
                break;
            }
        }
    }

    /// Adds a local variable named by `name`, or reports that there are too many.
    fn add_local(&mut self, name: Token<'c>)
        requires
            old(self).inv(),
        ensures
            final(self).inv(),
            final(self).step(&*old(self)),
            final(self).compiler.locals@.len() >= 2 || final(self).compiler.locals@.len() >= old(self).compiler.locals@.len(),
            final(self).compiler.locals@.len() >= old(self).compiler.locals@.len(),
            final(self).compiler.locals@.len() >= 2,
            final(self).compiler.scope_depth == old(self).compiler.scope_depth,
            final(self).extends(&*old(self)),
            final(self).previous == old(self).previous,
            final(self).current == old(self).current,
            final(self).gc == old(self).gc,
            final(self).compiler.function == old(self).compiler.function,
            old(self).compiler.locals@.len() < LOCAL_COUNT ==> final(self).compiler.locals@
                == old(self).compiler.locals@.push(Local { name, depth: -1i32 }),
            old(self).compiler.locals@.len() >= LOCAL_COUNT ==> final(self).compiler.locals@
                == old(self).compiler.locals@ && final(self).failed(),
            old(self).panic_mode || old(self).compiler.locals@.len() < LOCAL_COUNT ==> final(self).errors@
                == old(self).errors@ && final(self).had_error == old(self).had_error,
    {
        if self.compiler.locals.len() == LOCAL_COUNT {
            self.error("Too many local variables in function.");
            return;
        }
        let local = Local::new(name, -1);
        let ghost before = *self;
        self.compiler.locals.push(local);
        proof {
            lemma_top_live(before.compiler, self.gc);
            lemma_top_refs(before.compiler, self.compiler, self.gc);
        }
    }

    /// Declares the previous token as a local of the current block, reporting
    /// a name declared twice in the same block.
    fn declare_variable(&mut self)
        requires
            old(self).inv(),
        ensures
            final(self).inv(),
            final(self).step(&*old(self)),
            old(self).compiler.scope_depth > 0 ==> final(self).compiler.locals@.len() >= 2,
            final(self).compiler.scope_depth == old(self).compiler.scope_depth,
            final(self).extends(&*old(self)),
            old(self).compiler.scope_depth == 0 ==> *final(self) == *old(self),
            final(self).previous == old(self).previous,
            final(self).current == old(self).current,
            final(self).gc == old(self).gc,
            final(self).compiler.function == old(self).compiler.function,
            old(self).compiler.scope_depth != 0 && old(self).compiler.locals@.len() < LOCAL_COUNT
                ==> final(self).compiler.locals@ == old(self).compiler.locals@.push(
                Local { name: old(self).previous, depth: -1i32 },
            ),
            old(self).compiler.scope_depth != 0 && old(self).compiler.locals@.len() >= LOCAL_COUNT
                ==> final(self).compiler.locals@ == old(self).compiler.locals@ && final(self).failed(),
            old(self).compiler.scope_depth != 0 && !old(self).panic_mode && declared_in_block(
                old(self).compiler.locals@,
                old(self).compiler.scope_depth,
                old(self).previous.lexeme@,
            ) ==> final(self).errors@.len() == old(self).errors@.len() + 1 && final(self).errors@.last().message@
                == "Already a variable with this name in this scope."@,
            old(self).compiler.scope_depth != 0 && !declared_in_block(
                old(self).compiler.locals@,
                old(self).compiler.scope_depth,
                old(self).previous.lexeme@,
            ) && old(self).compiler.locals@.len() < LOCAL_COUNT ==> final(self).errors@ == old(self).errors@
                && final(self).had_error == old(self).had_error,
    {
        if self.compiler.scope_depth == 0 {
            return;
        }
        let name = self.previous;
        let mut has_err = false;
        let mut i = self.compiler.locals.len();
        let ghost locals = self.compiler.locals@;
        let ghost d = self.compiler.scope_depth;
        proof {
            assert(locals.take(locals.len() as int) =~= locals);
        }
        while i > 0
            invariant_except_break
                i <= self.compiler.locals@.len(),
                *self == *old(self),
                locals == old(self).compiler.locals@,
                d == old(self).compiler.scope_depth,
                !has_err,
                declared_in_block(locals, d, name.lexeme@) == declared_in_block(locals.take(i as int), d, name.lexeme@),
            ensures
                *self == *old(self),
                has_err == declared_in_block(locals, d, name.lexeme@),
            decreases i,
        {
            i -= 1;
            let local = self.compiler.locals[i];
            proof {
                let t = locals.take(i + 1);
                assert(t.drop_last() =~= locals.take(i as int));
                assert(t.last() == local);
            }
            if local.depth != -1 && local.depth < self.compiler.scope_depth {
                break;
            }
            if crate::scanner::bytes_eq(name.lexeme, local.name.lexeme) {
                has_err = true;
                break;
            }
        }
        proof {
            if i == 0 && !has_err {
                assert(locals.take(0) =~= Seq::<Local>::empty());
            }
        }
        if has_err {
            self.error("Already a variable with this name in this scope.");
        }
        self.add_local(name);
    }

    /// Reads a variable name: the constant index of its name at global
    /// scope, or 0 for a local.
    fn parse_variable(&mut self, msg: &str) -> (idx: u8)
        requires
            old(self).inv(),
        ensures
            final(self).inv(),
            final(self).step(&*old(self)),
            final(self).extends(&*old(self)),
            old(self).current.kind == TokenType::Identifier ==> final(self).previous == old(self).current,
            old(self).current.kind != TokenType::Identifier ==> final(self).failed() && final(self).previous
                == old(self).previous,
            final(self).chunk().code@ == old(self).chunk().code@,
            final(self).compiler.scope_depth == old(self).compiler.scope_depth,
            old(self).compiler.scope_depth != 0 ==> idx == 0 && final(self).chunk() == old(self).chunk(),
            old(self).compiler.scope_depth != 0 && old(self).compiler.locals@.len() >= LOCAL_COUNT
                ==> final(self).failed(),
            old(self).compiler.scope_depth != 0 && old(self).compiler.locals@.len() < LOCAL_COUNT
                ==> final(self).compiler.locals@ == old(self).compiler.locals@.push(
                Local { name: final(self).previous, depth: -1i32 },
            ),
            old(self).compiler.scope_depth == 0 ==> final(self).compiler.locals@ == old(self).compiler.locals@,
            old(self).compiler.scope_depth == 0 && old(self).gc.capacity <= usize::MAX / GC_HEAP_GROW_FACTOR
                ==> final(self).chunk().constants@.drop_last() == old(self).chunk().constants@
                && final(self).chunk().constants@.len() == old(self).chunk().constants@.len() + 1
                && string_value(
                final(self).gc,
                final(self).chunk().constants@.last(),
                lossy_text(final(self).previous.lexeme@),
            ),
            old(self).compiler.scope_depth == 0 && old(self).gc.capacity <= usize::MAX / GC_HEAP_GROW_FACTOR
                && old(self).chunk().constants@.len() < 256 ==> idx == old(self).chunk().constants@.len(),
            old(self).compiler.scope_depth == 0 && old(self).gc.capacity > usize::MAX / GC_HEAP_GROW_FACTOR
                ==> idx == 0 && final(self).failed(),
    {
        self.consume(TokenType::Identifier, msg);
        self.declare_variable();
        if self.compiler.scope_depth > 0 {
            return 0;
        }
        let name = self.previous;
        self.identifier_constant(name)
    }

    fn define_variable(&mut self, idx: u8)
        requires
            old(self).inv(),
        ensures
            final(self).inv(),
            final(self).step(&*old(self)),
            final(self).extends(&*old(self)),
            old(self).compiler.scope_depth == 0 ==> final(self).chunk().code@ == old(self).chunk().code@.push(
                OpCode::DefineGlobal(idx),
            ),
            old(self).compiler.scope_depth != 0 ==> final(self).chunk().code@ == old(self).chunk().code@,
            final(self).compiler.scope_depth == old(self).compiler.scope_depth,
            final(self).chunk().constants@ == old(self).chunk().constants@,
            old(self).compiler.scope_depth == 0 ==> final(self).compiler.locals@ == old(self).compiler.locals@,
            final(self).previous == old(self).previous,
            old(self).compiler.scope_depth != 0 && old(self).compiler.locals@.len() >= 2 ==> final(self).compiler.locals@
                == old(self).compiler.locals@.update(
                old(self).compiler.locals@.len() - 1,
                Local { depth: old(self).compiler.scope_depth, ..old(self).compiler.locals@.last() },
            ),
    {
        if self.compiler.scope_depth > 0 {
            self.mark_init();
            return;
        }
        self.emit_code(OpCode::DefineGlobal(idx));
    }

    /// Marks the latest local as initialized at the current depth.
    fn mark_init(&mut self)
        requires
            old(self).inv(),
        ensures
            final(self).inv(),
            final(self).step(&*old(self)),
            final(self).compiler.function == old(self).compiler.function,
            final(self).compiler.enclosing == old(self).compiler.enclosing,
            final(self).extends(&*old(self)),
            *final(self) == (Parser {
                compiler: Compiler {
                    locals: final(self).compiler.locals,
                    ..old(self).compiler
                },
                ..*old(self)
            }),
            old(self).compiler.scope_depth != 0 && old(self).compiler.locals@.len() >= 2 ==> final(self).compiler.locals@
                == old(self).compiler.locals@.update(
                old(self).compiler.locals@.len() - 1,
                Local { depth: old(self).compiler.scope_depth, ..old(self).compiler.locals@.last() },
            ),
            !(old(self).compiler.scope_depth != 0 && old(self).compiler.locals@.len() >= 2) ==> final(self).compiler.locals@
                == old(self).compiler.locals@,
    {
        if self.compiler.scope_depth == 0 {
            return;
        }
        let len = self.compiler.locals.len();
        if len < 2 {
            return;
        }
        let mut l = self.compiler.locals[len - 1];
        l.depth = self.compiler.scope_depth;
        let ghost before = *self;
        self.compiler.locals.set(len - 1, l);
        proof {
            lemma_top_live(before.compiler, self.gc);
            lemma_top_refs(before.compiler, self.compiler, self.gc);
        }
    }

    /// The parse rule of a token kind.
    fn get_rule(kind: TokenType) -> (r: ParseRule)
        ensures
            r == rule_of(kind),
    {
        match kind {
            TokenType::LeftParen => ParseRule::new(
                Some(ParseFn::Grouping),
                Some(ParseFn::Call),
                Precedence::Call,
            ),
            TokenType::Minus => ParseRule::new(
                Some(ParseFn::Unary),
                Some(ParseFn::Binary),
                Precedence::Term,
            ),
            TokenType::Plus => ParseRule::new(None, Some(ParseFn::Binary), Precedence::Term),
            TokenType::Slash => ParseRule::new(None, Some(ParseFn::Binary), Precedence::Factor),
            TokenType::Star => ParseRule::new(None, Some(ParseFn::Binary), Precedence::Factor),
            TokenType::Bang => ParseRule::new(Some(ParseFn::Unary), None, Precedence::Lowest),
            TokenType::BangEqual => ParseRule::new(
                None,
                Some(ParseFn::Binary),
                Precedence::Equality,
            ),
            TokenType::EqualEqual => ParseRule::new(
                None,
                Some(ParseFn::Binary),
                Precedence::Equality,
            ),
            TokenType::Greater => ParseRule::new(
                None,
                Some(ParseFn::Binary),
                Precedence::Comparison,
            ),
            TokenType::GreaterEqual => ParseRule::new(
                None,
                Some(ParseFn::Binary),
                Precedence::Comparison,
            ),
            TokenType::Less => ParseRule::new(None, Some(ParseFn::Binary), Precedence::Comparison),
            TokenType::LessEqual => ParseRule::new(
                None,
                Some(ParseFn::Binary),
                Precedence::Comparison,
            ),
            TokenType::Identifier => ParseRule::new(
                Some(ParseFn::Variable),
                None,
                Precedence::Lowest,
            ),
            TokenType::String => ParseRule::new(Some(ParseFn::String), None, Precedence::Lowest),
            TokenType::Number => ParseRule::new(Some(ParseFn::Number), None, Precedence::Lowest),
            TokenType::And => ParseRule::new(None, Some(ParseFn::And), Precedence::And),
            TokenType::False => ParseRule::new(Some(ParseFn::Literal), None, Precedence::Lowest),
            TokenType::Nil => ParseRule::new(Some(ParseFn::Literal), None, Precedence::Lowest),
            TokenType::Or => ParseRule::new(None, Some(ParseFn::Or), Precedence::Or),
            TokenType::True => ParseRule::new(Some(ParseFn::Literal), None, Precedence::Lowest),
            _ => ParseRule::new(None, None, Precedence::Lowest),
        }
    }
}

impl<'c> Parser<'c> {
    /// The number of functions being compiled, the script included.
    pub closed spec fn nesting(&self) -> nat {
        chain_len(self.compiler)
    }

    /// Starts compiling a function named by the previous token; the current
    /// compiler becomes the enclosing one.
    pub fn push_compiler(&mut self, fn_ty: FunctionType)
        requires
            old(self).inv(),
        ensures
            final(self).inv(),
            final(self).step(&*old(self)),
            final(self).nesting() == old(self).nesting() + 1,
            final(self).chunk().code@ == Seq::<OpCode>::empty(),
            final(self).compiling().arity == 0,
            final(self).compiling().upvalues@.len() == 0,
            old(self).heap().capacity <= usize::MAX / GC_HEAP_GROW_FACTOR ==> string_value(
                final(self).heap(),
                Value::Obj(final(self).compiling().name),
                lossy_text(old(self).previous_lexeme()),
            ),
            final(self).outer_codes() == seq![old(self).chunk().code@] + old(self).outer_codes(),
            final(self).outer_arities() == seq![old(self).compiling().arity] + old(self).outer_arities(),
            final(self).outer_consts() == seq![(old(self).compiling().name, old(self).chunk().constants@)]
                + old(self).outer_consts(),
            final(self).outer_scopes() == seq![old(self).scope()] + old(self).outer_scopes(),
            final(self).entered_from(&*old(self)),
            final(self).compiling().chunk.code@.len() == 0 && final(self).compiling().chunk.constants@.len() == 0,
    {
        let name_bytes = self.previous.lexeme;
        let name = match self.alloc_string(name_bytes) {
            Some(r) => r,
            None => self.compiler.function.name,
        };
        proof {
            lemma_top_live(self.compiler, self.gc);
        }
        let newc = Compiler::new(name, fn_ty);
        let mut oldc = newc;
        std::mem::swap(&mut self.compiler, &mut oldc);
        self.compiler.enclosing = Some(Box::new(oldc));
        proof {
            let c = self.compiler;
            assert(chain_consts(c) =~= seq![(c.function.name, c.function.chunk.constants@)]
                + chain_consts(oldc));
            assert forall|k: int| 0 <= k < chain_consts(c).len() implies self.gc.is_live(
                #[trigger] chain_consts(c)[k].0.0,
            ) && self.gc.all_live(values_refs(chain_consts(c)[k].1)) by {
                if k == 0 {
                    assert(values_refs(c.function.chunk.constants@) =~= Set::<usize>::empty());
                } else {
                    assert(chain_consts(c)[k] == chain_consts(oldc)[k - 1]);
                    assert(self.gc.is_live(chain_consts(oldc)[k - 1].0.0));
                }
            }
        }
    }

    /// Finishes the current function and returns it; the enclosing compiler
    /// becomes current again. Without one, the function is replaced by an
    /// empty one named "<script>".
    pub fn pop_compiler(&mut self) -> (f: Function)
        requires
            old(self).inv(),
        ensures
            final(self).inv(),
            final(self).step(&*old(self)),
            final(self).heap().is_live(f.name.0),
            final(self).heap().all_live(values_refs(f.chunk.constants@)),
            f.chunk.wf(),
            f.upvalues@.len() <= crate::compiler::UPVALUE_COUNT,
            f == old(self).compiling(),
            old(self).nesting() > 1 ==> final(self).nesting() == old(self).nesting() - 1
                && final(self).chunk().code@ == old(self).outer_codes()[0]
                && final(self).outer_codes() == old(self).outer_codes().drop_first()
                && final(self).compiling().arity == old(self).outer_arities()[0]
                && final(self).outer_arities() == old(self).outer_arities().drop_first()
                && final(self).chunk().constants@ == old(self).outer_consts()[0].1
                && final(self).compiling().name == old(self).outer_consts()[0].0
                && final(self).outer_consts() == old(self).outer_consts().drop_first()
                && final(self).scope() == old(self).outer_scopes()[0]
                && final(self).outer_scopes() == old(self).outer_scopes().drop_first(),
            old(self).nesting() == 1 ==> final(self).nesting() == 1,
            old(self).nesting() > 1 ==> final(self).left_to(&*old(self)),
            old(self).heap().capacity <= usize::MAX / GC_HEAP_GROW_FACTOR ==> final(self).failed() == old(self).failed() && final(self).heap().capacity <= old(self).heap().capacity * GC_HEAP_GROW_FACTOR,
    {
        proof {
            lemma_top_live(self.compiler, self.gc);
        }
        let ghost before = *self;
        if let Some(enclosing_box) = self.compiler.enclosing.take() {
            let ghost enc = *enclosing_box;
            let mut current_compiler = *enclosing_box;
            std::mem::swap(&mut self.compiler, &mut current_compiler);
            proof {
                assert(chain_consts(before.compiler) =~= seq![(before.compiler.function.name, before.compiler.function.chunk.constants@)]
                    + chain_consts(enc));
                assert forall|k: int| 0 <= k < chain_consts(enc).len() implies self.gc.is_live(
                    #[trigger] chain_consts(enc)[k].0.0,
                ) && self.gc.all_live(values_refs(chain_consts(enc)[k].1)) by {
                    assert(chain_consts(before.compiler)[k + 1] == chain_consts(enc)[k]);
                    assert(self.gc.is_live(chain_consts(before.compiler)[k + 1].0.0));
                }
            }
            current_compiler.function
        } else {
            let script: &[u8] = &[60u8, 115, 99, 114, 105, 112, 116, 62];
            let name = match self.alloc_string(script) {
                Some(r) => r,
                None => self.compiler.function.name,
            };
            let ghost mid = *self;
            proof {
                lemma_top_live(mid.compiler, self.gc);
                lemma_chain_refs_live_grow(before.compiler, before.gc, self.gc);
                lemma_top_live(before.compiler, self.gc);
            }
            let mut f = Function::new(name);
            std::mem::swap(&mut self.compiler.function, &mut f);
            proof {
                assert(values_refs(self.compiler.function.chunk.constants@) =~= Set::<usize>::empty());
                lemma_top_refs(mid.compiler, self.compiler, self.gc);
            }
            f
        }
    }

    /// Fills in the distance of the jump emitted at `offset` so that it lands
    /// after the last instruction.
    fn patch_jump(&mut self, offset: usize)
        requires
            old(self).inv(),
        ensures
            final(self).inv(),
            final(self).step(&*old(self)),
            chain_len(final(self).compiler) == chain_len(old(self).compiler),
            final(self).compiler.enclosing == old(self).compiler.enclosing,
            final(self).compiler.function.arity == old(self).compiler.function.arity,
            final(self).compiler.function.name == old(self).compiler.function.name,
            chain_consts(final(self).compiler).drop_first() == chain_consts(old(self).compiler).drop_first(),
            final(self).chunk().code@ == patched(old(self).chunk().code@, offset as int),
            final(self).chunk().constants@ == old(self).chunk().constants@,
            !old(self).panic_mode && offset < old(self).chunk().code@.len() && old(self).chunk().code@.len() - 1
                - offset > 0xffff ==> final(self).errors@.last().message@ == "Too much code to jump over."@,
            !old(self).panic_mode && offset >= old(self).chunk().code@.len() ==> final(self).errors@.last().message@
                == "Offset is not jump instruction."@,
            !(offset < old(self).chunk().code@.len() && old(self).chunk().code@.len() - 1 - offset <= 0xffff
                && (old(self).chunk().code@[offset as int] is Jump || old(self).chunk().code@[offset as int] is JumpIfFalse))
                ==> final(self).failed(),
            final(self).keeps_scope(&*old(self)),
    {
        let len = self.compiler.function.chunk.code.len();
        if offset >= len {
            self.error("Offset is not jump instruction.");
            return;
        }
        let jump = len - 1 - offset;
        if jump <= 0xffff {
            let o = jump as u16;
            let ghost before = *self;
            match self.compiler.function.chunk.code[offset] {
                OpCode::JumpIfFalse(_) => {
                    self.compiler.function.chunk.code.set(offset, OpCode::JumpIfFalse(o));
                    proof {
                        lemma_top_live(before.compiler, self.gc);
                        lemma_top_refs(before.compiler, self.compiler, self.gc);
                    }
                },
                OpCode::Jump(_) => {
                    self.compiler.function.chunk.code.set(offset, OpCode::Jump(o));
                    proof {
                        lemma_top_live(before.compiler, self.gc);
                        lemma_top_refs(before.compiler, self.compiler, self.gc);
                    }
                },
                _ => self.error("Offset is not jump instruction."),
            }
        } else {
            self.error("Too much code to jump over.");
        }
    }

    /// Emits a backward jump to `start_pos`.
    fn emit_loop(&mut self, start_pos: usize)
        requires
            old(self).inv(),
        ensures
            final(self).inv(),
            final(self).step(&*old(self)),
            final(self).extends(&*old(self)),
            start_pos <= old(self).chunk().code@.len() && old(self).chunk().code@.len() - start_pos < 0xffff
                ==> final(self).chunk().code@ == old(self).chunk().code@.push(
                OpCode::Loop((old(self).chunk().code@.len() - start_pos + 1) as u16),
            ),
            !(start_pos <= old(self).chunk().code@.len() && old(self).chunk().code@.len() - start_pos < 0xffff)
                ==> final(self).chunk().code@ == old(self).chunk().code@ && final(self).failed(),
            final(self).keeps_scope(&*old(self)),
    {
        let len = self.compiler.function.chunk.code.len();
        if start_pos <= len && len - start_pos < 0xffff {
            let o = (len - start_pos + 1) as u16;
            self.emit_code(OpCode::Loop(o));
        } else {
            self.error("Loop body too large.");
        }
    }

    /// Whether the parser stands at a statement boundary: at the end of the
    /// text, after a `;`, or before a keyword that starts a statement.
    pub closed spec fn at_boundary(&self) -> bool {
        self.current.kind == TokenType::Eof || self.previous.kind == TokenType::Semicolon || starts_statement(
            self.current.kind,
        )
    }

    /// This state follows `before` by one token.
    pub closed spec fn one_token_after(&self, before: &Parser<'c>) -> bool {
        &&& self.previous == before.current
        &&& self.progress() < before.progress()
        &&& self.current.kind != TokenType::Error
    }

    /// Leaves panic mode and skips tokens up to the first statement
    /// boundary. Panic mode stays off unless an error token was skipped on
    /// the way, which reports an error anew.
    fn synchronize(&mut self)
        requires
            old(self).inv(),
        ensures
            final(self).inv(),
            final(self).step(&*old(self)),
            final(self).extends(&*old(self)),
            final(self).compiler == old(self).compiler,
            final(self).at_boundary(),
            final(self).panic_mode ==> final(self).errors@.len() > old(self).errors@.len(),
            exists|trace: Seq<Parser<'c>>|
                {
                    &&& trace.len() >= 1
                    &&& trace[0].previous == old(self).previous
                    &&& trace[0].current == old(self).current
                    &&& trace.last() == *final(self)
                    &&& forall|i: int|
                        0 <= i < trace.len() - 1 ==> !(#[trigger] trace[i]).at_boundary() && trace[i + 1].one_token_after(
                            &trace[i],
                        )
                },
            old(self).at_boundary() ==> final(self).scanner == old(self).scanner && final(self).current == old(
                self,
            ).current && final(self).previous == old(self).previous && !final(self).panic_mode,
    {
        self.panic_mode = false;
        let ghost mut trace: Seq<Parser<'c>> = seq![*self];
        while self.current.kind != TokenType::Eof
            invariant
                self.inv(),
                self.step(&*old(self)),
                self.extends(&*old(self)),
                self.compiler == old(self).compiler,
                old(self).at_boundary() ==> self.scanner == old(self).scanner && self.current == old(self).current
                    && self.previous == old(self).previous && !self.panic_mode,
                self.panic_mode ==> self.errors@.len() > old(self).errors@.len(),
                trace.len() >= 1,
                trace[0].previous == old(self).previous,
                trace[0].current == old(self).current,
                trace.last() == *self,
                forall|i: int|
                    0 <= i < trace.len() - 1 ==> !(#[trigger] trace[i]).at_boundary() && trace[i + 1].one_token_after(
                        &trace[i],
                    ),
            decreases self.progress(),
        {
            if self.previous.kind == TokenType::Semicolon {
                return;
            }
            match self.current.kind {
                TokenType::Class | TokenType::Fun | TokenType::Var | TokenType::For
                | TokenType::If | TokenType::While | TokenType::Print | TokenType::Return => {
                    return;
                },
                _ => {},
            }
            let ghost before = *self;
            self.advance();
            proof {
                assert(!before.at_boundary());
                trace = trace.push(*self);
                assert(trace[trace.len() - 2] == before);
            }
        }
    }

    /// A number literal: its value comes from the table of number values.
    fn number(&mut self, _can_assign: bool)
        requires
            old(self).inv(),
        ensures
            final(self).inv(),
            final(self).step(&*old(self)),
            final(self).extends(&*old(self)),
            old(self).previous_number < old(self).numbers@.len() ==> final(self).chunk().constants@
                == old(self).chunk().constants@.push(Value::Number(old(self).numbers@[old(self).previous_number as int])),
            old(self).previous_number < old(self).numbers@.len() && old(self).chunk().constants@.len() < 256
                ==> final(self).chunk().code@ == old(self).chunk().code@.push(
                OpCode::Constant(old(self).chunk().constants@.len() as u8),
            ),
            old(self).previous_number >= old(self).numbers@.len() ==> final(self).failed()
                && final(self).chunk() == old(self).chunk(),
            !final(self).failed() ==> final(self).chunk().code@.len() > old(self).chunk().code@.len(),
            final(self).keeps_scope(&*old(self)),
    {
        if self.previous_number < self.numbers.len() {
            let bits = self.numbers[self.previous_number];
            self.emit_constant(Value::Number(bits));
        } else {
            self.error("Missing value for number literal.");
        }
    }

    /// A string literal: its text without the quotes becomes a string object.
    fn string(&mut self, _can_assign: bool)
        requires
            old(self).inv(),
            old(self).previous.kind == TokenType::String,
        ensures
            final(self).inv(),
            final(self).step(&*old(self)),
            final(self).extends(&*old(self)),
            old(self).chunk().constants@.len() < 256 ==> final(self).chunk().code@ == old(self).chunk().code@.push(
                OpCode::Constant(old(self).chunk().constants@.len() as u8),
            ) || (final(self).chunk().code@ == old(self).chunk().code@ && final(self).failed()),
            !final(self).failed() ==> final(self).chunk().code@.len() > old(self).chunk().code@.len(),
            final(self).keeps_scope(&*old(self)),
            old(self).gc.capacity <= usize::MAX / GC_HEAP_GROW_FACTOR ==> final(self).chunk().constants@.len()
                == old(self).chunk().constants@.len() + 1 && final(self).chunk().constants@.drop_last()
                == old(self).chunk().constants@ && string_value(
                final(self).gc,
                final(self).chunk().constants@.last(),
                lossy_text(old(self).previous.lexeme@.subrange(1, old(self).previous.lexeme@.len() - 1)),
            ),
            old(self).gc.capacity <= usize::MAX / GC_HEAP_GROW_FACTOR && old(self).chunk().constants@.len() < 256
                ==> final(self).chunk().code@ == old(self).chunk().code@.push(
                OpCode::Constant(old(self).chunk().constants@.len() as u8),
            ),
            old(self).gc.capacity > usize::MAX / GC_HEAP_GROW_FACTOR ==> final(self).failed() && final(self).chunk()
                == old(self).chunk(),
    {
        let lexeme = self.previous.lexeme;
        let inner = &lexeme[1..lexeme.len() - 1];
        if let Some(r) = self.alloc_string(inner) {
            self.emit_constant(Value::Obj(r));
        }
    }

    /// `false`, `nil` or `true`: one instruction that pushes the value.
    fn literal(&mut self, _can_assign: bool)
        requires
            old(self).inv(),
        ensures
            final(self).inv(),
            final(self).step(&*old(self)),
            final(self).extends(&*old(self)),
            old(self).previous.kind == TokenType::False ==> final(self).chunk().code@ == old(self).chunk().code@.push(OpCode::False),
            old(self).previous.kind == TokenType::Nil ==> final(self).chunk().code@ == old(self).chunk().code@.push(OpCode::Nil),
            old(self).previous.kind == TokenType::True ==> final(self).chunk().code@ == old(self).chunk().code@.push(OpCode::True),
            final(self).keeps_scope(&*old(self)),
    {
        match self.previous.kind {
            TokenType::False => {
                self.emit_code(OpCode::False);
            },
            TokenType::Nil => {
                self.emit_code(OpCode::Nil);
            },
            TokenType::True => {
                self.emit_code(OpCode::True);
            },
            _ => {},
        }
    }

    fn resolve_local(&mut self, name: Token) -> (r: Option<u8>)
        requires
            old(self).inv(),
        ensures
            final(self).inv(),
            final(self).step(&*old(self)),
            final(self).extends(&*old(self)),
            final(self).compiler == old(self).compiler,
            final(self).current == old(self).current,
            final(self).gc == old(self).gc,
            r == (match spec_resolve_local(old(self).compiler.locals@, name.lexeme@) {
                Ok(x) => x,
                Err(_) => None::<u8>,
            }),
            spec_resolve_local(old(self).compiler.locals@, name.lexeme@) is Err ==> final(self).failed(),
            final(self).keeps_scope(&*old(self)),
    {
        match self.compiler.resolve_local(name) {
            Ok(r) => r,
            Err(s) => {
                self.error(s.as_str());
                None
            },
        }
    }

    fn resolve_upvalue(&mut self, name: Token) -> (r: Option<u8>)
        requires
            old(self).inv(),
        ensures
            final(self).inv(),
            final(self).step(&*old(self)),
            final(self).extends(&*old(self)),
            final(self).chunk() == old(self).chunk(),
            final(self).current == old(self).current,
            final(self).gc == old(self).gc,
            r is None && chain_has_local(old(self).compiler.enclosing, name.lexeme@) ==> final(self).failed(),
            !chain_has_local(old(self).compiler.enclosing, name.lexeme@) ==> r is None,
            r matches Some(k) ==> exists|idx: u8| #[trigger] upvalue_added(
                old(self).compiler.function.upvalues@,
                idx,
                true,
                final(self).compiler.function.upvalues@,
                Ok::<u8, String>(k),
            ),
            old(self).compiler.enclosing matches Some(e) ==> (spec_resolve_local(e.locals@, name.lexeme@) matches Ok(
                Some(idx),
            ) ==> (r matches Some(k) ==> upvalue_added(
                old(self).compiler.function.upvalues@,
                idx,
                true,
                final(self).compiler.function.upvalues@,
                Ok::<u8, String>(k),
            ))),
            final(self).keeps_scope(&*old(self)),
    {
        let ghost before = *self;
        let res = self.compiler.resolve_upvalue(name);
        proof {
            assert(chain_refs_live(self.compiler, self.gc));
        }
        match res {
            Ok(r) => r,
            Err(s) => {
                self.error(s.as_str());
                None
            },
        }
    }
}

impl<'c> Parser<'c> {
    /// Parses an expression whose operators bind at least as tightly as `prec`.
    fn parse_precedence(&mut self, prec: Precedence)
        requires
            old(self).inv(),
            prec_level(prec) >= 1,
        ensures
            final(self).inv(),
            final(self).step(&*old(self)),
            old(self).current.kind != TokenType::Eof ==> final(self).progress() < old(self).progress(),
            final(self).extends(&*old(self)),
            !final(self).failed() ==> final(self).chunk().code@.len() > old(self).chunk().code@.len(),
            prec_level(prec) <= prec_level(Precedence::Assignment) ==> final(self).current.kind != TokenType::Equal
                || final(self).failed(),
            final(self).keeps_scope(&*old(self)),
        decreases old(self).progress(), 1int,
    {
        self.advance();
        let pre_rule = Self::get_rule(self.previous.kind).prefix;
        let pre = match pre_rule {
            Some(f) => f,
            None => {
                self.error("Expect expression.");
                return;
            },
        };
        let can_assign = prec.level() <= Precedence::Assignment.level();
        self.apply(pre, can_assign);
        while prec.level() <= Self::get_rule(self.current.kind).prec.level()
            invariant
                self.inv(),
                self.step(&*old(self)),
                self.progress() < old(self).progress(),
                prec_level(prec) >= 1,
                self.extends(&*old(self)),
                self.keeps_scope(&*old(self)),
                !self.failed() ==> self.chunk().code@.len() > old(self).chunk().code@.len(),
            decreases self.progress(),
        {
            self.advance();
            let inf_rule = Self::get_rule(self.previous.kind).infix;
            if let Some(f) = inf_rule {
                self.apply(f, can_assign);
            }
        }
        if can_assign && self.match_token(TokenType::Equal) {
            self.error("Invalid assignment target.");
        }
    }

    /// Runs the parsing function that a rule names.
    fn apply(&mut self, f: ParseFn, can_assign: bool)
        requires
            old(self).inv(),
            f == ParseFn::Binary ==> rule_of(old(self).previous.kind).infix == Some(ParseFn::Binary),
            f == ParseFn::String ==> old(self).previous.kind == TokenType::String,
        ensures
            final(self).inv(),
            final(self).step(&*old(self)),
            final(self).extends(&*old(self)),
            !final(self).failed() && (f == ParseFn::Grouping || f == ParseFn::Variable || f == ParseFn::String
                || f == ParseFn::Number || (f == ParseFn::Unary && (old(self).previous.kind == TokenType::Minus
                || old(self).previous.kind == TokenType::Bang)) || (f == ParseFn::Literal && (old(self).previous.kind
                == TokenType::False || old(self).previous.kind == TokenType::Nil || old(self).previous.kind
                == TokenType::True))) ==> final(self).chunk().code@.len() > old(self).chunk().code@.len(),
            f == ParseFn::Binary && !final(self).failed() ==> final(self).chunk().code@.len() > old(self).chunk().code@.len()
                + binary_code(old(self).previous.kind).len(),
            final(self).keeps_scope(&*old(self)),
            f == ParseFn::Literal ==> (old(self).previous.kind == TokenType::False
                ==> final(self).chunk().code@ == old(self).chunk().code@.push(OpCode::False)),
            f == ParseFn::Literal ==> (old(self).previous.kind == TokenType::Nil
                ==> final(self).chunk().code@ == old(self).chunk().code@.push(OpCode::Nil)),
            f == ParseFn::Literal ==> (old(self).previous.kind == TokenType::True
                ==> final(self).chunk().code@ == old(self).chunk().code@.push(OpCode::True)),
            f == ParseFn::Number ==> (old(self).previous_number < old(self).numbers@.len()
                ==> final(self).chunk().constants@ == old(self).chunk().constants@.push(Value::Number(old(self).numbers@[old(self).previous_number as int]))),
            f == ParseFn::Number ==> (old(self).previous_number < old(self).numbers@.len() && old(self).chunk().constants@.len() < 256
                ==> final(self).chunk().code@ == old(self).chunk().code@.push(OpCode::Constant(old(self).chunk().constants@.len() as u8))),
            f == ParseFn::Number ==> (old(self).previous_number >= old(self).numbers@.len()
                ==> final(self).failed() && final(self).chunk() == old(self).chunk()),
            f == ParseFn::String ==> (old(self).chunk().constants@.len() < 256
                ==> final(self).chunk().code@ == old(self).chunk().code@.push(OpCode::Constant(old(self).chunk().constants@.len() as u8)) || (final(self).chunk().code@ == old(self).chunk().code@ && final(self).failed())),
            f == ParseFn::Unary ==> (old(self).previous.kind == TokenType::Minus
                ==> emitted_last(old(self).chunk().code@, final(self).chunk().code@, seq![OpCode::Negate])),
            f == ParseFn::Unary ==> (old(self).previous.kind == TokenType::Bang
                ==> emitted_last(old(self).chunk().code@, final(self).chunk().code@, seq![OpCode::Not])),
            f == ParseFn::Binary ==> (emitted_last(old(self).chunk().code@, final(self).chunk().code@, binary_code(old(self).previous.kind))),
            f == ParseFn::Grouping ==> (final(self).previous.kind == TokenType::RightParen || final(self).failed()),
            f == ParseFn::Call ==> (final(self).chunk().code@.len() > old(self).chunk().code@.len()),
            f == ParseFn::Call ==> (final(self).chunk().code@.last() is Call),
            f == ParseFn::Variable ==> (spec_resolve_local(old(self).compiler.locals@, old(self).previous.lexeme@) matches Ok(Some(i))
                ==> if can_assign && old(self).current.kind == TokenType::Equal { emitted_last(old(self).chunk().code@, final(self).chunk().code@, seq![OpCode::SetLocal(i)]) } else { final(self).chunk().code@ == old(self).chunk().code@.push(OpCode::GetLocal(i)) }),
            f == ParseFn::Variable ==> (spec_resolve_local(old(self).compiler.locals@, old(self).previous.lexeme@) == Ok::<Option<u8>, ()>(None) && !chain_has_local(old(self).compiler.enclosing, old(self).previous.lexeme@)
                ==> if can_assign && old(self).current.kind == TokenType::Equal { final(self).chunk().code@.len() > old(self).chunk().code@.len() && final(self).chunk().code@.last() is SetGlobal } else { final(self).chunk().code@.len() == old(self).chunk().code@.len() + 1 && final(self).chunk().code@.last() is GetGlobal }),
            f == ParseFn::Variable ==> (spec_resolve_local(old(self).compiler.locals@, old(self).previous.lexeme@) == Ok::<Option<u8>, ()>(None) && chain_has_local(old(self).compiler.enclosing, old(self).previous.lexeme@)
                ==> final(self).failed() || if can_assign && old(self).current.kind == TokenType::Equal { final(self).chunk().code@.len() > old(self).chunk().code@.len() && final(self).chunk().code@.last() is SetUpValue } else { final(self).chunk().code@.len() == old(self).chunk().code@.len() + 1 && final(self).chunk().code@.last() is GetUpValue }),
            f == ParseFn::Variable ==> (spec_resolve_local(old(self).compiler.locals@, old(self).previous.lexeme@) is Err
                ==> final(self).failed()),
            f == ParseFn::And ==> (final(self).chunk().code@.len() >= old(self).chunk().code@.len() + 2),
            f == ParseFn::And ==> (final(self).chunk().code@[old(self).chunk().code@.len() + 1int] == OpCode::Pop),
            f == ParseFn::And ==> (final(self).chunk().code@.len() - old(self).chunk().code@.len() - 1 <= 0xffff
                ==> final(self).chunk().code@[old(self).chunk().code@.len() as int] == OpCode::JumpIfFalse((final(self).chunk().code@.len() - old(self).chunk().code@.len() - 1) as u16)),
            f == ParseFn::Or ==> (final(self).chunk().code@.len() >= old(self).chunk().code@.len() + 3),
            f == ParseFn::Or ==> (final(self).chunk().code@[old(self).chunk().code@.len() as int] == OpCode::JumpIfFalse(1)),
            f == ParseFn::Or ==> (final(self).chunk().code@[old(self).chunk().code@.len() + 2int] == OpCode::Pop),
            f == ParseFn::Or ==> (final(self).chunk().code@.len() - old(self).chunk().code@.len() - 2 <= 0xffff
                ==> final(self).chunk().code@[old(self).chunk().code@.len() + 1int] == OpCode::Jump((final(self).chunk().code@.len() - old(self).chunk().code@.len() - 2) as u16)),
        decreases old(self).progress(), 5int,
    {
        match f {
            ParseFn::Grouping => self.grouping(can_assign),
            ParseFn::Call => self.call(can_assign),
            ParseFn::Unary => self.unary(can_assign),
            ParseFn::Binary => self.binary(can_assign),
            ParseFn::Variable => self.variable(can_assign),
            ParseFn::String => self.string(can_assign),
            ParseFn::Number => self.number(can_assign),
            ParseFn::Literal => self.literal(can_assign),
            ParseFn::And => self.and(can_assign),
            ParseFn::Or => self.or(can_assign),
        }
    }

    fn expression(&mut self)
        requires
            old(self).inv(),
        ensures
            final(self).inv(),
            final(self).step(&*old(self)),
            old(self).current.kind != TokenType::Eof ==> final(self).progress() < old(self).progress(),
            final(self).extends(&*old(self)),
            !final(self).failed() ==> final(self).chunk().code@.len() > old(self).chunk().code@.len(),
            final(self).keeps_scope(&*old(self)),
        decreases old(self).progress(), 2int,
    {
        self.parse_precedence(Precedence::Assignment);
    }

    fn grouping(&mut self, _can_assign: bool)
        requires
            old(self).inv(),
        ensures
            final(self).inv(),
            final(self).step(&*old(self)),
            final(self).extends(&*old(self)),
            old(self).current.kind != TokenType::Eof ==> final(self).progress() < old(self).progress(),
            final(self).previous.kind == TokenType::RightParen || final(self).failed(),
            !final(self).failed() ==> final(self).chunk().code@.len() > old(self).chunk().code@.len(),
            final(self).keeps_scope(&*old(self)),
        decreases old(self).progress(), 3int,
    {
        self.expression();
        self.consume(TokenType::RightParen, "Expect ')' after expression.");
    }

    fn unary(&mut self, _can_assign: bool)
        requires
            old(self).inv(),
        ensures
            final(self).inv(),
            final(self).step(&*old(self)),
            final(self).extends(&*old(self)),
            old(self).previous.kind == TokenType::Minus ==> emitted_last(
                old(self).chunk().code@,
                final(self).chunk().code@,
                seq![OpCode::Negate],
            ),
            old(self).previous.kind == TokenType::Bang ==> emitted_last(
                old(self).chunk().code@,
                final(self).chunk().code@,
                seq![OpCode::Not],
            ),
            !final(self).failed() && (old(self).previous.kind == TokenType::Minus || old(self).previous.kind
                == TokenType::Bang) ==> final(self).chunk().code@.len() >= old(self).chunk().code@.len() + 2,
            final(self).keeps_scope(&*old(self)),
        decreases old(self).progress(), 3int,
    {
        let kind = self.previous.kind;
        self.parse_precedence(Precedence::Unary);
        let ghost mid = self.chunk().code@;
        match kind {
            TokenType::Minus => {
                self.emit_code(OpCode::Negate);
                proof {
                    lemma_emitted_push(old(self).chunk().code@, mid, OpCode::Negate);
                }
            },
            TokenType::Bang => {
                self.emit_code(OpCode::Not);
                proof {
                    lemma_emitted_push(old(self).chunk().code@, mid, OpCode::Not);
                }
            },
            _ => {},
        }
    }

    fn binary(&mut self, _can_assign: bool)
        requires
            old(self).inv(),
            rule_of(old(self).previous.kind).infix == Some(ParseFn::Binary),
        ensures
            final(self).inv(),
            final(self).step(&*old(self)),
            final(self).extends(&*old(self)),
            emitted_last(
                old(self).chunk().code@,
                final(self).chunk().code@,
                binary_code(old(self).previous.kind),
            ),
            !final(self).failed() ==> final(self).chunk().code@.len() > old(self).chunk().code@.len() + binary_code(
                old(self).previous.kind,
            ).len(),
            final(self).keeps_scope(&*old(self)),
        decreases old(self).progress(), 3int,
    {
        let kind = self.previous.kind;
        let rule = Self::get_rule(kind);
        self.parse_precedence(rule.prec.next());
        let ghost before = old(self).chunk().code@;
        let ghost mid = self.chunk().code@;
        match kind {
            TokenType::Plus => {
                self.emit_code(OpCode::Add);
                proof { lemma_emitted_push(before, mid, OpCode::Add); }
            },
            TokenType::Minus => {
                self.emit_code(OpCode::Subtract);
                proof { lemma_emitted_push(before, mid, OpCode::Subtract); }
            },
            TokenType::Star => {
                self.emit_code(OpCode::Multiply);
                proof { lemma_emitted_push(before, mid, OpCode::Multiply); }
            },
            TokenType::Slash => {
                self.emit_code(OpCode::Divide);
                proof { lemma_emitted_push(before, mid, OpCode::Divide); }
            },
            TokenType::BangEqual => {
                self.emit_code(OpCode::Equal);
                self.emit_code(OpCode::Not);
                proof { lemma_emitted_push2(before, mid, OpCode::Equal, OpCode::Not); }
            },
            TokenType::Equal => {
                self.emit_code(OpCode::Equal);
                proof { lemma_emitted_push(before, mid, OpCode::Equal); }
            },
            TokenType::Greater => {
                self.emit_code(OpCode::Greater);
                proof { lemma_emitted_push(before, mid, OpCode::Greater); }
            },
            TokenType::GreaterEqual => {
                self.emit_code(OpCode::Less);
                self.emit_code(OpCode::Not);
                proof { lemma_emitted_push2(before, mid, OpCode::Less, OpCode::Not); }
            },
            TokenType::Less => {
                self.emit_code(OpCode::Less);
                proof { lemma_emitted_push(before, mid, OpCode::Less); }
            },
            TokenType::LessEqual => {
                self.emit_code(OpCode::Greater);
                self.emit_code(OpCode::Not);
                proof { lemma_emitted_push2(before, mid, OpCode::Greater, OpCode::Not); }
            },
            _ => {
                assert(mid.subrange(mid.len() as int, mid.len() as int) =~= Seq::<OpCode>::empty());
            },
        }
    }

    fn call(&mut self, _can_assign: bool)
        requires
            old(self).inv(),
        ensures
            final(self).inv(),
            final(self).step(&*old(self)),
            final(self).extends(&*old(self)),
            final(self).chunk().code@.len() > old(self).chunk().code@.len(),
            final(self).chunk().code@.last() is Call,
            final(self).keeps_scope(&*old(self)),
        decreases old(self).progress(), 4int,
    {
        let arg_count = self.argument_list();
        self.emit_code(OpCode::Call(arg_count));
    }

    fn variable(&mut self, can_assign: bool)
        requires
            old(self).inv(),
        ensures
            !final(self).failed() ==> final(self).chunk().code@.len() > old(self).chunk().code@.len(),
            final(self).inv(),
            final(self).step(&*old(self)),
            final(self).extends(&*old(self)),
            spec_resolve_local(old(self).compiler.locals@, old(self).previous.lexeme@) matches Ok(Some(i))
                ==> if can_assign && old(self).current.kind == TokenType::Equal {
                emitted_last(old(self).chunk().code@, final(self).chunk().code@, seq![OpCode::SetLocal(i)])
            } else {
                final(self).chunk().code@ == old(self).chunk().code@.push(OpCode::GetLocal(i))
            },
            spec_resolve_local(old(self).compiler.locals@, old(self).previous.lexeme@) == Ok::<Option<u8>, ()>(None)
                && !chain_has_local(old(self).compiler.enclosing, old(self).previous.lexeme@)
                ==> if can_assign && old(self).current.kind == TokenType::Equal {
                final(self).chunk().code@.len() > old(self).chunk().code@.len()
                    && final(self).chunk().code@.last() is SetGlobal
            } else {
                final(self).chunk().code@.len() == old(self).chunk().code@.len() + 1
                    && final(self).chunk().code@.last() is GetGlobal
            },
            spec_resolve_local(old(self).compiler.locals@, old(self).previous.lexeme@) == Ok::<Option<u8>, ()>(None)
                && chain_has_local(old(self).compiler.enclosing, old(self).previous.lexeme@) ==> final(self).failed() || if can_assign
                && old(self).current.kind == TokenType::Equal {
                final(self).chunk().code@.len() > old(self).chunk().code@.len()
                    && final(self).chunk().code@.last() is SetUpValue
            } else {
                final(self).chunk().code@.len() == old(self).chunk().code@.len() + 1
                    && final(self).chunk().code@.last() is GetUpValue
            },
            spec_resolve_local(old(self).compiler.locals@, old(self).previous.lexeme@) is Err ==> final(self).failed(),
            final(self).keeps_scope(&*old(self)),
            spec_resolve_local(old(self).compiler.locals@, old(self).previous.lexeme@) == Ok::<Option<u8>, ()>(None)
                && !chain_has_local(old(self).compiler.enclosing, old(self).previous.lexeme@) && old(self).gc.capacity
                <= usize::MAX / GC_HEAP_GROW_FACTOR && old(self).chunk().constants@.len() < 256 ==> string_value(
                final(self).gc,
                final(self).chunk().constants@[old(self).chunk().constants@.len() as int],
                lossy_text(old(self).previous.lexeme@),
            ) && if can_assign && old(self).current.kind == TokenType::Equal {
                final(self).chunk().code@.last() == OpCode::SetGlobal(old(self).chunk().constants@.len() as u8)
            } else {
                final(self).chunk().code@ == old(self).chunk().code@.push(
                    OpCode::GetGlobal(old(self).chunk().constants@.len() as u8),
                )
            },
        decreases old(self).progress(), 4int,
    {
        let name = self.previous;
        self.named_variable(name, can_assign);
    }

    /// Emits the read of a variable, or its assignment when an `=` follows
    /// and assignment is allowed here.
    fn named_variable(&mut self, name: Token, can_assign: bool)
        requires
            old(self).inv(),
        ensures
            final(self).inv(),
            final(self).step(&*old(self)),
            final(self).extends(&*old(self)),
            spec_resolve_local(old(self).compiler.locals@, name.lexeme@) matches Ok(Some(i))
                ==> if can_assign && old(self).current.kind == TokenType::Equal {
                emitted_last(old(self).chunk().code@, final(self).chunk().code@, seq![OpCode::SetLocal(i)])
            } else {
                final(self).chunk().code@ == old(self).chunk().code@.push(OpCode::GetLocal(i))
            },
            spec_resolve_local(old(self).compiler.locals@, name.lexeme@) == Ok::<Option<u8>, ()>(None)
                && !chain_has_local(old(self).compiler.enclosing, name.lexeme@)
                ==> if can_assign && old(self).current.kind == TokenType::Equal {
                final(self).chunk().code@.len() > old(self).chunk().code@.len()
                    && final(self).chunk().code@.last() is SetGlobal
            } else {
                final(self).chunk().code@.len() == old(self).chunk().code@.len() + 1
                    && final(self).chunk().code@.last() is GetGlobal
            },
            spec_resolve_local(old(self).compiler.locals@, name.lexeme@) == Ok::<Option<u8>, ()>(None)
                && chain_has_local(old(self).compiler.enclosing, name.lexeme@) ==> final(self).failed() || if can_assign
                && old(self).current.kind == TokenType::Equal {
                final(self).chunk().code@.len() > old(self).chunk().code@.len()
                    && final(self).chunk().code@.last() is SetUpValue
            } else {
                final(self).chunk().code@.len() == old(self).chunk().code@.len() + 1
                    && final(self).chunk().code@.last() is GetUpValue
            },
            spec_resolve_local(old(self).compiler.locals@, name.lexeme@) is Err ==> final(self).failed(),
            spec_resolve_local(old(self).compiler.locals@, name.lexeme@) == Ok::<Option<u8>, ()>(None)
                && chain_has_local(old(self).compiler.enclosing, name.lexeme@) && !(can_assign
                && old(self).current.kind == TokenType::Equal) && !final(self).failed() ==> exists|idx: u8, k: u8|
                #[trigger] upvalue_added(
                    old(self).compiler.function.upvalues@,
                    idx,
                    true,
                    final(self).compiler.function.upvalues@,
                    Ok::<u8, String>(k),
                ) && final(self).chunk().code@ == old(self).chunk().code@.push(OpCode::GetUpValue(k)),
            old(self).compiler.enclosing matches Some(e) ==> (spec_resolve_local(e.locals@, name.lexeme@) matches Ok(
                Some(idx),
            ) ==> (spec_resolve_local(old(self).compiler.locals@, name.lexeme@) == Ok::<Option<u8>, ()>(None)
                && !(can_assign && old(self).current.kind == TokenType::Equal) && !final(self).failed() ==> exists|k: u8|
                #[trigger] upvalue_added(
                    old(self).compiler.function.upvalues@,
                    idx,
                    true,
                    final(self).compiler.function.upvalues@,
                    Ok::<u8, String>(k),
                ) && final(self).chunk().code@ == old(self).chunk().code@.push(OpCode::GetUpValue(k)))),
            final(self).keeps_scope(&*old(self)),
            spec_resolve_local(old(self).compiler.locals@, name.lexeme@) == Ok::<Option<u8>, ()>(None)
                && !chain_has_local(old(self).compiler.enclosing, name.lexeme@) && old(self).gc.capacity
                <= usize::MAX / GC_HEAP_GROW_FACTOR && old(self).chunk().constants@.len() < 256 ==> string_value(
                final(self).gc,
                final(self).chunk().constants@[old(self).chunk().constants@.len() as int],
                lossy_text(name.lexeme@),
            ) && if can_assign && old(self).current.kind == TokenType::Equal {
                final(self).chunk().code@.last() == OpCode::SetGlobal(old(self).chunk().constants@.len() as u8)
            } else {
                final(self).chunk().code@ == old(self).chunk().code@.push(
                    OpCode::GetGlobal(old(self).chunk().constants@.len() as u8),
                )
            },
        decreases old(self).progress(), 3int,
    {
        let get_op;
        let set_op;
        if let Some(idx) = self.resolve_local(name) {
            get_op = OpCode::GetLocal(idx);
            set_op = OpCode::SetLocal(idx);
        } else if let Some(idx) = self.resolve_upvalue(name) {
            get_op = OpCode::GetUpValue(idx);
            set_op = OpCode::SetUpValue(idx);
        } else {
            let index = self.identifier_constant(name);
            get_op = OpCode::GetGlobal(index);
            set_op = OpCode::SetGlobal(index);
        }
        if can_assign && self.match_token(TokenType::Equal) {
            self.expression();
            let ghost mid = self.chunk().code@;
            self.emit_code(set_op);
            proof {
                lemma_emitted_push(old(self).chunk().code@, mid, set_op);
            }
        } else {
            self.emit_code(get_op);
        }
    }

    fn and(&mut self, _can_assign: bool)
        requires
            old(self).inv(),
        ensures
            final(self).inv(),
            final(self).step(&*old(self)),
            final(self).extends(&*old(self)),
            final(self).chunk().code@.len() >= old(self).chunk().code@.len() + 2,
            final(self).chunk().code@[old(self).chunk().code@.len() + 1int] == OpCode::Pop,
            final(self).chunk().code@.len() - old(self).chunk().code@.len() - 1 <= 0xffff ==> final(self).chunk().code@[old(self).chunk().code@.len() as int] == OpCode::JumpIfFalse(
                (final(self).chunk().code@.len() - old(self).chunk().code@.len() - 1) as u16,
            ),
            final(self).keeps_scope(&*old(self)),
        decreases old(self).progress(), 3int,
    {
        let end_jump = self.emit_code(OpCode::JumpIfFalse(0xffff));
        self.emit_code(OpCode::Pop);
        self.parse_precedence(Precedence::And);
        self.patch_jump(end_jump);
    }

    fn or(&mut self, _can_assign: bool)
        requires
            old(self).inv(),
        ensures
            final(self).inv(),
            final(self).step(&*old(self)),
            final(self).extends(&*old(self)),
            final(self).chunk().code@.len() >= old(self).chunk().code@.len() + 3,
            final(self).chunk().code@[old(self).chunk().code@.len() as int] == OpCode::JumpIfFalse(1),
            final(self).chunk().code@[old(self).chunk().code@.len() + 2int] == OpCode::Pop,
            final(self).chunk().code@.len() - old(self).chunk().code@.len() - 2 <= 0xffff ==> final(self).chunk().code@[old(self).chunk().code@.len() + 1int] == OpCode::Jump(
                (final(self).chunk().code@.len() - old(self).chunk().code@.len() - 2) as u16,
            ),
            final(self).keeps_scope(&*old(self)),
        decreases old(self).progress(), 3int,
    {
        let else_jump = self.emit_code(OpCode::JumpIfFalse(0xffff));
        let end_jump = self.emit_code(OpCode::Jump(0xffff));
        self.patch_jump(else_jump);
        self.emit_code(OpCode::Pop);
        self.parse_precedence(Precedence::And);
        self.patch_jump(end_jump);
    }

    /// Parses the arguments of a call up to the closing parenthesis and
    /// returns their number (modulo 256; more than 255 is reported).
    fn argument_list(&mut self) -> (n: u8)
        requires
            old(self).inv(),
        ensures
            final(self).inv(),
            final(self).step(&*old(self)),
            final(self).extends(&*old(self)),
            final(self).keeps_scope(&*old(self)),
            old(self).current.kind == TokenType::RightParen ==> n == 0 && final(self).chunk() == old(self).chunk() && final(self).previous == old(self).current,
            old(self).current.kind != TokenType::RightParen ==> n >= 1 || final(self).failed(),
            final(self).previous.kind == TokenType::RightParen || final(self).failed(),
        decreases old(self).progress(), 3int,
    {
        let mut arg_count: u8 = 0;
        if !self.check(TokenType::RightParen) {
            loop
                invariant_except_break
                    self.inv(),
                    self.step(&*old(self)),
                    self.extends(&*old(self)),
                    self.keeps_scope(&*old(self)),
                    arg_count == 0 ==> self.failed() || *self == *old(self),
                ensures
                    self.inv(),
                    self.step(&*old(self)),
                    self.extends(&*old(self)),
                    self.keeps_scope(&*old(self)),
                    arg_count >= 1 || self.failed(),
                decreases self.progress(),
            {
                self.expression();
                if arg_count == 255 {
                    self.error("Can't have more then 255 arguments");
                }
                arg_count = arg_count.wrapping_add(1);
                if !self.match_token(TokenType::Comma) {
                    break;
                }
            }
        }
        self.consume(TokenType::RightParen, "Expect ')' after arguments.");
        arg_count
    }

    fn expression_statement(&mut self)
        requires
            old(self).inv(),
        ensures
            final(self).inv(),
            final(self).step(&*old(self)),
            old(self).current.kind != TokenType::Eof ==> final(self).progress() < old(self).progress(),
            final(self).extends(&*old(self)),
            emitted_last(old(self).chunk().code@, final(self).chunk().code@, seq![OpCode::Pop]),
            !final(self).failed() ==> final(self).compiler.scope_depth == old(self).compiler.scope_depth,
            final(self).keeps_locals(&*old(self)),
        decreases old(self).progress(), 3int,
    {
        self.expression();
        self.consume(TokenType::Semicolon, "Expect ';' after value.");
        let ghost mid = self.chunk().code@;
        self.emit_code(OpCode::Pop);
        proof {
            lemma_emitted_push(old(self).chunk().code@, mid, OpCode::Pop);
        }
    }

    fn print_statement(&mut self)
        requires
            old(self).inv(),
        ensures
            final(self).inv(),
            final(self).step(&*old(self)),
            final(self).extends(&*old(self)),
            emitted_last(old(self).chunk().code@, final(self).chunk().code@, seq![OpCode::Print]),
            !final(self).failed() ==> final(self).compiler.scope_depth == old(self).compiler.scope_depth,
            final(self).keeps_locals(&*old(self)),
        decreases old(self).progress(), 3int,
    {
        self.expression();
        self.consume(TokenType::Semicolon, "Expect ';' after value.");
        let ghost mid = self.chunk().code@;
        self.emit_code(OpCode::Print);
        proof {
            lemma_emitted_push(old(self).chunk().code@, mid, OpCode::Print);
        }
    }

    fn return_statement(&mut self)
        requires
            old(self).inv(),
        ensures
            final(self).inv(),
            final(self).step(&*old(self)),
            final(self).extends(&*old(self)),
            old(self).current.kind == TokenType::Semicolon ==> final(self).chunk().code@ == old(self).chunk().code@ + seq![OpCode::Nil, OpCode::Return],
            emitted_last(old(self).chunk().code@, final(self).chunk().code@, seq![OpCode::Return]),
            !final(self).failed() ==> final(self).compiler.scope_depth == old(self).compiler.scope_depth,
            final(self).keeps_locals(&*old(self)),
        decreases old(self).progress(), 3int,
    {
        if self.match_token(TokenType::Semicolon) {
            self.emit_return();
            assert(old(self).chunk().code@ + seq![OpCode::Nil, OpCode::Return] =~= old(self).chunk().code@.push(OpCode::Nil).push(OpCode::Return));
            proof {
                lemma_emitted_push(old(self).chunk().code@, old(self).chunk().code@.push(OpCode::Nil), OpCode::Return);
            }
        } else {
            self.expression();
            self.consume(TokenType::Semicolon, "Expect ';' return value.");
            let ghost mid = self.chunk().code@;
            self.emit_code(OpCode::Return);
            proof {
                lemma_emitted_push(old(self).chunk().code@, mid, OpCode::Return);
            }
        }
    }

    fn statement(&mut self)
        requires
            old(self).inv(),
        ensures
            final(self).inv(),
            final(self).step(&*old(self)),
            old(self).current.kind != TokenType::Eof ==> final(self).progress() < old(self).progress(),
            final(self).extends(&*old(self)),
            !final(self).failed() ==> final(self).compiler.scope_depth == old(self).compiler.scope_depth,
            final(self).keeps_locals(&*old(self)),
        decreases old(self).progress(), 6int,
    {
        if self.match_token(TokenType::Print) {
            self.print_statement();
        } else if self.match_token(TokenType::If) {
            self.if_statement();
        } else if self.match_token(TokenType::While) {
            self.while_statement();
        } else if self.match_token(TokenType::For) {
            self.for_statement();
        } else if self.match_token(TokenType::Return) {
            self.return_statement();
        } else if self.match_token(TokenType::LeftBrace) {
            let ghost s0 = *self;
            self.begin_scope();
            let ghost s1 = *self;
            self.block();
            let ghost s2 = *self;
            self.end_scope();
            proof {
                if !self.failed() && old(self).ends_within() {
                    let n = s1.compiler.locals@.len() as int;
                    let inner = s2.compiler.locals@.skip(n);
                    assert(s2.compiler.locals@ =~= s1.compiler.locals@ + inner);
                    assert forall|k: int| 0 <= k < inner.len() implies (#[trigger] inner[k]).depth > s0.compiler.scope_depth by {
                        assert(inner[k] == s2.compiler.locals@[n + k]);
                    }
                    lemma_kept_after_block(s1.compiler.locals@, inner, s0.compiler.scope_depth);
                    assert(self.compiler.locals@ =~= s1.compiler.locals@);
                }
            }
        } else {
            self.expression_statement();
        }
    }

    fn if_statement(&mut self)
        requires
            old(self).inv(),
        ensures
            final(self).inv(),
            final(self).step(&*old(self)),
            final(self).extends(&*old(self)),
            exists|t: int, e: int| if_shape(old(self).chunk().code@.len() as int, final(self).chunk().code@, t, e),
            !final(self).failed() ==> final(self).compiler.scope_depth == old(self).compiler.scope_depth,
            final(self).keeps_locals(&*old(self)),
        decreases old(self).progress(), 7int,
    {
        self.consume(TokenType::LeftParen, "Expect '(' fater if.");
        self.expression();
        self.consume(TokenType::RightParen, "Expect ')' after condition.");
        let then_jump = self.emit_code(OpCode::JumpIfFalse(0xffff));
        self.emit_code(OpCode::Pop);
        self.statement();
        let else_jump = self.emit_code(OpCode::Jump(0xffff));
        self.patch_jump(then_jump);
        self.emit_code(OpCode::Pop);
        let ghost after_then = self.chunk().code@;
        if self.match_token(TokenType::Else) {
            self.statement();
        }
        let ghost after_else = self.chunk().code@;
        self.patch_jump(else_jump);
        proof {
            let t = then_jump as int;
            let e = else_jump as int;
            assert(after_then[t] == after_else[t]);
            assert(after_then[e] == after_else[e]);
            assert(after_then[e + 1] == after_else[e + 1]);
            assert(after_then[t + 1] == after_else[t + 1]);
            assert(if_shape(old(self).chunk().code@.len() as int, self.chunk().code@, t, e));
        }
    }

    fn while_statement(&mut self)
        requires
            old(self).inv(),
        ensures
            final(self).inv(),
            final(self).step(&*old(self)),
            final(self).extends(&*old(self)),
            emitted_last(old(self).chunk().code@, final(self).chunk().code@, seq![OpCode::Pop]),
            !final(self).failed() ==> final(self).compiler.scope_depth == old(self).compiler.scope_depth,
            final(self).keeps_locals(&*old(self)),
        decreases old(self).progress(), 7int,
    {
        let loop_start = self.compiler.function.chunk.code.len();
        self.consume(TokenType::LeftParen, "Expect '(' after 'while'.");
        self.expression();
        self.consume(TokenType::RightParen, "Expect ')' after condition.");
        let exit_jump = self.emit_code(OpCode::JumpIfFalse(0xffff));
        self.emit_code(OpCode::Pop);
        self.statement();
        self.emit_loop(loop_start);
        self.patch_jump(exit_jump);
        let ghost mid = self.chunk().code@;
        self.emit_code(OpCode::Pop);
        proof {
            lemma_emitted_push(old(self).chunk().code@, mid, OpCode::Pop);
        }
    }

    #[verifier::spinoff_prover]
    #[verifier::rlimit(100)]
    fn for_statement(&mut self)
        requires
            old(self).inv(),
        ensures
            final(self).inv(),
            final(self).step(&*old(self)),
            final(self).extends(&*old(self)),
            (exists|c: int, st: int, l: int, cond: bool|
                for_loop_code(old(self).chunk().code@.len() as int, final(self).chunk().code@, c, st, l, cond))
                || final(self).failed(),
            !final(self).failed() ==> final(self).compiler.scope_depth == old(self).compiler.scope_depth,
            final(self).keeps_locals(&*old(self)),
        decreases old(self).progress(), 7int,
    {
        self.begin_scope();
        self.consume(TokenType::LeftParen, "Expect '(' after 'for'.");
        let ghost s1 = *self;
        if self.match_token(TokenType::Semicolon) {
            proof {
                self.lemma_adds_same(&s1);
            }
        } else if self.match_token(TokenType::Var) {
            self.var_declaration();
        } else {
            let ghost pre = *self;
            self.expression_statement();
            proof {
                if !self.failed() && pre.ends_within() {
                    self.lemma_adds_same(&pre);
                }
            }
        }
        let ghost si = *self;
        let mut loop_start = self.compiler.function.chunk.code.len();
        let ghost c = loop_start as int;
        let mut exit_jump: Option<usize> = None;
        if !self.match_token(TokenType::Semicolon) {
            self.expression();
            self.consume(TokenType::Semicolon, "Expect ';' after loop condition.");
            exit_jump = Some(self.emit_code(OpCode::JumpIfFalse(0xffff)));
            self.emit_code(OpCode::Pop);
        }
        let ghost sc = *self;
        let ghost mut k: int = 0;
        if !self.match_token(TokenType::RightParen) {
            let body_jump = self.emit_code(OpCode::Jump(0xffff));
            let incr_start = self.compiler.function.chunk.code.len();
            self.expression();
            self.emit_code(OpCode::Pop);
            self.consume(TokenType::RightParen, "Expect ')' after for clauses.");
            let ghost pre_loop = *self;
            proof {
                k = pre_loop.chunk().code@.len() as int;
            }
            self.emit_loop(loop_start);
            let ghost pre_patch = *self;
            loop_start = incr_start;
            self.patch_jump(body_jump);
            proof {
                if !self.failed() {
                    assert(pre_patch.chunk().code@[body_jump as int] == sc.chunk().code@.push(OpCode::Jump(0xffff))[body_jump as int]);
                    assert(self.chunk().code@[k] == pre_patch.chunk().code@[k]);
                    assert(loops_back_at(old(self).chunk().code@.len() as int, self.chunk().code@, k, c));
                    assert(self.chunk().code@[loop_start - 1] == OpCode::Jump((k - loop_start + 1) as u16));
                    assert(forall|i: int| 0 <= i < sc.chunk().code@.len() ==> self.chunk().code@[i] == sc.chunk().code@[i]);
                }
            }
        }
        let ghost sb = *self;
        self.statement();
        let ghost st = loop_start as int;
        let ghost l = self.chunk().code@.len() as int;
        let ghost pre_back = *self;
        self.emit_loop(loop_start);
        let ghost looped = *self;
        let ghost mut jj: int = 0;
        if let Some(j) = exit_jump {
            self.patch_jump(j);
            let ghost patched_exit = *self;
            self.emit_code(OpCode::Pop);
            proof {
                jj = j as int;
                if !self.failed() {
                    assert(j < sc.chunk().code@.len());
                    assert(sc.chunk().code@[j as int] == OpCode::JumpIfFalse(0xffff));
                    assert(looped.chunk().code@[j as int] == sc.chunk().code@[j as int]);
                    assert(patched_exit.chunk().code@ == looped.chunk().code@.update(j as int, OpCode::JumpIfFalse((l - j) as u16)));
                    assert(self.chunk().code@[j as int] == OpCode::JumpIfFalse((l - j) as u16));
                    assert(self.chunk().code@[l] == looped.chunk().code@[l]);
                    if st != c {
                        assert(self.chunk().code@[st - 1] == looped.chunk().code@[st - 1]);
                        assert(self.chunk().code@[k] == looped.chunk().code@[k]);
                    }
                    assert(c <= jj < l);
                    assert(st == c || jj < st - 1);
                }
            }
        }
        let ghost s2 = *self;
        self.end_scope();
        proof {
            if !self.failed() && old(self).ends_within() {
                let n = s1.compiler.locals@.len() as int;
                let inner = s2.compiler.locals@.skip(n);
                assert(s2.compiler.locals@ == si.compiler.locals@);
                assert(s2.compiler.locals@ =~= s1.compiler.locals@ + inner);
                assert forall|q: int| 0 <= q < inner.len() implies (#[trigger] inner[q]).depth > old(self).compiler.scope_depth by {
                    assert(inner[q] == s2.compiler.locals@[n + q]);
                }
                lemma_kept_after_block(s1.compiler.locals@, inner, old(self).compiler.scope_depth);
                assert(self.compiler.locals@ =~= s1.compiler.locals@);
            }
            if !self.failed() {
                assert(looped.chunk().code@[l] == self.chunk().code@[l]);
                assert(loops_back_at(old(self).chunk().code@.len() as int, self.chunk().code@, l, st));
                if st != c {
                    assert(self.chunk().code@[st - 1] == sb.chunk().code@[st - 1]);
                    assert(self.chunk().code@[k] == sb.chunk().code@[k]);
                    assert(loops_back_at(old(self).chunk().code@.len() as int, self.chunk().code@, k, c));
                }
                let end = s2.chunk().code@;
                assert(forall|i: int| 0 <= i < end.len() ==> self.chunk().code@[i] == end[i]);
                if exit_jump is Some {
                    assert(end[jj] == OpCode::JumpIfFalse((l - jj) as u16));
                    assert(end.len() == l + 2 && end[l + 1] == OpCode::Pop);
                    assert(c <= jj < l && (st == c || jj < st - 1));
                } else {
                    assert(end.len() == l + 1);
                }
                assert forall|i: int| l < i < self.chunk().code@.len() implies #[trigger] self.chunk().code@[i] == OpCode::Pop by {
                    if i >= end.len() {
                        assert(self.chunk().code@[i] == pops((self.chunk().code@.len() - end.len()) as nat)[i - end.len()]);
                    }
                }
                assert(for_loop_code(old(self).chunk().code@.len() as int, self.chunk().code@, c, st, l, exit_jump is Some));
            }
        }
    }

    /// Parses declarations up to the closing brace of a block.
    fn block(&mut self)
        requires
            old(self).inv(),
        ensures
            final(self).inv(),
            final(self).step(&*old(self)),
            final(self).extends(&*old(self)),
            final(self).previous.kind == TokenType::RightBrace || final(self).failed(),
            !final(self).failed() ==> final(self).compiler.scope_depth == old(self).compiler.scope_depth,
            final(self).adds_block_locals(&*old(self)),
        decreases old(self).progress(), 8int,
    {
        proof {
            self.lemma_adds_same(&*self);
        }
        while !self.check(TokenType::RightBrace) && !self.check(TokenType::Eof)
            invariant
                self.inv(),
                self.step(&*old(self)),
                !self.failed() ==> self.compiler.scope_depth == old(self).compiler.scope_depth,
                self.adds_block_locals(&*old(self)),
                self.extends(&*old(self)),
            decreases self.progress(),
        {
            let ghost before = *self;
            self.declaration();
            proof {
                self.lemma_adds_trans(&before, &*old(self));
            }
        }
        let ghost ended = *self;
        self.consume(TokenType::RightBrace, "Expect '}' after block.");
        proof {
            self.lemma_adds_same(&ended);
            self.lemma_adds_trans(&ended, &*old(self));
        }
    }

    fn declaration(&mut self)
        requires
            old(self).inv(),
        ensures
            final(self).inv(),
            final(self).step(&*old(self)),
            old(self).current.kind != TokenType::Eof ==> final(self).progress() < old(self).progress(),
            final(self).extends(&*old(self)),
            !final(self).failed() ==> final(self).compiler.scope_depth == old(self).compiler.scope_depth,
            final(self).adds_block_locals(&*old(self)),
        decreases old(self).progress(), 7int,
    {
        if self.match_token(TokenType::Var) {
            self.var_declaration();
        } else if self.match_token(TokenType::Fun) {
            self.fun_declaration();
        } else {
            let ghost pre = *self;
            self.statement();
            proof {
                if !self.failed() && pre.ends_within() {
                    self.lemma_adds_same(&pre);
                }
            }
        }
        let ghost declared = *self;
        if self.panic_mode {
            self.synchronize();
        }
        proof {
            self.lemma_adds_same(&declared);
            self.lemma_adds_trans(&declared, &*old(self));
        }
    }

    fn fun_declaration(&mut self)
        requires
            old(self).inv(),
        ensures
            final(self).inv(),
            final(self).step(&*old(self)),
            final(self).extends(&*old(self)),
            final(self).compiler.scope_depth == old(self).compiler.scope_depth,
            old(self).compiler.scope_depth == 0 ==> final(self).compiler.locals@ == old(self).compiler.locals@
                && final(self).chunk().code@.len() > old(self).chunk().code@.len()
                && final(self).chunk().code@.last() is DefineGlobal && ((final(self).chunk().code@.len()
                == old(self).chunk().code@.len() + 2 && final(self).chunk().code@[old(self).chunk().code@.len() as int]
                is Closure) || (final(self).chunk().code@.len() == old(self).chunk().code@.len() + 1
                && final(self).failed())),
            old(self).compiler.scope_depth == 0 && old(self).gc.capacity <= usize::MAX / GC_HEAP_GROW_FACTOR
                && old(self).chunk().constants@.len() < 256 ==> final(self).chunk().code@.last()
                == OpCode::DefineGlobal(old(self).chunk().constants@.len() as u8),
            old(self).compiler.scope_depth != 0 ==> (final(self).chunk().code@.len() == old(self).chunk().code@.len()
                + 1 && final(self).chunk().code@.last() is Closure) || (final(self).chunk().code@
                == old(self).chunk().code@ && final(self).failed()),
            old(self).compiler.scope_depth != 0 && old(self).compiler.locals@.len() < LOCAL_COUNT
                ==> final(self).compiler.locals@ == old(self).compiler.locals@.push(
                Local {
                    name: if old(self).current.kind == TokenType::Identifier {
                        old(self).current
                    } else {
                        old(self).previous
                    },
                    depth: old(self).compiler.scope_depth,
                },
            ),
            final(self).adds_block_locals(&*old(self)),
        decreases old(self).progress(), 10int,
    {
        let global = self.parse_variable("Expect function name.");
        let ghost parsed = *self;
        self.mark_init();
        let ghost marked = *self;
        self.function(FunctionType::Function);
        let ghost compiled = *self;
        self.define_variable(global);
        proof {
            if old(self).compiler.scope_depth != 0 && old(self).compiler.locals@.len() < LOCAL_COUNT {
                assert(marked.compiler.locals@ =~= parsed.compiler.locals@.update(
                    parsed.compiler.locals@.len() - 1,
                    Local { depth: old(self).compiler.scope_depth, ..parsed.compiler.locals@.last() },
                ));
                assert(self.compiler.locals@ =~= compiled.compiler.locals@.update(
                    compiled.compiler.locals@.len() - 1,
                    Local { depth: old(self).compiler.scope_depth, ..compiled.compiler.locals@.last() },
                ));
            }
            if old(self).compiler.scope_depth == 0 && old(self).gc.capacity <= usize::MAX / GC_HEAP_GROW_FACTOR
                && old(self).chunk().constants@.len() < 256 {
                assert(global == old(self).chunk().constants@.len() as u8);
            }
            if old(self).compiler.scope_depth == 0 {
                self.lemma_adds_same(&*old(self));
            } else if old(self).compiler.locals@.len() < LOCAL_COUNT {
                let l = Local {
                    name: if old(self).current.kind == TokenType::Identifier {
                        old(self).current
                    } else {
                        old(self).previous
                    },
                    depth: old(self).compiler.scope_depth,
                };
                assert(self.compiler.locals@ =~= old(self).compiler.locals@.push(l));
                self.lemma_adds_push(&*old(self), l);
            }
        }
    }

    fn var_declaration(&mut self)
        requires
            old(self).inv(),
        ensures
            final(self).inv(),
            final(self).step(&*old(self)),
            final(self).extends(&*old(self)),
            final(self).compiler.scope_depth == old(self).compiler.scope_depth,
            final(self).previous.kind == TokenType::Semicolon || final(self).failed(),
            old(self).compiler.scope_depth == 0 ==> final(self).compiler.locals@ == old(self).compiler.locals@
                && final(self).chunk().code@.len() > old(self).chunk().code@.len()
                && final(self).chunk().code@.last() is DefineGlobal,
            old(self).compiler.scope_depth == 0 && old(self).gc.capacity <= usize::MAX / GC_HEAP_GROW_FACTOR
                && old(self).chunk().constants@.len() < 256 ==> final(self).chunk().code@.last()
                == OpCode::DefineGlobal(old(self).chunk().constants@.len() as u8),
            old(self).compiler.scope_depth != 0 && old(self).compiler.locals@.len() < LOCAL_COUNT
                ==> final(self).compiler.locals@ == old(self).compiler.locals@.push(
                Local {
                    name: if old(self).current.kind == TokenType::Identifier {
                        old(self).current
                    } else {
                        old(self).previous
                    },
                    depth: old(self).compiler.scope_depth,
                },
            ),
            final(self).adds_block_locals(&*old(self)),
        decreases old(self).progress(), 3int,
    {
        let global = self.parse_variable("Expect variable name.");
        let ghost parsed = *self;
        if self.match_token(TokenType::Equal) {
            self.expression();
        } else {
            self.emit_code(OpCode::Nil);
        }
        self.consume(TokenType::Semicolon, "Expect ';' after variable declaration.");
        let ghost declared = *self;
        self.define_variable(global);
        proof {
            if old(self).compiler.scope_depth == 0 && old(self).gc.capacity <= usize::MAX / GC_HEAP_GROW_FACTOR
                && old(self).chunk().constants@.len() < 256 {
                assert(global == old(self).chunk().constants@.len() as u8);
            }
            if old(self).compiler.scope_depth != 0 && old(self).compiler.locals@.len() < LOCAL_COUNT {
                assert(declared.compiler.locals@ == parsed.compiler.locals@);
                assert(self.compiler.locals@ =~= declared.compiler.locals@.update(
                    declared.compiler.locals@.len() - 1,
                    Local { depth: old(self).compiler.scope_depth, ..declared.compiler.locals@.last() },
                ));
            }
            if old(self).compiler.scope_depth == 0 {
                self.lemma_adds_same(&*old(self));
            } else if old(self).compiler.locals@.len() < LOCAL_COUNT {
                let l = Local {
                    name: if old(self).current.kind == TokenType::Identifier {
                        old(self).current
                    } else {
                        old(self).previous
                    },
                    depth: old(self).compiler.scope_depth,
                };
                assert(self.compiler.locals@ =~= old(self).compiler.locals@.push(l));
                self.lemma_adds_push(&*old(self), l);
            }
        }
    }

    /// Compiles a function's parameters and body into a new function object,
    /// and emits the closure that makes it.
    fn function(&mut self, fn_ty: FunctionType)
        requires
            old(self).inv(),
        ensures
            final(self).inv(),
            final(self).step(&*old(self)),
            final(self).extends(&*old(self)),
            final(self).chunk().code@ == old(self).chunk().code@ || (final(self).chunk().code@.len()
                == old(self).chunk().code@.len() + 1 && final(self).chunk().code@.last() is Closure),
            final(self).chunk().code@ == old(self).chunk().code@ ==> final(self).failed()
                && final(self).chunk().constants@ == old(self).chunk().constants@,
            final(self).keeps_scope(&*old(self)),
            final(self).chunk().code@ != old(self).chunk().code@ ==> final(self).chunk().constants@.drop_last()
                == old(self).chunk().constants@ && final(self).chunk().constants@.len()
                == old(self).chunk().constants@.len() + 1 && function_value(
                final(self).gc,
                final(self).chunk().constants@.last(),
            ),
            final(self).chunk().code@ != old(self).chunk().code@ && old(self).chunk().constants@.len() < 256
                ==> final(self).chunk().code@.last() == OpCode::Closure(old(self).chunk().constants@.len() as u8),
            final(self).chunk().code@ != old(self).chunk().code@ && old(self).gc.capacity <= usize::MAX
                / GC_HEAP_GROW_FACTOR ==> function_named(
                final(self).gc,
                final(self).chunk().constants@.last(),
                lossy_text(old(self).previous_lexeme()),
            ),
            final(self).chunk().code@ != old(self).chunk().code@ && !final(self).failed() ==> function_arity_within(
                final(self).gc,
                final(self).chunk().constants@.last(),
                255,
            ),
        decreases old(self).progress(), 9int,
    {
        self.push_compiler(fn_ty);
        let ghost pushed = *self;
        self.begin_scope();
        self.consume(TokenType::LeftParen, "Expect '(' after function name.");
        if !self.check(TokenType::RightParen) {
            loop
                invariant
                    self.inv(),
                    self.step(&*old(self)),
                    chain_len(self.compiler) == chain_len(pushed.compiler),
                    self.outer_codes() == pushed.outer_codes(),
                    self.outer_arities() == pushed.outer_arities(),
                    self.outer_consts() == pushed.outer_consts(),
                    self.outer_scopes() == pushed.outer_scopes(),
                    self.compiler.function.name == pushed.compiler.function.name,
                    heap_grows(pushed.gc, self.gc),
                    self.compiler.function.arity > 255 ==> self.failed(),
                decreases self.progress(),
            {
                if self.compiler.function.arity < usize::MAX {
                    let ghost before = *self;
                    self.compiler.function.arity += 1;
                    proof {
                        lemma_top_live(before.compiler, self.gc);
                        lemma_top_refs(before.compiler, self.compiler, self.gc);
                    }
                }
                if self.compiler.function.arity > 255 {
                    self.error_at_current(String::from_str("Can't have more then 255 parameters."));
                }
                let c = self.parse_variable("Expect parameter name.");
                self.define_variable(c);
                if !self.match_token(TokenType::Comma) {
                    break;
                }
            }
        }
        self.consume(TokenType::RightParen, "Expect ')' after parameters.");
        self.consume(TokenType::LeftBrace, "Expect '{' after function body.");
        self.block();
        let ghost inner = *self;
        let f = self.pop_compiler();
        proof {
            assert(inner.outer_codes() == pushed.outer_codes());
            assert((seq![old(self).chunk().code@] + old(self).outer_codes()).drop_first() =~= old(self).outer_codes());
            assert(inner.outer_arities() == pushed.outer_arities());
            assert((seq![old(self).compiling().arity] + old(self).outer_arities()).drop_first() =~= old(self).outer_arities());
            assert(inner.outer_consts() == pushed.outer_consts());
            assert(inner.outer_scopes() == pushed.outer_scopes());
            assert((seq![old(self).scope()] + old(self).outer_scopes()).drop_first() =~= old(self).outer_scopes());
            assert((seq![(old(self).compiling().name, old(self).chunk().constants@)] + old(self).outer_consts()).drop_first()
                =~= old(self).outer_consts());
        }
        if self.gc.capacity > usize::MAX / GC_HEAP_GROW_FACTOR {
            self.error("Out of memory.");
            return;
        }
        let ghost before = *self;
        assert(obj_refs(Obj::Function(f)) == set![f.name.0].union(values_refs(f.chunk.constants@)));
        let r = self.gc.allocate(Obj::Function(f));
        proof {
            assert(heap_grows(before.gc, self.gc));
            lemma_chain_refs_live_grow(self.compiler, before.gc, self.gc);
            assert forall|i: usize| !#[trigger] self.gc.marked(i) by {
                if i != r.0 {
                    assert(!before.gc.marked(i));
                }
            }
            assert(crate::object::value_refs(Value::Obj(r)) =~= set![r.0]);
        }
        let v = self.make_constant(Value::Obj(r));
        self.emit_code(OpCode::Closure(v));
        proof {
            if old(self).gc.capacity <= usize::MAX / GC_HEAP_GROW_FACTOR {
                assert(f.name == pushed.compiling().name);
                assert(heap_grows(pushed.gc, before.gc));
                assert(before.gc.is_live(f.name.0));
                assert(self.gc.objects@[f.name.0 as int] == before.gc.objects@[f.name.0 as int]);
            }
        }
    }
}

impl<'c> Parser<'c> {
    /// Emits the implicit return and takes the finished function, or `None`
    /// if an error was reported.
    fn end_compiler(&mut self) -> (r: Option<Function>)
        requires
            old(self).inv(),
        ensures
            final(self).inv(),
            final(self).step(&*old(self)),
            r is Some <==> !final(self).had_error,
            r matches Some(f) ==> final(self).gc.is_live(f.name.0) && final(self).gc.all_live(
                values_refs(f.chunk.constants@),
            ) && f.chunk.wf(),
            r matches Some(f) ==> f.chunk.code@ == old(self).chunk().code@ + seq![OpCode::Nil, OpCode::Return],
            r matches Some(f) ==> f.arity == old(self).compiling().arity,
            !old(self).had_error && old(self).gc.capacity <= usize::MAX / 4 ==> r is Some
                && final(self).gc.capacity <= old(self).gc.capacity * 4,
    {
        self.emit_return();
        let ghost returned = *self;
        let f = self.pop_compiler();
        let ghost mid = *self;
        proof {
            if !old(self).had_error && old(self).gc.capacity <= usize::MAX / 4 {
                assert(returned.gc.capacity * 2 <= usize::MAX / 2) by (nonlinear_arith)
                    requires returned.gc.capacity <= usize::MAX / 4;
            }
        }
        self.pop_compiler();
        proof {
            assert(heap_grows(mid.gc, self.gc));
            assert(self.gc.is_live(f.name.0));
            assert forall|j: usize| #[trigger] values_refs(f.chunk.constants@).contains(j) implies self.gc.is_live(j) by {
                assert(mid.gc.is_live(j));
            }
        }
        if self.had_error {
            None
        } else {
            Some(f)
        }
    }

    /// Compiles the whole source text. Returns the top-level function, or
    /// `None` when an error was reported (the errors are in `errors`).
    pub fn compile(&mut self) -> (r: Option<Function>)
        requires
            old(self).inv(),
        ensures
            final(self).inv(),
            final(self).heap().wf(),
            final(self).heap().unmarked(),
            heap_grows(old(self).heap(), final(self).heap()),
            r is Some <==> !final(self).failed(),
            final(self).failed() <==> final(self).error_count() > 0,
            r matches Some(f) ==> final(self).heap().is_live(f.name.0) && final(self).heap().all_live(
                values_refs(f.chunk.constants@),
            ) && f.chunk.wf(),
            r matches Some(f) ==> emitted_last(
                Seq::empty(),
                f.chunk.code@,
                seq![OpCode::Nil, OpCode::Return],
            ),
            r matches Some(f) ==> f.arity == old(self).compiling().arity,
            !old(self).failed() && old(self).trivia_to_end() && old(self).heap().capacity <= usize::MAX / 4
                ==> (r matches Some(f) && f.chunk.code@ == old(self).chunk().code@ + seq![OpCode::Nil, OpCode::Return])
                && final(self).heap().capacity <= old(self).heap().capacity * 4,
    {
        self.advance();
        while !self.match_token(TokenType::Eof)
            invariant
                self.inv(),
                self.step(&*old(self)),
                self.extends(&*old(self)),
                !old(self).failed() && old(self).trivia_to_end() ==> self.trivia_to_end() && !self.had_error
                    && self.current.kind == TokenType::Eof && self.compiler == old(self).compiler && self.gc == old(self).gc,
            decreases self.progress(),
        {
            self.declaration();
        }
        if self.had_error {
            None
        } else {
            let ghost before = self.chunk().code@;
            let r = self.end_compiler();
            proof {
                if let Some(f) = &r {
                    assert(f.chunk.code@.subrange(f.chunk.code@.len() - 2, f.chunk.code@.len() as int) =~= seq![OpCode::Nil, OpCode::Return]);
                }
            }
            r
        }
    }
}

impl<'c> Parser<'c> {
    /// Gives back the heap and the errors reported.
    pub fn into_parts(self) -> (r: (Gc, Vec<CompileError>))
        ensures
            r.0 == self.heap(),
            r.1@.len() == self.error_count(),
    {
        (self.gc, self.errors)
    }
}

} // verus!
