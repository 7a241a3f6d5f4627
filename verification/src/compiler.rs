use vstd::prelude::*;
use vstd::string::StringExecFns;

use crate::chunk::Chunk;
use crate::gc::GcRef;
use crate::object::{FnUpValue, Function};
use crate::scanner::{Token, TokenType};

verus! {

/// The most local variables that one function can have.
pub const LOCAL_COUNT: usize = 256;

/// The most variables that one function can capture.
pub const UPVALUE_COUNT: usize = 256;

/// The state of the compilation of one function: the function being built,
/// its local variables and block depth, and the compiler of the function
/// around it.
pub struct Compiler<'c> {
    pub enclosing: Option<Box<Compiler<'c>>>,
    pub function: Function,
    pub fn_ty: FunctionType,
    pub locals: Vec<Local<'c>>,
    pub scope_depth: i32,
}

/// A local variable: its name and the block depth at which it was declared
/// (-1 while its initializer is being compiled).
#[derive(Copy, Clone)]
pub struct Local<'src> {
    pub name: Token<'src>,
    pub depth: i32,
}

impl<'src> Local<'src> {
    pub fn new(name: Token<'src>, depth: i32) -> (l: Self)
        ensures
            l.name == name,
            l.depth == depth,
    {
        Self { name, depth }
    }
}

#[derive(Debug, Copy, Clone, PartialEq, Eq, Structural)]
pub enum FunctionType {
    Function,
    Script,
}

/// The index of the last local named `name`, or -1.
pub open spec fn last_local_named(locals: Seq<Local>, name: Seq<u8>) -> int
    decreases locals.len(),
{
    if locals.len() == 0 {
        -1
    } else if locals.last().name.lexeme@ == name {
        locals.len() - 1
    } else {
        last_local_named(locals.drop_last(), name)
    }
}

pub proof fn lemma_last_local_named(locals: Seq<Local>, name: Seq<u8>)
    ensures
        -1 <= last_local_named(locals, name) < locals.len(),
        last_local_named(locals, name) >= 0 ==> locals[last_local_named(locals, name)].name.lexeme@
            == name,
        forall|j: int|
            last_local_named(locals, name) < j < locals.len() ==> #[trigger] locals[j].name.lexeme@
                != name,
    decreases locals.len(),
{
    if locals.len() > 0 && locals.last().name.lexeme@ != name {
        lemma_last_local_named(locals.drop_last(), name);
        assert forall|j: int|
            last_local_named(locals, name) < j < locals.len() implies #[trigger] locals[j].name.lexeme@
            != name by {
            if j < locals.len() - 1 {
                assert(locals.drop_last()[j] == locals[j]);
            }
        }
    }
}

/// What resolving `name` among `locals` gives: the slot, or the error of a
/// variable read in its own initializer.
pub open spec fn spec_resolve_local(locals: Seq<Local>, name: Seq<u8>) -> Result<Option<u8>, ()> {
    let k = last_local_named(locals, name);
    if k < 0 {
        Ok(None)
    } else if locals[k].depth == -1 {
        Err(())
    } else {
        Ok(Some(k as u8))
    }
}

/// A name resolves to the innermost local of that name: to its slot `k`,
/// the last local so named, where it is initialized; to the error of a
/// variable read in its own initializer where that local is still being
/// initialized; and to no local where none is so named.
pub proof fn lemma_resolves_to_innermost(locals: Seq<Local>, name: Seq<u8>)
    requires
        locals.len() <= 256,
    ensures
        spec_resolve_local(locals, name) == Ok::<Option<u8>, ()>(None) <==> forall|j: int|
            0 <= j < locals.len() ==> #[trigger] locals[j].name.lexeme@ != name,
        spec_resolve_local(locals, name) matches Ok(Some(k)) ==> {
            &&& k < locals.len()
            &&& locals[k as int].name.lexeme@ == name
            &&& locals[k as int].depth != -1
            &&& forall|j: int| k < j < locals.len() ==> #[trigger] locals[j].name.lexeme@ != name
        },
        spec_resolve_local(locals, name) is Err <==> exists|k: int|
            0 <= k < locals.len() && #[trigger] locals[k].name.lexeme@ == name && locals[k].depth == -1 && forall|
                j: int,
            |
                k < j < locals.len() ==> #[trigger] locals[j].name.lexeme@ != name,
{
    lemma_last_local_named(locals, name);
    let k = last_local_named(locals, name);
    if k >= 0 {
        assert(locals[k].name.lexeme@ == name);
    }
    if exists|k2: int|
        0 <= k2 < locals.len() && #[trigger] locals[k2].name.lexeme@ == name && locals[k2].depth == -1 && forall|
            j: int,
        |
            k2 < j < locals.len() ==> #[trigger] locals[j].name.lexeme@ != name {
        let k2 = choose|k2: int|
            0 <= k2 < locals.len() && #[trigger] locals[k2].name.lexeme@ == name && locals[k2].depth == -1
                && forall|j: int| k2 < j < locals.len() ==> #[trigger] locals[j].name.lexeme@ != name;
        assert(k2 == k);
    }
}

/// What recording the capture (`idx`, `is_local`) does to the captures
/// `before`, giving `after` and the result `r`: a capture recorded already
/// gives its first position; a new one is appended and gives the number of
/// captures after it (modulo 256), unless there are 256 already.
pub open spec fn upvalue_added(
    before: Seq<FnUpValue>,
    idx: u8,
    is_local: bool,
    after: Seq<FnUpValue>,
    r: Result<u8, String>,
) -> bool {
    let u = FnUpValue { index: idx, is_local };
    if before.contains(u) {
        &&& after == before
        &&& r matches Ok(k) && before[k as int] == u && forall|j: int| 0 <= j < k ==> before[j] != u
    } else if before.len() >= UPVALUE_COUNT {
        &&& after == before
        &&& r matches Err(m) && m@ == "Too many constants in one chunk."@
    } else {
        &&& after == before.push(u)
        &&& r == Ok::<u8, String>(((before.len() + 1) % 256) as u8)
    }
}

/// "Can't read local variable in its own initializer."
pub fn own_initializer_msg() -> (s: String)
    ensures
        s@ == "Can't read local variable in its own initializer."@,
{
    String::from_str("Can't read local variable in its own initializer.")
}

/// "Too many constants in one chunk."
pub fn too_many_constants_msg() -> (s: String)
    ensures
        s@ == "Too many constants in one chunk."@,
{
    String::from_str("Too many constants in one chunk.")
}

/// Whether some compiler in a chain of enclosing compilers has a local
/// variable named `name`.
pub open spec fn chain_has_local(c: Option<Box<Compiler>>, name: Seq<u8>) -> bool
    decreases c,
{
    match c {
        None => false,
        Some(b) => last_local_named(b.locals@, name) >= 0 || chain_has_local(b.enclosing, name),
    }
}

/// The name and constants of each function in a chain of compilers,
/// innermost first.
pub open spec fn chain_consts(c: Compiler) -> Seq<(GcRef, Seq<crate::value::Value>)>
    decreases c,
{
    seq![(c.function.name, c.function.chunk.constants@)] + match c.enclosing {
        Some(e) => chain_consts(*e),
        None => Seq::empty(),
    }
}

/// The code of each function around a compiler, innermost first.
pub open spec fn enclosing_codes(e: Option<Box<Compiler>>) -> Seq<Seq<crate::chunk::OpCode>>
    decreases e,
{
    match e {
        Some(b) => seq![b.function.chunk.code@] + enclosing_codes(b.enclosing),
        None => Seq::empty(),
    }
}

/// The number of parameters of each function around a compiler, innermost
/// first.
pub open spec fn enclosing_arities(e: Option<Box<Compiler>>) -> Seq<usize>
    decreases e,
{
    match e {
        Some(b) => seq![b.function.arity] + enclosing_arities(b.enclosing),
        None => Seq::empty(),
    }
}

/// The locals and block depth of each function around a compiler,
/// innermost first.
pub open spec fn enclosing_scopes<'c>(e: Option<Box<Compiler<'c>>>) -> Seq<(Seq<Local<'c>>, i32)>
    decreases e,
{
    match e {
        Some(b) => seq![(b.locals@, b.scope_depth)] + enclosing_scopes(b.enclosing),
        None => Seq::empty(),
    }
}

/// The number of compilers in a chain.
pub open spec fn chain_len(c: Compiler) -> nat
    decreases c,
{
    1 + match c.enclosing {
        Some(e) => chain_len(*e),
        None => 0,
    }
}

impl<'c> Compiler<'c> {
    /// The bounds that the compiler keeps, here and in every enclosing compiler.
    pub open spec fn wf(&self) -> bool
        decreases self,
    {
        &&& 1 <= self.locals@.len() <= LOCAL_COUNT
        &&& self.locals@[0].depth == 0
        &&& self.scope_depth >= 0
        &&& self.function.upvalues@.len() <= UPVALUE_COUNT
        &&& self.function.chunk.wf()
        &&& match &self.enclosing {
            Some(e) => e.wf(),
            None => true,
        }
    }

    /// A compiler for a new function named by the string object `name`; its
    /// slot zero is taken by an unnamed local.
    pub fn new(name: GcRef, fn_ty: FunctionType) -> (c: Self)
        ensures
            c.wf(),
            c.enclosing is None,
            c.function.name == name,
            c.function.arity == 0,
            c.function.chunk.code@.len() == 0,
            c.function.chunk.constants@.len() == 0,
            c.function.upvalues@.len() == 0,
            c.fn_ty == fn_ty,
            c.scope_depth == 0,
            c.locals@.len() == 1,
            c.locals@[0].depth == 0,
            c.locals@[0].name.lexeme@.len() == 0,
    {
        let mut n = Self {
            enclosing: None,
            function: Function::new(name),
            fn_ty,
            locals: Vec::new(),
            scope_depth: 0,
        };
        let empty: &[u8] = &[];
        let token = Token::new(TokenType::Error, empty, 0);
        n.locals.push(Local::new(token, 0));
        n
    }

    pub fn current_chunk(&mut self) -> (c: &mut Chunk)
        ensures
            *c == old(self).function.chunk,
            *final(self) == (Compiler { function: Function { chunk: *final(c), ..old(self).function }, ..*old(self) }),
    {
        &mut self.function.chunk
    }

    /// Finds the innermost local named `name`: its slot, `None` when there is
    /// none, or an error when it is still being initialized.
    pub fn resolve_local(&mut self, name: Token) -> (r: Result<Option<u8>, String>)
        requires
            old(self).wf(),
        ensures
            *final(self) == *old(self),
            match (r, spec_resolve_local(old(self).locals@, name.lexeme@)) {
                (Ok(a), Ok(b)) => a == b,
                (Err(m), Err(_)) => m@ == "Can't read local variable in its own initializer."@,
                _ => false,
            },
    {
        let ghost locals = self.locals@;
        proof {
            lemma_last_local_named(locals, name.lexeme@);
        }
        let mut i = self.locals.len();
        while i > 0
            invariant
                i <= self.locals@.len(),
                self.locals@ == locals,
                last_local_named(locals, name.lexeme@) < i,
                -1 <= last_local_named(locals, name.lexeme@) < locals.len(),
                last_local_named(locals, name.lexeme@) >= 0 ==> locals[last_local_named(
                    locals,
                    name.lexeme@,
                )].name.lexeme@ == name.lexeme@,
                forall|j: int|
                    last_local_named(locals, name.lexeme@) < j < locals.len()
                        ==> #[trigger] locals[j].name.lexeme@ != name.lexeme@,
            decreases i,
        {
            i -= 1;
            let local = &self.locals[i];
            if crate::scanner::bytes_eq(local.name.lexeme, name.lexeme) {
                if local.depth == -1 {
                    return Err(own_initializer_msg());
                }
                return Ok(Some(i as u8));
            }
        }
        Ok(None)
    }

    /// Finds `name` among the locals of the enclosing functions and records
    /// it as a captured variable of this one. Returns the number that
    /// `add_upvalue` gives, `None` when no enclosing function has such a
    /// local, or the error of resolving it.
    pub fn resolve_upvalue(&mut self, name: Token) -> (r: Result<Option<u8>, String>)
        requires
            old(self).wf(),
        ensures
            final(self).wf(),
            final(self).locals@ == old(self).locals@,
            final(self).scope_depth == old(self).scope_depth,
            final(self).fn_ty == old(self).fn_ty,
            final(self).function.chunk == old(self).function.chunk,
            final(self).function.name == old(self).function.name,
            final(self).function.arity == old(self).function.arity,
            r == Ok::<Option<u8>, String>(None) <==> !chain_has_local(old(self).enclosing, name.lexeme@),
            old(self).enclosing matches Some(e) ==> match spec_resolve_local(e.locals@, name.lexeme@) {
                Ok(Some(idx)) => upvalue_added(
                    old(self).function.upvalues@,
                    idx,
                    true,
                    final(self).function.upvalues@,
                    match r {
                        Ok(Some(k)) => Ok(k),
                        Ok(None) => Ok(0),
                        Err(m) => Err(m),
                    },
                ) && !(r matches Ok(None)),
                Err(_) => r matches Err(m) && m@ == "Can't read local variable in its own initializer."@,
                Ok(None) => r matches Ok(Some(k)) ==> exists|idx: u8| #[trigger] upvalue_added(
                    old(self).function.upvalues@,
                    idx,
                    true,
                    final(self).function.upvalues@,
                    Ok::<u8, String>(k),
                ),
            },
            r is Ok ==> final(self).function.upvalues@.len() <= UPVALUE_COUNT,
            chain_consts(*final(self)) == chain_consts(*old(self)),
            chain_len(*final(self)) == chain_len(*old(self)),
            enclosing_codes(final(self).enclosing) == enclosing_codes(old(self).enclosing),
            enclosing_arities(final(self).enclosing) == enclosing_arities(old(self).enclosing),
            enclosing_scopes(final(self).enclosing) == enclosing_scopes(old(self).enclosing),
        decreases *old(self),
    {
        let ghost mut wit: u8 = 0;
        let mut taken = self.enclosing.take();
        let r = match &mut taken {
            Some(enclosing) => {
                let ghost e0 = **enclosing;
                match enclosing.resolve_local(name) {
                    Err(e) => Err(e),
                    Ok(Some(index)) => match self.add_upvalue(index, true) {
                        Ok(u) => Ok(Some(u)),
                        Err(e) => Err(e),
                    },
                    Ok(None) => {
                        match enclosing.resolve_upvalue(name) {
                            Err(e) => Err(e),
                            Ok(Some(index)) => {
                                let added = self.add_upvalue(index, true);
                                match added {
                                    Ok(u) => {
                                        proof {
                                            wit = index;
                                        }
                                        Ok(Some(u))
                                    },
                                    Err(e) => Err(e),
                                }
                            },
                            Ok(None) => Ok(None),
                        }
                    },
                }
            },
            None => Ok(None),
        };
        self.enclosing = taken;
        proof {
            if let Ok(Some(k)) = r {
                if old(self).enclosing is Some && spec_resolve_local(
                    old(self).enclosing->Some_0.locals@,
                    name.lexeme@,
                ) == Ok::<Option<u8>, ()>(None) {
                    assert(upvalue_added(
                        old(self).function.upvalues@,
                        wit,
                        true,
                        self.function.upvalues@,
                        Ok::<u8, String>(k),
                    ));
                }
            }
        }
        r
    }

    /// Records the capture (`idx`, `is_local`) unless it is recorded already.
    /// Returns the position of the existing capture, or the number of
    /// captures after adding the new one (taken modulo 256).
    fn add_upvalue(&mut self, idx: u8, is_local: bool) -> (r: Result<u8, String>)
        requires
            old(self).wf(),
        ensures
            final(self).wf(),
            final(self).locals@ == old(self).locals@,
            final(self).enclosing == old(self).enclosing,
            final(self).scope_depth == old(self).scope_depth,
            final(self).fn_ty == old(self).fn_ty,
            final(self).function.chunk == old(self).function.chunk,
            final(self).function.name == old(self).function.name,
            final(self).function.arity == old(self).function.arity,
            upvalue_added(old(self).function.upvalues@, idx, is_local, final(self).function.upvalues@, r),
    {
        let n = self.function.upvalues.len();
        let mut i: usize = 0;
        while i < n
            invariant
                n == self.function.upvalues@.len() <= UPVALUE_COUNT,
                i <= n,
                *self == *old(self),
                old(self).wf(),
                forall|j: int|
                    0 <= j < i ==> self.function.upvalues@[j] != (FnUpValue { index: idx, is_local }),
            decreases n - i,
        {
            let upv = self.function.upvalues[i];
            if upv.index == idx && upv.is_local == is_local {
                return Ok(i as u8);
            }
            i += 1;
        }
        if n >= UPVALUE_COUNT {
            return Err(too_many_constants_msg());
        }
        self.function.upvalues.push(FnUpValue::new(idx, is_local));
        Ok(((n + 1) % 256) as u8)
    }
}

} // verus!
