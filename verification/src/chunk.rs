use vstd::prelude::*;

use crate::value::Value;

verus! {

/// An instruction of the virtual machine, with its operand.
#[derive(Debug, Copy, Clone, PartialEq, Eq, Structural)]
pub enum OpCode {
    Constant(u8),
    Nil,
    True,
    False,
    Pop,
    GetLocal(u8),
    SetLocal(u8),
    GetGlobal(u8),
    DefineGlobal(u8),
    SetGlobal(u8),
    GetUpValue(u8),
    SetUpValue(u8),
    GetProperty(u8),
    SetProperty(u8),
    GetSuper(u8),
    Equal,
    Greater,
    Less,
    Add,
    Subtract,
    Multiply,
    Divide,
    Not,
    Negate,
    Print,
    Jump(u16),
    JumpIfFalse(u16),
    Loop(u16),
    Call(u8),
    Invoke(u8, u8),
    SuperInvoke(u8, u8),
    Closure(u8),
    CloseUpValue,
    Return,
    Class(u8),
    Inherit,
    Method(u8),
}

/// A sequence of instructions, the source line of each, and the constants
/// that they refer to.
pub struct Chunk {
    pub code: Vec<OpCode>,
    pub lines: Vec<usize>,
    pub constants: Vec<Value>,
}

impl Chunk {
    /// Each instruction has its line.
    pub open spec fn wf(&self) -> bool {
        self.code.len() == self.lines.len()
    }

    pub fn new() -> (c: Self)
        ensures
            c.code@ == Seq::<OpCode>::empty(),
            c.lines@ == Seq::<usize>::empty(),
            c.constants@ == Seq::<Value>::empty(),
    {
        Self { code: Vec::new(), lines: Vec::new(), constants: Vec::new() }
    }

    /// Appends an instruction and its line; returns the instruction's index.
    pub fn write(&mut self, op_code: OpCode, line: usize) -> (idx: usize)
        ensures
            final(self).code@ == old(self).code@.push(op_code),
            final(self).lines@ == old(self).lines@.push(line),
            final(self).constants@ == old(self).constants@,
            idx == old(self).code.len(),
    {
        self.code.push(op_code);
        self.lines.push(line);
        self.code.len() - 1
    }

    /// Appends a constant; returns its index.
    pub fn add_constant(&mut self, value: Value) -> (idx: usize)
        ensures
            final(self).constants@ == old(self).constants@.push(value),
            final(self).code@ == old(self).code@,
            final(self).lines@ == old(self).lines@,
            idx == old(self).constants.len(),
    {
        self.constants.push(value);
        self.constants.len() - 1
    }
}

} // verus!
