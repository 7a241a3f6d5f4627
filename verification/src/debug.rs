use vstd::prelude::*;
use vstd::string::StringExecFns;

use crate::chunk::{Chunk, OpCode};
use crate::value::Value;

verus! {

/// Reads a chunk back as a listing of its instructions.
pub struct Disassembler<'c> {
    pub chunk: &'c Chunk,
}

/// How one instruction reads in a listing.
#[derive(Debug, PartialEq, Eq)]
pub enum Instruction {
    /// An instruction without an operand worth showing.
    Simple(String),
    /// An instruction with a constant operand: its name, the index of the
    /// constant, and the constant when the chunk has it.
    Constant(String, u8, Option<Value>),
    /// An instruction that the listing does not name.
    Unknown(OpCode),
}

/// One line of a listing: the instruction's index, its source line (`None`
/// when it is the line of the instruction before), and the instruction.
#[derive(Debug, PartialEq, Eq)]
pub struct InstructionLine {
    pub offset: usize,
    pub line: Option<usize>,
    pub instruction: Instruction,
}

/// The name that a listing gives an instruction without an operand, if it
/// names it.
pub open spec fn simple_name(code: OpCode) -> Option<Seq<char>> {
    match code {
        OpCode::Nil => Some("OP_NIL"@),
        OpCode::True => Some("OP_TRUE"@),
        OpCode::False => Some("OP_FALSE"@),
        OpCode::Equal => Some("OP_EQUAL"@),
        OpCode::Greater => Some("OP_GREATER"@),
        OpCode::Less => Some("OP_LESS"@),
        OpCode::Negate => Some("OP_NEGATE"@),
        OpCode::Return => Some("OP_RETURN"@),
        OpCode::Add => Some("OP_ADD"@),
        OpCode::Subtract => Some("OP_SUBTRACT"@),
        OpCode::Multiply => Some("OP_MULTIPLY"@),
        OpCode::Divide => Some("OP_DIVIDE"@),
        _ => None,
    }
}

/// The listing line of the instruction `code` at `offset` of `chunk`.
pub open spec fn listed(chunk: &Chunk, offset: usize, code: OpCode, r: InstructionLine) -> bool {
    &&& r.offset == offset
    &&& r.line == if offset > 0 && chunk.lines@[offset - 1] == chunk.lines@[offset as int] {
        None
    } else {
        Some(chunk.lines@[offset as int])
    }
    &&& match code {
        OpCode::Constant(c) => r.instruction matches Instruction::Constant(name, i, v) && name@ == "OP_CONSTANT"@
            && i == c && v == if c < chunk.constants@.len() {
            Some(chunk.constants@[c as int])
        } else {
            None
        },
        _ => match simple_name(code) {
            Some(n) => r.instruction matches Instruction::Simple(s) && s@ == n,
            None => r.instruction == Instruction::Unknown(code),
        },
    }
}

impl<'c> Disassembler<'c> {
    pub fn new(chunk: &'c Chunk) -> (d: Self)
        ensures
            d.chunk == chunk,
    {
        Self { chunk }
    }

    /// The listing of every instruction of the chunk, in order.
    pub fn dasm_chunk(&self) -> (r: Vec<InstructionLine>)
        requires
            self.chunk.wf(),
        ensures
            r@.len() == self.chunk.code@.len(),
            forall|i: int|
                0 <= i < r@.len() ==> listed(self.chunk, i as usize, self.chunk.code@[i], #[trigger] r@[i]),
    {
        let mut out: Vec<InstructionLine> = Vec::new();
        let mut offset: usize = 0;
        while offset < self.chunk.code.len()
            invariant
                self.chunk.wf(),
                offset <= self.chunk.code@.len(),
                out@.len() == offset,
                forall|i: int|
                    0 <= i < offset ==> listed(self.chunk, i as usize, self.chunk.code@[i], #[trigger] out@[i]),
            decreases self.chunk.code.len() - offset,
        {
            let code = self.chunk.code[offset];
            out.push(self.dasm_instruction(offset, &code));
            offset += 1;
        }
        out
    }

    /// The listing line of the instruction `code` at `offset`.
    pub fn dasm_instruction(&self, offset: usize, code: &OpCode) -> (r: InstructionLine)
        requires
            offset < self.chunk.lines@.len(),
        ensures
            listed(self.chunk, offset, *code, r),
    {
        let line = if offset > 0 && self.chunk.lines[offset] == self.chunk.lines[offset - 1] {
            None
        } else {
            Some(self.chunk.lines[offset])
        };
        let name = match code {
            OpCode::Nil => "OP_NIL",
            OpCode::True => "OP_TRUE",
            OpCode::False => "OP_FALSE",
            OpCode::Equal => "OP_EQUAL",
            OpCode::Greater => "OP_GREATER",
            OpCode::Less => "OP_LESS",
            OpCode::Negate => "OP_NEGATE",
            OpCode::Return => "OP_RETURN",
            OpCode::Add => "OP_ADD",
            OpCode::Subtract => "OP_SUBTRACT",
            OpCode::Multiply => "OP_MULTIPLY",
            OpCode::Divide => "OP_DIVIDE",
            _ => "",
        };
        let instruction = match code {
            OpCode::Constant(c) => self.const_instruction("OP_CONSTANT", *c),
            OpCode::Nil | OpCode::True | OpCode::False | OpCode::Equal | OpCode::Greater
            | OpCode::Less | OpCode::Negate | OpCode::Return | OpCode::Add | OpCode::Subtract
            | OpCode::Multiply | OpCode::Divide => Instruction::Simple(String::from_str(name)),
            _ => Instruction::Unknown(*code),
        };
        InstructionLine { offset, line, instruction }
    }

    /// An instruction named `name` whose operand is the constant `offset`.
    pub fn const_instruction(&self, name: &str, offset: u8) -> (r: Instruction)
        ensures
            r matches Instruction::Constant(n, i, v) && n@ == name@ && i == offset && v == if offset
                < self.chunk.constants@.len() {
                Some(self.chunk.constants@[offset as int])
            } else {
                None
            },
    {
        let v = if (offset as usize) < self.chunk.constants.len() {
            Some(self.chunk.constants[offset as usize])
        } else {
            None
        };
        Instruction::Constant(String::from_str(name), offset, v)
    }
}

} // verus!
