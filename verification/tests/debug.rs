use lib::chunk::{Chunk, OpCode};
use lib::debug::{Disassembler, Instruction, InstructionLine};
use lib::value::Value;

#[test]
fn lists_a_chunk() {
    let mut c = Chunk::new();
    c.add_constant(Value::Bool(true));
    c.write(OpCode::Constant(0), 1);
    c.write(OpCode::Negate, 1);
    c.write(OpCode::Pop, 2);
    c.write(OpCode::Return, 3);
    let d = Disassembler::new(&c);
    let lines = d.dasm_chunk();
    assert_eq!(
        lines,
        vec![
            InstructionLine {
                offset: 0,
                line: Some(1),
                instruction: Instruction::Constant("OP_CONSTANT".to_string(), 0, Some(Value::Bool(true))),
            },
            InstructionLine { offset: 1, line: None, instruction: Instruction::Simple("OP_NEGATE".to_string()) },
            InstructionLine { offset: 2, line: Some(2), instruction: Instruction::Unknown(OpCode::Pop) },
            InstructionLine { offset: 3, line: Some(3), instruction: Instruction::Simple("OP_RETURN".to_string()) },
        ]
    );
}

#[test]
fn constant_past_the_table() {
    let c = Chunk::new();
    let d = Disassembler::new(&c);
    assert_eq!(
        d.const_instruction("OP_CONSTANT", 4),
        Instruction::Constant("OP_CONSTANT".to_string(), 4, None)
    );
}

#[test]
fn names_simple_instructions() {
    let mut c = Chunk::new();
    let ops = [
        (OpCode::Nil, "OP_NIL"),
        (OpCode::True, "OP_TRUE"),
        (OpCode::False, "OP_FALSE"),
        (OpCode::Equal, "OP_EQUAL"),
        (OpCode::Greater, "OP_GREATER"),
        (OpCode::Less, "OP_LESS"),
        (OpCode::Add, "OP_ADD"),
        (OpCode::Subtract, "OP_SUBTRACT"),
        (OpCode::Multiply, "OP_MULTIPLY"),
        (OpCode::Divide, "OP_DIVIDE"),
    ];
    for (op, _) in ops.iter() {
        c.write(*op, 1);
    }
    let d = Disassembler::new(&c);
    for (i, (op, name)) in ops.iter().enumerate() {
        let l = d.dasm_instruction(i, op);
        assert_eq!(l.instruction, Instruction::Simple(name.to_string()));
    }
}
