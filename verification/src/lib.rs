//! A bytecode compiler and virtual machine for a small scripting language.
use vstd::prelude::*;

pub mod chunk;
pub mod compiler;
pub mod debug;
pub mod error;
pub mod gc;
pub mod object;
pub mod parser;
pub mod scanner;
pub mod table;
pub mod text;
pub mod value;
pub mod vm;

verus! {
} // verus!
