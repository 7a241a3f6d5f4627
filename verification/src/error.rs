use vstd::prelude::*;

verus! {

/// How interpreting a script failed.
#[derive(Debug, Copy, Clone, PartialEq, Eq, Structural)]
pub enum SmsError {
    CompileError,
    RuntimeError,
}

} // verus!
