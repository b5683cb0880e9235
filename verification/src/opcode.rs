use vstd::prelude::*;

verus! {

/// One instruction of the bytecode. Jumps carry `None` until their distance is patched in.
#[derive(Clone, Copy, Debug, PartialEq, Eq)]
pub enum OpCode {
    OpConstant(usize),
    OpNil,
    OpTrue,
    OpFalse,
    OpPop,
    OpGetLocal(usize),
    OpSetLocal(usize),
    OpGetGlobal(usize),
    OpDefineGlobal(usize),
    OpSetGlobal(usize),
    OpEqual,
    OpGreater,
    OpLess,
    OpAdd,
    OpSubtract,
    OpMultiply,
    OpDivide,
    OpNot,
    OpNegate,
    OpPrint,
    OpJump(Option<usize>),
    OpJumpIfFalse(Option<usize>),
    OpLoop(usize),
    OpReturn(usize),
}

/// What a global variable's name is added to the constants for.
#[derive(Clone, Copy, Debug, PartialEq, Eq, Structural)]
pub enum VariableOp {
    Define,
    GetGlobal,
    SetGlobal,
}

} // verus!
