use vstd::prelude::*;

use crate::opcode::{OpCode, VariableOp};

verus! {

/// A constant of the constant pool. A number holds the bit pattern of its `f64` value.
#[derive(Clone, Debug)]
pub enum Value {
    Number(u64),
    Str(String),
}

/// A sequence of instructions, the source line of each, and the constants they use.
#[derive(Clone, Debug)]
pub struct Chunk {
    pub code: Vec<OpCode>,
    pub lines: Vec<usize>,
    pub constants: Vec<Value>,
}

impl Chunk {
    /// Every instruction has its source line.
    pub open spec fn wf(&self) -> bool {
        self.code@.len() == self.lines@.len()
    }

    /// An empty chunk.
    pub fn new() -> (c: Chunk)
        ensures
            c.code@ == Seq::<OpCode>::empty(),
            c.lines@ == Seq::<usize>::empty(),
            c.constants@ == Seq::<Value>::empty(),
    {
        Chunk { code: Vec::new(), lines: Vec::new(), constants: Vec::new() }
    }

    /// The number of instructions written so far.
    pub fn count(&self) -> (n: usize)
        ensures
            n == self.code@.len(),
    {
        self.code.len()
    }

    /// Appends one instruction and its source line.
    pub fn write_chunk(&mut self, byte: OpCode, line: usize)
        ensures
            final(self).code@ == old(self).code@.push(byte),
            final(self).lines@ == old(self).lines@.push(line),
            final(self).constants@ == old(self).constants@,
    {
        self.code.push(byte);
        self.lines.push(line);
    }

    /// Adds `value` to the constants and appends the instruction that loads it.
    pub fn add_constant(&mut self, value: Value, line: usize)
        ensures
            final(self).constants@ == old(self).constants@.push(value),
            final(self).code@ == old(self).code@.push(OpCode::OpConstant(old(self).constants@.len() as usize)),
            final(self).lines@ == old(self).lines@.push(line),
    {
        let index = self.constants.len();
        self.constants.push(value);
        self.write_chunk(OpCode::OpConstant(index), line);
    }

    /// Adds the name of a global variable to the constants and returns its index. For a
    /// read or an assignment it also appends the instruction that does it; a definition
    /// is written by the caller once the initial value has been compiled.
    pub fn add_identifier_constant(&mut self, name: &String, line: usize, variable_op: VariableOp) -> (index: usize)
        ensures
            index == old(self).constants@.len(),
            final(self).constants@ == old(self).constants@.push(Value::Str(*name)),
            match variable_op {
                VariableOp::Define => {
                    &&& final(self).code@ == old(self).code@
                    &&& final(self).lines@ == old(self).lines@
                },
                VariableOp::GetGlobal => {
                    &&& final(self).code@ == old(self).code@.push(OpCode::OpGetGlobal(index))
                    &&& final(self).lines@ == old(self).lines@.push(line)
                },
                VariableOp::SetGlobal => {
                    &&& final(self).code@ == old(self).code@.push(OpCode::OpSetGlobal(index))
                    &&& final(self).lines@ == old(self).lines@.push(line)
                },
            },
    {
        let index = self.constants.len();
        self.constants.push(Value::Str(name.clone()));
        match variable_op {
            VariableOp::Define => {},
            VariableOp::GetGlobal => self.write_chunk(OpCode::OpGetGlobal(index), line),
            VariableOp::SetGlobal => self.write_chunk(OpCode::OpSetGlobal(index), line),
        }
        index
    }
}

} // verus!
