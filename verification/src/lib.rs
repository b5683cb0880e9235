//! A single-pass bytecode compiler for Lox: tokens in, a chunk of instructions out.

pub mod precedence;

pub mod token;
pub mod opcode;
pub mod chunk;
pub mod frontend;
pub mod compiler;
pub mod grammar;
pub mod machine;

pub use chunk::{Chunk, Value};
pub use compiler::{tokens_are_compilable, CompileError, Compiler};
pub use frontend::LOCALS_COUNT;
pub use opcode::{OpCode, VariableOp};
pub use precedence::Precedence;
pub use token::{Token, TokenKind, TokenType};
