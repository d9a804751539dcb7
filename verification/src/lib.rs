//! A compiler and a virtual machine for a language of eight operators on a tape of cells.
//!
//! A source text is compiled in one pass: the [`lexer`] folds runs of equal operators into
//! counted instructions, and the compile step in [`program`] resolves each loop bracket to
//! the address of its partner. The [`machine`] executes the program on a tape that grows
//! to the right, with cells of a chosen width that wrap around.

pub mod lexer;
pub mod listing;
pub mod machine;
pub mod nesting;
pub mod op;
pub mod program;

pub use crate::lexer::Lexer;
pub use crate::machine::{CellSize, Fault, Machine, Status};
pub use crate::op::{Op, OpKind};
pub use crate::program::{Addrs, CompileError, Ops};
