//! A small stack-based bytecode virtual machine: its instruction set, the
//! flat binary encoding of programs, and the interpreter that runs them.

pub mod numeric;
pub mod instruction;
pub mod codec;
pub mod input;
pub mod machine;

pub use codec::{deserialize_code, serialize_code, FormatError};
pub use input::Input;
pub use instruction::Instruction;
pub use machine::{ExecError, Machine, Status};
