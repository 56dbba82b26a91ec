//! A just-in-time compiler for the eight-symbol tape language.
//!
//! Source text is folded into a command stream, translated into x86-64
//! machine code whose loop branches are resolved by backpatching, and handed
//! to an executable memory region.
pub mod buff;
pub mod codegen;
pub mod command;
pub mod displacement;
pub mod engine;
pub mod parser;
pub mod semantics;
pub mod session;

pub use buff::Buff;
pub use command::{Command, CompileError};
pub use displacement::get_32bit_offset;
pub use engine::{compile, load, run_with_ptr, Routine, Translation};
pub use parser::parse;
pub use session::{Session, SessionError};
