//! A small stack-based virtual machine.
//!
//! A program is a flat sequence of single-byte opcodes executed against a
//! fixed-size memory of signed 32-bit words, an operand stack, a call stack,
//! and an output buffer.  The dispatch loop in [`vm`] is verified against a
//! small-step semantics stated as a specification function; the data
//! structures live in [`machine`], decimal rendering in [`text`], and the
//! initial-memory file format in [`init`].

pub mod init;
pub mod machine;
pub mod text;
pub mod vm;
