//! A compiler and virtual machine for a compact, tape-based language: a
//! Brainfuck-family dialect extended with explicit tape sizing, absolute
//! pointer positioning, literal cell writes, string literals, and counted
//! arithmetic and move operators.
//!
//! Source text is scanned and compiled in a single pass into a [`chunk::Chunk`]
//! of bytecode with a constant pool and a per-byte source-line table. A chunk
//! can be serialized to bytes and reloaded ([`codec`]), and is executed by the
//! [`vm::VM`] against a growable, zero-initialized tape of 8-bit cells.

pub mod chunk;
pub mod codec;
pub mod opcode;
pub mod parser;
pub mod scanner;
pub mod token;
pub mod vm;
