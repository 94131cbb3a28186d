//! A tape-machine language toolkit: a compiler from source text to a compact
//! run-length-encoded instruction sequence, an interpreter that executes that
//! sequence against a bounded byte tape, and an x86-64 code generator that
//! translates it to native machine code for an external executor.

pub mod error;
pub mod ir;
pub mod jit;
pub mod vm;
