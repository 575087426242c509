//! Translation of a tape-machine language into a resolved instruction
//! stream, a checked and an unchecked interpreter for that stream, and the
//! block plan that a native code generator follows.

pub mod vm;
pub mod bfir;
pub mod jit;
pub mod balance;
