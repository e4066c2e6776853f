//! Control-flow flattening for compiled Lua 5.1 chunks.
//!
//! A chunk is parsed into prototypes of typed instructions, each function
//! body is rewritten into a dispatcher over its basic blocks, and the result
//! is written back in the same binary format.

pub mod error;
pub mod instruction;
pub mod number;
pub mod proto;
pub mod reader;
pub mod writer;
pub mod serialize;
pub mod deserialize;
pub mod roundtrip;
pub mod context;
pub mod control_flow;
pub mod registers;
pub mod options;
pub mod flatten;
pub mod obfuscate;
pub mod debug;
