// The core of a small scripting-language runtime: a scanner from source text
// to positioned tokens with rendered diagnostics, an append-only bytecode
// chunk with its disassembler, and a stack machine that runs a chunk.

use vstd::prelude::*;

pub mod chunk;
pub mod debug;
pub mod report;
pub mod scanner;
pub mod vm;

verus! {

} // verus!
