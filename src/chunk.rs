use vstd::prelude::*;

use crate::vm::InterpretResult;

verus! {

/// A runtime value: the IEEE-754 bit pattern of a double-precision number.
/// Arithmetic on values is supplied by the host (see `Vm::interpret`).
#[derive(Debug, PartialEq, Eq, Structural, Clone, Copy)]
pub struct Value {
    pub bits: u64,
}

#[derive(Debug, PartialEq, Eq, Structural, Clone, Copy)]
pub enum OpCode {
    Constant(usize),
    Add,
    Subtract,
    Multiply,
    Divide,
    Negate,
    Return,
}

/// The source position an instruction was produced from.
#[derive(Debug, PartialEq, Eq, Structural, Clone, Copy)]
pub struct Span {
    pub line: usize,
    pub column: usize,
}

/// An instruction may enter a chunk whose pool holds `n_constants` values
/// only if every constant it names is in the pool.
pub open spec fn admissible(op: OpCode, n_constants: nat) -> bool {
    op matches OpCode::Constant(i) ==> i < n_constants
}

pub struct ChunkView {
    pub code: Seq<OpCode>,
    pub constants: Seq<Value>,
    pub spans: Seq<Span>,
}

/// Instructions and positions stay index-aligned, and every constant index
/// names a value of the pool.
pub open spec fn chunk_wf(c: ChunkView) -> bool {
    &&& c.code.len() == c.spans.len()
    &&& forall|k: int| 0 <= k < c.code.len() ==> admissible(#[trigger] c.code[k], c.constants.len())
}

/// An append-only instruction sequence with its constant pool and a position
/// for each instruction.
pub struct Chunk {
    code: Vec<OpCode>,
    constants: Vec<Value>,
    spans: Vec<Span>,
}

impl View for Chunk {
    type V = ChunkView;

    closed spec fn view(&self) -> ChunkView {
        ChunkView { code: self.code@, constants: self.constants@, spans: self.spans@ }
    }
}

impl Chunk {
    pub fn new() -> (r: Chunk)
        ensures
            r@.code.len() == 0,
            r@.constants.len() == 0,
            r@.spans.len() == 0,
            chunk_wf(r@),
    {
        Chunk { code: Vec::new(), constants: Vec::new(), spans: Vec::new() }
    }

    /// Appends an instruction and its position in lock-step. An instruction
    /// naming a constant outside the pool is refused with `CompileError`, and
    /// the chunk is left as it was.
    pub fn write(&mut self, opcode: OpCode, span: Span) -> (r: Result<(), InterpretResult>)
        ensures
            admissible(opcode, old(self)@.constants.len()) ==> r is Ok && final(self)@ == (ChunkView {
                code: old(self)@.code.push(opcode),
                constants: old(self)@.constants,
                spans: old(self)@.spans.push(span),
            }),
            !admissible(opcode, old(self)@.constants.len()) ==> r == Err::<(), InterpretResult>(
                InterpretResult::CompileError,
            ) && final(self)@ == old(self)@,
            chunk_wf(old(self)@) ==> chunk_wf(final(self)@),
    {
        if let OpCode::Constant(index) = opcode {
            if index >= self.constants.len() {
                return Err(InterpretResult::CompileError);
            }
        }
        self.code.push(opcode);
        self.spans.push(span);
        Ok(())
    }

    /// Appends `value` to the constant pool and returns its index.
    pub fn add_constant(&mut self, value: Value) -> (r: usize)
        requires
            old(self)@.constants.len() < usize::MAX,
        ensures
            r == old(self)@.constants.len(),
            final(self)@ == (ChunkView {
                code: old(self)@.code,
                constants: old(self)@.constants.push(value),
                spans: old(self)@.spans,
            }),
            chunk_wf(old(self)@) ==> chunk_wf(final(self)@),
    {
        self.constants.push(value);
        self.constants.len() - 1
    }

    pub fn code(&self) -> (r: &Vec<OpCode>)
        ensures
            r@ == self@.code,
    {
        &self.code
    }

    pub fn constants(&self) -> (r: &Vec<Value>)
        ensures
            r@ == self@.constants,
    {
        &self.constants
    }

    pub fn spans(&self) -> (r: &Vec<Span>)
        ensures
            r@ == self@.spans,
    {
        &self.spans
    }
}

} // verus!
