use vstd::prelude::*;
use vstd::string::StringSliceAdditionalSpecFns;
use vstd::utf8::encode_utf8;

use crate::chunk::{chunk_wf, Chunk, ChunkView, OpCode};
use crate::report::{decimal, push_all, push_decimal, push_repeat, repeat};
use crate::scanner::{DIGIT_ZERO, SPACE};

verus! {

/// `digits` right-aligned in a field of `width` bytes filled with `fill`.
pub open spec fn pad_left(digits: Seq<u8>, width: nat, fill: u8) -> Seq<u8> {
    if digits.len() < width {
        repeat(fill, (width - digits.len()) as nat) + digits
    } else {
        digits
    }
}

/// The source-line column of instruction `offset`: the line number, or a bar
/// when the previous instruction came from the same line.
pub open spec fn line_marker(c: ChunkView, offset: int) -> Seq<u8> {
    if offset > 0 && c.spans[offset].line == c.spans[offset - 1].line {
        "   | ".spec_bytes()
    } else {
        pad_left(decimal(c.spans[offset].line as nat), 4, SPACE) + " ".spec_bytes()
    }
}

pub open spec fn mnemonic(op: OpCode) -> Seq<u8> {
    match op {
        OpCode::Constant(_) => "OP_CONSTANT".spec_bytes(),
        OpCode::Add => "OP_ADD".spec_bytes(),
        OpCode::Subtract => "OP_SUBTRACT".spec_bytes(),
        OpCode::Multiply => "OP_MULTIPLY".spec_bytes(),
        OpCode::Divide => "OP_DIVIDE".spec_bytes(),
        OpCode::Negate => "OP_NEGATE".spec_bytes(),
        OpCode::Return => "OP_RETURN".spec_bytes(),
    }
}

/// The operand column: for a constant load, its pool index and the text of
/// its value; nothing otherwise.
pub open spec fn operand(op: OpCode, texts: Seq<Seq<u8>>) -> Seq<u8> {
    match op {
        OpCode::Constant(i) => repeat(SPACE, 5) + " ".spec_bytes() + pad_left(decimal(i as nat), 4, SPACE)
            + " '".spec_bytes() + texts[i as int] + "'".spec_bytes(),
        _ => seq![],
    }
}

/// The listing line of instruction `offset`; `texts[i]` is the text of
/// constant `i`.
pub open spec fn instruction_line(c: ChunkView, texts: Seq<Seq<u8>>, offset: int) -> Seq<u8> {
    pad_left(decimal(offset as nat), 4, DIGIT_ZERO) + " ".spec_bytes() + line_marker(c, offset)
        + mnemonic(c.code[offset]) + operand(c.code[offset], texts) + "\n".spec_bytes()
}

/// The listing lines of the first `n` instructions.
pub open spec fn listing(c: ChunkView, texts: Seq<Seq<u8>>, n: int) -> Seq<u8>
    decreases n,
{
    if n <= 0 {
        seq![]
    } else {
        listing(c, texts, n - 1) + instruction_line(c, texts, n - 1)
    }
}

pub open spec fn texts_bytes(texts: Seq<String>) -> Seq<Seq<u8>> {
    texts.map_values(|t: String| encode_utf8(t@))
}

fn push_padded(out: &mut Vec<u8>, n: usize, width: usize, fill: u8)
    ensures
        final(out)@ == old(out)@ + pad_left(decimal(n as nat), width as nat, fill),
{
    let mut digits: Vec<u8> = Vec::new();
    push_decimal(&mut digits, n);
    proof {
        assert(digits@ =~= decimal(n as nat));
    }
    if digits.len() < width {
        push_repeat(out, fill, width - digits.len());
    }
    push_all(out, digits.as_slice());
    proof {
        assert(final(out)@ =~= old(out)@ + pad_left(decimal(n as nat), width as nat, fill));
    }
}

impl Chunk {
    /// Renders the listing line of the instruction at `offset`;
    /// `constant_texts[i]` is the rendered value of constant `i`.
    pub fn disassemble_instruction(&self, offset: usize, constant_texts: &Vec<String>) -> (r: Vec<u8>)
        requires
            chunk_wf(self@),
            offset < self@.code.len(),
            constant_texts@.len() == self@.constants.len(),
        ensures
            r@ == instruction_line(self@, texts_bytes(constant_texts@), offset as int),
    {
        let mut out: Vec<u8> = Vec::new();
        push_padded(&mut out, offset, 4, DIGIT_ZERO);
        push_all(&mut out, " ".as_bytes());
        let spans = self.spans();
        if offset > 0 && spans[offset].line == spans[offset - 1].line {
            push_all(&mut out, "   | ".as_bytes());
        } else {
            push_padded(&mut out, spans[offset].line, 4, SPACE);
            push_all(&mut out, " ".as_bytes());
        }
        let op = self.code()[offset];
        let name = match op {
            OpCode::Constant(_) => "OP_CONSTANT",
            OpCode::Add => "OP_ADD",
            OpCode::Subtract => "OP_SUBTRACT",
            OpCode::Multiply => "OP_MULTIPLY",
            OpCode::Divide => "OP_DIVIDE",
            OpCode::Negate => "OP_NEGATE",
            OpCode::Return => "OP_RETURN",
        };
        push_all(&mut out, name.as_bytes());
        if let OpCode::Constant(index) = op {
            proof {
                assert(admissible_at(self@, offset as int));
            }
            push_repeat(&mut out, SPACE, 5);
            push_all(&mut out, " ".as_bytes());
            push_padded(&mut out, index, 4, SPACE);
            push_all(&mut out, " '".as_bytes());
            push_all(&mut out, constant_texts[index].as_str().as_bytes());
            push_all(&mut out, "'".as_bytes());
        }
        push_all(&mut out, "\n".as_bytes());
        proof {
            assert(out@ =~= instruction_line(self@, texts_bytes(constant_texts@), offset as int));
        }
        out
    }

    /// Renders a header naming the chunk and the listing line of every
    /// instruction.
    pub fn disassemble_chunk(&self, name: &str, constant_texts: &Vec<String>) -> (r: Vec<u8>)
        requires
            chunk_wf(self@),
            constant_texts@.len() == self@.constants.len(),
        ensures
            r@ == "== ".spec_bytes() + name.spec_bytes() + " ==\n".spec_bytes() + listing(
                self@,
                texts_bytes(constant_texts@),
                self@.code.len() as int,
            ),
    {
        let mut out: Vec<u8> = Vec::new();
        push_all(&mut out, "== ".as_bytes());
        push_all(&mut out, name.as_bytes());
        push_all(&mut out, " ==\n".as_bytes());
        let ghost header = out@;
        let n = self.code().len();
        let mut k: usize = 0;
        while k < n
            invariant
                chunk_wf(self@),
                constant_texts@.len() == self@.constants.len(),
                n == self@.code.len(),
                k <= n,
                out@ == header + listing(self@, texts_bytes(constant_texts@), k as int),
            decreases n - k,
        {
            let line = self.disassemble_instruction(k, constant_texts);
            push_all(&mut out, line.as_slice());
            k = k + 1;
            proof {
                assert(out@ =~= header + listing(self@, texts_bytes(constant_texts@), k as int));
            }
        }
        out
    }
}

pub open spec fn admissible_at(c: ChunkView, k: int) -> bool {
    crate::chunk::admissible(c.code[k], c.constants.len())
}

/// The listing names an instruction's source line only where it differs from
/// the previous instruction's: the first instruction always shows its line,
/// and one that shares its predecessor's line shows a bar instead.
pub proof fn lemma_line_shown_once(c: ChunkView, texts: Seq<Seq<u8>>, offset: int)
    requires
        chunk_wf(c),
        0 <= offset < c.code.len(),
    ensures
        offset == 0 ==> line_marker(c, offset) == pad_left(decimal(c.spans[0].line as nat), 4, SPACE)
            + " ".spec_bytes(),
        offset > 0 && c.spans[offset].line == c.spans[offset - 1].line ==> instruction_line(
            c,
            texts,
            offset,
        ) == pad_left(decimal(offset as nat), 4, DIGIT_ZERO) + " ".spec_bytes()
            + "   | ".spec_bytes() + mnemonic(c.code[offset]) + operand(c.code[offset], texts)
            + "\n".spec_bytes(),
        offset > 0 && c.spans[offset].line != c.spans[offset - 1].line ==> line_marker(c, offset)
            == pad_left(decimal(c.spans[offset].line as nat), 4, SPACE) + " ".spec_bytes(),
{
}

} // verus!
