use vstd::prelude::*;
use vstd::string::StringSliceAdditionalSpecFns;
use vstd::utf8::encode_utf8;

use crate::scanner::{
    run_end, ByteClass, Diagnostic, Problem, Token, CARRIAGE_RETURN, DIGIT_ZERO, NEWLINE, SPACE,
};

verus! {

pub const CARET: u8 = 94;

/// The decimal digits of `n`, most significant first.
pub open spec fn decimal(n: nat) -> Seq<u8>
    decreases n,
{
    if n < 10 {
        seq![(DIGIT_ZERO + n) as u8]
    } else {
        decimal(n / 10).push((DIGIT_ZERO + n % 10) as u8)
    }
}

pub open spec fn repeat(b: u8, n: nat) -> Seq<u8> {
    Seq::new(n, |_k: int| b)
}

/// 1-based number of the line holding offset `p`: one more than the line
/// breaks before it.
pub open spec fn line_number(s: Seq<u8>, p: int) -> nat
    decreases p,
{
    if p <= 0 {
        1
    } else if s[p - 1] == NEWLINE {
        line_number(s, p - 1) + 1
    } else {
        line_number(s, p - 1)
    }
}

/// The offset at which the line holding offset `p` begins.
pub open spec fn line_start(s: Seq<u8>, p: int) -> int
    decreases p,
{
    if p <= 0 {
        0
    } else if s[p - 1] == NEWLINE {
        p
    } else {
        line_start(s, p - 1)
    }
}

/// The text of the line holding offset `p`, without its line ending (`\n` or
/// `\r\n`).
pub open spec fn line_text(s: Seq<u8>, p: int) -> Seq<u8> {
    let start = line_start(s, p);
    let end = run_end(s, p, ByteClass::NotNewline);
    if end < s.len() && start < end && s[end - 1] == CARRIAGE_RETURN {
        s.subrange(start, end - 1)
    } else {
        s.subrange(start, end)
    }
}

/// 1-based column of offset `p` within its line.
pub open spec fn column(s: Seq<u8>, p: int) -> nat {
    (p - line_start(s, p) + 1) as nat
}

/// The three-line report of `message` at the span `start..end` of `s`: a
/// header, the source line prefixed by `[line:column]`, and carets under the
/// span.
pub open spec fn report(s: Seq<u8>, start: int, end: int, message: Seq<u8>, at: Seq<u8>) -> Seq<u8> {
    let line = decimal(line_number(s, start));
    let col = column(s, start);
    "Error".spec_bytes() + at + ": ".spec_bytes() + message + "\n".spec_bytes()
        + "  | [".spec_bytes() + line + ":".spec_bytes() + decimal(col) + "] ".spec_bytes()
        + line_text(s, start) + "\n".spec_bytes()
        + repeat(SPACE, (line.len() + decimal(col).len() + 8 + col - 1) as nat)
        + repeat(CARET, (end - start) as nat) + "\n".spec_bytes()
}

pub(crate) fn push_all(out: &mut Vec<u8>, b: &[u8])
    ensures
        final(out)@ == old(out)@ + b@,
{
    let mut k: usize = 0;
    while k < b.len()
        invariant
            k <= b@.len(),
            out@ == old(out)@ + b@.subrange(0, k as int),
        decreases b@.len() - k,
    {
        out.push(b[k]);
        k = k + 1;
        proof {
            assert(out@ =~= old(out)@ + b@.subrange(0, k as int));
        }
    }
    proof {
        assert(b@.subrange(0, k as int) =~= b@);
    }
}

pub(crate) fn push_repeat(out: &mut Vec<u8>, b: u8, n: usize)
    ensures
        final(out)@ == old(out)@ + repeat(b, n as nat),
{
    let mut k: usize = 0;
    while k < n
        invariant
            k <= n,
            out@ == old(out)@ + repeat(b, k as nat),
        decreases n - k,
    {
        out.push(b);
        k = k + 1;
        proof {
            assert(out@ =~= old(out)@ + repeat(b, k as nat));
        }
    }
}

pub(crate) fn push_decimal(out: &mut Vec<u8>, n: usize)
    ensures
        final(out)@ == old(out)@ + decimal(n as nat),
    decreases n,
{
    if n >= 10 {
        push_decimal(out, n / 10);
    }
    out.push(DIGIT_ZERO + (n % 10) as u8);
    proof {
        if n >= 10 {
            assert(final(out)@ =~= old(out)@ + decimal(n as nat));
        } else {
            assert(final(out)@ =~= old(out)@ + decimal(n as nat));
        }
    }
}

/// Line number and line start of offset `p`.
fn locate(s: &[u8], p: usize) -> (r: (usize, usize))
    requires
        p < s@.len(),
    ensures
        r.0 == line_number(s@, p as int),
        r.1 == line_start(s@, p as int),
{
    let mut line: usize = 1;
    let mut start: usize = 0;
    let mut k: usize = 0;
    while k < p
        invariant
            k <= p < s@.len(),
            line == line_number(s@, k as int),
            line <= k + 1,
            start == line_start(s@, k as int),
        decreases p - k,
    {
        if s[k] == NEWLINE {
            line = line + 1;
            start = k + 1;
        }
        k = k + 1;
    }
    (line, start)
}

/// Renders the report of `message` at `start..end` of `s`.
pub fn render_report(s: &[u8], start: usize, end: usize, message: &[u8], at: &[u8]) -> (r: Vec<u8>)
    requires
        start < s@.len(),
        start <= end,
    ensures
        r@ == report(s@, start as int, end as int, message@, at@),
{
    let (line, line_begin) = locate(s, start);
    proof {
        assert(line_begin <= start) by {
            lemma_line_start_bound(s@, start as int);
        }
        crate::scanner::lemma_run_end(s@, start as int, ByteClass::NotNewline);
        assert(start + 1 <= s.len());
    }
    let col = start - line_begin + 1;
    let mut out: Vec<u8> = Vec::new();
    push_all(&mut out, "Error".as_bytes());
    push_all(&mut out, at);
    push_all(&mut out, ": ".as_bytes());
    push_all(&mut out, message);
    push_all(&mut out, "\n".as_bytes());
    push_all(&mut out, "  | [".as_bytes());
    let mut digits: Vec<u8> = Vec::new();
    push_decimal(&mut digits, line);
    let line_digits = digits.len();
    push_all(&mut out, digits.as_slice());
    push_all(&mut out, ":".as_bytes());
    let mut col_digits: Vec<u8> = Vec::new();
    push_decimal(&mut col_digits, col);
    let col_len = col_digits.len();
    push_all(&mut out, col_digits.as_slice());
    push_all(&mut out, "] ".as_bytes());
    let line_end = skip_to_line_end(s, start);
    let text_end = if line_end < s.len() && line_begin < line_end && s[line_end - 1] == CARRIAGE_RETURN {
        line_end - 1
    } else {
        line_end
    };
    let mut k: usize = line_begin;
    let ghost before = out@;
    while k < text_end
        invariant
            line_begin <= k <= text_end <= s@.len(),
            out@ == before + s@.subrange(line_begin as int, k as int),
        decreases text_end - k,
    {
        out.push(s[k]);
        k = k + 1;
        proof {
            assert(out@ =~= before + s@.subrange(line_begin as int, k as int));
        }
    }
    push_all(&mut out, "\n".as_bytes());
    let ghost before_pad = out@;
    push_repeat(&mut out, SPACE, line_digits);
    push_repeat(&mut out, SPACE, col_len);
    push_repeat(&mut out, SPACE, 8);
    push_repeat(&mut out, SPACE, col - 1);
    proof {
        assert(out@ =~= before_pad + repeat(SPACE, (line_digits + col_len + 8 + col - 1) as nat));
    }
    push_repeat(&mut out, CARET, end - start);
    push_all(&mut out, "\n".as_bytes());
    proof {
        assert(out@ =~= report(s@, start as int, end as int, message@, at@));
    }
    out
}

fn skip_to_line_end(s: &[u8], p: usize) -> (r: usize)
    requires
        p <= s@.len(),
    ensures
        r == run_end(s@, p as int, ByteClass::NotNewline),
{
    let mut j = p;
    while j < s.len() && s[j] != NEWLINE
        invariant
            p <= j <= s@.len(),
            run_end(s@, j as int, ByteClass::NotNewline) == run_end(s@, p as int, ByteClass::NotNewline),
        decreases s@.len() - j,
    {
        j = j + 1;
    }
    j
}

pub proof fn lemma_line_start_bound(s: Seq<u8>, p: int)
    requires
        0 <= p <= s.len(),
    ensures
        0 <= line_start(s, p) <= p,
    decreases p,
{
    if p > 0 && s[p - 1] != NEWLINE {
        lemma_line_start_bound(s, p - 1);
    }
}

impl Token {
    /// Renders the report of `message` at this token's span of `source`;
    /// `at` follows the word `Error` in the header.
    pub fn error(&self, source: &str, message: &str, at: &str) -> (r: Vec<u8>)
        requires
            self.span.start < source.spec_bytes().len(),
            self.span.start <= self.span.end,
        ensures
            r@ == report(
                source.spec_bytes(),
                self.span.start as int,
                self.span.end as int,
                message.spec_bytes(),
                at.spec_bytes(),
            ),
    {
        render_report(source.as_bytes(), self.span.start, self.span.end, message.as_bytes(), at.as_bytes())
    }
}

/// The message of a diagnostic of kind `p` whose span covers `text`.
pub open spec fn problem_message(p: Problem, text: Seq<u8>) -> Seq<u8> {
    match p {
        Problem::UnexpectedCharacter => "Unexpected character '".spec_bytes() + text + "'.".spec_bytes(),
        Problem::UnterminatedString => "Unterminated string.".spec_bytes(),
    }
}

pub open spec fn problem_at(p: Problem) -> Seq<u8> {
    match p {
        Problem::UnexpectedCharacter => "".spec_bytes(),
        Problem::UnterminatedString => " at end".spec_bytes(),
    }
}

impl Diagnostic {
    /// Renders this diagnostic's report against the source it was raised on.
    pub fn render(&self, source: &str) -> (r: Vec<u8>)
        requires
            self.token.span.start < self.token.span.end <= source.spec_bytes().len(),
        ensures
            ({
                let s = source.spec_bytes();
                let (start, end) = (self.token.span.start as int, self.token.span.end as int);
                r@ == report(
                    s,
                    start,
                    end,
                    problem_message(self.problem, s.subrange(start, end)),
                    problem_at(self.problem),
                )
            }),
    {
        let s = source.as_bytes();
        let start = self.token.span.start;
        let end = self.token.span.end;
        match self.problem {
            Problem::UnexpectedCharacter => {
                let mut message: Vec<u8> = Vec::new();
                push_all(&mut message, "Unexpected character '".as_bytes());
                let mut k: usize = start;
                let ghost before = message@;
                while k < end
                    invariant
                        start <= k <= end <= s@.len(),
                        message@ == before + s@.subrange(start as int, k as int),
                    decreases end - k,
                {
                    message.push(s[k]);
                    k = k + 1;
                    proof {
                        assert(message@ =~= before + s@.subrange(start as int, k as int));
                    }
                }
                push_all(&mut message, "'.".as_bytes());
                render_report(s, start, end, message.as_slice(), "".as_bytes())
            },
            Problem::UnterminatedString => {
                render_report(s, start, end, "Unterminated string.".as_bytes(), " at end".as_bytes())
            },
        }
    }
}

} // verus!
