use std::ops::Range;
use vstd::prelude::*;
use vstd::string::StringSliceAdditionalSpecFns;
use vstd::utf8::encode_utf8;

use crate::vm::InterpretResult;

verus! {
// ASCII codes of the bytes the scanner tells apart.

pub const TAB: u8 = 9;
pub const NEWLINE: u8 = 10;
pub const CARRIAGE_RETURN: u8 = 13;
pub const SPACE: u8 = 32;
pub const BANG: u8 = 33;
pub const QUOTE: u8 = 34;
pub const PERCENT: u8 = 37;
pub const LEFT_PAREN: u8 = 40;
pub const RIGHT_PAREN: u8 = 41;
pub const STAR: u8 = 42;
pub const PLUS: u8 = 43;
pub const COMMA: u8 = 44;
pub const MINUS: u8 = 45;
pub const DOT: u8 = 46;
pub const SLASH: u8 = 47;
pub const DIGIT_ZERO: u8 = 48;
pub const DIGIT_NINE: u8 = 57;
pub const COLON: u8 = 58;
pub const SEMICOLON: u8 = 59;
pub const LESS: u8 = 60;
pub const EQUAL: u8 = 61;
pub const GREATER: u8 = 62;
pub const QUESTION: u8 = 63;
pub const UPPER_A: u8 = 65;
pub const UPPER_Z: u8 = 90;
pub const LEFT_BRACKET: u8 = 91;
pub const RIGHT_BRACKET: u8 = 93;
pub const UNDERSCORE: u8 = 95;
pub const LOWER_A: u8 = 97;
pub const LOWER_Z: u8 = 122;
pub const LEFT_BRACE: u8 = 123;
pub const RIGHT_BRACE: u8 = 125;

/// Classes of bytes that the scanner consumes in maximal runs.
#[derive(PartialEq, Eq, Structural, Clone, Copy, Debug)]
pub enum ByteClass {
    Digit,
    IdentPart,
    NotNewline,
    NotQuote,
    Continuation,
}

pub open spec fn is_digit(b: u8) -> bool {
    DIGIT_ZERO <= b <= DIGIT_NINE
}

/// A byte that may start an identifier: an ASCII letter or an underscore.
pub open spec fn is_ident_start(b: u8) -> bool {
    (LOWER_A <= b <= LOWER_Z) || (UPPER_A <= b <= UPPER_Z) || b == UNDERSCORE
}

pub open spec fn is_space(b: u8) -> bool {
    b == SPACE || b == TAB || b == NEWLINE || b == CARRIAGE_RETURN
}

pub open spec fn in_class(c: ByteClass, b: u8) -> bool {
    match c {
        ByteClass::Digit => is_digit(b),
        ByteClass::IdentPart => is_ident_start(b) || is_digit(b),
        ByteClass::NotNewline => b != NEWLINE,
        ByteClass::NotQuote => b != QUOTE,
        ByteClass::Continuation => 0x80 <= b < 0xC0,
    }
}

/// The end of the maximal run of bytes of class `c` that begins at `i`.
pub open spec fn run_end(s: Seq<u8>, i: int, c: ByteClass) -> int
    decreases s.len() - i,
{
    if 0 <= i < s.len() && in_class(c, s[i]) {
        run_end(s, i + 1, c)
    } else {
        i
    }
}

pub proof fn lemma_run_end(s: Seq<u8>, i: int, c: ByteClass)
    requires
        0 <= i <= s.len(),
    ensures
        i <= run_end(s, i, c) <= s.len(),
        forall|k: int| i <= k < run_end(s, i, c) ==> in_class(c, #[trigger] s[k]),
        run_end(s, i, c) < s.len() ==> !in_class(c, s[run_end(s, i, c)]),
    decreases s.len() - i,
{
    if i < s.len() && in_class(c, s[i]) {
        lemma_run_end(s, i + 1, c);
    }
}

fn byte_in_class(c: ByteClass, b: u8) -> (r: bool)
    ensures
        r == in_class(c, b),
{
    match c {
        ByteClass::Digit => DIGIT_ZERO <= b && b <= DIGIT_NINE,
        ByteClass::IdentPart => (LOWER_A <= b && b <= LOWER_Z) || (UPPER_A <= b && b <= UPPER_Z) || b == UNDERSCORE
            || (DIGIT_ZERO <= b && b <= DIGIT_NINE),
        ByteClass::NotNewline => b != NEWLINE,
        ByteClass::NotQuote => b != QUOTE,
        ByteClass::Continuation => 0x80 <= b && b < 0xC0,
    }
}

fn skip_class(s: &[u8], i: usize, c: ByteClass) -> (r: usize)
    requires
        i <= s@.len(),
    ensures
        r == run_end(s@, i as int, c),
{
    let mut j = i;
    while j < s.len() && byte_in_class(c, s[j])
        invariant
            i <= j <= s@.len(),
            run_end(s@, j as int, c) == run_end(s@, i as int, c),
        decreases s@.len() - j,
    {
        j = j + 1;
    }
    j
}

#[derive(Debug, PartialEq, Eq, Structural, Clone, Copy)]
pub enum TokenType {
    // Single-character tokens.
    LeftParen,
    RightParen,
    LeftBracket,
    RightBracket,
    LeftBrace,
    RightBrace,
    Comma,
    Dot,
    Semicolon,
    Question,
    Colon,
    // One or two character tokens.
    Bang,
    BangEqual,
    Equal,
    EqualEqual,
    Greater,
    GreaterEqual,
    Less,
    LessEqual,
    Plus,
    PlusEqual,
    Minus,
    MinusEqual,
    Star,
    StarEqual,
    Slash,
    SlashEqual,
    Percent,
    PercentEqual,
    // Literals.
    Identifier,
    String,
    Number,
    // Keywords.
    And,
    Class,
    Else,
    Extends,
    False,
    For,
    Fn,
    In,
    If,
    Let,
    Null,
    Or,
    Print,
    Return,
    Super,
    This,
    True,
    While,
    Error,
    Eof,
}

/// A classified token; its lexeme is `source[span]`, a range of byte offsets.
#[derive(Debug)]
pub struct Token {
    pub token_type: TokenType,
    pub span: Range<usize>,
}

/// What went wrong at a diagnostic's position.
#[derive(Debug, PartialEq, Eq, Structural, Clone, Copy)]
pub enum Problem {
    UnexpectedCharacter,
    UnterminatedString,
}

/// A lexical error: its kind, and an `Error` token spanning the offending text.
#[derive(Debug)]
pub struct Diagnostic {
    pub problem: Problem,
    pub token: Token,
}

pub open spec fn tok(kind: TokenType, start: int, end: int) -> Token {
    Token { token_type: kind, span: Range { start: start as usize, end: end as usize } }
}

/// The kind of a byte that always forms a token on its own.
pub open spec fn single_kind(c: u8) -> Option<TokenType> {
    if c == LEFT_PAREN {
        Some(TokenType::LeftParen)
    } else if c == RIGHT_PAREN {
        Some(TokenType::RightParen)
    } else if c == LEFT_BRACKET {
        Some(TokenType::LeftBracket)
    } else if c == RIGHT_BRACKET {
        Some(TokenType::RightBracket)
    } else if c == LEFT_BRACE {
        Some(TokenType::LeftBrace)
    } else if c == RIGHT_BRACE {
        Some(TokenType::RightBrace)
    } else if c == COMMA {
        Some(TokenType::Comma)
    } else if c == DOT {
        Some(TokenType::Dot)
    } else if c == SEMICOLON {
        Some(TokenType::Semicolon)
    } else if c == QUESTION {
        Some(TokenType::Question)
    } else if c == COLON {
        Some(TokenType::Colon)
    } else {
        None
    }
}

/// For an operator byte other than `/`: its simple kind and the kind it takes
/// when an `=` follows.
pub open spec fn operator_kinds(c: u8) -> Option<(TokenType, TokenType)> {
    if c == BANG {
        Some((TokenType::Bang, TokenType::BangEqual))
    } else if c == EQUAL {
        Some((TokenType::Equal, TokenType::EqualEqual))
    } else if c == LESS {
        Some((TokenType::Less, TokenType::LessEqual))
    } else if c == GREATER {
        Some((TokenType::Greater, TokenType::GreaterEqual))
    } else if c == PLUS {
        Some((TokenType::Plus, TokenType::PlusEqual))
    } else if c == MINUS {
        Some((TokenType::Minus, TokenType::MinusEqual))
    } else if c == STAR {
        Some((TokenType::Star, TokenType::StarEqual))
    } else if c == PERCENT {
        Some((TokenType::Percent, TokenType::PercentEqual))
    } else {
        None
    }
}

/// The kind of an identifier-shaped lexeme: a reserved word's kind on an exact
/// match, `Identifier` otherwise.
pub open spec fn keyword_kind(lex: Seq<u8>) -> TokenType {
    if lex == "and".spec_bytes() {
        TokenType::And
    } else if lex == "class".spec_bytes() {
        TokenType::Class
    } else if lex == "else".spec_bytes() {
        TokenType::Else
    } else if lex == "extends".spec_bytes() {
        TokenType::Extends
    } else if lex == "false".spec_bytes() {
        TokenType::False
    } else if lex == "for".spec_bytes() {
        TokenType::For
    } else if lex == "fn".spec_bytes() {
        TokenType::Fn
    } else if lex == "in".spec_bytes() {
        TokenType::In
    } else if lex == "if".spec_bytes() {
        TokenType::If
    } else if lex == "let".spec_bytes() {
        TokenType::Let
    } else if lex == "null".spec_bytes() {
        TokenType::Null
    } else if lex == "or".spec_bytes() {
        TokenType::Or
    } else if lex == "print".spec_bytes() {
        TokenType::Print
    } else if lex == "return".spec_bytes() {
        TokenType::Return
    } else if lex == "super".spec_bytes() {
        TokenType::Super
    } else if lex == "this".spec_bytes() {
        TokenType::This
    } else if lex == "true".spec_bytes() {
        TokenType::True
    } else if lex == "while".spec_bytes() {
        TokenType::While
    } else {
        TokenType::Identifier
    }
}

/// The outcome of scanning at one position: where scanning resumes, the
/// tokens produced, and the diagnostic raised, if any.
pub struct Step {
    pub next: int,
    pub tokens: Seq<Token>,
    pub problem: Option<Diagnostic>,
}

pub open spec fn emit(next: int, tokens: Seq<Token>) -> Step {
    Step { next, tokens, problem: None }
}

pub open spec fn followed_by(s: Seq<u8>, i: int, b: u8) -> bool {
    i + 1 < s.len() && s[i + 1] == b
}

/// A numeral at `i`: its digits, and a fraction when a `.` and a digit follow;
/// a `.` followed by no digit becomes a `Dot` token of its own.
pub open spec fn number_step(s: Seq<u8>, i: int) -> Step {
    let e = run_end(s, i, ByteClass::Digit);
    if e < s.len() && s[e] == DOT {
        if e + 1 < s.len() && is_digit(s[e + 1]) {
            let f = run_end(s, e + 1, ByteClass::Digit);
            emit(f, seq![tok(TokenType::Number, i, f)])
        } else {
            emit(e + 1, seq![tok(TokenType::Number, i, e), tok(TokenType::Dot, e, e + 1)])
        }
    } else {
        emit(e, seq![tok(TokenType::Number, i, e)])
    }
}

/// A string literal whose opening quote is at `i`.
pub open spec fn string_step(s: Seq<u8>, i: int) -> Step {
    let j = run_end(s, i + 1, ByteClass::NotQuote);
    if j < s.len() {
        emit(j + 1, seq![tok(TokenType::String, i, j + 1)])
    } else {
        Step {
            next: s.len() as int,
            tokens: seq![],
            problem: Some(
                Diagnostic {
                    problem: Problem::UnterminatedString,
                    token: tok(TokenType::Error, i, s.len() as int),
                },
            ),
        }
    }
}

/// A byte that starts no token: the whole character it begins is reported.
pub open spec fn unexpected_step(s: Seq<u8>, i: int) -> Step {
    let e = if s[i] < 0x80 {
        i + 1
    } else {
        run_end(s, i + 1, ByteClass::Continuation)
    };
    Step {
        next: e,
        tokens: seq![],
        problem: Some(
            Diagnostic { problem: Problem::UnexpectedCharacter, token: tok(TokenType::Error, i, e) },
        ),
    }
}

/// Scanning at byte offset `i` of `s`.
pub open spec fn step(s: Seq<u8>, i: int) -> Step {
    let c = s[i];
    if let Some(kind) = single_kind(c) {
        emit(i + 1, seq![tok(kind, i, i + 1)])
    } else if let Some(kinds) = operator_kinds(c) {
        if followed_by(s, i, EQUAL) {
            emit(i + 2, seq![tok(kinds.1, i, i + 2)])
        } else {
            emit(i + 1, seq![tok(kinds.0, i, i + 1)])
        }
    } else if c == SLASH {
        if followed_by(s, i, EQUAL) {
            emit(i + 2, seq![tok(TokenType::SlashEqual, i, i + 2)])
        } else if followed_by(s, i, SLASH) {
            emit(run_end(s, i + 2, ByteClass::NotNewline), seq![])
        } else {
            emit(i + 1, seq![tok(TokenType::Slash, i, i + 1)])
        }
    } else if c == QUOTE {
        string_step(s, i)
    } else if is_digit(c) {
        number_step(s, i)
    } else if is_ident_start(c) {
        let e = run_end(s, i + 1, ByteClass::IdentPart);
        emit(e, seq![tok(keyword_kind(s.subrange(i, e)), i, e)])
    } else if is_space(c) {
        emit(i + 1, seq![])
    } else {
        unexpected_step(s, i)
    }
}

pub open spec fn problems_of(p: Option<Diagnostic>) -> Seq<Diagnostic> {
    match p {
        Some(d) => seq![d],
        None => seq![],
    }
}

/// Tokens and diagnostics of scanning `s` from offset `i` to its end.
pub open spec fn scan_from(s: Seq<u8>, i: int) -> (Seq<Token>, Seq<Diagnostic>)
    decreases s.len() - i,
{
    if 0 <= i < s.len() {
        let st = step(s, i);
        if i < st.next <= s.len() {
            let rest = scan_from(s, st.next);
            (st.tokens + rest.0, problems_of(st.problem) + rest.1)
        } else {
            (seq![], seq![])
        }
    } else {
        (seq![], seq![])
    }
}

/// The end-of-input token: a zero-width span at the last byte offset (at 0
/// for empty input).
pub open spec fn eof_token(len: int) -> Token {
    if len == 0 {
        tok(TokenType::Eof, 0, 0)
    } else {
        tok(TokenType::Eof, len - 1, len - 1)
    }
}

/// The token stream of a source whose scan raised no diagnostic.
pub open spec fn scanned_tokens(s: Seq<u8>) -> Seq<Token> {
    scan_from(s, 0).0.push(eof_token(s.len() as int))
}

/// Every diagnostic raised while scanning `s`, in source order.
pub open spec fn scan_problems(s: Seq<u8>) -> Seq<Diagnostic> {
    scan_from(s, 0).1
}

pub proof fn lemma_step_advances(s: Seq<u8>, i: int)
    requires
        0 <= i < s.len(),
    ensures
        i < step(s, i).next <= s.len(),
{
    lemma_run_end(s, i, ByteClass::Digit);
    lemma_run_end(s, i + 1, ByteClass::IdentPart);
    lemma_run_end(s, i + 1, ByteClass::NotQuote);
    lemma_run_end(s, i + 1, ByteClass::Continuation);
    if i + 2 <= s.len() {
        lemma_run_end(s, i + 2, ByteClass::NotNewline);
    }
    let e = run_end(s, i, ByteClass::Digit);
    if e + 1 < s.len() {
        lemma_run_end(s, e + 1, ByteClass::Digit);
    }
}

fn single_kind_of(c: u8) -> (r: Option<TokenType>)
    ensures
        r == single_kind(c),
{
    if c == LEFT_PAREN {
        Some(TokenType::LeftParen)
    } else if c == RIGHT_PAREN {
        Some(TokenType::RightParen)
    } else if c == LEFT_BRACKET {
        Some(TokenType::LeftBracket)
    } else if c == RIGHT_BRACKET {
        Some(TokenType::RightBracket)
    } else if c == LEFT_BRACE {
        Some(TokenType::LeftBrace)
    } else if c == RIGHT_BRACE {
        Some(TokenType::RightBrace)
    } else if c == COMMA {
        Some(TokenType::Comma)
    } else if c == DOT {
        Some(TokenType::Dot)
    } else if c == SEMICOLON {
        Some(TokenType::Semicolon)
    } else if c == QUESTION {
        Some(TokenType::Question)
    } else if c == COLON {
        Some(TokenType::Colon)
    } else {
        None
    }
}

fn operator_kinds_of(c: u8) -> (r: Option<(TokenType, TokenType)>)
    ensures
        r == operator_kinds(c),
{
    if c == BANG {
        Some((TokenType::Bang, TokenType::BangEqual))
    } else if c == EQUAL {
        Some((TokenType::Equal, TokenType::EqualEqual))
    } else if c == LESS {
        Some((TokenType::Less, TokenType::LessEqual))
    } else if c == GREATER {
        Some((TokenType::Greater, TokenType::GreaterEqual))
    } else if c == PLUS {
        Some((TokenType::Plus, TokenType::PlusEqual))
    } else if c == MINUS {
        Some((TokenType::Minus, TokenType::MinusEqual))
    } else if c == STAR {
        Some((TokenType::Star, TokenType::StarEqual))
    } else if c == PERCENT {
        Some((TokenType::Percent, TokenType::PercentEqual))
    } else {
        None
    }
}

/// Whether `s[start..end]` is exactly the bytes of `word`.
fn lexeme_is(s: &[u8], start: usize, end: usize, word: &str) -> (r: bool)
    requires
        start <= end <= s@.len(),
    ensures
        r == (s@.subrange(start as int, end as int) == word.spec_bytes()),
{
    let w = word.as_bytes();
    if end - start != w.len() {
        return false;
    }
    let mut k: usize = 0;
    while k < w.len()
        invariant
            start <= end <= s@.len(),
            end - start == w@.len(),
            w@ == word.spec_bytes(),
            k <= w@.len(),
            forall|m: int| 0 <= m < k ==> s@[start + m] == w@[m],
        decreases w@.len() - k,
    {
        if s[start + k] != w[k] {
            assert(s@.subrange(start as int, end as int)[k as int] != w@[k as int]);
            return false;
        }
        k = k + 1;
    }
    assert(s@.subrange(start as int, end as int) =~= w@);
    true
}

fn keyword_kind_of(s: &[u8], start: usize, end: usize) -> (r: TokenType)
    requires
        start <= end <= s@.len(),
    ensures
        r == keyword_kind(s@.subrange(start as int, end as int)),
{
    if lexeme_is(s, start, end, "and") {
        TokenType::And
    } else if lexeme_is(s, start, end, "class") {
        TokenType::Class
    } else if lexeme_is(s, start, end, "else") {
        TokenType::Else
    } else if lexeme_is(s, start, end, "extends") {
        TokenType::Extends
    } else if lexeme_is(s, start, end, "false") {
        TokenType::False
    } else if lexeme_is(s, start, end, "for") {
        TokenType::For
    } else if lexeme_is(s, start, end, "fn") {
        TokenType::Fn
    } else if lexeme_is(s, start, end, "in") {
        TokenType::In
    } else if lexeme_is(s, start, end, "if") {
        TokenType::If
    } else if lexeme_is(s, start, end, "let") {
        TokenType::Let
    } else if lexeme_is(s, start, end, "null") {
        TokenType::Null
    } else if lexeme_is(s, start, end, "or") {
        TokenType::Or
    } else if lexeme_is(s, start, end, "print") {
        TokenType::Print
    } else if lexeme_is(s, start, end, "return") {
        TokenType::Return
    } else if lexeme_is(s, start, end, "super") {
        TokenType::Super
    } else if lexeme_is(s, start, end, "this") {
        TokenType::This
    } else if lexeme_is(s, start, end, "true") {
        TokenType::True
    } else if lexeme_is(s, start, end, "while") {
        TokenType::While
    } else {
        TokenType::Identifier
    }
}

fn add_token(tokens: &mut Vec<Token>, token_type: TokenType, start: usize, end: usize)
    ensures
        final(tokens)@ == old(tokens)@.push(tok(token_type, start as int, end as int)),
{
    tokens.push(Token { token_type, span: Range { start, end } });
}

fn error(problems: &mut Vec<Diagnostic>, problem: Problem, start: usize, end: usize)
    ensures
        final(problems)@ == old(problems)@.push(
            Diagnostic { problem, token: tok(TokenType::Error, start as int, end as int) },
        ),
{
    problems.push(Diagnostic { problem, token: Token { token_type: TokenType::Error, span: Range { start, end } } });
}

/// Skips a line comment whose text starts at `i`; the line break stays.
fn comment(s: &[u8], i: usize) -> (r: usize)
    requires
        i <= s@.len(),
    ensures
        r == run_end(s@, i as int, ByteClass::NotNewline),
{
    skip_class(s, i, ByteClass::NotNewline)
}

fn identifier(s: &[u8], start: usize, tokens: &mut Vec<Token>) -> (r: usize)
    requires
        start < s@.len(),
    ensures
        r == run_end(s@, start + 1, ByteClass::IdentPart),
        final(tokens)@ == old(tokens)@.push(
            tok(keyword_kind(s@.subrange(start as int, r as int)), start as int, r as int),
        ),
{
    proof {
        lemma_run_end(s@, start + 1, ByteClass::IdentPart);
        assert(start + 1 <= s.len());
    }
    let end = skip_class(s, start + 1, ByteClass::IdentPart);
    let kind = keyword_kind_of(s, start, end);
    add_token(tokens, kind, start, end);
    end
}

fn string(s: &[u8], start: usize, tokens: &mut Vec<Token>, problems: &mut Vec<Diagnostic>) -> (r: usize)
    requires
        start < s@.len(),
    ensures
        r == string_step(s@, start as int).next,
        final(tokens)@ == old(tokens)@ + string_step(s@, start as int).tokens,
        final(problems)@ == old(problems)@ + problems_of(string_step(s@, start as int).problem),
{
    proof {
        lemma_run_end(s@, start + 1, ByteClass::NotQuote);
        assert(start + 1 <= s.len());
    }
    let j = skip_class(s, start + 1, ByteClass::NotQuote);
    if j < s.len() {
        add_token(tokens, TokenType::String, start, j + 1);
        proof {
            assert(final(problems)@ =~= old(problems)@ + seq![]);
        }
        j + 1
    } else {
        error(problems, Problem::UnterminatedString, start, s.len());
        proof {
            assert(final(tokens)@ =~= old(tokens)@ + seq![]);
        }
        s.len()
    }
}

fn number(s: &[u8], start: usize, tokens: &mut Vec<Token>) -> (r: usize)
    requires
        start < s@.len(),
    ensures
        r == number_step(s@, start as int).next,
        final(tokens)@ == old(tokens)@ + number_step(s@, start as int).tokens,
{
    proof {
        lemma_run_end(s@, start as int, ByteClass::Digit);
    }
    let e = skip_class(s, start, ByteClass::Digit);
    if e < s.len() && s[e] == DOT {
        if e + 1 < s.len() && DIGIT_ZERO <= s[e + 1] && s[e + 1] <= DIGIT_NINE {
            proof {
                lemma_run_end(s@, e + 1, ByteClass::Digit);
            }
            let f = skip_class(s, e + 1, ByteClass::Digit);
            add_token(tokens, TokenType::Number, start, f);
            f
        } else {
            add_token(tokens, TokenType::Number, start, e);
            add_token(tokens, TokenType::Dot, e, e + 1);
            e + 1
        }
    } else {
        add_token(tokens, TokenType::Number, start, e);
        e
    }
}

/// Scans at offset `i`: appends the tokens and diagnostics produced there and
/// returns the offset at which scanning resumes.
fn scan_token(s: &[u8], i: usize, tokens: &mut Vec<Token>, problems: &mut Vec<Diagnostic>) -> (r: usize)
    requires
        i < s@.len(),
    ensures
        r == step(s@, i as int).next,
        final(tokens)@ == old(tokens)@ + step(s@, i as int).tokens,
        final(problems)@ == old(problems)@ + problems_of(step(s@, i as int).problem),
{
    let c = s[i];
    let ghost st = step(s@, i as int);
    if let Some(kind) = single_kind_of(c) {
        add_token(tokens, kind, i, i + 1);
        proof {
            assert(final(problems)@ =~= old(problems)@ + problems_of(st.problem));
        }
        return i + 1;
    }
    if let Some(kinds) = operator_kinds_of(c) {
        proof {
            assert(final(problems)@ =~= old(problems)@ + problems_of(st.problem));
        }
        if i + 1 < s.len() && s[i + 1] == EQUAL {
            add_token(tokens, kinds.1, i, i + 2);
            return i + 2;
        } else {
            add_token(tokens, kinds.0, i, i + 1);
            return i + 1;
        }
    }
    if c == SLASH {
        proof {
            assert(final(problems)@ =~= old(problems)@ + problems_of(st.problem));
        }
        if i + 1 < s.len() && s[i + 1] == EQUAL {
            add_token(tokens, TokenType::SlashEqual, i, i + 2);
            return i + 2;
        } else if i + 1 < s.len() && s[i + 1] == SLASH {
            proof {
                assert(final(tokens)@ =~= old(tokens)@ + st.tokens);
            }
            return comment(s, i + 2);
        } else {
            add_token(tokens, TokenType::Slash, i, i + 1);
            return i + 1;
        }
    }
    if c == QUOTE {
        return string(s, i, tokens, problems);
    }
    if DIGIT_ZERO <= c && c <= DIGIT_NINE {
        proof {
            assert(final(problems)@ =~= old(problems)@ + problems_of(st.problem));
        }
        return number(s, i, tokens);
    }
    if (LOWER_A <= c && c <= LOWER_Z) || (UPPER_A <= c && c <= UPPER_Z) || c == UNDERSCORE {
        proof {
            assert(final(problems)@ =~= old(problems)@ + problems_of(st.problem));
        }
        return identifier(s, i, tokens);
    }
    proof {
        assert(final(tokens)@ =~= old(tokens)@ + st.tokens);
    }
    if c == SPACE || c == TAB || c == NEWLINE || c == CARRIAGE_RETURN {
        proof {
            assert(final(problems)@ =~= old(problems)@ + problems_of(st.problem));
        }
        return i + 1;
    }
    let end = if c < 0x80 {
        i + 1
    } else {
        proof {
            lemma_run_end(s@, i + 1, ByteClass::Continuation);
        }
        skip_class(s, i + 1, ByteClass::Continuation)
    };
    error(problems, Problem::UnexpectedCharacter, i, end);
    end
}

/// A one-shot scanner over one source buffer.
pub struct Scanner<'a> {
    source: &'a String,
}

impl<'a> Scanner<'a> {
    /// The UTF-8 bytes of the source, which spans index.
    pub closed spec fn bytes(&self) -> Seq<u8> {
        encode_utf8(self.source@)
    }

    pub fn new(source: &'a String) -> (r: Scanner<'a>)
        ensures
            r.bytes() == encode_utf8(source@),
    {
        Scanner { source }
    }

    /// Scans the whole source. On success: every token in source order, ended
    /// by `Eof`; otherwise every diagnostic raised, in source order, and no
    /// token.
    pub fn scan(self) -> (r: Result<Vec<Token>, Vec<Diagnostic>>)
        ensures
            r is Ok <==> scan_problems(self.bytes()).len() == 0,
            r matches Ok(tokens) ==> tokens@ == scanned_tokens(self.bytes()),
            r matches Err(problems) ==> problems@ == scan_problems(self.bytes()),
    {
        let s = self.source.as_str().as_bytes();
        let mut tokens: Vec<Token> = Vec::new();
        let mut problems: Vec<Diagnostic> = Vec::new();
        let mut i: usize = 0;
        while i < s.len()
            invariant
                s@ == self.bytes(),
                i <= s@.len(),
                tokens@ + scan_from(s@, i as int).0 == scan_from(s@, 0).0,
                problems@ + scan_from(s@, i as int).1 == scan_from(s@, 0).1,
            decreases s@.len() - i,
        {
            proof {
                lemma_step_advances(s@, i as int);
            }
            let ghost before_tokens = tokens@;
            let ghost before_problems = problems@;
            let ghost st = step(s@, i as int);
            let next = scan_token(s, i, &mut tokens, &mut problems);
            proof {
                let rest = scan_from(s@, next as int);
                assert(scan_from(s@, i as int) == (st.tokens + rest.0, problems_of(st.problem) + rest.1));
                assert(before_tokens + (st.tokens + rest.0) =~= tokens@ + rest.0);
                assert(before_problems + (problems_of(st.problem) + rest.1) =~= problems@ + rest.1);
            }
            i = next;
        }
        proof {
            assert(tokens@ =~= tokens@ + scan_from(s@, i as int).0);
            assert(problems@ =~= problems@ + scan_from(s@, i as int).1);
        }
        if problems.len() == 0 {
            let len = s.len();
            if len == 0 {
                add_token(&mut tokens, TokenType::Eof, 0, 0);
            } else {
                add_token(&mut tokens, TokenType::Eof, len - 1, len - 1);
            }
            Ok(tokens)
        } else {
            Err(problems)
        }
    }

    /// Scans the whole source: the token stream, or `SyntaxError` when any
    /// diagnostic was raised.
    pub fn scan_tokens(self) -> (r: Result<Vec<Token>, InterpretResult>)
        ensures
            r is Ok <==> scan_problems(self.bytes()).len() == 0,
            r matches Ok(tokens) ==> tokens@ == scanned_tokens(self.bytes()),
            r matches Err(e) ==> e == InterpretResult::SyntaxError,
    {
        match self.scan() {
            Ok(tokens) => Ok(tokens),
            Err(_) => Err(InterpretResult::SyntaxError),
        }
    }
}

/// The fixed text of a punctuation or operator kind.
pub open spec fn operator_text(kind: TokenType) -> Option<Seq<u8>> {
    match kind {
        TokenType::LeftParen => Some(seq![LEFT_PAREN]),
        TokenType::RightParen => Some(seq![RIGHT_PAREN]),
        TokenType::LeftBracket => Some(seq![LEFT_BRACKET]),
        TokenType::RightBracket => Some(seq![RIGHT_BRACKET]),
        TokenType::LeftBrace => Some(seq![LEFT_BRACE]),
        TokenType::RightBrace => Some(seq![RIGHT_BRACE]),
        TokenType::Comma => Some(seq![COMMA]),
        TokenType::Dot => Some(seq![DOT]),
        TokenType::Semicolon => Some(seq![SEMICOLON]),
        TokenType::Question => Some(seq![QUESTION]),
        TokenType::Colon => Some(seq![COLON]),
        TokenType::Bang => Some(seq![BANG]),
        TokenType::BangEqual => Some(seq![BANG, EQUAL]),
        TokenType::Equal => Some(seq![EQUAL]),
        TokenType::EqualEqual => Some(seq![EQUAL, EQUAL]),
        TokenType::Greater => Some(seq![GREATER]),
        TokenType::GreaterEqual => Some(seq![GREATER, EQUAL]),
        TokenType::Less => Some(seq![LESS]),
        TokenType::LessEqual => Some(seq![LESS, EQUAL]),
        TokenType::Plus => Some(seq![PLUS]),
        TokenType::PlusEqual => Some(seq![PLUS, EQUAL]),
        TokenType::Minus => Some(seq![MINUS]),
        TokenType::MinusEqual => Some(seq![MINUS, EQUAL]),
        TokenType::Star => Some(seq![STAR]),
        TokenType::StarEqual => Some(seq![STAR, EQUAL]),
        TokenType::Slash => Some(seq![SLASH]),
        TokenType::SlashEqual => Some(seq![SLASH, EQUAL]),
        TokenType::Percent => Some(seq![PERCENT]),
        TokenType::PercentEqual => Some(seq![PERCENT, EQUAL]),
        _ => None,
    }
}

/// A punctuation or operator token spans exactly its text in `s`.
#[verifier::opaque]
pub open spec fn spans_own_text(s: Seq<u8>, t: Token) -> bool {
    match operator_text(t.token_type) {
        Some(text) => s.subrange(t.span.start as int, t.span.end as int) == text,
        None => true,
    }
}

/// Tokens lie within `lo..hi` of the source, in order and without overlap,
/// and each punctuation or operator token spans exactly its text.
pub open spec fn faithful_tokens(s: Seq<u8>, toks: Seq<Token>, lo: int, hi: int) -> bool {
    &&& forall|k: int|
        0 <= k < toks.len() ==> lo <= (#[trigger] toks[k]).span.start <= toks[k].span.end <= hi
            && spans_own_text(s, toks[k])
    &&& forall|j: int, k: int|
        0 <= j < k < toks.len() ==> (#[trigger] toks[j]).span.end <= (#[trigger] toks[k]).span.start
}

proof fn lemma_step_faithful(s: Seq<u8>, i: int)
    requires
        0 <= i < s.len(),
        s.len() <= usize::MAX,
    ensures
        faithful_tokens(s, step(s, i).tokens, i, step(s, i).next),
{
    reveal(spans_own_text);
    lemma_step_advances(s, i);
    lemma_run_end(s, i, ByteClass::Digit);
    lemma_run_end(s, i + 1, ByteClass::IdentPart);
    let st = step(s, i);
    let c = s[i];
    if single_kind(c) is Some {
        assert(s.subrange(i, i + 1) =~= seq![c]);
    } else if operator_kinds(c) is Some {
        assert(s.subrange(i, i + 1) =~= seq![c]);
        if followed_by(s, i, EQUAL) {
            assert(s.subrange(i, i + 2) =~= seq![c, EQUAL]);
        }
    } else if c == SLASH {
        assert(s.subrange(i, i + 1) =~= seq![c]);
        if followed_by(s, i, EQUAL) {
            assert(s.subrange(i, i + 2) =~= seq![c, EQUAL]);
        }
    } else if c == QUOTE {
    } else if is_digit(c) {
        let e = run_end(s, i, ByteClass::Digit);
        if e < s.len() && s[e] == DOT && !(e + 1 < s.len() && is_digit(s[e + 1])) {
            assert(s.subrange(e, e + 1) =~= seq![DOT]);
        } else if e + 1 < s.len() && s[e] == DOT {
            lemma_run_end(s, e + 1, ByteClass::Digit);
        }
    }
}

proof fn lemma_faithful_concat(s: Seq<u8>, a: Seq<Token>, b: Seq<Token>, lo: int, mid: int, hi: int)
    requires
        lo <= mid <= hi,
        faithful_tokens(s, a, lo, mid),
        faithful_tokens(s, b, mid, hi),
    ensures
        faithful_tokens(s, a + b, lo, hi),
{
    let all = a + b;
    assert forall|j: int, k: int| 0 <= j < k < all.len() implies (#[trigger] all[j]).span.end <= (
    #[trigger] all[k]).span.start by {
        if k < a.len() {
            assert(all[j] == a[j]);
            assert(all[k] == a[k]);
        } else if j < a.len() {
            assert(all[j] == a[j]);
            assert(all[k] == b[k - a.len()]);
        } else {
            assert(all[j] == b[j - a.len()]);
            assert(all[k] == b[k - a.len()]);
        }
    }
    assert forall|k: int| 0 <= k < all.len() implies lo <= (#[trigger] all[k]).span.start <= all[k].span.end
        <= hi && spans_own_text(s, all[k]) by {
        if k < a.len() {
            assert(all[k] == a[k]);
        } else {
            assert(all[k] == b[k - a.len()]);
        }
    }
}

proof fn lemma_scan_from_faithful(s: Seq<u8>, i: int)
    requires
        0 <= i <= s.len(),
        s.len() <= usize::MAX,
    ensures
        faithful_tokens(s, scan_from(s, i).0, i, s.len() as int),
    decreases s.len() - i,
{
    if i < s.len() {
        lemma_step_advances(s, i);
        lemma_step_faithful(s, i);
        let st = step(s, i);
        lemma_scan_from_faithful(s, st.next);
        assert(scan_from(s, i).0 == st.tokens + scan_from(s, st.next).0);
        lemma_faithful_concat(s, st.tokens, scan_from(s, st.next).0, i, st.next, s.len() as int);
    }
}

/// Every token a successful scan returns lies within the source, the tokens
/// come in source order without overlap, and each punctuation or operator
/// token's span holds exactly that token's text.
pub proof fn lemma_tokens_match_source(s: Seq<u8>)
    requires
        s.len() <= usize::MAX,
    ensures
        faithful_tokens(s, scan_from(s, 0).0, 0, s.len() as int),
        scanned_tokens(s).last().token_type == TokenType::Eof,
        scanned_tokens(s).last().span.start == scanned_tokens(s).last().span.end,
{
    lemma_scan_from_faithful(s, 0);
}

/// An operator byte followed by `=` yields its compound kind over two bytes;
/// otherwise its simple kind over one byte.
pub proof fn lemma_operator_suffix(s: Seq<u8>, i: int)
    requires
        0 <= i < s.len(),
        operator_kinds(s[i]) is Some,
    ensures
        followed_by(s, i, EQUAL) ==> step(s, i) == emit(
            i + 2,
            seq![tok(operator_kinds(s[i])->Some_0.1, i, i + 2)],
        ),
        !followed_by(s, i, EQUAL) ==> step(s, i) == emit(
            i + 1,
            seq![tok(operator_kinds(s[i])->Some_0.0, i, i + 1)],
        ),
        s[i] != SLASH,
{
}

/// `/` followed by `=` is `SlashEqual` over two bytes; a lone `/` is `Slash`
/// over one byte.
pub proof fn lemma_slash_suffix(s: Seq<u8>, i: int)
    requires
        0 <= i < s.len(),
        s[i] == SLASH,
    ensures
        followed_by(s, i, EQUAL) ==> step(s, i) == emit(i + 2, seq![tok(TokenType::SlashEqual, i, i + 2)]),
        !followed_by(s, i, EQUAL) && !followed_by(s, i, SLASH) ==> step(s, i) == emit(
            i + 1,
            seq![tok(TokenType::Slash, i, i + 1)],
        ),
{
}

/// A numeral whose digits end at `e`: with `.` and a digit after it, one
/// `Number` token covers digits, dot and fraction; with a `.` and no digit, a
/// `Number` over the digits is followed by a `Dot` over the `.` alone.
pub proof fn lemma_number_with_dot(s: Seq<u8>, i: int)
    requires
        0 <= i < s.len(),
        is_digit(s[i]),
    ensures
        ({
            let e = run_end(s, i, ByteClass::Digit);
            &&& i < e
            &&& forall|k: int| i <= k < e ==> is_digit(#[trigger] s[k])
            &&& e + 1 < s.len() && s[e] == DOT && is_digit(s[e + 1]) ==> {
                let f = run_end(s, e + 1, ByteClass::Digit);
                &&& step(s, i).tokens == seq![tok(TokenType::Number, i, f)]
                &&& forall|k: int| e < k < f ==> is_digit(#[trigger] s[k])
                &&& f == s.len() || !is_digit(s[f])
            }
            &&& e < s.len() && s[e] == DOT && !(e + 1 < s.len() && is_digit(s[e + 1])) ==> step(s, i).tokens
                == seq![tok(TokenType::Number, i, e), tok(TokenType::Dot, e, e + 1)]
        }),
{
    lemma_run_end(s, i, ByteClass::Digit);
    let e = run_end(s, i, ByteClass::Digit);
    if e + 1 < s.len() {
        lemma_run_end(s, e + 1, ByteClass::Digit);
    }
}

/// Whether `lex` is one of the reserved words.
pub open spec fn is_reserved(lex: Seq<u8>) -> bool {
    ||| lex == "and".spec_bytes()
    ||| lex == "class".spec_bytes()
    ||| lex == "else".spec_bytes()
    ||| lex == "extends".spec_bytes()
    ||| lex == "false".spec_bytes()
    ||| lex == "for".spec_bytes()
    ||| lex == "fn".spec_bytes()
    ||| lex == "in".spec_bytes()
    ||| lex == "if".spec_bytes()
    ||| lex == "let".spec_bytes()
    ||| lex == "null".spec_bytes()
    ||| lex == "or".spec_bytes()
    ||| lex == "print".spec_bytes()
    ||| lex == "return".spec_bytes()
    ||| lex == "super".spec_bytes()
    ||| lex == "this".spec_bytes()
    ||| lex == "true".spec_bytes()
    ||| lex == "while".spec_bytes()
}

/// An identifier-shaped lexeme scans as one token over the whole lexeme:
/// a keyword's kind when it is a reserved word, `Identifier` otherwise.
pub proof fn lemma_keyword_or_identifier(s: Seq<u8>, i: int)
    requires
        0 <= i < s.len(),
        is_ident_start(s[i]),
    ensures
        ({
            let e = run_end(s, i + 1, ByteClass::IdentPart);
            let lex = s.subrange(i, e);
            &&& step(s, i) == emit(e, seq![tok(keyword_kind(lex), i, e)])
            &&& (keyword_kind(lex) == TokenType::Identifier <==> !is_reserved(lex))
            &&& e == s.len() || !in_class(ByteClass::IdentPart, s[e])
        }),
{
    lemma_run_end(s, i + 1, ByteClass::IdentPart);
}

/// `//` discards every byte up to the next line break, which stays to be
/// scanned; the rest of the scan is that of the following line onwards.
pub proof fn lemma_comment_to_line_end(s: Seq<u8>, i: int)
    requires
        0 <= i < s.len(),
        s[i] == SLASH,
        followed_by(s, i, SLASH),
    ensures
        ({
            let e = run_end(s, i + 2, ByteClass::NotNewline);
            &&& step(s, i) == emit(e, seq![])
            &&& forall|k: int| i + 2 <= k < e ==> s[k] != NEWLINE
            &&& e == s.len() || s[e] == NEWLINE
            &&& scan_from(s, i) == scan_from(s, e)
        }),
{
    lemma_run_end(s, i + 2, ByteClass::NotNewline);
    lemma_step_advances(s, i);
    let e = run_end(s, i + 2, ByteClass::NotNewline);
    assert(scan_from(s, i).0 =~= scan_from(s, e).0);
    assert(scan_from(s, i).1 =~= scan_from(s, e).1);
}

/// Offset `j` is one at which the scan from `i` starts a step.
pub open spec fn scan_reaches(s: Seq<u8>, i: int, j: int) -> bool
    decreases s.len() - i,
{
    if i == j {
        true
    } else if 0 <= i < j && i < s.len() && i < step(s, i).next <= s.len() {
        scan_reaches(s, step(s, i).next, j)
    } else {
        false
    }
}

proof fn lemma_problem_reported(s: Seq<u8>, i: int, j: int)
    requires
        0 <= i <= j < s.len(),
        scan_reaches(s, i, j),
        step(s, j).problem is Some,
    ensures
        scan_from(s, i).1.contains(step(s, j).problem->Some_0),
    decreases s.len() - i,
{
    lemma_step_advances(s, i);
    let st = step(s, i);
    let rest = scan_from(s, st.next).1;
    if i == j {
        assert((problems_of(st.problem) + rest)[0] == st.problem->Some_0);
    } else {
        assert(scan_reaches(s, st.next, j));
        assert(st.next <= j) by {
            if st.next > j {
                assert(!scan_reaches(s, st.next, j));
            }
        }
        lemma_problem_reported(s, st.next, j);
        let k = choose|k: int| 0 <= k < rest.len() && rest[k] == step(s, j).problem->Some_0;
        assert((problems_of(st.problem) + rest)[problems_of(st.problem).len() + k] == rest[k]);
    }
}

/// A diagnostic raised at any step of the scan (an unterminated string, an
/// unexpected character) is among the scan's diagnostics, so the scan fails,
/// whatever tokens came before it.
pub proof fn lemma_problem_fails_scan(s: Seq<u8>, j: int)
    requires
        0 <= j < s.len(),
        scan_reaches(s, 0, j),
        step(s, j).problem is Some,
    ensures
        scan_problems(s).contains(step(s, j).problem->Some_0),
        scan_problems(s).len() > 0,
{
    lemma_problem_reported(s, 0, j);
}

/// A quote with no closing quote after it, and a byte that starts no token,
/// each raise a diagnostic.
pub proof fn lemma_problem_sources(s: Seq<u8>, j: int)
    requires
        0 <= j < s.len(),
    ensures
        s[j] == QUOTE && (forall|k: int| j < k < s.len() ==> s[k] != QUOTE) ==> step(s, j).problem
            == Some(
            Diagnostic {
                problem: Problem::UnterminatedString,
                token: tok(TokenType::Error, j, s.len() as int),
            },
        ),
        single_kind(s[j]) is None && operator_kinds(s[j]) is None && s[j] != SLASH && s[j] != QUOTE
            && !is_digit(s[j]) && !is_ident_start(s[j]) && !is_space(s[j]) ==> (step(s, j).problem matches Some(
            d,
        ) && d.problem == Problem::UnexpectedCharacter),
{
    lemma_run_end(s, j + 1, ByteClass::NotQuote);
}

/// Every diagnostic spans a non-empty range of the source.
pub open spec fn problems_in_source(s: Seq<u8>, ps: Seq<Diagnostic>) -> bool {
    forall|k: int|
        0 <= k < ps.len() ==> (#[trigger] ps[k]).token.span.start < ps[k].token.span.end <= s.len()
}

proof fn lemma_problems_in_source_from(s: Seq<u8>, i: int)
    requires
        0 <= i <= s.len(),
        s.len() <= usize::MAX,
    ensures
        problems_in_source(s, scan_from(s, i).1),
    decreases s.len() - i,
{
    if i < s.len() {
        lemma_step_advances(s, i);
        lemma_run_end(s, i + 1, ByteClass::Continuation);
        let st = step(s, i);
        lemma_problems_in_source_from(s, st.next);
        let head = problems_of(st.problem);
        let rest = scan_from(s, st.next).1;
        assert(scan_from(s, i).1 == head + rest);
        assert forall|k: int| 0 <= k < (head + rest).len() implies (#[trigger] (head + rest)[k]).token.span.start
            < (head + rest)[k].token.span.end <= s.len() by {
            if k < head.len() {
                assert((head + rest)[k] == st.problem->Some_0);
            } else {
                assert((head + rest)[k] == rest[k - head.len()]);
            }
        }
    }
}

/// Each diagnostic of a scan covers a non-empty range inside the source, so
/// it can always be rendered.
pub proof fn lemma_problems_in_source(s: Seq<u8>)
    requires
        s.len() <= usize::MAX,
    ensures
        problems_in_source(s, scan_problems(s)),
{
    lemma_problems_in_source_from(s, 0);
}

} // verus!
