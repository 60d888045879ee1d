//! The lexical grammar, stated over the bytes of the source text.
//!
//! Everything here is mathematics: a token is described by where it starts,
//! where it ends and what kind it has, and the token sequence of a text is
//! the unique sequence that maximal munch gives.

use super::TokenType;
use vstd::prelude::*;
use vstd::string::StringSliceAdditionalSpecFns;
use vstd::utf8::decode_utf8;

verus! {

pub const TAB: u8 = 0x09;

pub const NEWLINE: u8 = 0x0a;

pub const CARRIAGE_RETURN: u8 = 0x0d;

pub const SPACE: u8 = 0x20;

pub const BANG: u8 = 0x21;

pub const QUOTE: u8 = 0x22;

pub const LEFT_PAREN: u8 = 0x28;

pub const RIGHT_PAREN: u8 = 0x29;

pub const STAR: u8 = 0x2a;

pub const PLUS: u8 = 0x2b;

pub const COMMA: u8 = 0x2c;

pub const MINUS: u8 = 0x2d;

pub const DOT: u8 = 0x2e;

pub const SLASH: u8 = 0x2f;

pub const COLON: u8 = 0x3a;

pub const SEMICOLON: u8 = 0x3b;

pub const LESS: u8 = 0x3c;

pub const EQUAL: u8 = 0x3d;

pub const GREATER: u8 = 0x3e;

pub const UNDERSCORE: u8 = 0x5f;

pub const LEFT_BRACE: u8 = 0x7b;

pub const RIGHT_BRACE: u8 = 0x7d;

/// The bytes that separate tokens and belong to none.
pub open spec fn blank(c: u8) -> bool {
    c == SPACE || c == CARRIAGE_RETURN || c == TAB || c == NEWLINE
}

/// The ASCII decimal digits.
pub open spec fn digit(c: u8) -> bool {
    0x30 <= c <= 0x39
}

/// The ASCII letters and the underscore.
pub open spec fn alpha(c: u8) -> bool {
    (0x41 <= c <= 0x5a) || (0x61 <= c <= 0x7a) || c == UNDERSCORE
}

/// The classes of bytes that the scanner consumes in maximal runs.
pub enum Run {
    /// White space between tokens.
    Blank,
    /// The digits of a number.
    Digits,
    /// The letters, digits and underscores of a word.
    Word,
    /// The text of a line comment: anything but a newline.
    Comment,
    /// The text of a string literal: anything but a quote.
    Text,
}

impl Run {
    /// Whether a run of this class goes on over `c`.
    pub open spec fn admits(self, c: u8) -> bool {
        match self {
            Run::Blank => blank(c),
            Run::Digits => digit(c),
            Run::Word => alpha(c) || digit(c),
            Run::Comment => c != NEWLINE,
            Run::Text => c != QUOTE,
        }
    }
}

/// Where the maximal run of `run` that starts at `from` ends: the first
/// position at or after `from` whose byte the class does not admit, or the
/// end of the text.
pub open spec fn run_end(src: Seq<u8>, from: int, run: Run) -> int
    decreases src.len() - from,
{
    if 0 <= from < src.len() && run.admits(src[from]) {
        run_end(src, from + 1, run)
    } else {
        from
    }
}

/// How many newlines lie in the first `upto` bytes of `src`.
pub open spec fn newlines(src: Seq<u8>, upto: int) -> nat
    decreases upto,
{
    if upto <= 0 || upto > src.len() {
        0
    } else if src[upto - 1] == NEWLINE {
        newlines(src, upto - 1) + 1
    } else {
        newlines(src, upto - 1)
    }
}

/// The line, counted from 1, that position `at` of `src` lies on.
pub open spec fn line_at(src: Seq<u8>, at: int) -> nat {
    newlines(src, at) + 1
}

/// The reserved words and the kinds they stand for.
pub open spec fn keyword_table() -> Map<Seq<char>, TokenType> {
    Map::<Seq<char>, TokenType>::empty().insert("if"@, TokenType::If).insert(
        "else"@,
        TokenType::Else,
    ).insert("while"@, TokenType::While).insert("for"@, TokenType::For).insert(
        "false"@,
        TokenType::False,
    ).insert("true"@, TokenType::True).insert("const"@, TokenType::Const).insert(
        "let"@,
        TokenType::Let,
    ).insert("function"@, TokenType::Function).insert("class"@, TokenType::Class).insert(
        "null"@,
        TokenType::Null,
    ).insert("return"@, TokenType::Return).insert("break"@, TokenType::Break).insert(
        "continue"@,
        TokenType::Continue,
    )
}

/// The kind of a word: that of the reserved word it spells, else
/// `Identifier`.
pub open spec fn word_kind(word: Seq<u8>) -> TokenType {
    let text = decode_utf8(word);
    if keyword_table().contains_key(text) {
        keyword_table()[text]
    } else {
        TokenType::Identifier
    }
}

/// The kind of a token that is the single byte `c`, for the bytes that can
/// be a token by themselves.
pub open spec fn single(c: u8) -> Option<TokenType> {
    if c == LEFT_PAREN {
        Some(TokenType::LeftParen)
    } else if c == RIGHT_PAREN {
        Some(TokenType::RightParen)
    } else if c == LEFT_BRACE {
        Some(TokenType::LeftBrace)
    } else if c == RIGHT_BRACE {
        Some(TokenType::RightBrace)
    } else if c == COLON {
        Some(TokenType::Colon)
    } else if c == SEMICOLON {
        Some(TokenType::Semicolon)
    } else if c == COMMA {
        Some(TokenType::Comma)
    } else if c == DOT {
        Some(TokenType::Dot)
    } else if c == MINUS {
        Some(TokenType::Minus)
    } else if c == PLUS {
        Some(TokenType::Plus)
    } else if c == SLASH {
        Some(TokenType::Slash)
    } else if c == STAR {
        Some(TokenType::Star)
    } else if c == BANG {
        Some(TokenType::Bang)
    } else if c == EQUAL {
        Some(TokenType::Equal)
    } else if c == LESS {
        Some(TokenType::Less)
    } else if c == GREATER {
        Some(TokenType::Greater)
    } else {
        None
    }
}

/// The kind of the two-byte operator that `c` followed by `=` spells, for
/// the bytes that start one.
pub open spec fn with_equal(c: u8) -> Option<TokenType> {
    if c == EQUAL {
        Some(TokenType::EqualEqual)
    } else if c == LESS {
        Some(TokenType::LessEqual)
    } else if c == GREATER {
        Some(TokenType::GreaterEqual)
    } else {
        None
    }
}

/// Whether the byte at `at` exists and is `c`.
pub open spec fn follows(src: Seq<u8>, at: int, c: u8) -> bool {
    0 <= at < src.len() && src[at] == c
}

/// Where a number ends whose first digit lies just before `from`: after the
/// digits that follow, and after a fraction if a dot and at least one digit
/// come next.
pub open spec fn number_end(src: Seq<u8>, from: int) -> int {
    let whole = run_end(src, from, Run::Digits);
    if follows(src, whole, DOT) && whole + 1 < src.len() && digit(src[whole + 1]) {
        run_end(src, whole + 1, Run::Digits)
    } else {
        whole
    }
}

/// A token as the grammar sees it: its kind and the bytes `start..end` of
/// the text that it covers.
pub ghost struct Span {
    pub kind: TokenType,
    pub start: int,
    pub end: int,
}

/// The token that starts at `start`, a position inside the text whose byte
/// is not blank.
pub open spec fn token_at(src: Seq<u8>, start: int) -> Span {
    let c = src[start];
    let next = start + 1;
    if c == SLASH && follows(src, next, SLASH) {
        Span { kind: TokenType::Comment, start, end: run_end(src, next + 1, Run::Comment) }
    } else if with_equal(c) is Some && follows(src, next, EQUAL) {
        Span { kind: with_equal(c)->0, start, end: next + 1 }
    } else if single(c) is Some {
        Span { kind: single(c)->0, start, end: next }
    } else if c == QUOTE {
        let close = run_end(src, next, Run::Text);
        if close < src.len() {
            Span { kind: TokenType::String, start, end: close + 1 }
        } else {
            Span { kind: TokenType::Error, start, end: close }
        }
    } else if digit(c) {
        Span { kind: TokenType::Number, start, end: number_end(src, next) }
    } else if alpha(c) {
        let end = run_end(src, next, Run::Word);
        Span { kind: word_kind(src.subrange(start, end)), start, end }
    } else {
        Span { kind: TokenType::Error, start, end: next }
    }
}

/// The next token at or after `from`: the one that starts after the blanks,
/// or the end-of-input token when only blanks are left.
pub open spec fn next_span(src: Seq<u8>, from: int) -> Span {
    let start = run_end(src, from, Run::Blank);
    if start < src.len() {
        token_at(src, start)
    } else {
        Span { kind: TokenType::Eof, start, end: start }
    }
}

/// The message that an `Error` token carries in place of its text.
pub open spec fn error_message(src: Seq<u8>, start: int) -> Seq<u8> {
    if follows(src, start, QUOTE) {
        "Unterminated string.".spec_bytes()
    } else {
        "Unexpected character.".spec_bytes()
    }
}

/// What a token shows to the outside: its kind, its line and the bytes of
/// its lexeme.
pub ghost struct TokenView {
    pub kind: TokenType,
    pub line: nat,
    pub lexeme: Seq<u8>,
}

/// The token that `span` stands for. Its line is the one on which it ends;
/// its lexeme is the text it covers, or the message if it is an error.
pub open spec fn describe(src: Seq<u8>, span: Span) -> TokenView {
    TokenView {
        kind: span.kind,
        line: line_at(src, span.end),
        lexeme: if span.kind == TokenType::Error {
            error_message(src, span.start)
        } else {
            src.subrange(span.start, span.end)
        },
    }
}

/// The spans of all tokens of `src` from position `from` on, the
/// end-of-input token included.
pub open spec fn spans_from(src: Seq<u8>, from: int) -> Seq<Span>
    decreases src.len() - from,
    when 0 <= from <= src.len()
    via spans_from_decreases
{
    let span = next_span(src, from);
    if span.kind == TokenType::Eof {
        seq![span]
    } else {
        seq![span] + spans_from(src, span.end)
    }
}

#[via_fn]
proof fn spans_from_decreases(src: Seq<u8>, from: int) {
    lemma_next_span_bounds(src, from);
}

/// A run ends at or after its start, inside the text.
pub proof fn lemma_run_end_bounds(src: Seq<u8>, from: int, run: Run)
    requires
        0 <= from <= src.len(),
    ensures
        from <= run_end(src, from, run) <= src.len(),
    decreases src.len() - from,
{
    if from < src.len() && run.admits(src[from]) {
        lemma_run_end_bounds(src, from + 1, run);
    }
}

/// A word is never an end-of-input, error or comment token.
pub proof fn lemma_word_kind(word: Seq<u8>)
    ensures
        word_kind(word) != TokenType::Eof,
        word_kind(word) != TokenType::Error,
        word_kind(word) != TokenType::Comment,
{
}

/// A token inside the text starts where it is looked for, is not empty,
/// ends inside the text and is not the end-of-input token.
pub proof fn lemma_token_at_bounds(src: Seq<u8>, start: int)
    requires
        0 <= start < src.len(),
    ensures
        token_at(src, start).start == start,
        start < token_at(src, start).end <= src.len(),
        token_at(src, start).kind != TokenType::Eof,
{
    let next = start + 1;
    lemma_run_end_bounds(src, next, Run::Text);
    lemma_run_end_bounds(src, next, Run::Word);
    lemma_run_end_bounds(src, next, Run::Digits);
    let whole = run_end(src, next, Run::Digits);
    if whole + 1 <= src.len() {
        lemma_run_end_bounds(src, whole + 1, Run::Digits);
    }
    if next + 1 <= src.len() {
        lemma_run_end_bounds(src, next + 1, Run::Comment);
    }
    lemma_word_kind(src.subrange(start, run_end(src, next, Run::Word)));
}

/// The next token lies at or after the position it is looked for from and
/// inside the text; unless it is the end-of-input token, it is not empty.
pub proof fn lemma_next_span_bounds(src: Seq<u8>, from: int)
    requires
        0 <= from <= src.len(),
    ensures
        from <= next_span(src, from).start <= next_span(src, from).end <= src.len(),
        next_span(src, from).start == run_end(src, from, Run::Blank),
        next_span(src, from).kind == TokenType::Eof <==> next_span(src, from).start
            == src.len(),
        next_span(src, from).kind != TokenType::Eof ==> next_span(src, from).start
            < next_span(src, from).end,
{
    lemma_run_end_bounds(src, from, Run::Blank);
    let start = run_end(src, from, Run::Blank);
    if start < src.len() {
        lemma_token_at_bounds(src, start);
    }
}

/// The tokens of `src` from position `from` on.
pub open spec fn tokens_from(src: Seq<u8>, from: int) -> Seq<TokenView> {
    Seq::new(spans_from(src, from).len(), |i: int| describe(src, spans_from(src, from)[i]))
}

/// The token sequence of the whole text `src`.
pub open spec fn tokens_of(src: Seq<u8>) -> Seq<TokenView> {
    tokens_from(src, 0)
}

} // verus!
