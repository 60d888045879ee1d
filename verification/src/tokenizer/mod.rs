//! The scanner: source text in, classified tokens out.

pub mod boundary;
pub mod grammar;
pub mod laws;

use vstd::hash_map::StringHashMap;
use vstd::prelude::*;
use vstd::string::StringSliceAdditionalSpecFns;
use vstd::utf8::{encode_utf8_decode_utf8, encode_utf8_valid_utf8, is_char_boundary};

use boundary::{lemma_cut_around_ascii, lemma_cut_before_ascii_or_at_end, lemma_cut_in_prefix};
use grammar::{
    describe, follows, keyword_table, lemma_next_span_bounds, lemma_word_kind, line_at, newlines,
    next_span, number_end, run_end, token_at, tokens_from, word_kind, Run, Span, TokenView, BANG,
    CARRIAGE_RETURN, COLON, COMMA, DOT, EQUAL, GREATER, LEFT_BRACE, LEFT_PAREN, LESS, MINUS,
    NEWLINE, PLUS, QUOTE, RIGHT_BRACE, RIGHT_PAREN, SEMICOLON, SLASH, SPACE, STAR, TAB,
};

verus! {

/// The kinds of token.
#[derive(Eq, PartialEq, Debug, Copy, Clone, Hash, Structural)]
pub enum TokenType {
    Error,
    Eof,
    Comment,
    /// `(`
    LeftParen,
    /// `)`
    RightParen,
    /// `{`
    LeftBrace,
    /// `}`
    RightBrace,
    /// `,`
    Comma,
    /// `.`
    Dot,
    /// `-`
    Minus,
    /// `+`
    Plus,
    /// `:`
    Colon,
    /// `;`
    Semicolon,
    /// `/`
    Slash,
    /// `*`
    Star,
    /// `!`
    Bang,
    /// `=`
    Equal,
    /// `==`
    EqualEqual,
    /// `>`
    Greater,
    /// `>=`
    GreaterEqual,
    /// `<`
    Less,
    /// `<=`
    LessEqual,
    Identifier,
    String,
    Number,
    If,
    Else,
    While,
    For,
    False,
    True,
    Const,
    Let,
    Function,
    Class,
    Null,
    Return,
    Break,
    Continue,
}

/// A classified piece of the source text.
///
/// `lexeme` borrows from the source; for an `Error` token it is the message
/// instead. `line` counts from 1.
#[derive(Copy, Clone, Debug)]
pub struct Token<'source> {
    pub kind: TokenType,
    pub line: usize,
    pub lexeme: &'source str,
}

impl<'source> View for Token<'source> {
    type V = TokenView;

    open spec fn view(&self) -> TokenView {
        TokenView { kind: self.kind, line: self.line as nat, lexeme: self.lexeme.spec_bytes() }
    }
}

/// What a sequence of tokens shows to the outside, token by token.
pub open spec fn views(tokens: Seq<Token>) -> Seq<TokenView> {
    Seq::new(tokens.len(), |i: int| tokens[i]@)
}

/// The table of reserved words: each word with the kind of its token.
pub fn create_keywords_hashmap() -> (keywords: StringHashMap<TokenType>)
    ensures
        keywords@ == keyword_table(),
{
    let mut keywords = StringHashMap::with_capacity(16);
    keywords.insert("if".to_owned(), TokenType::If);
    keywords.insert("else".to_owned(), TokenType::Else);
    keywords.insert("while".to_owned(), TokenType::While);
    keywords.insert("for".to_owned(), TokenType::For);
    keywords.insert("false".to_owned(), TokenType::False);
    keywords.insert("true".to_owned(), TokenType::True);
    keywords.insert("const".to_owned(), TokenType::Const);
    keywords.insert("let".to_owned(), TokenType::Let);
    keywords.insert("function".to_owned(), TokenType::Function);
    keywords.insert("class".to_owned(), TokenType::Class);
    keywords.insert("null".to_owned(), TokenType::Null);
    keywords.insert("return".to_owned(), TokenType::Return);
    keywords.insert("break".to_owned(), TokenType::Break);
    keywords.insert("continue".to_owned(), TokenType::Continue);
    keywords
}

/// A scan in progress over one source text.
///
/// The scanner keeps the position up to which the text has been consumed and
/// the line that this position lies on.
pub struct Tokenizer<'source> {
    keywords: StringHashMap<TokenType>,
    code: &'source str,
    start: usize,
    current: usize,
    line: usize,
}

/// No more newlines lie in a stretch of text than it has bytes.
proof fn lemma_newlines_bound(src: Seq<u8>, upto: int)
    ensures
        newlines(src, upto) <= upto || upto < 0,
    decreases upto,
{
    if 0 < upto <= src.len() {
        lemma_newlines_bound(src, upto - 1);
    }
}

/// Going over one byte moves to the next line if the byte is a newline, and
/// stays on the line if it is not.
proof fn lemma_line_step(src: Seq<u8>, at: int)
    requires
        0 <= at < src.len(),
    ensures
        line_at(src, at + 1) == if src[at] == NEWLINE {
            line_at(src, at) + 1
        } else {
            line_at(src, at)
        },
{
}

/// A run stops at the end of the text or before a byte that its class does
/// not admit.
proof fn lemma_run_end_stops(src: Seq<u8>, from: int, run: Run)
    requires
        0 <= from <= src.len(),
    ensures
        ({
            let end = run_end(src, from, run);
            from <= end <= src.len() && (end < src.len() ==> !run.admits(src[end]))
        }),
    decreases src.len() - from,
{
    if from < src.len() && run.admits(src[from]) {
        lemma_run_end_stops(src, from + 1, run);
    }
}

/// The tokens from a position on are the next token, followed, unless that
/// is the end-of-input token, by the tokens from its end on.
pub proof fn lemma_tokens_from_unfold(src: Seq<u8>, from: int)
    requires
        0 <= from <= src.len(),
    ensures
        ({
            let span = next_span(src, from);
            tokens_from(src, from) == if span.kind == TokenType::Eof {
                seq![describe(src, span)]
            } else {
                seq![describe(src, span)] + tokens_from(src, span.end)
            }
        }),
{
    let span = next_span(src, from);
    lemma_next_span_bounds(src, from);
    if span.kind == TokenType::Eof {
        assert(tokens_from(src, from) =~= seq![describe(src, span)]);
    } else {
        assert(tokens_from(src, from) =~= seq![describe(src, span)] + tokens_from(
            src,
            span.end,
        ));
    }
}

/// The byte of `src` at `at`, or 0 where the text has none.
pub open spec fn byte_at(src: Seq<u8>, at: int) -> u8 {
    if 0 <= at < src.len() {
        src[at]
    } else {
        0
    }
}

impl<'source> Tokenizer<'source> {
    /// The bytes of the text that is being scanned.
    pub closed spec fn source(&self) -> Seq<u8> {
        self.code.spec_bytes()
    }

    /// How many bytes of the text have been consumed.
    pub closed spec fn position(&self) -> int {
        self.current as int
    }

    /// The positions are in order and inside the text, and the table of
    /// reserved words is whole.
    spec fn bounded(&self) -> bool {
        &&& self.keywords@ == keyword_table()
        &&& self.start <= self.current <= self.source().len()
        &&& self.source().len() < usize::MAX
    }

    /// The scanner is between two tokens: besides being in bounds, its line
    /// is the one that its position lies on.
    pub closed spec fn wf(&self) -> bool {
        &&& self.bounded()
        &&& self.line == line_at(self.source(), self.current as int)
    }

    /// Whether the text may be cut at `at`.
    spec fn cut(&self, at: int) -> bool {
        is_char_boundary(self.source(), at)
    }

    /// A scanner at the start of `code`, on line 1.
    pub fn new(code: &'source str) -> (tokenizer: Tokenizer<'source>)
        requires
            code.spec_bytes().len() < usize::MAX,
        ensures
            tokenizer.wf(),
            tokenizer.source() == code.spec_bytes(),
            tokenizer.position() == 0,
    {
        let keywords = create_keywords_hashmap();
        Tokenizer { keywords, code, start: 0, current: 0, line: 1 }
    }

    /// Scans the whole rest of the text: all tokens from the position
    /// reached up to and including the end-of-input token.
    pub fn tokenizer(&mut self) -> (tokens: Vec<Token<'source>>)
        requires
            old(self).wf(),
        ensures
            final(self).wf(),
            final(self).source() == old(self).source(),
            final(self).position() == final(self).source().len(),
            views(tokens@) == tokens_from(old(self).source(), old(self).position()),
            tokens@.len() > 0,
            tokens@.last().kind == TokenType::Eof,
            forall|i: int| 0 <= i < tokens@.len() - 1 ==> tokens@[i].kind != TokenType::Eof,
    {
        let mut tokens: Vec<Token<'source>> = Vec::new();
        loop
            invariant_except_break
                tokens_from(old(self).source(), old(self).position()) == views(tokens@)
                    + tokens_from(self.source(), self.position()),
                forall|i: int| 0 <= i < tokens@.len() ==> tokens@[i].kind != TokenType::Eof,
            invariant
                self.wf(),
                self.source() == old(self).source(),
            ensures
                self.position() == self.source().len(),
                views(tokens@) == tokens_from(old(self).source(), old(self).position()),
                tokens@.len() > 0,
                tokens@.last().kind == TokenType::Eof,
                forall|i: int| 0 <= i < tokens@.len() - 1 ==> tokens@[i].kind != TokenType::Eof,
            decreases self.source().len() - self.position(),
        {
            let ghost before = self.position();
            let ghost scanned = tokens@;
            let tok = self.scan_token();
            tokens.push(tok);
            proof {
                lemma_next_span_bounds(self.source(), before);
                lemma_tokens_from_unfold(self.source(), before);
                assert(views(tokens@) =~= views(scanned) + seq![tok@]);
            }
            if tok.kind == TokenType::Eof {
                break;
            }
        }
        tokens
    }

    /// Scans one token: skips the blanks at the position reached, then
    /// consumes and classifies what follows. At the end of the text the
    /// token is the end-of-input token, and nothing is consumed.
    pub fn scan_token(&mut self) -> (token: Token<'source>)
        requires
            old(self).wf(),
        ensures
            final(self).wf(),
            final(self).source() == old(self).source(),
            final(self).position() == next_span(old(self).source(), old(self).position()).end,
            token@ == describe(
                old(self).source(),
                next_span(old(self).source(), old(self).position()),
            ),
    {
        self.skip_whitespace();
        self.start = self.current;
        proof {
            encode_utf8_valid_utf8(self.code@);
            lemma_run_end_stops(old(self).source(), old(self).current as int, Run::Blank);
        }
        if self.is_at_end() {
            proof {
                lemma_cut_before_ascii_or_at_end(self.source(), self.current as int);
            }
            return self.make_token(TokenType::Eof);
        }
        let c = self.advance();
        proof {
            if c <= 0x7f {
                lemma_cut_around_ascii(self.source(), self.start as int);
            }
            if follows(self.source(), self.current as int, EQUAL) {
                lemma_cut_around_ascii(self.source(), self.current as int);
            }
            lemma_line_step(self.source(), self.start as int);
            if self.current < self.source().len() {
                lemma_line_step(self.source(), self.current as int);
            }
        }
        if c == LEFT_PAREN {
            self.make_token(TokenType::LeftParen)
        } else if c == RIGHT_PAREN {
            self.make_token(TokenType::RightParen)
        } else if c == LEFT_BRACE {
            self.make_token(TokenType::LeftBrace)
        } else if c == RIGHT_BRACE {
            self.make_token(TokenType::RightBrace)
        } else if c == COLON {
            self.make_token(TokenType::Colon)
        } else if c == SEMICOLON {
            self.make_token(TokenType::Semicolon)
        } else if c == COMMA {
            self.make_token(TokenType::Comma)
        } else if c == DOT {
            self.make_token(TokenType::Dot)
        } else if c == MINUS {
            self.make_token(TokenType::Minus)
        } else if c == PLUS {
            self.make_token(TokenType::Plus)
        } else if c == SLASH {
            if self.matches(SLASH) {
                self.comment()
            } else {
                self.make_token(TokenType::Slash)
            }
        } else if c == STAR {
            self.make_token(TokenType::Star)
        } else if c == BANG {
            self.make_token(TokenType::Bang)
        } else if c == EQUAL {
            if self.matches(EQUAL) {
                self.make_token(TokenType::EqualEqual)
            } else {
                self.make_token(TokenType::Equal)
            }
        } else if c == LESS {
            if self.matches(EQUAL) {
                self.make_token(TokenType::LessEqual)
            } else {
                self.make_token(TokenType::Less)
            }
        } else if c == GREATER {
            if self.matches(EQUAL) {
                self.make_token(TokenType::GreaterEqual)
            } else {
                self.make_token(TokenType::Greater)
            }
        } else if c == QUOTE {
            self.string()
        } else if is_digit(c) {
            self.number()
        } else if is_alpha(c) {
            self.identifier()
        } else {
            self.error_token("Unexpected character.")
        }
    }

    fn is_at_end(&self) -> (r: bool)
        requires
            self.bounded(),
        ensures
            r == (self.current == self.source().len()),
    {
        self.current == self.code.len()
    }

    /// The text between the start of the token that is being scanned and
    /// the position reached.
    fn lexeme(&self) -> (text: &'source str)
        requires
            self.bounded(),
            self.cut(self.start as int),
            self.cut(self.current as int),
        ensures
            text.spec_bytes() == self.source().subrange(self.start as int, self.current as int),
    {
        proof {
            encode_utf8_valid_utf8(self.code@);
            lemma_cut_in_prefix(self.source(), self.start as int, self.current as int);
        }
        let (head, _) = self.code.split_at(self.current);
        let (_, text) = head.split_at(self.start);
        assert(text.spec_bytes() =~= self.source().subrange(
            self.start as int,
            self.current as int,
        ));
        text
    }

    fn make_token(&self, kind: TokenType) -> (token: Token<'source>)
        requires
            self.bounded(),
            self.cut(self.start as int),
            self.cut(self.current as int),
        ensures
            token.kind == kind,
            token.line == self.line,
            token.lexeme.spec_bytes() == self.source().subrange(
                self.start as int,
                self.current as int,
            ),
    {
        Token { kind, lexeme: self.lexeme(), line: self.line }
    }

    fn peek(&self) -> (c: u8)
        requires
            self.bounded(),
        ensures
            c == byte_at(self.source(), self.current as int),
    {
        if self.is_at_end() {
            0
        } else {
            self.code.as_bytes()[self.current]
        }
    }

    fn peek_next(&self) -> (c: u8)
        requires
            self.bounded(),
        ensures
            c == byte_at(self.source(), self.current + 1),
    {
        if self.code.len() - self.current < 2 {
            0
        } else {
            self.code.as_bytes()[self.current + 1]
        }
    }

    fn error_token(&self, message: &'static str) -> (token: Token<'static>)
        ensures
            token.kind == TokenType::Error,
            token.line == self.line,
            token.lexeme == message,
    {
        Token { kind: TokenType::Error, lexeme: message, line: self.line }
    }

    fn advance(&mut self) -> (c: u8)
        requires
            old(self).bounded(),
            old(self).current < old(self).source().len(),
        ensures
            c == old(self).source()[old(self).current as int],
            *final(self) == (Tokenizer {
                current: (old(self).current + 1) as usize,
                ..*old(self)
            }),
    {
        let char = self.peek();
        self.current += 1;
        char
    }

    fn matches(&mut self, expected: u8) -> (r: bool)
        requires
            old(self).bounded(),
        ensures
            r == follows(old(self).source(), old(self).current as int, expected),
            *final(self) == (Tokenizer {
                current: if r {
                    (old(self).current + 1) as usize
                } else {
                    old(self).current
                },
                ..*old(self)
            }),
    {
        if self.is_at_end() || self.peek() != expected {
            false
        } else {
            self.current += 1;
            true
        }
    }

    /// Consumes the blanks at the position reached and counts their
    /// newlines.
    fn skip_whitespace(&mut self)
        requires
            old(self).wf(),
        ensures
            final(self).wf(),
            final(self).current == run_end(
                old(self).source(),
                old(self).current as int,
                Run::Blank,
            ),
            *final(self) == (Tokenizer {
                current: final(self).current,
                line: final(self).line,
                ..*old(self)
            }),
    {
        while !self.is_at_end()
            invariant
                self.wf(),
                old(self).current <= self.current,
                run_end(self.source(), self.current as int, Run::Blank) == run_end(
                    old(self).source(),
                    old(self).current as int,
                    Run::Blank,
                ),
                *self == (Tokenizer { current: self.current, line: self.line, ..*old(self) }),
            ensures
                self.current == run_end(
                    old(self).source(),
                    old(self).current as int,
                    Run::Blank,
                ),
            decreases self.source().len() - self.current,
        {
            let c = self.peek();
            if c == SPACE || c == CARRIAGE_RETURN || c == TAB {
                self.advance();
            } else if c == NEWLINE {
                proof {
                    lemma_newlines_bound(self.source(), self.current as int);
                }
                self.line += 1;
                self.advance();
            } else {
                break;
            }
        }
    }

    /// Scans the rest of a line comment whose two slashes have been
    /// consumed.
    fn comment(&mut self) -> (token: Token<'source>)
        requires
            old(self).wf(),
            old(self).cut(old(self).start as int),
        ensures
            final(self).wf(),
            final(self).current == run_end(
                old(self).source(),
                old(self).current as int,
                Run::Comment,
            ),
            *final(self) == (Tokenizer { current: final(self).current, ..*old(self) }),
            token@ == describe(
                old(self).source(),
                (Span {
                    kind: TokenType::Comment,
                    start: old(self).start as int,
                    end: final(self).current as int,
                }),
            ),
    {
        while self.peek() != NEWLINE && !self.is_at_end()
            invariant
                self.wf(),
                run_end(self.source(), self.current as int, Run::Comment) == run_end(
                    old(self).source(),
                    old(self).current as int,
                    Run::Comment,
                ),
                *self == (Tokenizer { current: self.current, ..*old(self) }),
            decreases self.source().len() - self.current,
        {
            self.advance();
        }
        proof {
            encode_utf8_valid_utf8(self.code@);
            lemma_cut_before_ascii_or_at_end(self.source(), self.current as int);
        }
        Token { kind: TokenType::Comment, lexeme: self.lexeme(), line: self.line }
    }

    /// Scans the rest of a string literal whose opening quote has been
    /// consumed.
    fn string(&mut self) -> (token: Token<'source>)
        requires
            old(self).wf(),
            old(self).cut(old(self).start as int),
            old(self).current == old(self).start + 1,
            old(self).source()[old(self).start as int] == QUOTE,
        ensures
            final(self).wf(),
            *final(self) == (Tokenizer {
                current: final(self).current,
                line: final(self).line,
                ..*old(self)
            }),
            final(self).current == token_at(old(self).source(), old(self).start as int).end,
            token@ == describe(
                old(self).source(),
                token_at(old(self).source(), old(self).start as int),
            ),
    {
        while self.peek() != QUOTE && !self.is_at_end()
            invariant
                self.wf(),
                run_end(self.source(), self.current as int, Run::Text) == run_end(
                    old(self).source(),
                    old(self).current as int,
                    Run::Text,
                ),
                *self == (Tokenizer { current: self.current, line: self.line, ..*old(self) }),
            decreases self.source().len() - self.current,
        {
            if self.peek() == NEWLINE {
                proof {
                    lemma_newlines_bound(self.source(), self.current as int);
                }
                self.line += 1;
            }
            self.advance();
        }
        if self.is_at_end() {
            self.error_token("Unterminated string.")
        } else {
            proof {
                encode_utf8_valid_utf8(self.code@);
                lemma_cut_around_ascii(self.source(), self.current as int);
            }
            self.advance();
            self.make_token(TokenType::String)
        }
    }

    /// Consumes the digits at the position reached.
    fn digits(&mut self)
        requires
            old(self).bounded(),
            old(self).cut(old(self).current as int),
        ensures
            final(self).bounded(),
            final(self).current == run_end(
                old(self).source(),
                old(self).current as int,
                Run::Digits,
            ),
            final(self).cut(final(self).current as int),
            *final(self) == (Tokenizer { current: final(self).current, ..*old(self) }),
            line_at(final(self).source(), final(self).current as int) == line_at(
                old(self).source(),
                old(self).current as int,
            ),
    {
        while is_digit(self.peek())
            invariant
                self.bounded(),
                self.cut(self.current as int),
                run_end(self.source(), self.current as int, Run::Digits) == run_end(
                    old(self).source(),
                    old(self).current as int,
                    Run::Digits,
                ),
                *self == (Tokenizer { current: self.current, ..*old(self) }),
                line_at(self.source(), self.current as int) == line_at(
                    old(self).source(),
                    old(self).current as int,
                ),
            decreases self.source().len() - self.current,
        {
            proof {
                encode_utf8_valid_utf8(self.code@);
                lemma_cut_around_ascii(self.source(), self.current as int);
            }
            self.advance();
        }
    }

    /// Scans the rest of a number whose first digit has been consumed.
    fn number(&mut self) -> (token: Token<'source>)
        requires
            old(self).wf(),
            old(self).cut(old(self).start as int),
            old(self).cut(old(self).current as int),
        ensures
            final(self).wf(),
            *final(self) == (Tokenizer { current: final(self).current, ..*old(self) }),
            final(self).current == number_end(old(self).source(), old(self).current as int),
            token@ == describe(
                old(self).source(),
                (Span {
                    kind: TokenType::Number,
                    start: old(self).start as int,
                    end: final(self).current as int,
                }),
            ),
    {
        self.digits();
        if self.peek() == DOT && is_digit(self.peek_next()) {
            proof {
                encode_utf8_valid_utf8(self.code@);
                lemma_cut_around_ascii(self.source(), self.current as int);
            }
            self.advance();
            self.digits();
        }
        self.make_token(TokenType::Number)
    }

    /// Scans the rest of a word whose first byte has been consumed.
    fn identifier(&mut self) -> (token: Token<'source>)
        requires
            old(self).wf(),
            old(self).cut(old(self).start as int),
            old(self).cut(old(self).current as int),
        ensures
            final(self).wf(),
            *final(self) == (Tokenizer { current: final(self).current, ..*old(self) }),
            final(self).current == run_end(
                old(self).source(),
                old(self).current as int,
                Run::Word,
            ),
            token@ == describe(
                old(self).source(),
                (Span {
                    kind: word_kind(
                        old(self).source().subrange(
                            old(self).start as int,
                            final(self).current as int,
                        ),
                    ),
                    start: old(self).start as int,
                    end: final(self).current as int,
                }),
            ),
    {
        while is_alpha(self.peek()) || is_digit(self.peek())
            invariant
                self.wf(),
                self.cut(self.current as int),
                run_end(self.source(), self.current as int, Run::Word) == run_end(
                    old(self).source(),
                    old(self).current as int,
                    Run::Word,
                ),
                *self == (Tokenizer { current: self.current, ..*old(self) }),
            decreases self.source().len() - self.current,
        {
            proof {
                encode_utf8_valid_utf8(self.code@);
                lemma_cut_around_ascii(self.source(), self.current as int);
            }
            self.advance();
        }
        proof {
            lemma_word_kind(self.source().subrange(self.start as int, self.current as int));
        }
        self.make_token(self.identifier_type())
    }

    fn identifier_type(&self) -> (kind: TokenType)
        requires
            self.bounded(),
            self.cut(self.start as int),
            self.cut(self.current as int),
        ensures
            kind == word_kind(self.source().subrange(self.start as int, self.current as int)),
    {
        let word = self.lexeme();
        proof {
            encode_utf8_decode_utf8(word@);
        }
        match self.keywords.get(word) {
            Some(kind) => *kind,
            None => TokenType::Identifier,
        }
    }
}

/// Whether `c` is an ASCII decimal digit.
pub fn is_digit(c: u8) -> (r: bool)
    ensures
        r == grammar::digit(c),
{
    0x30 <= c && c <= 0x39
}

/// Whether `c` is an ASCII letter or an underscore.
pub fn is_alpha(c: u8) -> (r: bool)
    ensures
        r == grammar::alpha(c),
{
    (0x41 <= c && c <= 0x5a) || (0x61 <= c && c <= 0x7a) || c == grammar::UNDERSCORE
}

} // verus!
