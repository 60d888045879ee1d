//! The parser: a token sequence in, a tree of statements out.

pub mod rules;

use crate::tokenizer::{Token, TokenType};
use rules::{
    block_rule, expression_rule, lemma_recovered_len, lemma_recovery_progress,
    lemma_significant_terminated, lemma_statement_progress, number_literal_rule, program_rule,
    recovery_len, significant, statement_rule, terminated, type_rule, variable_declare_rule,
};
use vstd::prelude::*;

verus! {

/// The things that can be wrong with a statement.
#[derive(Clone, Copy, Debug, PartialEq, Eq, Structural)]
pub enum DiagnosticKind {
    /// A declaration lacks the name of its variable.
    ExpectIdentifier,
    /// A declaration lacks the `=` before its initializer.
    ExpectInitialization,
    /// A statement lacks the `;` at its end.
    ExpectSemicolon,
    /// The token starts nothing that the language knows.
    Unsupported,
}

/// What is wrong, and on which line.
#[derive(Clone, Copy, Debug, PartialEq, Eq, Structural)]
pub struct Diagnostic {
    pub kind: DiagnosticKind,
    pub line: usize,
}

/// A statement of the language.
#[derive(Debug)]
pub enum Statement {
    BlockStatement(BlockStatement),
    VariableDeclareStatement(VariableDeclareStatement),
}

/// A sequence of statements, in the order of the source.
#[derive(Debug)]
pub struct BlockStatement {
    pub statements: Vec<Statement>,
}

/// Whether a declared variable may be assigned again.
#[derive(Clone, Copy, Debug, PartialEq, Eq, Structural)]
pub enum VariableDeclareKind {
    Let,
    Const,
}

/// The declaration of a variable with its initializer.
#[derive(Clone, Debug)]
pub struct VariableDeclareStatement {
    pub declare_kind: VariableDeclareKind,
    pub name: String,
    pub declared_type: Option<Type>,
    pub init: Expression,
}

/// A type annotation. The language has no types yet, so there is no value
/// of this type: its one variant holds a value of a type that has none.
#[derive(Clone, Copy, Debug)]
pub enum Type {
    Never(core::convert::Infallible),
}

/// An expression of the language.
#[derive(Clone, Debug)]
pub enum Expression {
    NumberLiteral(NumberLiteral),
}

/// A numeric literal, kept as the text that spells it.
#[derive(Clone, Debug)]
pub struct NumberLiteral {
    pub text: String,
}

/// What an expression is, with text as characters.
pub ghost enum ExpressionView {
    NumberLiteral(Seq<char>),
}

/// What a variable declaration is, with text as characters.
pub ghost struct VariableDeclareView {
    pub declare_kind: VariableDeclareKind,
    pub name: Seq<char>,
    pub declared_type: Option<Type>,
    pub init: ExpressionView,
}

/// What a statement is, with text as characters.
pub ghost enum StatementView {
    Block(Seq<StatementView>),
    VariableDeclare(VariableDeclareView),
}

impl View for NumberLiteral {
    type V = Seq<char>;

    open spec fn view(&self) -> Seq<char> {
        self.text@
    }
}

impl View for Expression {
    type V = ExpressionView;

    open spec fn view(&self) -> ExpressionView {
        match self {
            Expression::NumberLiteral(literal) => ExpressionView::NumberLiteral(literal@),
        }
    }
}

impl View for VariableDeclareStatement {
    type V = VariableDeclareView;

    open spec fn view(&self) -> VariableDeclareView {
        VariableDeclareView {
            declare_kind: self.declare_kind,
            name: self.name@,
            declared_type: self.declared_type,
            init: self.init@,
        }
    }
}

impl View for Statement {
    type V = StatementView;

    open spec fn view(&self) -> StatementView
        decreases self,
    {
        match self {
            Statement::BlockStatement(block) => StatementView::Block(
                Seq::new(
                    block.statements@.len(),
                    |i: int|
                        if 0 <= i < block.statements@.len() {
                            block.statements@[i].view()
                        } else {
                            arbitrary()
                        },
                ),
            ),
            Statement::VariableDeclareStatement(declaration) => StatementView::VariableDeclare(
                declaration@,
            ),
        }
    }
}

/// What a sequence of statements is, statement by statement.
pub open spec fn statement_views(statements: Seq<Statement>) -> Seq<StatementView> {
    Seq::new(statements.len(), |i: int| statements[i]@)
}

impl View for BlockStatement {
    type V = Seq<StatementView>;

    open spec fn view(&self) -> Seq<StatementView> {
        statement_views(self.statements@)
    }
}

/// Whether what a rule's function gave is what the rule says: the same
/// node, seen as its view, or the same diagnostic.
pub open spec fn agrees<T: View>(got: Result<T, Diagnostic>, rule: Result<T::V, Diagnostic>) -> bool {
    match (got, rule) {
        (Ok(node), Ok(view)) => node@ == view,
        (Err(found), Err(diagnostic)) => found == diagnostic,
        _ => false,
    }
}

impl DiagnosticKind {
    /// The words in which a diagnostic of this kind is reported.
    pub open spec fn text(self) -> Seq<char> {
        match self {
            DiagnosticKind::ExpectIdentifier => "Expect Identifier"@,
            DiagnosticKind::ExpectInitialization => "Expect initialization"@,
            DiagnosticKind::ExpectSemicolon => "Expect ';'"@,
            DiagnosticKind::Unsupported => "Unsupported construct"@,
        }
    }
}

impl Diagnostic {
    /// The words in which this diagnostic is reported.
    pub fn message(&self) -> (message: &'static str)
        ensures
            message@ == self.kind.text(),
    {
        match self.kind {
            DiagnosticKind::ExpectIdentifier => "Expect Identifier",
            DiagnosticKind::ExpectInitialization => "Expect initialization",
            DiagnosticKind::ExpectSemicolon => "Expect ';'",
            DiagnosticKind::Unsupported => "Unsupported construct",
        }
    }
}

/// Panic-mode recovery: drops the tokens up to and including the next
/// semicolon and returns the rest. If the end-of-input token comes first,
/// or no semicolon is left, nothing remains.
pub fn skip_until_semicolon<'a>(tokens: &'a [Token<'a>]) -> (rest: &'a [Token<'a>])
    ensures
        rest@ == tokens@.skip(recovery_len(tokens@) as int),
        rest@.len() < tokens@.len() || tokens@.len() == 0,
{
    proof {
        lemma_recovery_progress(tokens@);
        assert(tokens@.skip(0) =~= tokens@);
    }
    let mut i: usize = 0;
    while i < tokens.len()
        invariant
            i <= tokens@.len(),
            recovery_len(tokens@) == i + recovery_len(tokens@.skip(i as int)),
        decreases tokens@.len() - i,
    {
        let kind = tokens[i].kind;
        proof {
            let ahead = tokens@.skip(i as int);
            assert(ahead[0] == tokens@[i as int]);
            assert(ahead.drop_first() =~= tokens@.skip(i + 1));
        }
        if kind == TokenType::Eof {
            return tokens.split_at(tokens.len()).1;
        }
        if kind == TokenType::Semicolon {
            return tokens.split_at(i + 1).1;
        }
        i += 1;
    }
    tokens.split_at(i).1
}

/// Parses a numeric literal at the front of `tokens`.
pub fn parser_number_literal<'a>(tokens: &'a [Token<'a>]) -> (out: (
    Result<NumberLiteral, Diagnostic>,
    &'a [Token<'a>],
))
    requires
        tokens@.len() > 0,
    ensures
        agrees(out.0, number_literal_rule(tokens@).result),
        out.1@ == tokens@.skip(number_literal_rule(tokens@).consumed as int),
{
    let token = &tokens[0];
    if token.kind == TokenType::Number {
        (Ok(NumberLiteral { text: token.lexeme.to_owned() }), tokens.split_at(1).1)
    } else {
        proof {
            assert(tokens@.skip(0) =~= tokens@);
        }
        (Err(Diagnostic { kind: DiagnosticKind::Unsupported, line: token.line }), tokens)
    }
}

/// Parses an expression at the front of `tokens`.
pub fn parser_expression<'a>(tokens: &'a [Token<'a>]) -> (out: (
    Result<Expression, Diagnostic>,
    &'a [Token<'a>],
))
    requires
        tokens@.len() > 0,
    ensures
        agrees(out.0, expression_rule(tokens@).result),
        out.1@ == tokens@.skip(expression_rule(tokens@).consumed as int),
{
    if tokens[0].kind == TokenType::Number {
        match parser_number_literal(tokens) {
            (Ok(literal), rest) => (Ok(Expression::NumberLiteral(literal)), rest),
            (Err(diagnostic), rest) => (Err(diagnostic), rest),
        }
    } else {
        proof {
            assert(tokens@.skip(0) =~= tokens@);
        }
        (Err(Diagnostic { kind: DiagnosticKind::Unsupported, line: tokens[0].line }), tokens)
    }
}

/// Parses a type annotation at the front of `tokens`. The language has no
/// types yet: whatever stands there is reported and left in place.
pub fn parser_type<'a>(tokens: &'a [Token<'a>]) -> (out: (
    Result<Type, Diagnostic>,
    &'a [Token<'a>],
))
    requires
        tokens@.len() > 0,
    ensures
        out.0 == type_rule(tokens@).result,
        out.1@ == tokens@.skip(type_rule(tokens@).consumed as int),
{
    proof {
        assert(tokens@.skip(0) =~= tokens@);
    }
    (Err(Diagnostic { kind: DiagnosticKind::Unsupported, line: tokens[0].line }), tokens)
}

/// Parses a variable declaration at the front of `tokens`, which start
/// with `let` or `const`.
pub fn parser_variable_declare_statement<'a>(tokens: &'a [Token<'a>]) -> (out: (
    Result<VariableDeclareStatement, Diagnostic>,
    &'a [Token<'a>],
))
    requires
        terminated(tokens@),
        tokens@[0].kind == TokenType::Let || tokens@[0].kind == TokenType::Const,
    ensures
        agrees(out.0, variable_declare_rule(tokens@).result),
        out.1@ == tokens@.skip(variable_declare_rule(tokens@).consumed as int),
{
    let (first, after_keyword) = (&tokens[0], tokens.split_at(1).1);
    let declare_kind = if first.kind == TokenType::Const {
        VariableDeclareKind::Const
    } else {
        VariableDeclareKind::Let
    };
    let (first, after_name) = (&after_keyword[0], after_keyword.split_at(1).1);
    proof {
        assert(after_name@ =~= tokens@.skip(2));
        lemma_recovered_len(tokens@, 2);
    }
    if first.kind != TokenType::Identifier {
        let diagnostic = Diagnostic { kind: DiagnosticKind::ExpectIdentifier, line: first.line };
        return (Err(diagnostic), skip_until_semicolon(after_name));
    }
    let identifier = first.lexeme;
    let mut tokens_left = after_name;
    let mut declared_type: Option<Type> = None;
    if tokens_left[0].kind == TokenType::Colon {
        let (annotation, after_type) = parser_type(tokens_left.split_at(1).1);
        proof {
            assert(tokens_left@.skip(1) =~= tokens@.skip(3));
            assert(after_type@ =~= tokens@.skip(3));
            lemma_recovered_len(tokens@, 3);
        }
        match annotation {
            Ok(found) => {
                declared_type = Some(found);
                tokens_left = after_type;
            },
            Err(diagnostic) => {
                return (Err(diagnostic), skip_until_semicolon(after_type));
            },
        }
    }
    let (first, after_equal) = (&tokens_left[0], tokens_left.split_at(1).1);
    proof {
        assert(after_equal@ =~= tokens@.skip(3));
        lemma_recovered_len(tokens@, 3);
    }
    if first.kind != TokenType::Equal {
        let diagnostic = Diagnostic {
            kind: DiagnosticKind::ExpectInitialization,
            line: first.line,
        };
        return (Err(diagnostic), skip_until_semicolon(after_equal));
    }
    let (value, after_init) = parser_expression(after_equal);
    proof {
        let used = expression_rule(after_equal@).consumed;
        assert(after_equal@[0] == tokens@[3]);
        assert(after_init@ =~= tokens@.skip((3 + used) as int));
        lemma_recovered_len(tokens@, 3 + used);
    }
    let init = match value {
        Ok(init) => init,
        Err(diagnostic) => {
            return (Err(diagnostic), skip_until_semicolon(after_init));
        },
    };
    let (first, after_statement) = (&after_init[0], after_init.split_at(1).1);
    proof {
        assert(after_statement@ =~= tokens@.skip(5));
    }
    if first.kind != TokenType::Semicolon {
        let diagnostic = Diagnostic { kind: DiagnosticKind::ExpectSemicolon, line: first.line };
        return (Err(diagnostic), after_statement);
    }
    let statement = VariableDeclareStatement {
        declare_kind,
        name: identifier.to_owned(),
        declared_type,
        init,
    };
    (Ok(statement), after_statement)
}

/// Parses one statement at the front of `tokens`.
///
/// Whatever stands there, at least one token is used up, so that parsing
/// statement after statement comes to an end.
pub fn parser_statement<'a>(tokens: &'a [Token<'a>]) -> (out: (
    Result<Statement, Diagnostic>,
    &'a [Token<'a>],
))
    requires
        terminated(tokens@),
    ensures
        agrees(out.0, statement_rule(tokens@).result),
        out.1@ == tokens@.skip(statement_rule(tokens@).consumed as int),
        out.1@.len() < tokens@.len(),
        out.1@.len() == 0 || terminated(out.1@),
{
    proof {
        lemma_statement_progress(tokens@);
    }
    let kind = tokens[0].kind;
    if kind == TokenType::Const || kind == TokenType::Let {
        match parser_variable_declare_statement(tokens) {
            (Ok(statement), rest) => (Ok(Statement::VariableDeclareStatement(statement)), rest),
            (Err(diagnostic), rest) => (Err(diagnostic), rest),
        }
    } else {
        proof {
            lemma_recovered_len(tokens@, 0);
            assert(tokens@.skip(0) =~= tokens@);
        }
        let diagnostic = Diagnostic { kind: DiagnosticKind::Unsupported, line: tokens[0].line };
        (Err(diagnostic), skip_until_semicolon(tokens))
    }
}

/// Copies `tokens` without the comments among them.
pub fn discard_comments<'a>(tokens: &[Token<'a>]) -> (kept: Vec<Token<'a>>)
    ensures
        kept@ == tokens@.filter(significant()),
        tokens@.len() == 0 || terminated(tokens@) ==> kept@.len() == 0 || terminated(kept@),
{
    let mut kept: Vec<Token<'a>> = Vec::new();
    let mut i: usize = 0;
    proof {
        reveal(Seq::filter);
        assert(tokens@.take(0) =~= Seq::empty());
    }
    while i < tokens.len()
        invariant
            i <= tokens@.len(),
            kept@ == tokens@.take(i as int).filter(significant()),
        decreases tokens@.len() - i,
    {
        let token = tokens[i];
        proof {
            reveal(Seq::filter);
            assert(tokens@.take(i + 1).drop_last() =~= tokens@.take(i as int));
        }
        if token.kind != TokenType::Comment {
            kept.push(token);
        }
        i += 1;
    }
    proof {
        assert(tokens@.take(i as int) =~= tokens@);
        lemma_significant_terminated(tokens@);
    }
    kept
}

/// Parses a whole token sequence: the statements up to the end-of-input
/// token, as a block, and the diagnostics of the statements that failed.
///
/// Comments are no part of the syntax and are taken out first. A statement
/// that fails is left out of the block, and parsing goes on after it; the
/// block is always there.
pub fn parser<'a>(tokens: &'a [Token<'a>]) -> (out: (Option<BlockStatement>, Vec<Diagnostic>))
    requires
        tokens@.len() == 0 || terminated(tokens@),
    ensures
        out.0 matches Some(block) && block@ == program_rule(tokens@).0,
        out.1@ == program_rule(tokens@).1,
{
    let kept = discard_comments(tokens);
    let mut rest: &[Token] = kept.as_slice();
    let mut statements: Vec<Statement> = Vec::new();
    let mut diagnostics: Vec<Diagnostic> = Vec::new();
    while rest.len() > 0 && rest[0].kind != TokenType::Eof
        invariant
            rest@.len() == 0 || terminated(rest@),
            kept@.len() == 0 || terminated(kept@),
            block_rule(kept@).0 == statement_views(statements@) + block_rule(rest@).0,
            block_rule(kept@).1 == diagnostics@ + block_rule(rest@).1,
        decreases rest@.len(),
    {
        let ghost parsed = statement_views(statements@);
        let ghost reported = diagnostics@;
        let ghost ahead = block_rule(rest@);
        let (result, after) = parser_statement(rest);
        match result {
            Ok(statement) => {
                statements.push(statement);
                proof {
                    assert(statement_views(statements@) =~= parsed.push(statement@));
                    assert(parsed + ahead.0 =~= parsed.push(statement@) + block_rule(after@).0);
                }
            },
            Err(diagnostic) => {
                diagnostics.push(diagnostic);
                proof {
                    assert(reported + ahead.1 =~= reported.push(diagnostic) + block_rule(
                        after@,
                    ).1);
                }
            },
        }
        rest = after;
    }
    (Some(BlockStatement { statements }), diagnostics)
}

} // verus!
