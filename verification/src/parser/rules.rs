//! The grammar, stated over sequences of tokens.
//!
//! A rule looks at the tokens in front of it and says what it makes of
//! them: a node or a diagnostic, and how many tokens it uses up. The tokens
//! left are those after the ones used up; nothing else is state.

use super::{Diagnostic, DiagnosticKind, ExpressionView, StatementView, Type};
use super::{VariableDeclareKind, VariableDeclareView};
use crate::tokenizer::{Token, TokenType};
use vstd::prelude::*;

verus! {

/// A token sequence as a scan gives it: not empty, and ending in the
/// end-of-input token.
pub open spec fn terminated(tokens: Seq<Token>) -> bool {
    tokens.len() > 0 && tokens.last().kind == TokenType::Eof
}

/// Whether a token takes part in the syntax: comments do not.
pub open spec fn significant<'a>() -> spec_fn(Token<'a>) -> bool {
    |token: Token| token.kind != TokenType::Comment
}

/// What a rule makes of the tokens in front of it.
pub ghost struct Outcome<T> {
    /// The node, or why there is none.
    pub result: Result<T, Diagnostic>,
    /// How many tokens the rule used up, those dropped in recovery
    /// included.
    pub consumed: nat,
}

/// The diagnostic for a token that no rule can start with.
pub open spec fn unsupported(token: Token) -> Diagnostic {
    Diagnostic { kind: DiagnosticKind::Unsupported, line: token.line }
}

/// How many tokens recovery drops: those up to and including the next
/// semicolon; all of them if the end-of-input token comes first or no
/// semicolon is left.
pub open spec fn recovery_len(tokens: Seq<Token>) -> nat
    decreases tokens.len(),
{
    if tokens.len() == 0 {
        0
    } else if tokens[0].kind == TokenType::Semicolon {
        1
    } else if tokens[0].kind == TokenType::Eof {
        tokens.len()
    } else {
        1 + recovery_len(tokens.drop_first())
    }
}

/// A numeric literal: one `Number` token, kept as its text. Any other token
/// is left where it is.
pub open spec fn number_literal_rule(tokens: Seq<Token>) -> Outcome<Seq<char>> {
    if tokens[0].kind == TokenType::Number {
        Outcome { result: Ok(tokens[0].lexeme@), consumed: 1 }
    } else {
        Outcome { result: Err(unsupported(tokens[0])), consumed: 0 }
    }
}

/// An expression: so far a numeric literal. Any other token is left where it
/// is.
pub open spec fn expression_rule(tokens: Seq<Token>) -> Outcome<ExpressionView> {
    if tokens[0].kind == TokenType::Number {
        Outcome {
            result: Ok(ExpressionView::NumberLiteral(tokens[0].lexeme@)),
            consumed: number_literal_rule(tokens).consumed,
        }
    } else {
        Outcome { result: Err(unsupported(tokens[0])), consumed: 0 }
    }
}

/// A type annotation: the language has none yet, so the rule fails on
/// whatever it finds and leaves it where it is.
pub open spec fn type_rule(tokens: Seq<Token>) -> Outcome<Type> {
    Outcome { result: Err(unsupported(tokens[0])), consumed: 0 }
}

/// A failure after `used` tokens, followed by recovery.
pub open spec fn recovered<T>(tokens: Seq<Token>, used: nat, diagnostic: Diagnostic) -> Outcome<
    T,
> {
    Outcome { result: Err(diagnostic), consumed: used + recovery_len(tokens.skip(used as int)) }
}

/// A variable declaration: `let` or `const`, a name, `=`, an expression and
/// `;`.
///
/// A token in the place of the name or of the `=` is used up and reported,
/// and recovery follows. A type annotation or an initializer that is no
/// expression is reported by its own rule, and recovery follows from where
/// that rule stopped. A token in the place of the `;` is used up and
/// reported, and nothing more is dropped: what follows a statement that
/// lacks its terminator is most likely the next statement.
pub open spec fn variable_declare_rule(tokens: Seq<Token>) -> Outcome<VariableDeclareView> {
    let declare_kind = if tokens[0].kind == TokenType::Const {
        VariableDeclareKind::Const
    } else {
        VariableDeclareKind::Let
    };
    if tokens[1].kind != TokenType::Identifier {
        recovered(
            tokens,
            2,
            Diagnostic { kind: DiagnosticKind::ExpectIdentifier, line: tokens[1].line },
        )
    } else if tokens[2].kind == TokenType::Colon {
        let annotation = type_rule(tokens.skip(3));
        recovered(tokens, 3 + annotation.consumed, annotation.result->Err_0)
    } else if tokens[2].kind != TokenType::Equal {
        recovered(
            tokens,
            3,
            Diagnostic { kind: DiagnosticKind::ExpectInitialization, line: tokens[2].line },
        )
    } else {
        let init = expression_rule(tokens.skip(3));
        let end = 3 + init.consumed;
        match init.result {
            Err(diagnostic) => recovered(tokens, end, diagnostic),
            Ok(value) => if tokens[end as int].kind != TokenType::Semicolon {
                Outcome {
                    result: Err(
                        Diagnostic {
                            kind: DiagnosticKind::ExpectSemicolon,
                            line: tokens[end as int].line,
                        },
                    ),
                    consumed: end + 1,
                }
            } else {
                Outcome {
                    result: Ok(
                        VariableDeclareView {
                            declare_kind,
                            name: tokens[1].lexeme@,
                            declared_type: None,
                            init: value,
                        },
                    ),
                    consumed: end + 1,
                }
            },
        }
    }
}

/// A statement: so far a variable declaration. A token that starts no
/// statement is reported, and recovery follows from that token on.
pub open spec fn statement_rule(tokens: Seq<Token>) -> Outcome<StatementView> {
    if tokens[0].kind == TokenType::Let || tokens[0].kind == TokenType::Const {
        let declaration = variable_declare_rule(tokens);
        Outcome {
            result: match declaration.result {
                Ok(node) => Ok(StatementView::VariableDeclare(node)),
                Err(diagnostic) => Err(diagnostic),
            },
            consumed: declaration.consumed,
        }
    } else {
        recovered(tokens, 0, unsupported(tokens[0]))
    }
}

/// The statements of a token sequence up to its end-of-input token, and the
/// diagnostics of those that failed, both in the order of the source.
pub open spec fn block_rule(tokens: Seq<Token>) -> (Seq<StatementView>, Seq<Diagnostic>)
    decreases tokens.len(),
    when tokens.len() == 0 || terminated(tokens)
    via block_rule_decreases
{
    if tokens.len() == 0 || tokens[0].kind == TokenType::Eof {
        (Seq::empty(), Seq::empty())
    } else {
        let first = statement_rule(tokens);
        let rest = block_rule(tokens.skip(first.consumed as int));
        match first.result {
            Ok(node) => (seq![node] + rest.0, rest.1),
            Err(diagnostic) => (rest.0, seq![diagnostic] + rest.1),
        }
    }
}

#[via_fn]
proof fn block_rule_decreases(tokens: Seq<Token>) {
    if !(tokens.len() == 0 || tokens[0].kind == TokenType::Eof) {
        lemma_statement_progress(tokens);
    }
}

/// The program that a token sequence spells: its statements and its
/// diagnostics, once the comments are taken out.
pub open spec fn program_rule(tokens: Seq<Token>) -> (Seq<StatementView>, Seq<Diagnostic>) {
    block_rule(tokens.filter(significant()))
}

/// Recovery drops at least one token where there is one, and never more
/// than there are.
pub proof fn lemma_recovery_progress(tokens: Seq<Token>)
    ensures
        recovery_len(tokens) <= tokens.len(),
        tokens.len() > 0 ==> recovery_len(tokens) >= 1,
        tokens.skip(recovery_len(tokens) as int).len() < tokens.len() || tokens.len() == 0,
    decreases tokens.len(),
{
    if tokens.len() > 0 && tokens[0].kind != TokenType::Semicolon && tokens[0].kind
        != TokenType::Eof {
        lemma_recovery_progress(tokens.drop_first());
    }
}

/// Taking the comments out of a terminated sequence leaves a terminated
/// sequence, and out of an empty one an empty one.
pub proof fn lemma_significant_terminated(tokens: Seq<Token>)
    ensures
        tokens.len() == 0 ==> tokens.filter(significant()).len() == 0,
        terminated(tokens) ==> terminated(tokens.filter(significant())),
{
    reveal(Seq::filter);
}

/// Dropping tokens in two steps is dropping them in one.
pub proof fn lemma_recovered_len(tokens: Seq<Token>, used: nat)
    requires
        used <= tokens.len(),
    ensures
        used <= used + recovery_len(tokens.skip(used as int)) <= tokens.len(),
        tokens.skip(used as int).skip(recovery_len(tokens.skip(used as int)) as int)
            == tokens.skip((used + recovery_len(tokens.skip(used as int))) as int),
{
    let rest = tokens.skip(used as int);
    lemma_recovery_progress(rest);
    assert(rest.skip(recovery_len(rest) as int) =~= tokens.skip(
        (used + recovery_len(rest)) as int,
    ));
}

/// A variable declaration uses up at least two tokens and never more than
/// there are.
pub proof fn lemma_variable_declare_progress(tokens: Seq<Token>)
    requires
        terminated(tokens),
        tokens[0].kind == TokenType::Let || tokens[0].kind == TokenType::Const,
    ensures
        2 <= variable_declare_rule(tokens).consumed <= tokens.len(),
{
    lemma_recovered_len(tokens, 2);
    if tokens[1].kind == TokenType::Identifier {
        lemma_recovered_len(tokens, 3);
        if tokens[2].kind == TokenType::Equal {
            assert(tokens.skip(3)[0] == tokens[3]);
            if tokens[3].kind == TokenType::Number {
                lemma_recovered_len(tokens, 4);
            }
        }
    }
}

/// A statement uses up at least one token and never more than there are:
/// parsing statement after statement comes to an end.
pub proof fn lemma_statement_progress(tokens: Seq<Token>)
    requires
        terminated(tokens),
    ensures
        1 <= statement_rule(tokens).consumed <= tokens.len(),
        ({
            let rest = tokens.skip(statement_rule(tokens).consumed as int);
            rest.len() < tokens.len() && (rest.len() == 0 || terminated(rest))
        }),
{
    if tokens[0].kind == TokenType::Let || tokens[0].kind == TokenType::Const {
        lemma_variable_declare_progress(tokens);
    } else {
        lemma_recovered_len(tokens, 0);
        lemma_recovery_progress(tokens);
        assert(tokens.skip(0) =~= tokens);
    }
}

} // verus!
