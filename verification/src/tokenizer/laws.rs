//! What holds of every token sequence.

use super::grammar::{
    blank, describe, lemma_next_span_bounds, line_at, newlines, next_span, run_end, spans_from,
    tokens_from, tokens_of, Run, Span, TokenView,
};
use super::{lemma_tokens_from_unfold, views, Token, TokenType};
use vstd::prelude::*;
use vstd::string::StringSliceAdditionalSpecFns;

verus! {

/// The blanks that a scan skips: the stretch of text before each token, the
/// end-of-input token included.
pub open spec fn gaps_from(src: Seq<u8>, from: int) -> Seq<Seq<u8>>
    decreases src.len() - from,
    when 0 <= from <= src.len()
    via gaps_from_decreases
{
    let span = next_span(src, from);
    let gap = src.subrange(from, span.start);
    if span.kind == TokenType::Eof {
        seq![gap]
    } else {
        seq![gap] + gaps_from(src, span.end)
    }
}

#[via_fn]
proof fn gaps_from_decreases(src: Seq<u8>, from: int) {
    lemma_next_span_bounds(src, from);
}

/// The text that gaps and lexemes spell when they take turns, a gap first.
pub open spec fn weave(gaps: Seq<Seq<u8>>, tokens: Seq<TokenView>) -> Seq<u8>
    decreases tokens.len(),
{
    if tokens.len() == 0 || gaps.len() == 0 {
        Seq::empty()
    } else {
        gaps[0] + tokens[0].lexeme + weave(gaps.drop_first(), tokens.drop_first())
    }
}

/// The spans from a position on are the next span, followed, unless that is
/// the end-of-input token, by the spans from its end on.
pub proof fn lemma_spans_from_unfold(src: Seq<u8>, from: int)
    requires
        0 <= from <= src.len(),
    ensures
        ({
            let span = next_span(src, from);
            &&& spans_from(src, from).len() == tokens_from(src, from).len()
            &&& spans_from(src, from)[0] == span
            &&& span.kind == TokenType::Eof ==> spans_from(src, from).len() == 1
            &&& span.kind != TokenType::Eof ==> {
                &&& from < span.end <= src.len()
                &&& spans_from(src, from).len() == 1 + spans_from(src, span.end).len()
                &&& forall|i: int|
                    0 <= i < spans_from(src, span.end).len() ==> spans_from(src, from)[i + 1]
                        == #[trigger] spans_from(src, span.end)[i]
            }
        }),
{
    lemma_next_span_bounds(src, from);
}

/// Scanning is a function of the text: two scans of the same text give the
/// same tokens, kind by kind, line by line and lexeme by lexeme.
pub proof fn lemma_scan_deterministic(text: &str, again: &str, first: Seq<Token>, second: Seq<Token>)
    requires
        text@ == again@,
        views(first) == tokens_of(text.spec_bytes()),
        views(second) == tokens_of(again.spec_bytes()),
    ensures
        first.len() == second.len(),
        forall|i: int|
            0 <= i < first.len() ==> {
                &&& first[i].kind == second[i].kind
                &&& first[i].line == second[i].line
                &&& first[i].lexeme@ == second[i].lexeme@
            },
{
    assert(views(first).len() == first.len());
    assert(views(second).len() == second.len());
    assert forall|i: int| 0 <= i < first.len() implies {
        &&& first[i].kind == second[i].kind
        &&& first[i].line == second[i].line
        &&& first[i].lexeme@ == second[i].lexeme@
    } by {
        assert(views(first)[i] == first[i]@);
        assert(views(second)[i] == second[i]@);
        vstd::utf8::encode_utf8_decode_utf8(first[i].lexeme@);
        vstd::utf8::encode_utf8_decode_utf8(second[i].lexeme@);
    }
}

/// Every token sequence ends in the end-of-input token, and has it nowhere
/// else.
pub proof fn lemma_eof_exactly_last(src: Seq<u8>, from: int)
    requires
        0 <= from <= src.len(),
    ensures
        tokens_from(src, from).len() > 0,
        tokens_from(src, from).last().kind == TokenType::Eof,
        forall|i: int|
            0 <= i < tokens_from(src, from).len() - 1 ==> tokens_from(src, from)[i].kind
                != TokenType::Eof,
    decreases src.len() - from,
{
    let span = next_span(src, from);
    lemma_spans_from_unfold(src, from);
    lemma_tokens_from_unfold(src, from);
    if span.kind != TokenType::Eof {
        lemma_eof_exactly_last(src, span.end);
    }
}

/// The tokens lie in the text in their order and do not overlap: each
/// starts at or after the end of the one before it, and ends inside the
/// text.
pub proof fn lemma_spans_ordered(src: Seq<u8>, from: int, i: int)
    requires
        0 <= from <= src.len(),
        0 <= i < spans_from(src, from).len(),
    ensures
        from <= spans_from(src, from)[i].start <= spans_from(src, from)[i].end <= src.len(),
        i > 0 ==> spans_from(src, from)[i - 1].end <= spans_from(src, from)[i].start,
    decreases i,
{
    let span = next_span(src, from);
    lemma_spans_from_unfold(src, from);
    lemma_next_span_bounds(src, from);
    if i > 0 {
        assert(spans_from(src, from)[i] == spans_from(src, span.end)[i - 1]);
        lemma_spans_ordered(src, span.end, i - 1);
        if i > 1 {
            assert(spans_from(src, from)[i - 1] == spans_from(src, span.end)[i - 2]);
        }
    }
}

/// The newlines up to a position are those up to an earlier position and
/// those of the stretch between the two.
pub proof fn lemma_newlines_split(src: Seq<u8>, from: int, to: int)
    requires
        0 <= from <= to <= src.len(),
    ensures
        newlines(src, to) == newlines(src, from) + newlines(src.subrange(from, to), to - from),
    decreases to - from,
{
    if from < to {
        lemma_newlines_split(src, from, to - 1);
        let stretch = src.subrange(from, to);
        let shorter = src.subrange(from, to - 1);
        assert(stretch[to - from - 1] == src[to - 1]);
        lemma_newlines_prefix(stretch, shorter, to - from - 1);
    }
}

/// Two texts that agree on their first bytes have the same newlines there.
proof fn lemma_newlines_prefix(a: Seq<u8>, b: Seq<u8>, upto: int)
    requires
        0 <= upto <= a.len(),
        upto <= b.len(),
        forall|i: int| 0 <= i < upto ==> a[i] == b[i],
    ensures
        newlines(a, upto) == newlines(b, upto),
    decreases upto,
{
    if upto > 0 {
        lemma_newlines_prefix(a, b, upto - 1);
    }
}

/// Each newline counts once: the line of a token is the line of the token
/// before it plus the newlines between the ends of the two, whether they lie
/// among the blanks or inside the token. The line of the first token is 1
/// plus the newlines up to its end.
pub proof fn lemma_line_tracking(src: Seq<u8>, i: int)
    requires
        0 <= i < tokens_of(src).len(),
    ensures
        ({
            let spans = spans_from(src, 0);
            let tokens = tokens_of(src);
            &&& spans.len() == tokens.len()
            &&& 0 <= spans[i].end <= src.len()
            &&& i == 0 ==> tokens[i].line == 1 + newlines(
                src.subrange(0, spans[i].end),
                spans[i].end,
            )
            &&& i > 0 ==> spans[i - 1].end <= spans[i].end && tokens[i].line == tokens[i - 1].line
                + newlines(
                src.subrange(spans[i - 1].end, spans[i].end),
                spans[i].end - spans[i - 1].end,
            )
        }),
{
    let spans = spans_from(src, 0);
    lemma_spans_from_unfold(src, 0);
    lemma_spans_ordered(src, 0, i);
    if i == 0 {
        lemma_newlines_split(src, 0, spans[i].end);
    } else {
        lemma_spans_ordered(src, 0, i - 1);
        lemma_newlines_split(src, spans[i - 1].end, spans[i].end);
    }
}

/// A run of blanks holds nothing but blanks.
pub proof fn lemma_blank_run(src: Seq<u8>, from: int, i: int)
    requires
        0 <= from <= i < run_end(src, from, Run::Blank),
    ensures
        i < src.len(),
        blank(src[i]),
    decreases i - from,
{
    if from < i {
        lemma_blank_run(src, from + 1, i);
    }
}

/// What a scan skips is nothing but blanks.
pub proof fn lemma_gaps_blank(src: Seq<u8>, from: int, i: int, j: int)
    requires
        0 <= from <= src.len(),
        0 <= i < gaps_from(src, from).len(),
        0 <= j < gaps_from(src, from)[i].len(),
    ensures
        blank(gaps_from(src, from)[i][j]),
    decreases src.len() - from,
{
    let span = next_span(src, from);
    lemma_next_span_bounds(src, from);
    if i == 0 {
        lemma_blank_run(src, from, from + j);
    } else {
        assert(gaps_from(src, from)[i] == gaps_from(src, span.end)[i - 1]);
        lemma_gaps_blank(src, span.end, i - 1, j);
    }
}

/// The lexemes of the tokens, in their order and with the blanks that were
/// skipped between them, spell the text again, as long as no token is an
/// error: an `Error` token carries a message in place of its text.
pub proof fn lemma_reconstruction(src: Seq<u8>, from: int)
    requires
        0 <= from <= src.len(),
        forall|i: int|
            0 <= i < tokens_from(src, from).len() ==> tokens_from(src, from)[i].kind
                != TokenType::Error,
    ensures
        gaps_from(src, from).len() == tokens_from(src, from).len(),
        weave(gaps_from(src, from), tokens_from(src, from)) == src.subrange(
            from,
            src.len() as int,
        ),
    decreases src.len() - from,
{
    let span = next_span(src, from);
    let gaps = gaps_from(src, from);
    let tokens = tokens_from(src, from);
    lemma_next_span_bounds(src, from);
    lemma_spans_from_unfold(src, from);
    lemma_tokens_from_unfold(src, from);
    assert(tokens[0] == describe(src, span));
    if span.kind == TokenType::Eof {
        assert(gaps.drop_first() =~= Seq::<Seq<u8>>::empty());
        assert(weave(gaps.drop_first(), tokens.drop_first()) =~= Seq::<u8>::empty());
        assert(weave(gaps, tokens) =~= src.subrange(from, src.len() as int));
    } else {
        let later = tokens_from(src, span.end);
        assert(tokens.drop_first() =~= later);
        assert(gaps.drop_first() =~= gaps_from(src, span.end));
        assert forall|i: int| 0 <= i < later.len() implies later[i].kind
            != TokenType::Error by {
            assert(later[i] == tokens[i + 1]);
        }
        lemma_reconstruction(src, span.end);
        assert(weave(gaps, tokens) =~= src.subrange(from, src.len() as int));
    }
}

} // verus!
