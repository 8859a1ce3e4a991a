//! Laws of the scanner, stated over the mathematical model `spec_tokenize`
//! and proved once for every input. `tokenize`'s contract pins its result to
//! that model, so each law carries over to every run of the executable
//! scanner.

use crate::classify::is_digit_char;
use crate::classify::is_identifier_char;
use crate::scan::digit_run_end;
use crate::scan::identifier_run_end;
use crate::scan::is_number_boundary;
use crate::scan::is_symbol_char;
use crate::scan::lemma_digit_run_end;
use crate::scan::lemma_identifier_run_end;
use crate::scan::spec_tokenize;
use crate::scan::spec_tokenize_from;
use crate::scan::symbol_spec_token;
use crate::token::SpecScanError;
use crate::token::SpecToken;
use crate::token::TokenType;
use vstd::prelude::*;

verus! {

/// Whether `lex` occurs as a contiguous run of characters somewhere in `s`.
pub open spec fn is_substring_of(lex: Seq<char>, s: Seq<char>) -> bool {
    exists|lo: int|
        0 <= lo && lo + lex.len() <= s.len() && lex == #[trigger] s.subrange(lo, lo + lex.len())
}

/// A single-character token carries exactly its source character as lexeme.
pub open spec fn single_char_lexeme_ok(t: SpecToken) -> bool {
    &&& t.token_type == TokenType::Equal ==> t.lexeme == seq!['=']
    &&& t.token_type == TokenType::Star ==> t.lexeme == seq!['*']
    &&& t.token_type == TokenType::Slash ==> t.lexeme == seq!['/']
    &&& t.token_type == TokenType::Plus ==> t.lexeme == seq!['+']
    &&& t.token_type == TokenType::Minus ==> t.lexeme == seq!['-']
    &&& t.token_type == TokenType::LeftParen ==> t.lexeme == seq!['(']
    &&& t.token_type == TokenType::RightParen ==> t.lexeme == seq![')']
    &&& t.token_type == TokenType::Newline ==> t.lexeme == seq!['\n']
}

/// A number literal's lexeme is a nonempty run of decimal digits.
pub open spec fn number_lexeme_ok(t: SpecToken) -> bool {
    t.token_type == TokenType::NumberLiteral ==> {
        &&& t.lexeme.len() >= 1
        &&& forall|k: int| 0 <= k < t.lexeme.len() ==> is_digit_char(#[trigger] t.lexeme[k])
    }
}

/// An identifier's lexeme is nonempty; its first character is never a
/// decimal digit (nor a symbol or space, which the dispatch consumes
/// first); and every character after the first is an
/// identifier-continuation character.
pub open spec fn identifier_lexeme_ok(t: SpecToken) -> bool {
    t.token_type == TokenType::Identifier ==> {
        &&& t.lexeme.len() >= 1
        &&& !is_digit_char(t.lexeme[0])
        &&& !is_symbol_char(t.lexeme[0])
        &&& t.lexeme[0] != ' '
        &&& forall|k: int| 1 <= k < t.lexeme.len() ==> is_identifier_char(#[trigger] t.lexeme[k])
    }
}

/// Everything the laws below say of one token of a scan of `s`.
pub open spec fn token_wellformed(s: Seq<char>, t: SpecToken) -> bool {
    &&& is_substring_of(t.lexeme, s)
    &&& single_char_lexeme_ok(t)
    &&& number_lexeme_ok(t)
    &&& identifier_lexeme_ok(t)
}

proof fn lemma_from_wellformed(s: Seq<char>, pos: int)
    requires
        0 <= pos <= s.len(),
        spec_tokenize_from(s, pos) is Ok,
    ensures
        spec_tokenize_from(s, pos)->Ok_0.len() <= s.len() - pos,
        forall|i: int|
            0 <= i < spec_tokenize_from(s, pos)->Ok_0.len() ==> token_wellformed(
                s,
                #[trigger] spec_tokenize_from(s, pos)->Ok_0[i],
            ),
    decreases s.len() - pos,
{
    let toks = spec_tokenize_from(s, pos)->Ok_0;
    if pos >= s.len() {
        assert(toks.len() == 0);
    } else {
        let c = s[pos];
        if is_symbol_char(c) {
            let rest = spec_tokenize_from(s, pos + 1)->Ok_0;
            lemma_from_wellformed(s, pos + 1);
            let head = symbol_spec_token(c);
            assert(head.lexeme == s.subrange(pos, pos + head.lexeme.len())) by {
                assert(seq![c] =~= s.subrange(pos, pos + 1));
            }
            assert(is_substring_of(head.lexeme, s));
            assert(toks == seq![head] + rest);
            assert forall|i: int| 0 <= i < toks.len() implies token_wellformed(
                s,
                #[trigger] toks[i],
            ) by {
                if i > 0 {
                    assert(toks[i] == rest[i - 1]);
                }
            }
        } else if is_digit_char(c) {
            let j = digit_run_end(s, pos + 1);
            lemma_digit_run_end(s, pos + 1);
            assert(j == s.len() || is_number_boundary(s[j]));
            let rest = spec_tokenize_from(s, j)->Ok_0;
            lemma_from_wellformed(s, j);
            let head = SpecToken {
                token_type: TokenType::NumberLiteral,
                lexeme: s.subrange(pos, j),
            };
            assert(head.lexeme == s.subrange(pos, pos + head.lexeme.len()));
            assert(is_substring_of(head.lexeme, s));
            assert(forall|k: int|
                0 <= k < head.lexeme.len() ==> is_digit_char(#[trigger] head.lexeme[k]));
            assert(toks == seq![head] + rest);
            assert forall|i: int| 0 <= i < toks.len() implies token_wellformed(
                s,
                #[trigger] toks[i],
            ) by {
                if i > 0 {
                    assert(toks[i] == rest[i - 1]);
                }
            }
        } else if c == ' ' {
            lemma_from_wellformed(s, pos + 1);
        } else {
            let j = identifier_run_end(s, pos + 1);
            lemma_identifier_run_end(s, pos + 1);
            let rest = spec_tokenize_from(s, j)->Ok_0;
            lemma_from_wellformed(s, j);
            let head = SpecToken { token_type: TokenType::Identifier, lexeme: s.subrange(pos, j) };
            assert(head.lexeme == s.subrange(pos, pos + head.lexeme.len()));
            assert(is_substring_of(head.lexeme, s));
            assert(forall|k: int|
                1 <= k < head.lexeme.len() ==> is_identifier_char(#[trigger] head.lexeme[k]));
            assert(toks == seq![head] + rest);
            assert forall|i: int| 0 <= i < toks.len() implies token_wellformed(
                s,
                #[trigger] toks[i],
            ) by {
                if i > 0 {
                    assert(toks[i] == rest[i - 1]);
                }
            }
        }
    }
}

/// The character spans, `(start, end)` with `end` exclusive, at which a
/// successful scan of the suffix of `s` beginning at `pos` finds its
/// tokens, in emission order. (On the error path no tokens are emitted and
/// the spans are not used.)
pub open spec fn spec_spans_from(s: Seq<char>, pos: int) -> Seq<(int, int)>
    decreases s.len() - pos,
        when 0 <= pos
        via spec_spans_from_decreases
{
    if pos >= s.len() {
        Seq::empty()
    } else {
        let c = s[pos];
        if is_symbol_char(c) {
            seq![(pos, pos + 1)] + spec_spans_from(s, pos + 1)
        } else if is_digit_char(c) {
            let j = digit_run_end(s, pos + 1);
            if j == s.len() || is_number_boundary(s[j]) {
                seq![(pos, j)] + spec_spans_from(s, j)
            } else {
                Seq::empty()
            }
        } else if c == ' ' {
            spec_spans_from(s, pos + 1)
        } else {
            let j = identifier_run_end(s, pos + 1);
            seq![(pos, j)] + spec_spans_from(s, j)
        }
    }
}

#[via_fn]
proof fn spec_spans_from_decreases(s: Seq<char>, pos: int) {
    if 0 <= pos < s.len() {
        lemma_digit_run_end(s, pos + 1);
        lemma_identifier_run_end(s, pos + 1);
    }
}

/// The spans of a whole successful scan of `s`.
pub open spec fn spec_spans(s: Seq<char>) -> Seq<(int, int)> {
    spec_spans_from(s, 0)
}

/// How the tokens of a successful scan sit in the source, starting at
/// `pos`: one span per token; each span is nonempty and lies within the
/// text; each token's lexeme is exactly the text of its span; spans run
/// left to right without overlap; and every character before the first
/// span, between two spans, or after the last one is a space. Reading the
/// spans in order thus reconstructs the source up to the skipped spaces.
pub open spec fn spans_tile(
    s: Seq<char>,
    pos: int,
    toks: Seq<SpecToken>,
    spans: Seq<(int, int)>,
) -> bool {
    &&& spans.len() == toks.len()
    &&& forall|i: int| 0 <= i < spans.len() ==> pos <= (#[trigger] spans[i]).0 < spans[i].1 <= s.len()
    &&& forall|i: int|
        0 <= i < spans.len() ==> toks[i].lexeme == s.subrange((#[trigger] spans[i]).0, spans[i].1)
    &&& forall|i: int| 0 <= i && i + 1 < spans.len() ==> (#[trigger] spans[i]).1 <= spans[i + 1].0
    &&& spans.len() > 0 ==> forall|k: int| pos <= k < spans[0].0 ==> #[trigger] s[k] == ' '
    &&& forall|i: int, k: int|
        0 <= i && i + 1 < spans.len() && (#[trigger] spans[i]).1 <= k < spans[i + 1].0 ==> #[trigger] s[k] == ' '
    &&& spans.len() > 0 ==> forall|k: int|
        spans[spans.len() - 1].1 <= k < s.len() ==> #[trigger] s[k] == ' '
    &&& spans.len() == 0 ==> forall|k: int| pos <= k < s.len() ==> #[trigger] s[k] == ' '
}

proof fn lemma_from_spans(s: Seq<char>, pos: int)
    requires
        0 <= pos <= s.len(),
        spec_tokenize_from(s, pos) is Ok,
    ensures
        spans_tile(s, pos, spec_tokenize_from(s, pos)->Ok_0, spec_spans_from(s, pos)),
    decreases s.len() - pos,
{
    let toks = spec_tokenize_from(s, pos)->Ok_0;
    let spans = spec_spans_from(s, pos);
    if pos >= s.len() {
        assert(spans.len() == 0);
    } else {
        let c = s[pos];
        if c == ' ' {
            lemma_from_spans(s, pos + 1);
            assert(toks == spec_tokenize_from(s, pos + 1)->Ok_0);
            assert(spans == spec_spans_from(s, pos + 1));
            assert(spans_tile(s, pos, toks, spans)) by {
                if spans.len() > 0 {
                    assert forall|k: int| pos <= k < spans[0].0 implies #[trigger] s[k] == ' ' by {
                        if k > pos {
                            assert(pos + 1 <= k < spans[0].0);
                        }
                    }
                } else {
                    assert forall|k: int| pos <= k < s.len() implies #[trigger] s[k] == ' ' by {
                        if k > pos {
                            assert(pos + 1 <= k < s.len());
                        }
                    }
                }
            }
        } else {
            // A token is emitted at `pos`; its span ends at `e`, where the
            // rest of the scan resumes.
            let e: int = if is_symbol_char(c) {
                pos + 1
            } else if is_digit_char(c) {
                digit_run_end(s, pos + 1)
            } else {
                identifier_run_end(s, pos + 1)
            };
            if !is_symbol_char(c) && is_digit_char(c) {
                lemma_digit_run_end(s, pos + 1);
                assert(e == s.len() || is_number_boundary(s[e]));
            }
            if !is_symbol_char(c) && !is_digit_char(c) {
                lemma_identifier_run_end(s, pos + 1);
            }
            assert(pos < e <= s.len());
            let rest = spec_tokenize_from(s, e)->Ok_0;
            let rspans = spec_spans_from(s, e);
            lemma_from_spans(s, e);
            let head = toks[0];
            assert(toks == seq![head] + rest);
            assert(spans == seq![(pos, e)] + rspans);
            assert(head.lexeme == s.subrange(pos, e)) by {
                if is_symbol_char(c) {
                    assert(seq![c] =~= s.subrange(pos, pos + 1));
                }
            }
            assert forall|i: int| 0 <= i < spans.len() implies pos <= (#[trigger] spans[i]).0
                < spans[i].1 <= s.len() by {
                if i > 0 {
                    assert(spans[i] == rspans[i - 1]);
                }
            }
            assert forall|i: int| 0 <= i < spans.len() implies toks[i].lexeme == s.subrange(
                (#[trigger] spans[i]).0,
                spans[i].1,
            ) by {
                if i > 0 {
                    assert(spans[i] == rspans[i - 1]);
                    assert(toks[i] == rest[i - 1]);
                }
            }
            assert forall|i: int| 0 <= i && i + 1 < spans.len() implies (#[trigger] spans[i]).1
                <= spans[i + 1].0 by {
                if i == 0 {
                    assert(spans[1] == rspans[0]);
                } else {
                    assert(spans[i] == rspans[i - 1]);
                    assert(spans[i + 1] == rspans[i]);
                }
            }
            assert(spans.len() > 0 && spans[0].0 == pos);
            assert forall|i: int, k: int|
                0 <= i && i + 1 < spans.len() && (#[trigger] spans[i]).1 <= k < spans[i + 1].0
                implies #[trigger] s[k] == ' ' by {
                if i == 0 {
                    assert(spans[1] == rspans[0]);
                    assert(e <= k < rspans[0].0);
                } else {
                    assert(spans[i] == rspans[i - 1]);
                    assert(spans[i + 1] == rspans[i]);
                }
            }
            assert forall|k: int| spans[spans.len() - 1].1 <= k < s.len() implies #[trigger] s[k]
                == ' ' by {
                if rspans.len() == 0 {
                    assert(spans[spans.len() - 1] == (pos, e));
                    assert(e <= k < s.len());
                } else {
                    assert(spans[spans.len() - 1] == rspans[rspans.len() - 1]);
                }
            }
        }
    }
}

/// Law: tokens are emitted in source order. Each token of a successful
/// scan owns a nonempty span of the source whose text is exactly its
/// lexeme; the spans run left to right without overlap; and every source
/// character outside all spans is a skipped space — so the spans, read in
/// order, reconstruct the source up to those spaces.
pub proof fn lemma_tokens_in_source_order(s: Seq<char>, toks: Seq<SpecToken>)
    requires
        spec_tokenize(s) == Ok::<Seq<SpecToken>, SpecScanError>(toks),
    ensures
        spans_tile(s, 0, toks, spec_spans(s)),
{
    lemma_from_spans(s, 0);
}

/// Law: a successful scan emits at most one token per source character, so
/// the output token count is finite and bounded by the input length.
pub proof fn lemma_token_count_bounded(s: Seq<char>, toks: Seq<SpecToken>)
    requires
        spec_tokenize(s) == Ok::<Seq<SpecToken>, SpecScanError>(toks),
    ensures
        toks.len() <= s.len(),
{
    lemma_from_wellformed(s, 0);
}

/// Law: scanning is deterministic. The outcome — the token sequence, or the
/// fatal error — is a function of the source text alone, so tokenizing the
/// same text twice yields structurally identical results. (`tokenize`'s
/// contract pins its result to `spec_tokenize` of its input.)
pub proof fn lemma_tokenize_deterministic(
    s: Seq<char>,
    r1: Result<Seq<SpecToken>, SpecScanError>,
    r2: Result<Seq<SpecToken>, SpecScanError>,
)
    requires
        r1 == spec_tokenize(s),
        r2 == spec_tokenize(s),
    ensures
        r1 == r2,
{
}

/// Law: every emitted lexeme is a verbatim contiguous substring of the
/// input — no transformation, case change, or trimming.
pub proof fn lemma_lexemes_are_substrings(s: Seq<char>, toks: Seq<SpecToken>)
    requires
        spec_tokenize(s) == Ok::<Seq<SpecToken>, SpecScanError>(toks),
    ensures
        forall|i: int| 0 <= i < toks.len() ==> is_substring_of(#[trigger] toks[i].lexeme, s),
{
    lemma_from_wellformed(s, 0);
    assert forall|i: int| 0 <= i < toks.len() implies is_substring_of(
        #[trigger] toks[i].lexeme,
        s,
    ) by {
        assert(token_wellformed(s, toks[i]));
    }
}

/// Law: a single-character token's lexeme has length one and is exactly the
/// source character that produced it.
pub proof fn lemma_single_char_tokens(s: Seq<char>, toks: Seq<SpecToken>)
    requires
        spec_tokenize(s) == Ok::<Seq<SpecToken>, SpecScanError>(toks),
    ensures
        forall|i: int| 0 <= i < toks.len() ==> single_char_lexeme_ok(#[trigger] toks[i]),
{
    lemma_from_wellformed(s, 0);
    assert forall|i: int| 0 <= i < toks.len() implies single_char_lexeme_ok(
        #[trigger] toks[i],
    ) by {
        assert(token_wellformed(s, toks[i]));
    }
}

/// Law: a number literal's lexeme is a nonempty run of decimal digits, and
/// an identifier's lexeme is nonempty, never starts with a digit, and
/// continues only with identifier-continuation characters.
pub proof fn lemma_literal_lexemes_wellformed(s: Seq<char>, toks: Seq<SpecToken>)
    requires
        spec_tokenize(s) == Ok::<Seq<SpecToken>, SpecScanError>(toks),
    ensures
        forall|i: int| 0 <= i < toks.len() ==> number_lexeme_ok(#[trigger] toks[i]),
        forall|i: int| 0 <= i < toks.len() ==> identifier_lexeme_ok(#[trigger] toks[i]),
{
    lemma_from_wellformed(s, 0);
    assert forall|i: int| 0 <= i < toks.len() implies number_lexeme_ok(#[trigger] toks[i])
        && identifier_lexeme_ok(toks[i]) by {
        assert(token_wellformed(s, toks[i]));
    }
}

} // verus!

