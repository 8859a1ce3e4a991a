//! The scanner. `spec_tokenize` is the mathematical model: a recursive
//! definition of the token sequence (or the fatal error) that a source text
//! denotes. `tokenize` is the executable scanner, proved to return exactly
//! what the model says.

use crate::classify::is_digit;
use crate::classify::is_digit_char;
use crate::classify::is_identifier_char;
use crate::classify::is_valid_identifier_char;
use crate::token::ScanError;
use crate::token::SpecScanError;
use crate::token::SpecToken;
use crate::token::Token;
use crate::token::TokenType;
use vstd::prelude::*;
use vstd::string::StrSliceExecFns;

verus! {

/// Whether `c` is one of the language's single-character symbols.
pub open spec fn is_symbol_char(c: char) -> bool {
    c == '=' || c == '*' || c == '/' || c == '+' || c == '-' || c == '(' || c == ')' || c == '\n'
}

/// The token kind of a single-character symbol.
pub open spec fn symbol_token_type(c: char) -> TokenType
    recommends
        is_symbol_char(c),
{
    if c == '=' {
        TokenType::Equal
    } else if c == '*' {
        TokenType::Star
    } else if c == '/' {
        TokenType::Slash
    } else if c == '+' {
        TokenType::Plus
    } else if c == '-' {
        TokenType::Minus
    } else if c == '(' {
        TokenType::LeftParen
    } else if c == ')' {
        TokenType::RightParen
    } else {
        TokenType::Newline
    }
}

/// The token a single-character symbol produces: its kind, with the symbol
/// itself as the lexeme.
pub open spec fn symbol_spec_token(c: char) -> SpecToken {
    SpecToken { token_type: symbol_token_type(c), lexeme: seq![c] }
}

/// Whether `c` cleanly terminates a number literal: space, `)` or newline.
/// Any other non-digit after a digit run is a fatal error.
pub open spec fn is_number_boundary(c: char) -> bool {
    c == ' ' || c == ')' || c == '\n'
}

/// The first position at or after `i` that does not hold a decimal digit
/// (or the end of the text).
pub open spec fn digit_run_end(s: Seq<char>, i: int) -> int
    recommends
        0 <= i <= s.len(),
    decreases s.len() - i,
{
    if i < 0 || i >= s.len() {
        i
    } else if is_digit_char(s[i]) {
        digit_run_end(s, i + 1)
    } else {
        i
    }
}

/// The first position at or after `i` that does not hold an
/// identifier-continuation character (or the end of the text).
pub open spec fn identifier_run_end(s: Seq<char>, i: int) -> int
    recommends
        0 <= i <= s.len(),
    decreases s.len() - i,
{
    if i < 0 || i >= s.len() {
        i
    } else if is_identifier_char(s[i]) {
        identifier_run_end(s, i + 1)
    } else {
        i
    }
}

/// A digit run reaches no further than the end of the text, covers only
/// digits, and stops at the first non-digit.
pub proof fn lemma_digit_run_end(s: Seq<char>, i: int)
    requires
        0 <= i <= s.len(),
    ensures
        i <= digit_run_end(s, i) <= s.len(),
        forall|k: int| i <= k < digit_run_end(s, i) ==> is_digit_char(#[trigger] s[k]),
        digit_run_end(s, i) < s.len() ==> !is_digit_char(s[digit_run_end(s, i)]),
    decreases s.len() - i,
{
    if i < s.len() && is_digit_char(s[i]) {
        lemma_digit_run_end(s, i + 1);
    }
}

/// An identifier run reaches no further than the end of the text, covers
/// only identifier-continuation characters, and stops at the first character
/// that is not one.
pub proof fn lemma_identifier_run_end(s: Seq<char>, i: int)
    requires
        0 <= i <= s.len(),
    ensures
        i <= identifier_run_end(s, i) <= s.len(),
        forall|k: int| i <= k < identifier_run_end(s, i) ==> is_identifier_char(#[trigger] s[k]),
        identifier_run_end(s, i) < s.len() ==> !is_identifier_char(s[identifier_run_end(s, i)]),
    decreases s.len() - i,
{
    if i < s.len() && is_identifier_char(s[i]) {
        lemma_identifier_run_end(s, i + 1);
    }
}

/// The token sequence (or fatal error) that the suffix of `s` starting at
/// character position `pos` denotes. At each position the scanner
/// dispatches on the current character: a single-character symbol emits its
/// token; a digit begins a maximal digit run, which must end at a number
/// boundary or the end of text, else the scan fails at the offending
/// character; a space is skipped; anything else begins an identifier run.
pub open spec fn spec_tokenize_from(s: Seq<char>, pos: int) -> Result<
    Seq<SpecToken>,
    SpecScanError,
>
    decreases s.len() - pos,
        when 0 <= pos
        via spec_tokenize_from_decreases
{
    if pos >= s.len() {
        Ok(Seq::empty())
    } else {
        let c = s[pos];
        if is_symbol_char(c) {
            match spec_tokenize_from(s, pos + 1) {
                Ok(rest) => Ok(seq![symbol_spec_token(c)] + rest),
                Err(e) => Err(e),
            }
        } else if is_digit_char(c) {
            let j = digit_run_end(s, pos + 1);
            if j == s.len() || is_number_boundary(s[j]) {
                match spec_tokenize_from(s, j) {
                    Ok(rest) => Ok(
                        seq![
                            SpecToken {
                                token_type: TokenType::NumberLiteral,
                                lexeme: s.subrange(pos, j),
                            },
                        ] + rest,
                    ),
                    Err(e) => Err(e),
                }
            } else {
                Err(SpecScanError { ch: s[j], position: j })
            }
        } else if c == ' ' {
            spec_tokenize_from(s, pos + 1)
        } else {
            let j = identifier_run_end(s, pos + 1);
            match spec_tokenize_from(s, j) {
                Ok(rest) => Ok(
                    seq![
                        SpecToken { token_type: TokenType::Identifier, lexeme: s.subrange(pos, j) },
                    ] + rest,
                ),
                Err(e) => Err(e),
            }
        }
    }
}

#[via_fn]
proof fn spec_tokenize_from_decreases(s: Seq<char>, pos: int) {
    if 0 <= pos < s.len() {
        lemma_digit_run_end(s, pos + 1);
        lemma_identifier_run_end(s, pos + 1);
    }
}

/// The token sequence (or fatal error) that the whole of `s` denotes.
pub open spec fn spec_tokenize(s: Seq<char>) -> Result<Seq<SpecToken>, SpecScanError> {
    spec_tokenize_from(s, 0)
}

/// The scan's governing invariant: the tokens emitted so far (`done`),
/// followed by whatever the suffix at `pos` denotes, make up what the whole
/// text denotes; and if the suffix fails, the whole text fails the same way.
spec fn scan_state(s: Seq<char>, done: Seq<SpecToken>, pos: int) -> bool {
    match spec_tokenize_from(s, pos) {
        Ok(rest) => spec_tokenize(s) == Ok::<Seq<SpecToken>, SpecScanError>(done + rest),
        Err(e) => spec_tokenize(s) == Err::<Seq<SpecToken>, SpecScanError>(e),
    }
}

proof fn lemma_step_symbol(s: Seq<char>, done: Seq<SpecToken>, pos: int)
    requires
        scan_state(s, done, pos),
        0 <= pos < s.len(),
        is_symbol_char(s[pos]),
    ensures
        scan_state(s, done + seq![symbol_spec_token(s[pos])], pos + 1),
{
    let c = s[pos];
    match spec_tokenize_from(s, pos + 1) {
        Ok(rest) => {
            assert(spec_tokenize_from(s, pos) == Ok::<Seq<SpecToken>, SpecScanError>(
                seq![symbol_spec_token(c)] + rest,
            ));
            assert(done + (seq![symbol_spec_token(c)] + rest) =~= (done + seq![
                symbol_spec_token(c),
            ]) + rest);
        },
        Err(_) => {},
    }
}

proof fn lemma_step_space(s: Seq<char>, done: Seq<SpecToken>, pos: int)
    requires
        scan_state(s, done, pos),
        0 <= pos < s.len(),
        s[pos] == ' ',
    ensures
        scan_state(s, done, pos + 1),
{
}

proof fn lemma_step_number(s: Seq<char>, done: Seq<SpecToken>, pos: int, j: int)
    requires
        scan_state(s, done, pos),
        0 <= pos < s.len(),
        !is_symbol_char(s[pos]),
        is_digit_char(s[pos]),
        j == digit_run_end(s, pos + 1),
        j == s.len() || is_number_boundary(s[j]),
    ensures
        pos < j <= s.len(),
        scan_state(
            s,
            done + seq![
                SpecToken { token_type: TokenType::NumberLiteral, lexeme: s.subrange(pos, j) },
            ],
            j,
        ),
{
    lemma_digit_run_end(s, pos + 1);
    let head = SpecToken { token_type: TokenType::NumberLiteral, lexeme: s.subrange(pos, j) };
    match spec_tokenize_from(s, j) {
        Ok(rest) => {
            assert(spec_tokenize_from(s, pos) == Ok::<Seq<SpecToken>, SpecScanError>(
                seq![head] + rest,
            ));
            assert(done + (seq![head] + rest) =~= (done + seq![head]) + rest);
        },
        Err(_) => {},
    }
}

proof fn lemma_number_error(s: Seq<char>, done: Seq<SpecToken>, pos: int, j: int)
    requires
        scan_state(s, done, pos),
        0 <= pos < s.len(),
        !is_symbol_char(s[pos]),
        is_digit_char(s[pos]),
        j == digit_run_end(s, pos + 1),
        j < s.len(),
        !is_number_boundary(s[j]),
    ensures
        spec_tokenize(s) == Err::<Seq<SpecToken>, SpecScanError>(
            SpecScanError { ch: s[j], position: j },
        ),
{
}

proof fn lemma_step_identifier(s: Seq<char>, done: Seq<SpecToken>, pos: int, j: int)
    requires
        scan_state(s, done, pos),
        0 <= pos < s.len(),
        !is_symbol_char(s[pos]),
        !is_digit_char(s[pos]),
        s[pos] != ' ',
        j == identifier_run_end(s, pos + 1),
    ensures
        pos < j <= s.len(),
        scan_state(
            s,
            done + seq![
                SpecToken { token_type: TokenType::Identifier, lexeme: s.subrange(pos, j) },
            ],
            j,
        ),
{
    lemma_identifier_run_end(s, pos + 1);
    let head = SpecToken { token_type: TokenType::Identifier, lexeme: s.subrange(pos, j) };
    match spec_tokenize_from(s, j) {
        Ok(rest) => {
            assert(spec_tokenize_from(s, pos) == Ok::<Seq<SpecToken>, SpecScanError>(
                seq![head] + rest,
            ));
            assert(done + (seq![head] + rest) =~= (done + seq![head]) + rest);
        },
        Err(_) => {},
    }
}

/// Checks whether `c` is a single-character symbol of the language.
fn is_symbol(c: char) -> (r: bool)
    ensures
        r == is_symbol_char(c),
{
    c == '=' || c == '*' || c == '/' || c == '+' || c == '-' || c == '(' || c == ')' || c == '\n'
}

/// The token kind of a single-character symbol.
fn symbol_type(c: char) -> (t: TokenType)
    requires
        is_symbol_char(c),
    ensures
        t == symbol_token_type(c),
{
    if c == '=' {
        TokenType::Equal
    } else if c == '*' {
        TokenType::Star
    } else if c == '/' {
        TokenType::Slash
    } else if c == '+' {
        TokenType::Plus
    } else if c == '-' {
        TokenType::Minus
    } else if c == '(' {
        TokenType::LeftParen
    } else if c == ')' {
        TokenType::RightParen
    } else {
        TokenType::Newline
    }
}

/// Checks whether `c` cleanly terminates a number literal.
fn is_boundary(c: char) -> (r: bool)
    ensures
        r == is_number_boundary(c),
{
    c == ' ' || c == ')' || c == '\n'
}

/// Collects the characters of `s` into a vector, so the scan can address the
/// source by character position in constant time.
fn chars_of(s: &str) -> (v: Vec<char>)
    ensures
        v@ == s@,
{
    let mut v: Vec<char> = Vec::new();
    for c in it: s.chars()
        invariant
            it.seq() == s@,
            v@ =~= it.seq().take(it.index()),
    {
        v.push(c);
    }
    proof {
        assert(v@ =~= s@);
    }
    v
}

/// A fresh `String` holding the characters of `source` from position `from`
/// (inclusive) to `to` (exclusive).
fn lexeme_of(source: &str, from: usize, to: usize) -> (lex: String)
    requires
        from <= to <= source@.len(),
    ensures
        lex@ == source@.subrange(from as int, to as int),
{
    source.substring_char(from, to).to_owned()
}

/// Converts source text into the sequence of tokens it denotes, in source
/// order, or reports the single fatal lexical error: a character inside a
/// number literal that is neither a digit nor one of the literal's
/// terminators. The result is exactly what `spec_tokenize` says the text
/// denotes, for every input.
pub fn tokenize(source_code: &str) -> (r: Result<Vec<Token>, ScanError>)
    ensures
        r matches Ok(tokens) ==> spec_tokenize(source_code@) == Ok::<
            Seq<SpecToken>,
            SpecScanError,
        >(tokens.deep_view()),
        r matches Err(e) ==> spec_tokenize(source_code@) == Err::<Seq<SpecToken>, SpecScanError>(
            e@,
        ),
{
    let ghost s = source_code@;
    let chars = chars_of(source_code);
    let n = chars.len();
    let mut result: Vec<Token> = Vec::new();
    let mut position: usize = 0;

    proof {
        match spec_tokenize_from(s, 0) {
            Ok(rest) => {
                assert(result.deep_view() + rest =~= rest);
            },
            Err(_) => {},
        }
        assert(scan_state(s, result.deep_view(), 0));
    }

    while position < n
        invariant
            chars@ == s,
            n == s.len(),
            s == source_code@,
            position <= n,
            scan_state(s, result.deep_view(), position as int),
        decreases n - position,
    {
        let c = chars[position];
        let ghost done = result.deep_view();
        if is_symbol(c) {
            let token_type = symbol_type(c);
            let lexeme = lexeme_of(source_code, position, position + 1);
            let tok = Token { token_type, lexeme };
            proof {
                assert(tok@.lexeme =~= seq![c]);
                lemma_step_symbol(s, done, position as int);
            }
            result.push(tok);
            proof {
                assert(result.deep_view() =~= done + seq![symbol_spec_token(c)]);
            }
            position = position + 1;
        } else if is_digit(c) {
            let start = position;
            position = position + 1;
            while position < n && !is_boundary(chars[position])
                invariant
                    chars@ == s,
                    n == s.len(),
                    s == source_code@,
                    start < position <= n,
                    is_digit_char(s[start as int]),
                    !is_symbol_char(s[start as int]),
                    digit_run_end(s, start as int + 1) == digit_run_end(s, position as int),
                    scan_state(s, done, start as int),
                    done == result.deep_view(),
                decreases n - position,
            {
                let next = chars[position];
                if is_digit(next) {
                    proof {
                        assert(digit_run_end(s, position as int) == digit_run_end(
                            s,
                            position as int + 1,
                        ));
                    }
                    position = position + 1;
                } else {
                    proof {
                        assert(digit_run_end(s, position as int) == position as int);
                        lemma_number_error(s, done, start as int, position as int);
                    }
                    return Err(ScanError { ch: next, position });
                }
            }
            proof {
                assert(digit_run_end(s, position as int) == position as int);
                lemma_step_number(s, done, start as int, position as int);
            }
            let lexeme = lexeme_of(source_code, start, position);
            let tok = Token { token_type: TokenType::NumberLiteral, lexeme };
            result.push(tok);
            proof {
                assert(result.deep_view() =~= done + seq![
                    SpecToken {
                        token_type: TokenType::NumberLiteral,
                        lexeme: s.subrange(start as int, position as int),
                    },
                ]);
            }
        } else if c == ' ' {
            proof {
                lemma_step_space(s, done, position as int);
            }
            position = position + 1;
        } else {
            let start = position;
            position = position + 1;
            while position < n && is_valid_identifier_char(chars[position])
                invariant
                    chars@ == s,
                    n == s.len(),
                    s == source_code@,
                    start < position <= n,
                    !is_symbol_char(s[start as int]),
                    !is_digit_char(s[start as int]),
                    s[start as int] != ' ',
                    identifier_run_end(s, start as int + 1) == identifier_run_end(
                        s,
                        position as int,
                    ),
                    scan_state(s, done, start as int),
                    done == result.deep_view(),
                decreases n - position,
            {
                proof {
                    assert(identifier_run_end(s, position as int) == identifier_run_end(
                        s,
                        position as int + 1,
                    ));
                }
                position = position + 1;
            }
            proof {
                assert(identifier_run_end(s, position as int) == position as int);
                lemma_step_identifier(s, done, start as int, position as int);
            }
            let lexeme = lexeme_of(source_code, start, position);
            let tok = Token { token_type: TokenType::Identifier, lexeme };
            result.push(tok);
            proof {
                assert(result.deep_view() =~= done + seq![
                    SpecToken {
                        token_type: TokenType::Identifier,
                        lexeme: s.subrange(start as int, position as int),
                    },
                ]);
            }
        }
    }
    proof {
        assert(spec_tokenize_from(s, position as int) == Ok::<Seq<SpecToken>, SpecScanError>(
            Seq::<SpecToken>::empty(),
        ));
        assert(result.deep_view() + Seq::<SpecToken>::empty() =~= result.deep_view());
    }
    Ok(result)
}

} // verus!
