use tokenizer::tokenize;
use tokenizer::ScanError;
use tokenizer::Token;
use tokenizer::TokenType;

fn tok(token_type: TokenType, lexeme: &str) -> Token {
    Token { token_type, lexeme: lexeme.to_string() }
}

#[test]
fn assignment_of_number() {
    let tokens = tokenize("a = 7").unwrap();
    assert_eq!(
        tokens,
        vec![
            tok(TokenType::Identifier, "a"),
            tok(TokenType::Equal, "="),
            tok(TokenType::NumberLiteral, "7"),
        ]
    );
}

#[test]
fn product_with_newline() {
    let tokens = tokenize("c = a * b\n").unwrap();
    assert_eq!(
        tokens,
        vec![
            tok(TokenType::Identifier, "c"),
            tok(TokenType::Equal, "="),
            tok(TokenType::Identifier, "a"),
            tok(TokenType::Star, "*"),
            tok(TokenType::Identifier, "b"),
            tok(TokenType::Newline, "\n"),
        ]
    );
}

#[test]
fn call_with_parentheses() {
    let tokens = tokenize("print(c)").unwrap();
    assert_eq!(
        tokens,
        vec![
            tok(TokenType::Identifier, "print"),
            tok(TokenType::LeftParen, "("),
            tok(TokenType::Identifier, "c"),
            tok(TokenType::RightParen, ")"),
        ]
    );
}

#[test]
fn bare_number() {
    let tokens = tokenize("12").unwrap();
    assert_eq!(tokens, vec![tok(TokenType::NumberLiteral, "12")]);
}

#[test]
fn operators_end_identifiers_without_spaces() {
    let tokens = tokenize("(a+b)").unwrap();
    assert_eq!(
        tokens,
        vec![
            tok(TokenType::LeftParen, "("),
            tok(TokenType::Identifier, "a"),
            tok(TokenType::Plus, "+"),
            tok(TokenType::Identifier, "b"),
            tok(TokenType::RightParen, ")"),
        ]
    );
}

#[test]
fn letter_after_number_is_fatal() {
    let err = tokenize("12a").unwrap_err();
    assert_eq!(err, ScanError { ch: 'a', position: 2 });
}

#[test]
fn operator_after_number_is_fatal() {
    let err = tokenize("12+3").unwrap_err();
    assert_eq!(err, ScanError { ch: '+', position: 2 });
}

#[test]
fn all_single_char_symbols() {
    let tokens = tokenize("=*/+-()\n").unwrap();
    assert_eq!(
        tokens,
        vec![
            tok(TokenType::Equal, "="),
            tok(TokenType::Star, "*"),
            tok(TokenType::Slash, "/"),
            tok(TokenType::Plus, "+"),
            tok(TokenType::Minus, "-"),
            tok(TokenType::LeftParen, "("),
            tok(TokenType::RightParen, ")"),
            tok(TokenType::Newline, "\n"),
        ]
    );
}

#[test]
fn empty_input_yields_no_tokens() {
    let tokens = tokenize("").unwrap();
    assert_eq!(tokens, vec![]);
}

#[test]
fn spaces_only_yield_no_tokens() {
    let tokens = tokenize("   ").unwrap();
    assert_eq!(tokens, vec![]);
}

#[test]
fn number_terminated_by_space_paren_and_newline() {
    let tokens = tokenize("(12)").unwrap();
    assert_eq!(
        tokens,
        vec![
            tok(TokenType::LeftParen, "("),
            tok(TokenType::NumberLiteral, "12"),
            tok(TokenType::RightParen, ")"),
        ]
    );
    let tokens = tokenize("7 8\n9").unwrap();
    assert_eq!(
        tokens,
        vec![
            tok(TokenType::NumberLiteral, "7"),
            tok(TokenType::NumberLiteral, "8"),
            tok(TokenType::Newline, "\n"),
            tok(TokenType::NumberLiteral, "9"),
        ]
    );
}

#[test]
fn underscores_and_digits_continue_identifiers() {
    let tokens = tokenize("a_b = c1").unwrap();
    assert_eq!(
        tokens,
        vec![
            tok(TokenType::Identifier, "a_b"),
            tok(TokenType::Equal, "="),
            tok(TokenType::Identifier, "c1"),
        ]
    );
}

#[test]
fn non_alphanumeric_ends_identifier_and_starts_another() {
    // '!' is not an identifier-continuation character, so it ends "a";
    // the scanner then starts a new identifier at '!', which continues
    // through 'b'.
    let tokens = tokenize("a!b").unwrap();
    assert_eq!(
        tokens,
        vec![tok(TokenType::Identifier, "a"), tok(TokenType::Identifier, "!b")]
    );
}

#[test]
fn unicode_letters_form_identifiers() {
    let tokens = tokenize("αβ = 7").unwrap();
    assert_eq!(
        tokens,
        vec![
            tok(TokenType::Identifier, "αβ"),
            tok(TokenType::Equal, "="),
            tok(TokenType::NumberLiteral, "7"),
        ]
    );
}

#[test]
fn error_position_counts_characters_not_bytes() {
    // 'μ' is two bytes in UTF-8 but one character; the offending 'x' is at
    // character position 4.
    let err = tokenize("μ 12x").unwrap_err();
    assert_eq!(err, ScanError { ch: 'x', position: 4 });
}

#[test]
fn non_ascii_digits_start_identifiers_not_numbers() {
    // The number scan uses a strict ASCII decimal-digit test; an
    // Arabic-Indic digit is alphanumeric, so it forms an identifier.
    let tokens = tokenize("٣").unwrap();
    assert_eq!(tokens, vec![tok(TokenType::Identifier, "٣")]);
}

#[test]
fn tokenizing_twice_is_identical() {
    let src = "a = 1 * (b + 23)\nprint(a)";
    let first = tokenize(src).unwrap();
    let second = tokenize(src).unwrap();
    assert_eq!(first, second);
}

#[test]
fn lexemes_are_verbatim_substrings() {
    let src = "value_1 = 9 * (other + 41)\n";
    let tokens = tokenize(src).unwrap();
    assert!(tokens.len() <= src.chars().count());
    for t in &tokens {
        assert!(src.contains(&t.lexeme));
        match t.token_type {
            TokenType::NumberLiteral => {
                assert!(!t.lexeme.is_empty());
                assert!(t.lexeme.chars().all(|c| c.is_ascii_digit()));
            }
            TokenType::Identifier => {
                assert!(!t.lexeme.is_empty());
                assert!(!t.lexeme.chars().next().unwrap().is_ascii_digit());
            }
            _ => {
                assert_eq!(t.lexeme.chars().count(), 1);
            }
        }
    }
}
