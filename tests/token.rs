use calculator::token::Error;
use calculator::token::Token;

#[test]
fn tokenize_number() {
    assert_eq!(Token::tokenize("  1234   ").unwrap(), vec![Token::Number(1234)]);
}

#[test]
fn tokenize_minus() {
    assert_eq!(Token::tokenize("  -   ").unwrap(), vec![Token::Minus]);
}

#[test]
fn tokenize_plus() {
    assert_eq!(Token::tokenize(" +   ").unwrap(), vec![Token::Plus]);
}

#[test]
fn tokenize_asterisk() {
    assert_eq!(Token::tokenize(" *   ").unwrap(), vec![Token::Asterisk]);
}

#[test]
fn tokenize_slash() {
    assert_eq!(Token::tokenize("     /").unwrap(), vec![Token::Slash]);
}

#[test]
fn tokenize_expr() {
    assert_eq!(
        Token::tokenize("   283 * 11 + 5 - 4 / 2 ").unwrap(),
        vec![
            Token::Number(283),
            Token::Asterisk,
            Token::Number(11),
            Token::Plus,
            Token::Number(5),
            Token::Minus,
            Token::Number(4),
            Token::Slash,
            Token::Number(2),
        ]
    );
}

#[test]
fn tokenize_expr_single_leading_space() {
    assert_eq!(
        Token::tokenize(" 283 * 11 + 5 - 4 / 2 ").unwrap(),
        vec![
            Token::Number(283),
            Token::Asterisk,
            Token::Number(11),
            Token::Plus,
            Token::Number(5),
            Token::Minus,
            Token::Number(4),
            Token::Slash,
            Token::Number(2),
        ]
    );
}

#[test]
fn tokenize_decimal_values() {
    for n in [0, 7, 10, 42, 1000, 65535, 2147483647] {
        let text = format!("{}", n);
        assert_eq!(Token::tokenize(&text).unwrap(), vec![Token::Number(n)]);
    }
}

#[test]
fn tokenize_blank_and_empty() {
    assert_eq!(Token::tokenize("").unwrap(), vec![]);
    assert_eq!(Token::tokenize("   ").unwrap(), vec![]);
    assert_eq!(Token::tokenize(" \t\n\r ").unwrap(), vec![]);
    assert_eq!(Token::tokenize("\u{3000}\u{a0}\u{2009}").unwrap(), vec![]);
}

#[test]
fn tokenize_unspaced() {
    assert_eq!(
        Token::tokenize("12+3*45").unwrap(),
        vec![
            Token::Number(12),
            Token::Plus,
            Token::Number(3),
            Token::Asterisk,
            Token::Number(45),
        ]
    );
}

#[test]
fn tokenize_skips_unknown_characters() {
    assert_eq!(
        Token::tokenize("1 x+ (2)").unwrap(),
        vec![Token::Number(1), Token::Plus, Token::Number(2)]
    );
}

#[test]
fn tokenize_leading_zeros() {
    assert_eq!(Token::tokenize("007").unwrap(), vec![Token::Number(7)]);
}

#[test]
fn tokenize_overflow_is_an_error() {
    assert_eq!(
        Token::tokenize("2147483648").unwrap_err(),
        Error::UnexpectedChar(10, '2')
    );
}

#[test]
fn tokenize_overflow_position_counts_whitespace() {
    assert_eq!(
        Token::tokenize("1 + 99999999999").unwrap_err(),
        Error::UnexpectedChar(15, '9')
    );
    assert_eq!(
        Token::tokenize("\u{3000}99999999999").unwrap_err(),
        Error::UnexpectedChar(12, '9')
    );
}

#[test]
fn tokenize_overflow_position_skips_unknown() {
    assert_eq!(
        Token::tokenize("x99999999999").unwrap_err(),
        Error::UnexpectedChar(11, '9')
    );
}

#[test]
fn token_number_accessor() {
    assert_eq!(Token::Number(-5).number(), Some(-5));
    assert_eq!(Token::Plus.number(), None);
    assert_eq!(Token::Slash.number(), None);
}
