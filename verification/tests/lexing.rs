use jsonish::j_item::JNumber;
use jsonish::lexer::Token;
use jsonish::lexer::lex;

fn num(neg: bool, int_digits: &str, frac_digits: Option<&str>) -> JNumber {
    JNumber {
        neg,
        int_digits: int_digits.to_string(),
        frac_digits: frac_digits.map(|f| f.to_string()),
    }
}

#[test]
fn simple_object() {
    let input = r#"{"foo": 123}"#;
    let tokens = lex(input);
    let expected_tokens = vec![
        Token::LBrace,
        Token::String("foo".to_string()),
        Token::Colon,
        Token::Number(num(false, "123", None)),
        Token::RBrace,
    ];
    assert!(tokens.is_ok(), "encountered error: {}", tokens.unwrap_err());
    assert_eq!(tokens.unwrap(), expected_tokens);
}

#[test]
fn simple_arr() {
    let input = r#"[123, "foobar", true, null, false]"#;
    let tokens = lex(input);
    let expected_tokens = vec![
        Token::LSquareBracket,
        Token::Number(num(false, "123", None)),
        Token::Comma,
        Token::String("foobar".to_string()),
        Token::Comma,
        Token::True,
        Token::Comma,
        Token::Null,
        Token::Comma,
        Token::False,
        Token::RSquareBracket,
    ];
    assert!(tokens.is_ok(), "encountered error: {}", tokens.unwrap_err());
    assert_eq!(tokens.unwrap(), expected_tokens);
}

#[test]
fn decimal() {
    let input = r#"[123.45]"#;
    let tokens = lex(input);
    let expected_tokens = vec![
        Token::LSquareBracket,
        Token::Number(num(false, "123", Some("45"))),
        Token::RSquareBracket,
    ];
    assert!(tokens.is_ok(), "encountered error: {}", tokens.unwrap_err());
    assert_eq!(tokens.unwrap(), expected_tokens);
}

#[test]
fn illegal_ident() {
    let input = r#"[notarealident]"#;
    let tokens = lex(input);
    assert!(tokens.is_err());
    assert_eq!("unknown keyword 'notarealident'", tokens.unwrap_err());
}

#[test]
fn negative_decimal_single_token() {
    let tokens = lex("-12.5");
    assert_eq!(tokens.unwrap(), vec![Token::Number(num(true, "12", Some("5")))]);
}

#[test]
fn multiple_decimal_points_rejected() {
    let tokens = lex("1.2.3");
    assert_eq!(tokens.unwrap_err(), "multiple '.' found in number literal.");
}

#[test]
fn unknown_symbol_named() {
    let tokens = lex("@");
    assert_eq!(tokens.unwrap_err(), "Unknown symbol '@'");
}

#[test]
fn unterminated_string() {
    let tokens = lex("\"abc");
    assert_eq!(tokens.unwrap_err(), "unterminated string literal. reached EOF.");
}

#[test]
fn bare_minus_rejected() {
    let tokens = lex("-");
    assert_eq!(tokens.unwrap_err(), "invalid number literal '-'");
}

#[test]
fn trailing_decimal_point_accepted() {
    let tokens = lex("1.");
    assert_eq!(tokens.unwrap(), vec![Token::Number(num(false, "1", Some("")))]);
}

#[test]
fn escaped_quote_in_string() {
    let tokens = lex(r#""a\"b""#);
    assert_eq!(tokens.unwrap(), vec![Token::String("a\"b".to_string())]);
}

#[test]
fn whitespace_produces_no_tokens() {
    let tokens = lex(" \t\r\n");
    assert_eq!(tokens.unwrap(), vec![]);
}

#[test]
fn empty_input_lexes_to_nothing() {
    let tokens = lex("");
    assert_eq!(tokens.unwrap(), vec![]);
}
