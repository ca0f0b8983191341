use jsonish::j_item::JItem;
use jsonish::j_item::JNumber;
use jsonish::j_item::render;
use jsonish::lexer::Token;
use jsonish::parse;
use jsonish::parser;

fn num(neg: bool, int_digits: &str, frac_digits: Option<&str>) -> JNumber {
    JNumber {
        neg,
        int_digits: int_digits.to_string(),
        frac_digits: frac_digits.map(|f| f.to_string()),
    }
}

fn assert_successful_parse(input: Vec<Token>, output: JItem) {
    let result = parser::parse(input);
    let Ok(output_tokens) = result else {
        panic!("parse returned Err: {}", result.unwrap_err());
    };
    assert_eq!(output, output_tokens);
}

#[test]
fn parse_single_true() {
    assert_successful_parse(vec![Token::True], JItem::True);
}

#[test]
fn parse_single_false() {
    assert_successful_parse(vec![Token::False], JItem::False);
}

#[test]
fn parse_single_null() {
    assert_successful_parse(vec![Token::Null], JItem::Null);
}

#[test]
fn parse_array_empty() {
    assert_successful_parse(
        vec![Token::LSquareBracket, Token::RSquareBracket],
        JItem::Array(vec![]),
    );
}

#[test]
fn parse_array_single() {
    assert_successful_parse(
        vec![Token::LSquareBracket, Token::True, Token::RSquareBracket],
        JItem::Array(vec![JItem::True]),
    );
}

#[test]
fn parse_array_multi() {
    assert_successful_parse(
        vec![
            Token::LSquareBracket,
            Token::True,
            Token::Comma,
            Token::Number(num(false, "5", None)),
            Token::Comma,
            Token::String("foo".to_string()),
            Token::RSquareBracket,
        ],
        JItem::Array(vec![
            JItem::True,
            JItem::Number(num(false, "5", None)),
            JItem::String("foo".to_string()),
        ]),
    );
}

#[test]
fn parse_array_nested() {
    assert_successful_parse(
        vec![
            Token::LSquareBracket,
            Token::True,
            Token::Comma,
            Token::LSquareBracket,
            Token::Number(num(false, "5", None)),
            Token::RSquareBracket,
            Token::RSquareBracket,
        ],
        JItem::Array(vec![
            JItem::True,
            JItem::Array(vec![JItem::Number(num(false, "5", None))]),
        ]),
    );
}

#[test]
fn parse_object_empty() {
    assert_successful_parse(vec![Token::LBrace, Token::RBrace], JItem::Object(vec![]));
}

#[test]
fn parse_object_single() {
    assert_successful_parse(
        vec![
            Token::LBrace,
            Token::String("foo".to_string()),
            Token::Colon,
            Token::String("bar".to_string()),
            Token::RBrace,
        ],
        JItem::Object(vec![("foo".to_string(), JItem::String("bar".to_string()))]),
    );
}

#[test]
fn parse_object_multi() {
    assert_successful_parse(
        vec![
            Token::LBrace,
            Token::String("foo".to_string()),
            Token::Colon,
            Token::String("bar".to_string()),
            Token::Comma,
            Token::String("baz".to_string()),
            Token::Colon,
            Token::Number(num(false, "10", None)),
            Token::RBrace,
        ],
        JItem::Object(vec![
            ("foo".to_string(), JItem::String("bar".to_string())),
            ("baz".to_string(), JItem::Number(num(false, "10", None))),
        ]),
    );
}

#[test]
fn parse_object_nested() {
    assert_successful_parse(
        vec![
            Token::LBrace,
            Token::String("foo".to_string()),
            Token::Colon,
            Token::String("bar".to_string()),
            Token::Comma,
            Token::String("baz".to_string()),
            Token::Colon,
            Token::LBrace,
            Token::String("foo".to_string()),
            Token::Colon,
            Token::True,
            Token::RBrace,
            Token::RBrace,
        ],
        JItem::Object(vec![
            ("foo".to_string(), JItem::String("bar".to_string())),
            (
                "baz".to_string(),
                JItem::Object(vec![("foo".to_string(), JItem::True)]),
            ),
        ]),
    );
}

#[test]
fn parse_simple_list() {
    let input = r#"[true, false, null, "foobar", -10.5, ["no thanks"]]"#;
    let expected = JItem::Array(vec![
        JItem::True,
        JItem::False,
        JItem::Null,
        JItem::String("foobar".to_string()),
        JItem::Number(num(true, "10", Some("5"))),
        JItem::Array(vec![JItem::String("no thanks".to_string())]),
    ]);
    let result = parse(input);
    let Ok(output) = result else {
        panic!("failure during parsing. failure: '{}'", result.unwrap_err());
    };
    assert_eq!(expected, output);
}

#[test]
fn parse_empty_input_reports_eof() {
    assert_eq!(parse("").unwrap_err(), "tried to parse JItem, but got EOF.");
}

#[test]
fn parse_number_array() {
    let expected = JItem::Array(vec![
        JItem::Number(num(false, "1", None)),
        JItem::Number(num(false, "2", None)),
        JItem::Number(num(false, "3", None)),
    ]);
    assert_eq!(parse("[1,2,3]").unwrap(), expected);
}

#[test]
fn parse_duplicate_key_rejected() {
    let result = parse("{\"a\":1,\"a\":2}");
    assert_eq!(result.unwrap_err(), "duplicate key found in jobject: 'a'");
}

#[test]
fn parse_unterminated_array_reports_eof() {
    let result = parse("[1,2");
    assert_eq!(
        result.unwrap_err(),
        "Unexpected EOF during parse. Expected Comma but got EOF."
    );
}

#[test]
fn parse_object_with_bool() {
    let expected = JItem::Object(vec![("a".to_string(), JItem::True)]);
    assert_eq!(parse("{\"a\":true}").unwrap(), expected);
}

#[test]
fn parse_tokens_left_over() {
    let result = parser::parse(vec![Token::True, Token::True]);
    assert_eq!(result.unwrap_err(), "Parsing finished with tokens left.");
}

#[test]
fn parse_error_names_expected_and_found() {
    let result = parse("[1:");
    assert_eq!(
        result.unwrap_err(),
        "Unexpected token during parse. Expected Comma but got Colon"
    );
}

#[test]
fn parse_missing_colon_names_both_tokens() {
    let result = parse("{\"a\" true}");
    assert_eq!(
        result.unwrap_err(),
        "Unexpected token during parse. Expected Colon but got True"
    );
}

#[test]
fn parse_non_string_key_rejected() {
    let result = parse("{1:2}");
    assert_eq!(
        result.unwrap_err(),
        "expected string key for jobject but got Number(1)"
    );
}

#[test]
fn parse_stray_closer_rejected() {
    let result = parse("}");
    assert_eq!(result.unwrap_err(), "Unexpected 'RBrace' during parse.");
}

#[test]
fn render_then_reparse_is_stable() {
    let v = parse(r#"{"a":[1,true,"s"],"b":-2.75}"#).unwrap();
    let text = render(&v);
    let reparsed = parse(text.as_str()).unwrap();
    assert_eq!(reparsed, v);
}

#[test]
fn parse_is_deterministic() {
    let input = r#"{"k":[1,2,{"m":null}]}"#;
    assert_eq!(parse(input), parse(input));
    let bad = "[1,2";
    assert_eq!(parse(bad).unwrap_err(), parse(bad).unwrap_err());
}
