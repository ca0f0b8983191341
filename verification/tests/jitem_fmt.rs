use jsonish::j_item::JItem;
use jsonish::j_item::JNumber;
use jsonish::j_item::render;

fn num(neg: bool, int_digits: &str, frac_digits: Option<&str>) -> JNumber {
    JNumber {
        neg,
        int_digits: int_digits.to_string(),
        frac_digits: frac_digits.map(|f| f.to_string()),
    }
}

#[test]
fn jitem_fmt_null() {
    let formatted = render(&JItem::Null);
    assert_eq!(formatted, "null");
}

#[test]
fn jitem_fmt_true() {
    let formatted = render(&JItem::True);
    assert_eq!(formatted, "true");
}

#[test]
fn jitem_fmt_false() {
    let formatted = render(&JItem::False);
    assert_eq!(formatted, "false");
}

#[test]
fn jitem_fmt_number() {
    let formatted = render(&JItem::Number(num(false, "10", None)));
    assert_eq!(formatted, "10");
}

#[test]
fn jitem_fmt_number_negative() {
    let formatted = render(&JItem::Number(num(true, "10", None)));
    assert_eq!(formatted, "-10");
}

#[test]
fn jitem_fmt_str() {
    let formatted = render(&JItem::String("teststring".to_string()));
    assert_eq!(formatted, "\"teststring\"");
}

#[test]
fn jitem_fmt_empty_str() {
    let formatted = render(&JItem::String("".to_string()));
    assert_eq!(formatted, "\"\"");
}

#[test]
fn jitem_fmt_empty_list() {
    let formatted = render(&JItem::Array(vec![]));
    assert_eq!(formatted, "[]");
}

#[test]
fn jitem_fmt_homogenous_list() {
    let formatted = render(&JItem::Array(vec![
        JItem::Number(num(false, "10", None)),
        JItem::Number(num(false, "5", None)),
        JItem::Number(num(true, "100", None)),
    ]));
    assert_eq!(formatted, "[10,5,-100]");
}

#[test]
fn jitem_fmt_non_homogenous_list() {
    let formatted = render(&JItem::Array(vec![
        JItem::Number(num(false, "10", None)),
        JItem::String("foobar".to_string()),
        JItem::True,
        JItem::False,
        JItem::Null,
    ]));
    assert_eq!(formatted, "[10,\"foobar\",true,false,null]");
}

#[test]
fn jitem_fmt_empty_object() {
    let formatted = render(&JItem::Object(vec![]));
    assert_eq!(formatted, "{}");
}

#[test]
fn jitem_fmt_object() {
    let formatted = render(&JItem::Object(vec![("one".to_string(), JItem::True)]));
    assert_eq!(formatted, r#"{"one":true}"#);
}

#[test]
fn jitem_fmt_decimal_number() {
    let formatted = render(&JItem::Number(num(true, "12", Some("5"))));
    assert_eq!(formatted, "-12.5");
}

#[test]
fn jitem_fmt_nested_object() {
    let inner = JItem::Object(vec![("b".to_string(), JItem::Array(vec![JItem::Null]))]);
    let outer = JItem::Object(vec![("a".to_string(), inner)]);
    assert_eq!(render(&outer), r#"{"a":{"b":[null]}}"#);
}
