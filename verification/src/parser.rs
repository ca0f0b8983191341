//! Recursive descent over the flat token sequence, building the item tree.
use vstd::prelude::*;
use vstd::string::StringExecFns;

use crate::j_item::JItem;
use crate::j_item::JNumber;
use crate::j_item::SpecItem;
use crate::j_item::member_views;
use crate::j_item::elem_views;
use crate::j_item::lemma_member_views;
use crate::j_item::lemma_elem_views;
use crate::j_item::render_number;
use crate::lexer::SpecToken;
use crate::lexer::Token;
use crate::lexer::token_views;

verus! {

// ---------------------------------------------------------------------------
// Token descriptions and error messages
// ---------------------------------------------------------------------------

/// How a token is named inside a diagnostic message.
pub open spec fn spec_token_desc(t: SpecToken) -> Seq<char> {
    match t {
        SpecToken::LBrace => "LBrace"@,
        SpecToken::RBrace => "RBrace"@,
        SpecToken::LSquareBracket => "LSquareBracket"@,
        SpecToken::RSquareBracket => "RSquareBracket"@,
        SpecToken::Colon => "Colon"@,
        SpecToken::Comma => "Comma"@,
        SpecToken::Number(n) => "Number("@ + n.text() + ")"@,
        SpecToken::String(s) => "String(\""@ + s + "\")"@,
        SpecToken::True => "True"@,
        SpecToken::False => "False"@,
        SpecToken::Null => "Null"@,
    }
}

pub open spec fn msg_eof_value() -> Seq<char> {
    "tried to parse JItem, but got EOF."@
}

pub open spec fn msg_unexpected_token(t: SpecToken) -> Seq<char> {
    "Unexpected '"@ + spec_token_desc(t) + "' during parse."@
}

pub open spec fn msg_expected_key(t: SpecToken) -> Seq<char> {
    "expected string key for jobject but got "@ + spec_token_desc(t)
}

pub open spec fn msg_dup_key(k: Seq<char>) -> Seq<char> {
    "duplicate key found in jobject: '"@ + k + "'"@
}

pub open spec fn msg_expected_got(expected: SpecToken, got: SpecToken) -> Seq<char> {
    "Unexpected token during parse. Expected "@ + spec_token_desc(expected) + " but got "@
        + spec_token_desc(got)
}

pub open spec fn msg_expected_eof(expected: SpecToken) -> Seq<char> {
    "Unexpected EOF during parse. Expected "@ + spec_token_desc(expected) + " but got EOF."@
}

pub open spec fn msg_eof_container() -> Seq<char> {
    "unexpected EOF during parse of array."@
}

pub open spec fn msg_tokens_left() -> Seq<char> {
    "Parsing finished with tokens left."@
}

/// Two tokens agree on their structural kind, payloads ignored.
pub open spec fn same_kind(a: SpecToken, b: SpecToken) -> bool {
    match (a, b) {
        (SpecToken::LBrace, SpecToken::LBrace) => true,
        (SpecToken::RBrace, SpecToken::RBrace) => true,
        (SpecToken::LSquareBracket, SpecToken::LSquareBracket) => true,
        (SpecToken::RSquareBracket, SpecToken::RSquareBracket) => true,
        (SpecToken::Colon, SpecToken::Colon) => true,
        (SpecToken::Comma, SpecToken::Comma) => true,
        (SpecToken::Number(_), SpecToken::Number(_)) => true,
        (SpecToken::String(_), SpecToken::String(_)) => true,
        (SpecToken::True, SpecToken::True) => true,
        (SpecToken::False, SpecToken::False) => true,
        (SpecToken::Null, SpecToken::Null) => true,
        _ => false,
    }
}

/// A key already sits in the accumulated member list.
pub open spec fn has_key(ms: Seq<(Seq<char>, SpecItem)>, key: Seq<char>) -> bool {
    exists|k: int| 0 <= k < ms.len() && ms[k].0 == key
}

// ---------------------------------------------------------------------------
// The parser, at the spec level
// ---------------------------------------------------------------------------

/// Parses one item starting at token `i`: dispatch on the consumed token.
/// Returns the item and the position just past it.
pub open spec fn spec_parse_item(ts: Seq<SpecToken>, i: int) -> Result<(SpecItem, int), Seq<char>>
    decreases ts.len() - i, 0int,
{
    if i < 0 || i >= ts.len() {
        Err(msg_eof_value())
    } else {
        match ts[i] {
            SpecToken::LBrace => spec_parse_members(
                ts,
                i + 1,
                Seq::<(Seq<char>, SpecItem)>::empty(),
            ),
            SpecToken::LSquareBracket => spec_parse_elems(ts, i + 1, Seq::<SpecItem>::empty()),
            SpecToken::Number(n) => Ok((SpecItem::Number(n), i + 1)),
            SpecToken::String(s) => Ok((SpecItem::String(s), i + 1)),
            SpecToken::True => Ok((SpecItem::True, i + 1)),
            SpecToken::False => Ok((SpecItem::False, i + 1)),
            SpecToken::Null => Ok((SpecItem::Null, i + 1)),
            _ => Err(msg_unexpected_token(ts[i])),
        }
    }
}

/// Parses the members of an object whose opening brace is already consumed,
/// `acc` holding the members seen so far.
pub open spec fn spec_parse_members(
    ts: Seq<SpecToken>,
    i: int,
    acc: Seq<(Seq<char>, SpecItem)>,
) -> Result<(SpecItem, int), Seq<char>>
    decreases ts.len() - i, 1int,
{
    if i < 0 || i >= ts.len() {
        Err(msg_eof_container())
    } else if (ts[i] matches SpecToken::RBrace) {
        Ok((SpecItem::Object(acc), i + 1))
    } else {
        match ts[i] {
            SpecToken::String(key) => {
                if has_key(acc, key) {
                    Err(msg_dup_key(key))
                } else if i + 1 >= ts.len() {
                    Err(msg_expected_eof(SpecToken::Colon))
                } else if !(ts[i + 1] matches SpecToken::Colon) {
                    Err(msg_expected_got(SpecToken::Colon, ts[i + 1]))
                } else {
                    match spec_parse_item(ts, i + 2) {
                        Ok((v, j)) => {
                            let acc2 = acc.push((key, v));
                            if j <= i + 2 || j > ts.len() {
                                // the cursor always advances and stays in
                                // bounds, so this branch is never taken
                                Err(msg_eof_container())
                            } else if j < ts.len() && (ts[j] matches SpecToken::RBrace) {
                                Ok((SpecItem::Object(acc2), j + 1))
                            } else if j >= ts.len() {
                                Err(msg_expected_eof(SpecToken::Comma))
                            } else if !(ts[j] matches SpecToken::Comma) {
                                Err(msg_expected_got(SpecToken::Comma, ts[j]))
                            } else {
                                spec_parse_members(ts, j + 1, acc2)
                            }
                        },
                        Err(e) => Err(e),
                    }
                }
            },
            _ => Err(msg_expected_key(ts[i])),
        }
    }
}

/// Parses the elements of an array whose opening bracket is already
/// consumed, `acc` holding the elements seen so far.
pub open spec fn spec_parse_elems(ts: Seq<SpecToken>, i: int, acc: Seq<SpecItem>) -> Result<
    (SpecItem, int),
    Seq<char>,
>
    decreases ts.len() - i, 2int,
{
    if i < 0 || i >= ts.len() {
        Err(msg_eof_container())
    } else if (ts[i] matches SpecToken::RSquareBracket) {
        Ok((SpecItem::Array(acc), i + 1))
    } else {
        match spec_parse_item(ts, i) {
            Ok((v, j)) => {
                let acc2 = acc.push(v);
                if j <= i || j > ts.len() {
                    // the cursor always advances and stays in bounds, so
                    // this branch is never taken
                    Err(msg_eof_container())
                } else if j < ts.len() && (ts[j] matches SpecToken::RSquareBracket) {
                    Ok((SpecItem::Array(acc2), j + 1))
                } else if j >= ts.len() {
                    Err(msg_expected_eof(SpecToken::Comma))
                } else if !(ts[j] matches SpecToken::Comma) {
                    Err(msg_expected_got(SpecToken::Comma, ts[j]))
                } else {
                    spec_parse_elems(ts, j + 1, acc2)
                }
            },
            Err(e) => Err(e),
        }
    }
}

/// The whole run: exactly one item, consuming every token.
pub open spec fn spec_parse(ts: Seq<SpecToken>) -> Result<SpecItem, Seq<char>> {
    match spec_parse_item(ts, 0) {
        Ok((v, j)) => if j == ts.len() {
            Ok(v)
        } else {
            Err(msg_tokens_left())
        },
        Err(e) => Err(e),
    }
}

// ---------------------------------------------------------------------------
// The executable parser
// ---------------------------------------------------------------------------

/// The diagnostic name of a token.
fn token_desc(t: &Token) -> (s: String)
    ensures
        s@ == spec_token_desc(t@),
{
    match t {
        Token::LBrace => String::from_str("LBrace"),
        Token::RBrace => String::from_str("RBrace"),
        Token::LSquareBracket => String::from_str("LSquareBracket"),
        Token::RSquareBracket => String::from_str("RSquareBracket"),
        Token::Colon => String::from_str("Colon"),
        Token::Comma => String::from_str("Comma"),
        Token::Number(n) => {
            let mut out = String::from_str("Number(");
            let text = render_number(n);
            out.append(text.as_str());
            out.append(")");
            proof {
                assert(out@ =~= "Number("@ + n@.text() + ")"@);
            }
            out
        },
        Token::String(s0) => {
            let mut out = String::from_str("String(\"");
            out.append(s0.as_str());
            out.append("\")");
            proof {
                assert(out@ =~= "String(\""@ + s0@ + "\")"@);
            }
            out
        },
        Token::True => String::from_str("True"),
        Token::False => String::from_str("False"),
        Token::Null => String::from_str("Null"),
    }
}

/// Whether two tokens agree on their structural kind, payloads ignored.
fn token_kind_eq(a: &Token, b: &Token) -> (r: bool)
    ensures
        r == same_kind(a@, b@),
{
    match (a, b) {
        (Token::LBrace, Token::LBrace) => true,
        (Token::RBrace, Token::RBrace) => true,
        (Token::LSquareBracket, Token::LSquareBracket) => true,
        (Token::RSquareBracket, Token::RSquareBracket) => true,
        (Token::Colon, Token::Colon) => true,
        (Token::Comma, Token::Comma) => true,
        (Token::Number(_), Token::Number(_)) => true,
        (Token::String(_), Token::String(_)) => true,
        (Token::True, Token::True) => true,
        (Token::False, Token::False) => true,
        (Token::Null, Token::Null) => true,
        _ => false,
    }
}

/// Consumes the next token, which must match `expected` in kind; otherwise
/// reports the expected and the found token (or EOF).
fn expect_token(tokens: &Vec<Token>, pos: &mut usize, expected: &Token) -> (r: Result<(), String>)
    requires
        *old(pos) <= tokens@.len(),
    ensures
        ({
            let ts = token_views(tokens@);
            match r {
                Ok(()) => *old(pos) < ts.len() && same_kind(ts[*old(pos) as int], expected@)
                    && *final(pos) == *old(pos) + 1,
                Err(m) => if *old(pos) >= ts.len() {
                    m@ == msg_expected_eof(expected@)
                } else {
                    !same_kind(ts[*old(pos) as int], expected@) && m@ == msg_expected_got(
                        expected@,
                        ts[*old(pos) as int],
                    )
                },
            }
        }),
{
    if *pos >= tokens.len() {
        let mut m = String::from_str("Unexpected EOF during parse. Expected ");
        let d = token_desc(expected);
        m.append(d.as_str());
        m.append(" but got EOF.");
        proof {
            assert(m@ =~= msg_expected_eof(expected@));
        }
        return Err(m);
    }
    let t = &tokens[*pos];
    *pos = *pos + 1;
    if token_kind_eq(t, expected) {
        Ok(())
    } else {
        let mut m = String::from_str("Unexpected token during parse. Expected ");
        let d = token_desc(expected);
        m.append(d.as_str());
        m.append(" but got ");
        let d2 = token_desc(t);
        m.append(d2.as_str());
        proof {
            assert(m@ =~= msg_expected_got(expected@, t@));
        }
        Err(m)
    }
}

/// Whether `key` already names a member of the object being built.
fn contains_key(members: &Vec<(String, JItem)>, key: &String) -> (b: bool)
    ensures
        b == has_key(member_views(members@), key@),
{
    proof {
        lemma_member_views(members@);
    }
    let mut k: usize = 0;
    while k < members.len()
        invariant
            k <= members@.len(),
            forall|t: int| 0 <= t < k ==> member_views(members@)[t].0 != key@,
            member_views(members@).len() == members@.len(),
            forall|t: int| 0 <= t < members@.len() ==> member_views(members@)[t].0 == (
            #[trigger] members@[t]).0@,
        decreases members@.len() - k,
    {
        if members[k].0 == *key {
            return true;
        }
        k = k + 1;
    }
    false
}

/// Makes an owned copy of a number token's payload.
fn clone_number(n: &JNumber) -> (r: JNumber)
    ensures
        r@ == n@,
{
    JNumber {
        neg: n.neg,
        int_digits: n.int_digits.clone(),
        frac_digits: match &n.frac_digits {
            Some(f) => Some(f.clone()),
            None => None,
        },
    }
}

/// Consumes one item from the token cursor, as `spec_parse_item` says.
fn parse_jitem(tokens: &Vec<Token>, pos: &mut usize) -> (r: Result<JItem, String>)
    requires
        *old(pos) <= tokens@.len(),
    ensures
        ({
            let ts = token_views(tokens@);
            match r {
                Ok(item) => spec_parse_item(ts, *old(pos) as int) == Ok::<
                    (SpecItem, int),
                    Seq<char>,
                >((item@, *final(pos) as int)) && *old(pos) < *final(pos) <= ts.len(),
                Err(m) => spec_parse_item(ts, *old(pos) as int) is Err && m@ == spec_parse_item(
                    ts,
                    *old(pos) as int,
                )->Err_0,
            }
        }),
    decreases tokens@.len() - *pos, 0int,
{
    let ghost ts = token_views(tokens@);
    if *pos >= tokens.len() {
        return Err(String::from_str("tried to parse JItem, but got EOF."));
    }
    let ghost p = *pos as int;
    proof {
        assert(ts[p] == tokens@[p]@);
    }
    let t = &tokens[*pos];
    *pos = *pos + 1;
    match t {
        Token::LBrace => parse_jobject(tokens, pos),
        Token::LSquareBracket => parse_jarray(tokens, pos),
        Token::Number(n) => Ok(JItem::Number(clone_number(n))),
        Token::String(s) => Ok(JItem::String(s.clone())),
        Token::True => Ok(JItem::True),
        Token::False => Ok(JItem::False),
        Token::Null => Ok(JItem::Null),
        _ => {
            let mut m = String::from_str("Unexpected '");
            let d = token_desc(t);
            m.append(d.as_str());
            m.append("' during parse.");
            proof {
                assert(m@ =~= msg_unexpected_token(ts[p]));
            }
            Err(m)
        },
    }
}

/// Consumes the members of an object whose opening brace is already
/// consumed, as `spec_parse_members` says.
fn parse_jobject(tokens: &Vec<Token>, pos: &mut usize) -> (r: Result<JItem, String>)
    requires
        *old(pos) <= tokens@.len(),
    ensures
        ({
            let ts = token_views(tokens@);
            let sp = spec_parse_members(
                ts,
                *old(pos) as int,
                Seq::<(Seq<char>, SpecItem)>::empty(),
            );
            match r {
                Ok(item) => sp == Ok::<(SpecItem, int), Seq<char>>((item@, *final(pos) as int))
                    && *old(pos) < *final(pos) <= ts.len(),
                Err(m) => sp is Err && m@ == sp->Err_0,
            }
        }),
    decreases tokens@.len() - *pos, 1int,
{
    let ghost ts = token_views(tokens@);
    let ghost p0 = *pos as int;
    let mut members: Vec<(String, JItem)> = Vec::new();
    proof {
        assert(member_views(members@) =~= Seq::<(Seq<char>, SpecItem)>::empty());
    }
    while *pos < tokens.len()
        invariant
            ts == token_views(tokens@),
            p0 == *old(pos) as int,
            *old(pos) <= *pos <= tokens@.len(),
            spec_parse_members(ts, p0, Seq::<(Seq<char>, SpecItem)>::empty())
                == spec_parse_members(ts, *pos as int, member_views(members@)),
        decreases tokens@.len() - *pos,
    {
        let ghost p = *pos as int;
        let ghost ms_prev = members@;
        proof {
            assert(ts[p] == tokens@[p]@);
        }
        let is_rbrace = token_kind_eq(&tokens[*pos], &Token::RBrace);
        if is_rbrace {
            *pos = *pos + 1;
            return Ok(JItem::Object(members));
        }
        let is_key = token_kind_eq(&tokens[*pos], &Token::String(String::new()));
        if !is_key {
            let mut m = String::from_str("expected string key for jobject but got ");
            let d = token_desc(&tokens[*pos]);
            m.append(d.as_str());
            proof {
                assert(m@ =~= msg_expected_key(ts[p]));
            }
            return Err(m);
        }
        let key: String = match &tokens[*pos] {
            Token::String(k) => k.clone(),
            _ => String::new(),
        };
        if contains_key(&members, &key) {
            let mut m = String::from_str("duplicate key found in jobject: '");
            m.append(key.as_str());
            m.append("'");
            proof {
                assert(m@ =~= msg_dup_key(key@));
            }
            return Err(m);
        }
        *pos = *pos + 1;
        match expect_token(tokens, pos, &Token::Colon) {
            Ok(()) => {},
            Err(m) => {
                return Err(m);
            },
        }
        let inner = match parse_jitem(tokens, pos) {
            Ok(v) => v,
            Err(m) => {
                return Err(m);
            },
        };
        let ghost j = *pos as int;
        proof {
            lemma_member_views(ms_prev);
            lemma_member_views(ms_prev.push((key, inner)));
            assert(member_views(ms_prev.push((key, inner))) =~= member_views(ms_prev).push(
                (key@, inner@),
            ));
        }
        members.push((key, inner));
        if *pos < tokens.len() {
            proof {
                assert(ts[j] == tokens@[j]@);
            }
            let is_close = token_kind_eq(&tokens[*pos], &Token::RBrace);
            if is_close {
                *pos = *pos + 1;
                return Ok(JItem::Object(members));
            }
        }
        match expect_token(tokens, pos, &Token::Comma) {
            Ok(()) => {},
            Err(m) => {
                return Err(m);
            },
        }
    }
    Err(String::from_str("unexpected EOF during parse of array."))
}

/// Consumes the elements of an array whose opening bracket is already
/// consumed, as `spec_parse_elems` says.
fn parse_jarray(tokens: &Vec<Token>, pos: &mut usize) -> (r: Result<JItem, String>)
    requires
        *old(pos) <= tokens@.len(),
    ensures
        ({
            let ts = token_views(tokens@);
            let sp = spec_parse_elems(ts, *old(pos) as int, Seq::<SpecItem>::empty());
            match r {
                Ok(item) => sp == Ok::<(SpecItem, int), Seq<char>>((item@, *final(pos) as int))
                    && *old(pos) < *final(pos) <= ts.len(),
                Err(m) => sp is Err && m@ == sp->Err_0,
            }
        }),
    decreases tokens@.len() - *pos, 1int,
{
    let ghost ts = token_views(tokens@);
    let ghost p0 = *pos as int;
    let mut elements: Vec<JItem> = Vec::new();
    proof {
        assert(elem_views(elements@) =~= Seq::<SpecItem>::empty());
    }
    while *pos < tokens.len()
        invariant
            ts == token_views(tokens@),
            p0 == *old(pos) as int,
            *old(pos) <= *pos <= tokens@.len(),
            spec_parse_elems(ts, p0, Seq::<SpecItem>::empty()) == spec_parse_elems(
                ts,
                *pos as int,
                elem_views(elements@),
            ),
        decreases tokens@.len() - *pos,
    {
        let ghost p = *pos as int;
        let ghost es_prev = elements@;
        proof {
            assert(ts[p] == tokens@[p]@);
        }
        let is_close = token_kind_eq(&tokens[*pos], &Token::RSquareBracket);
        if is_close {
            *pos = *pos + 1;
            return Ok(JItem::Array(elements));
        }
        let inner = match parse_jitem(tokens, pos) {
            Ok(v) => v,
            Err(m) => {
                return Err(m);
            },
        };
        let ghost j = *pos as int;
        proof {
            lemma_elem_views(es_prev);
            lemma_elem_views(es_prev.push(inner));
            assert(elem_views(es_prev.push(inner)) =~= elem_views(es_prev).push(inner@));
        }
        elements.push(inner);
        if *pos < tokens.len() {
            proof {
                assert(ts[j] == tokens@[j]@);
            }
            let is_close2 = token_kind_eq(&tokens[*pos], &Token::RSquareBracket);
            if is_close2 {
                *pos = *pos + 1;
                return Ok(JItem::Array(elements));
            }
        }
        match expect_token(tokens, pos, &Token::Comma) {
            Ok(()) => {},
            Err(m) => {
                return Err(m);
            },
        }
    }
    Err(String::from_str("unexpected EOF during parse of array."))
}

/// Parses a full token sequence into exactly one item, or reports the first
/// grammar error, exactly as `spec_parse` says.
pub fn parse(tokens: Vec<Token>) -> (r: Result<JItem, String>)
    ensures
        ({
            let sp = spec_parse(token_views(tokens@));
            match r {
                Ok(item) => sp == Ok::<SpecItem, Seq<char>>(item@),
                Err(m) => sp is Err && m@ == sp->Err_0,
            }
        }),
{
    let mut pos: usize = 0;
    let item = match parse_jitem(&tokens, &mut pos) {
        Ok(v) => v,
        Err(m) => {
            return Err(m);
        },
    };
    if pos < tokens.len() {
        return Err(String::from_str("Parsing finished with tokens left."));
    }
    Ok(item)
}

} // verus!
