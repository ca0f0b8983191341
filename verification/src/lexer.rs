//! Lexical analysis: raw text to a flat token sequence.
use vstd::prelude::*;
use vstd::string::StrSliceExecFns;
use vstd::string::StringExecFns;

use crate::j_item::JNumber;
use crate::j_item::SpecNumber;
use crate::j_item::is_digit_char;
use crate::j_item::push_char;

verus! {

// ---------------------------------------------------------------------------
// Tokens
// ---------------------------------------------------------------------------

/// Spec-level model of a token.
pub enum SpecToken {
    LBrace,
    RBrace,
    LSquareBracket,
    RSquareBracket,
    Colon,
    Comma,
    Number(SpecNumber),
    String(Seq<char>),
    True,
    False,
    Null,
}

/// The hand-off format between lexer and parser: structural punctuation and
/// literals, in source order, with all nesting still flat.
#[derive(Debug, PartialEq)]
pub enum Token {
    LBrace,
    RBrace,
    LSquareBracket,
    RSquareBracket,
    Colon,
    Comma,
    Number(JNumber),
    String(String),
    True,
    False,
    Null,
}

impl View for Token {
    type V = SpecToken;

    open spec fn view(&self) -> SpecToken {
        match self {
            Token::LBrace => SpecToken::LBrace,
            Token::RBrace => SpecToken::RBrace,
            Token::LSquareBracket => SpecToken::LSquareBracket,
            Token::RSquareBracket => SpecToken::RSquareBracket,
            Token::Colon => SpecToken::Colon,
            Token::Comma => SpecToken::Comma,
            Token::Number(n) => SpecToken::Number(n@),
            Token::String(s) => SpecToken::String(s@),
            Token::True => SpecToken::True,
            Token::False => SpecToken::False,
            Token::Null => SpecToken::Null,
        }
    }
}

pub open spec fn token_views(ts: Seq<Token>) -> Seq<SpecToken> {
    Seq::new(ts.len(), |i: int| ts[i]@)
}

/// Every number token a lexer run produces carries a well-formed literal.
pub open spec fn token_wf(t: SpecToken) -> bool {
    match t {
        SpecToken::Number(n) => n.wf(),
        _ => true,
    }
}

pub open spec fn tokens_wf(ts: Seq<SpecToken>) -> bool {
    forall|i: int| 0 <= i < ts.len() ==> token_wf(#[trigger] ts[i])
}

// ---------------------------------------------------------------------------
// Character classes and error messages
// ---------------------------------------------------------------------------

pub open spec fn is_ws_char(c: char) -> bool {
    c == ' ' || c == '\n' || c == '\t' || c == '\r'
}

pub open spec fn is_alpha_char(c: char) -> bool {
    ('a' <= c && c <= 'z') || ('A' <= c && c <= 'Z')
}

pub open spec fn msg_unknown_symbol(c: char) -> Seq<char> {
    "Unknown symbol '"@ + seq![c] + "'"@
}

pub open spec fn msg_unterminated_string() -> Seq<char> {
    "unterminated string literal. reached EOF."@
}

pub open spec fn msg_multiple_dot() -> Seq<char> {
    "multiple '.' found in number literal."@
}

pub open spec fn msg_unknown_keyword(w: Seq<char>) -> Seq<char> {
    "unknown keyword '"@ + w + "'"@
}

pub open spec fn msg_invalid_number(lit: Seq<char>) -> Seq<char> {
    "invalid number literal '"@ + lit + "'"@
}

// ---------------------------------------------------------------------------
// Spec-level scanners
// ---------------------------------------------------------------------------

/// Scans a string literal body (the opening quote is already consumed).
/// Returns the decoded content and how many characters were consumed,
/// closing quote included; fails when the input ends first. A backslash
/// copies the next character through verbatim.
pub open spec fn spec_scan_string(s: Seq<char>, escaped: bool) -> Result<
    (Seq<char>, nat),
    Seq<char>,
>
    decreases s.len(),
{
    if s.len() == 0 {
        Err(msg_unterminated_string())
    } else {
        let c = s[0];
        if escaped {
            match spec_scan_string(s.drop_first(), false) {
                Ok((content, used)) => Ok((seq![c] + content, (used + 1) as nat)),
                Err(e) => Err(e),
            }
        } else if c == '\\' {
            match spec_scan_string(s.drop_first(), true) {
                Ok((content, used)) => Ok((content, (used + 1) as nat)),
                Err(e) => Err(e),
            }
        } else if c == '"' {
            Ok((Seq::<char>::empty(), 1nat))
        } else {
            match spec_scan_string(s.drop_first(), false) {
                Ok((content, used)) => Ok((seq![c] + content, (used + 1) as nat)),
                Err(e) => Err(e),
            }
        }
    }
}

/// Scans the rest of a number literal (the first sign or digit character is
/// already consumed): a maximal run of digits with at most one decimal
/// point. A second point is an immediate error.
pub open spec fn spec_scan_number_body(s: Seq<char>, has_decimal: bool) -> Result<
    Seq<char>,
    Seq<char>,
>
    decreases s.len(),
{
    if s.len() == 0 {
        Ok(Seq::<char>::empty())
    } else if is_digit_char(s[0]) {
        match spec_scan_number_body(s.drop_first(), has_decimal) {
            Ok(t) => Ok(seq![s[0]] + t),
            Err(e) => Err(e),
        }
    } else if s[0] == '.' {
        if has_decimal {
            Err(msg_multiple_dot())
        } else {
            match spec_scan_number_body(s.drop_first(), true) {
                Ok(t) => Ok(seq!['.'] + t),
                Err(e) => Err(e),
            }
        }
    } else {
        Ok(Seq::<char>::empty())
    }
}

/// The maximal alphabetic prefix of `s`.
pub open spec fn take_alpha(s: Seq<char>) -> Seq<char>
    decreases s.len(),
{
    if s.len() > 0 && is_alpha_char(s[0]) {
        seq![s[0]] + take_alpha(s.drop_first())
    } else {
        Seq::<char>::empty()
    }
}

/// Splits the sign-free core of a number literal at its first decimal point
/// into the integer digits and, when a point is present, the fraction
/// digits. Defined by how the core grows character by character.
pub open spec fn split_number(core: Seq<char>) -> (Seq<char>, Option<Seq<char>>)
    decreases core.len(),
{
    if core.len() == 0 {
        (Seq::<char>::empty(), None)
    } else {
        let prev = split_number(core.drop_last());
        let ch = core.last();
        match prev.1 {
            None => if ch == '.' {
                (prev.0, Some(Seq::<char>::empty()))
            } else {
                (prev.0.push(ch), None)
            },
            Some(f) => (prev.0, Some(f.push(ch))),
        }
    }
}

/// The number a literal denotes: an optional leading minus sign, then the
/// core split at its first decimal point.
pub open spec fn number_of_literal(lit: Seq<char>) -> SpecNumber {
    let neg = lit.len() > 0 && lit[0] == '-';
    let core = if neg {
        lit.drop_first()
    } else {
        lit
    };
    let parts = split_number(core);
    SpecNumber { neg, int_digits: parts.0, frac_digits: parts.1 }
}

// ---------------------------------------------------------------------------
// Scanner bounds (termination of the lexer spec)
// ---------------------------------------------------------------------------

pub proof fn lemma_scan_string_used(s: Seq<char>, escaped: bool)
    ensures
        spec_scan_string(s, escaped) is Ok ==> 1 <= spec_scan_string(s, escaped)->Ok_0.1
            <= s.len(),
    decreases s.len(),
{
    if s.len() > 0 {
        lemma_scan_string_used(s.drop_first(), false);
        lemma_scan_string_used(s.drop_first(), true);
    }
}

pub proof fn lemma_scan_number_len(s: Seq<char>, has_decimal: bool)
    ensures
        spec_scan_number_body(s, has_decimal) is Ok ==> spec_scan_number_body(
            s,
            has_decimal,
        )->Ok_0.len() <= s.len(),
    decreases s.len(),
{
    if s.len() > 0 {
        lemma_scan_number_len(s.drop_first(), has_decimal);
        lemma_scan_number_len(s.drop_first(), true);
    }
}

pub proof fn lemma_take_alpha_len(s: Seq<char>)
    ensures
        take_alpha(s).len() <= s.len(),
    decreases s.len(),
{
    if s.len() > 0 && is_alpha_char(s[0]) {
        lemma_take_alpha_len(s.drop_first());
    }
}

// ---------------------------------------------------------------------------
// The lexer, at the spec level
// ---------------------------------------------------------------------------

pub open spec fn lex_cons(t: SpecToken, r: Result<Seq<SpecToken>, Seq<char>>) -> Result<
    Seq<SpecToken>,
    Seq<char>,
> {
    match r {
        Ok(ts) => Ok(seq![t] + ts),
        Err(e) => Err(e),
    }
}

/// One left-to-right scan of the whole input: whitespace is skipped, each
/// structural character is one token, literals are scanned by the helpers
/// above, and anything else is an error at the first offending character.
pub open spec fn spec_lex(s: Seq<char>) -> Result<Seq<SpecToken>, Seq<char>>
    decreases s.len(),
    via spec_lex_decreases
{
    if s.len() == 0 {
        Ok(Seq::<SpecToken>::empty())
    } else {
        let c = s[0];
        let rest = s.drop_first();
        if is_ws_char(c) {
            spec_lex(rest)
        } else if c == '{' {
            lex_cons(SpecToken::LBrace, spec_lex(rest))
        } else if c == '}' {
            lex_cons(SpecToken::RBrace, spec_lex(rest))
        } else if c == '[' {
            lex_cons(SpecToken::LSquareBracket, spec_lex(rest))
        } else if c == ']' {
            lex_cons(SpecToken::RSquareBracket, spec_lex(rest))
        } else if c == ':' {
            lex_cons(SpecToken::Colon, spec_lex(rest))
        } else if c == ',' {
            lex_cons(SpecToken::Comma, spec_lex(rest))
        } else if c == '"' {
            match spec_scan_string(rest, false) {
                Ok((content, used)) => lex_cons(
                    SpecToken::String(content),
                    spec_lex(rest.skip(used as int)),
                ),
                Err(e) => Err(e),
            }
        } else if c == '-' || is_digit_char(c) {
            match spec_scan_number_body(rest, false) {
                Ok(body) => {
                    let num = number_of_literal(seq![c] + body);
                    if num.int_digits.len() == 0 && (num.frac_digits is None
                        || num.frac_digits->0.len() == 0) {
                        Err(msg_invalid_number(seq![c] + body))
                    } else {
                        lex_cons(SpecToken::Number(num), spec_lex(rest.skip(body.len() as int)))
                    }
                },
                Err(e) => Err(e),
            }
        } else if is_alpha_char(c) {
            let word = seq![c] + take_alpha(rest);
            let after = rest.skip(take_alpha(rest).len() as int);
            if word == "true"@ {
                lex_cons(SpecToken::True, spec_lex(after))
            } else if word == "false"@ {
                lex_cons(SpecToken::False, spec_lex(after))
            } else if word == "null"@ {
                lex_cons(SpecToken::Null, spec_lex(after))
            } else {
                Err(msg_unknown_keyword(word))
            }
        } else {
            Err(msg_unknown_symbol(c))
        }
    }
}

#[via_fn]
proof fn spec_lex_decreases(s: Seq<char>) {
    if s.len() > 0 {
        let rest = s.drop_first();
        lemma_scan_string_used(rest, false);
        lemma_scan_number_len(rest, false);
        lemma_take_alpha_len(rest);
    }
}

// ---------------------------------------------------------------------------
// The executable lexer
// ---------------------------------------------------------------------------

/// The tokens already emitted plus a lexer run over the remaining suffix
/// together decide the run over the whole input.
pub open spec fn lex_suffix_ok(s: Seq<char>, i: int, toks: Seq<Token>) -> bool {
    match spec_lex(s.skip(i)) {
        Ok(ts) => spec_lex(s) == Ok::<Seq<SpecToken>, Seq<char>>(token_views(toks) + ts),
        Err(e) => spec_lex(s) == Err::<Seq<SpecToken>, Seq<char>>(e),
    }
}

proof fn lemma_token_views_push(ts: Seq<Token>, t: Token)
    ensures
        token_views(ts.push(t)) == token_views(ts) + seq![t@],
{
    assert(token_views(ts.push(t)) =~= token_views(ts) + seq![t@]);
}

/// Consuming one token moves the suffix frontier forward.
proof fn lemma_suffix_step(s: Seq<char>, i: int, j: int, toks: Seq<Token>, t: Token)
    requires
        lex_suffix_ok(s, i, toks),
        spec_lex(s.skip(i)) == lex_cons(t@, spec_lex(s.skip(j))),
    ensures
        lex_suffix_ok(s, j, toks.push(t)),
{
    lemma_token_views_push(toks, t);
    match spec_lex(s.skip(j)) {
        Ok(ts) => {
            assert(token_views(toks) + (seq![t@] + ts) =~= token_views(toks.push(t)) + ts);
        },
        Err(e) => {},
    }
}

/// Scans a string literal; `*i` stands just past the opening quote.
fn lex_string(s: &str, i: &mut usize) -> (r: Result<Token, String>)
    requires
        (*old(i)) <= s@.len(),
    ensures
        ({
            let sc = spec_scan_string(s@.skip((*old(i)) as int), false);
            match r {
                Ok(t) => sc is Ok && t@ == SpecToken::String(sc->Ok_0.0) && (*final(i)) == (*old(i))
                    + sc->Ok_0.1 && (*final(i)) <= s@.len(),
                Err(m) => sc is Err && m@ == sc->Err_0,
            }
        }),
{
    let n = s.unicode_len();
    let mut built = String::new();
    let mut escaped = false;
    while *i < n
        invariant
            n == s@.len(),
            (*old(i)) <= *i <= n,
            ({
                let sc0 = spec_scan_string(s@.skip((*old(i)) as int), false);
                let scj = spec_scan_string(s@.skip(*i as int), escaped);
                match scj {
                    Ok(p) => sc0 == Ok::<(Seq<char>, nat), Seq<char>>(
                        (built@ + p.0, ((*i - (*old(i))) + p.1) as nat),
                    ),
                    Err(e) => sc0 == Err::<(Seq<char>, nat), Seq<char>>(e),
                }
            }),
        decreases n - *i,
    {
        let ghost jprev = *i as int;
        let ghost old_built = built@;
        let c = s.get_char(*i);
        proof {
            assert(s@.skip(jprev)[0] == s@[jprev]);
            assert(s@.skip(jprev).drop_first() =~= s@.skip(jprev + 1));
        }
        if escaped {
            escaped = false;
            push_char(&mut built, c);
            *i = *i + 1;
            proof {
                match spec_scan_string(s@.skip(*i as int), false) {
                    Ok(p) => {
                        assert(built@ + p.0 =~= old_built + (seq![c] + p.0));
                    },
                    Err(e) => {},
                }
            }
        } else if c == '\\' {
            escaped = true;
            *i = *i + 1;
        } else if c == '"' {
            *i = *i + 1;
            proof {
                assert(built@ + Seq::<char>::empty() =~= built@);
            }
            return Ok(Token::String(built));
        } else {
            push_char(&mut built, c);
            *i = *i + 1;
            proof {
                match spec_scan_string(s@.skip(*i as int), false) {
                    Ok(p) => {
                        assert(built@ + p.0 =~= old_built + (seq![c] + p.0));
                    },
                    Err(e) => {},
                }
            }
        }
    }
    proof {
        assert(s@.skip(*i as int).len() == 0);
    }
    Err(String::from_str("unterminated string literal. reached EOF."))
}

/// Scans the rest of a number literal; `c` is its already-consumed first
/// character and `*i` stands just past it.
fn lex_number(s: &str, i: &mut usize, c: char) -> (r: Result<Token, String>)
    requires
        (*old(i)) <= s@.len(),
        c == '-' || is_digit_char(c),
    ensures
        ({
            let sc = spec_scan_number_body(s@.skip((*old(i)) as int), false);
            match r {
                Ok(t) => sc is Ok && (*final(i)) == (*old(i)) + sc->Ok_0.len() && (*final(i)) <= s@.len()
                    && ({
                    let num = number_of_literal(seq![c] + sc->Ok_0);
                    t@ == SpecToken::Number(num) && (num.int_digits.len() > 0 || (num.frac_digits
                        is Some && num.frac_digits->0.len() > 0))
                }),
                Err(m) => (sc is Err && m@ == sc->Err_0) || (sc is Ok && ({
                    let num = number_of_literal(seq![c] + sc->Ok_0);
                    num.int_digits.len() == 0 && (num.frac_digits is None
                        || num.frac_digits->0.len() == 0) && m@ == msg_invalid_number(
                        seq![c] + sc->Ok_0,
                    )
                })),
            }
        }),
{
    let n = s.unicode_len();
    let mut int_digits = String::new();
    let mut frac_digits = String::new();
    let mut has_decimal = false;
    let mut body = String::new();
    let neg = c == '-';
    if !neg {
        push_char(&mut int_digits, c);
    }
    proof {
        let core = if neg {
            body@
        } else {
            seq![c] + body@
        };
        if !neg {
            assert(core =~= Seq::<char>::empty().push(c));
            assert(core.drop_last() =~= Seq::<char>::empty());
            assert(split_number(core.drop_last()) == (Seq::<char>::empty(), None::<Seq<char>>));
            assert(core.last() == c);
            assert(c != '.');
            assert(split_number(core).0 == Seq::<char>::empty().push(c));
        }
    }
    while *i < n
        invariant
            n == s@.len(),
            (*old(i)) <= *i <= n,
            body@.len() == *i - (*old(i)),
            neg == (c == '-'),
            !has_decimal ==> frac_digits@ == Seq::<char>::empty(),
            ({
                let core = if neg {
                    body@
                } else {
                    seq![c] + body@
                };
                let parts = split_number(core);
                int_digits@ == parts.0 && if has_decimal {
                    parts.1 == Some(frac_digits@)
                } else {
                    parts.1 is None
                }
            }),
            ({
                let sc0 = spec_scan_number_body(s@.skip((*old(i)) as int), false);
                let scj = spec_scan_number_body(s@.skip(*i as int), has_decimal);
                match scj {
                    Ok(t) => sc0 == Ok::<Seq<char>, Seq<char>>(body@ + t),
                    Err(e) => sc0 == Err::<Seq<char>, Seq<char>>(e),
                }
            }),
        ensures
            spec_scan_number_body(s@.skip(*i as int), has_decimal) == Ok::<Seq<char>, Seq<char>>(
                Seq::<char>::empty(),
            ),
        decreases n - *i,
    {
        let ghost jprev = *i as int;
        let ghost old_body = body@;
        let ghost old_core = if neg {
            body@
        } else {
            seq![c] + body@
        };
        let ch = s.get_char(*i);
        proof {
            assert(s@.skip(jprev)[0] == s@[jprev]);
            assert(s@.skip(jprev).drop_first() =~= s@.skip(jprev + 1));
        }
        if '0' <= ch && ch <= '9' {
            if has_decimal {
                push_char(&mut frac_digits, ch);
            } else {
                push_char(&mut int_digits, ch);
            }
            push_char(&mut body, ch);
            *i = *i + 1;
        } else if ch == '.' {
            if has_decimal {
                return Err(String::from_str("multiple '.' found in number literal."));
            }
            has_decimal = true;
            push_char(&mut body, ch);
            *i = *i + 1;
        } else {
            proof {
                assert(spec_scan_number_body(s@.skip(jprev), has_decimal) == Ok::<
                    Seq<char>,
                    Seq<char>,
                >(Seq::<char>::empty()));
            }
            break ;
        }
        proof {
            let core = if neg {
                body@
            } else {
                seq![c] + body@
            };
            assert(core.drop_last() =~= old_core);
            assert(core.last() == ch);
            assert(core.len() > 0);
            assert(split_number(core.drop_last()) == split_number(old_core));
            match spec_scan_number_body(s@.skip(*i as int), has_decimal) {
                Ok(t) => {
                    assert(body@ + t =~= old_body + (seq![ch] + t));
                },
                Err(e) => {},
            }
        }
    }
    proof {
        let sc0 = spec_scan_number_body(s@.skip((*old(i)) as int), false);
        assert(body@ + Seq::<char>::empty() =~= body@);
        assert(sc0 == Ok::<Seq<char>, Seq<char>>(body@));
        let lit = seq![c] + body@;
        assert(lit[0] == c);
        if neg {
            assert(lit.drop_first() =~= body@);
        }
    }
    if int_digits.as_str().is_empty() && (!has_decimal || frac_digits.as_str().is_empty()) {
        let mut m = String::from_str("invalid number literal '");
        push_char(&mut m, c);
        m.append(body.as_str());
        push_char(&mut m, '\'');
        proof {
            reveal_strlit("'");
            assert(m@ =~= msg_invalid_number(seq![c] + body@));
        }
        return Err(m);
    }
    let frac: Option<String> = if has_decimal {
        Some(frac_digits)
    } else {
        None
    };
    Ok(Token::Number(JNumber { neg, int_digits, frac_digits: frac }))
}

/// Scans a bareword; `c` is its already-consumed first character. Only the
/// three keywords are legal barewords.
fn lex_ident(s: &str, i: &mut usize, c: char) -> (r: Result<Token, String>)
    requires
        (*old(i)) <= s@.len(),
        is_alpha_char(c),
    ensures
        (*final(i)) == (*old(i)) + take_alpha(s@.skip((*old(i)) as int)).len(),
        (*final(i)) <= s@.len(),
        ({
            let word = seq![c] + take_alpha(s@.skip((*old(i)) as int));
            match r {
                Ok(t) => (word == "true"@ && t@ == SpecToken::True) || (word == "false"@ && t@
                    == SpecToken::False) || (word == "null"@ && t@ == SpecToken::Null),
                Err(m) => word != "true"@ && word != "false"@ && word != "null"@ && m@
                    == msg_unknown_keyword(word),
            }
        }),
{
    let n = s.unicode_len();
    let mut word = String::new();
    push_char(&mut word, c);
    proof {
        assert(word@.drop_first() =~= Seq::<char>::empty());
    }
    while *i < n
        invariant
            n == s@.len(),
            (*old(i)) <= *i <= n,
            word@.len() == 1 + (*i - (*old(i))),
            word@[0] == c,
            take_alpha(s@.skip((*old(i)) as int)) == word@.drop_first() + take_alpha(
                s@.skip(*i as int),
            ),
        ensures
            take_alpha(s@.skip(*i as int)) == Seq::<char>::empty(),
        decreases n - *i,
    {
        let ghost jprev = *i as int;
        let ghost old_word = word@;
        let ch = s.get_char(*i);
        proof {
            assert(s@.skip(jprev)[0] == s@[jprev]);
            assert(s@.skip(jprev).drop_first() =~= s@.skip(jprev + 1));
        }
        if !(('a' <= ch && ch <= 'z') || ('A' <= ch && ch <= 'Z')) {
            proof {
                assert(take_alpha(s@.skip(jprev)) == Seq::<char>::empty());
            }
            break ;
        }
        push_char(&mut word, ch);
        *i = *i + 1;
        proof {
            assert(word@.drop_first() + take_alpha(s@.skip(*i as int)) =~= old_word.drop_first() + (
            seq![ch] + take_alpha(s@.skip(*i as int))));
        }
    }
    proof {
        assert(take_alpha(s@.skip((*old(i)) as int)) =~= word@.drop_first());
        assert(word@ =~= seq![c] + take_alpha(s@.skip((*old(i)) as int)));
    }
    if word == String::from_str("true") {
        Ok(Token::True)
    } else if word == String::from_str("false") {
        Ok(Token::False)
    } else if word == String::from_str("null") {
        Ok(Token::Null)
    } else {
        let mut m = String::from_str("unknown keyword '");
        m.append(word.as_str());
        push_char(&mut m, '\'');
        proof {
            reveal_strlit("'");
            assert(m@ =~= msg_unknown_keyword(word@));
        }
        Err(m)
    }
}

/// Converts raw text into its token sequence, or fails at the first invalid
/// character or malformed literal, exactly as `spec_lex` says.
pub fn lex(s: &str) -> (r: Result<Vec<Token>, String>)
    ensures
        match r {
            Ok(tokens) => spec_lex(s@) == Ok::<Seq<SpecToken>, Seq<char>>(token_views(tokens@)),
            Err(m) => spec_lex(s@) is Err && m@ == spec_lex(s@)->Err_0,
        },
{
    let n = s.unicode_len();
    let mut tokens: Vec<Token> = Vec::new();
    let mut i: usize = 0;
    proof {
        assert(s@.skip(0) =~= s@);
        assert(token_views(Seq::<Token>::empty()) + spec_lex(s@)->Ok_0 =~= spec_lex(s@)->Ok_0);
    }
    while i < n
        invariant
            n == s@.len(),
            i <= n,
            lex_suffix_ok(s@, i as int, tokens@),
        decreases n - i,
    {
        let ghost iprev = i as int;
        let ghost toks_prev = tokens@;
        let c = s.get_char(i);
        proof {
            assert(s@.skip(iprev)[0] == s@[iprev]);
            assert(s@.skip(iprev).drop_first() =~= s@.skip(iprev + 1));
        }
        if c == ' ' || c == '\n' || c == '\t' || c == '\r' {
            i = i + 1;
        } else if c == '{' {
            let t = Token::LBrace;
            proof {
                lemma_suffix_step(s@, iprev, iprev + 1, toks_prev, t);
            }
            tokens.push(t);
            i = i + 1;
        } else if c == '}' {
            let t = Token::RBrace;
            proof {
                lemma_suffix_step(s@, iprev, iprev + 1, toks_prev, t);
            }
            tokens.push(t);
            i = i + 1;
        } else if c == '[' {
            let t = Token::LSquareBracket;
            proof {
                lemma_suffix_step(s@, iprev, iprev + 1, toks_prev, t);
            }
            tokens.push(t);
            i = i + 1;
        } else if c == ']' {
            let t = Token::RSquareBracket;
            proof {
                lemma_suffix_step(s@, iprev, iprev + 1, toks_prev, t);
            }
            tokens.push(t);
            i = i + 1;
        } else if c == ':' {
            let t = Token::Colon;
            proof {
                lemma_suffix_step(s@, iprev, iprev + 1, toks_prev, t);
            }
            tokens.push(t);
            i = i + 1;
        } else if c == ',' {
            let t = Token::Comma;
            proof {
                lemma_suffix_step(s@, iprev, iprev + 1, toks_prev, t);
            }
            tokens.push(t);
            i = i + 1;
        } else if c == '"' {
            i = i + 1;
            let res = lex_string(s, &mut i);
            match res {
                Ok(t) => {
                    proof {
                        let sc = spec_scan_string(s@.skip(iprev + 1), false);
                        assert(s@.skip(iprev + 1).skip(sc->Ok_0.1 as int) =~= s@.skip(i as int));
                        lemma_suffix_step(s@, iprev, i as int, toks_prev, t);
                    }
                    tokens.push(t);
                },
                Err(m) => {
                    return Err(m);
                },
            }
        } else if c == '-' || ('0' <= c && c <= '9') {
            i = i + 1;
            let res = lex_number(s, &mut i, c);
            match res {
                Ok(t) => {
                    proof {
                        let sc = spec_scan_number_body(s@.skip(iprev + 1), false);
                        assert(s@.skip(iprev + 1).skip(sc->Ok_0.len() as int) =~= s@.skip(
                            i as int,
                        ));
                        lemma_suffix_step(s@, iprev, i as int, toks_prev, t);
                    }
                    tokens.push(t);
                },
                Err(m) => {
                    return Err(m);
                },
            }
        } else if ('a' <= c && c <= 'z') || ('A' <= c && c <= 'Z') {
            i = i + 1;
            let res = lex_ident(s, &mut i, c);
            match res {
                Ok(t) => {
                    proof {
                        reveal_strlit("true");
                        reveal_strlit("false");
                        reveal_strlit("null");
                        assert("true"@[0] == 't');
                        assert("false"@[0] == 'f');
                        assert("null"@[0] == 'n');
                        let rest = s@.skip(iprev).drop_first();
                        let ta = take_alpha(rest);
                        assert(rest == s@.skip(iprev + 1));
                        assert(s@.skip(iprev + 1).skip(ta.len() as int) =~= s@.skip(i as int));
                        let word = seq![c] + ta;
                        assert((word == "true"@ && t@ == SpecToken::True) || (word == "false"@
                            && t@ == SpecToken::False) || (word == "null"@ && t@
                            == SpecToken::Null));
                        if word == "true"@ {
                            assert(t@ == SpecToken::True);
                            assert(spec_lex(s@.skip(iprev)) == lex_cons(
                                SpecToken::True,
                                spec_lex(s@.skip(i as int)),
                            ));
                        } else if word == "false"@ {
                            assert(t@ == SpecToken::False);
                            assert(spec_lex(s@.skip(iprev)) == lex_cons(
                                SpecToken::False,
                                spec_lex(s@.skip(i as int)),
                            ));
                        } else {
                            assert(word == "null"@);
                            assert(t@ == SpecToken::Null);
                            assert(spec_lex(s@.skip(iprev)) == lex_cons(
                                SpecToken::Null,
                                spec_lex(s@.skip(i as int)),
                            ));
                        }
                        lemma_suffix_step(s@, iprev, i as int, toks_prev, t);
                    }
                    tokens.push(t);
                },
                Err(m) => {
                    return Err(m);
                },
            }
        } else {
            let mut m = String::from_str("Unknown symbol '");
            push_char(&mut m, c);
            push_char(&mut m, '\'');
            proof {
                reveal_strlit("'");
                assert(m@ =~= msg_unknown_symbol(c));
            }
            return Err(m);
        }
    }
    proof {
        assert(s@.skip(n as int).len() == 0);
        assert(token_views(tokens@) + Seq::<SpecToken>::empty() =~= token_views(tokens@));
    }
    Ok(tokens)
}

} // verus!
