//! The library-wide laws: invariants of what the pipeline produces, and the
//! round-trip behaviour of rendering and re-parsing.
use vstd::prelude::*;

use crate::j_item::SpecItem;
use crate::j_item::SpecNumber;
use crate::j_item::all_digits;
use crate::j_item::is_digit_char;
use crate::lexer::SpecToken;
use crate::lexer::spec_lex;
use crate::lexer::spec_scan_string;
use crate::lexer::spec_scan_number_body;
use crate::lexer::split_number;
use crate::lexer::number_of_literal;
use crate::lexer::take_alpha;
use crate::lexer::token_wf;
use crate::lexer::tokens_wf;
use crate::lexer::lex_cons;
use crate::lexer::is_ws_char;
use crate::lexer::is_alpha_char;
use crate::lexer::lemma_scan_string_used;
use crate::lexer::lemma_scan_number_len;
use crate::lexer::lemma_take_alpha_len;
use crate::parser::spec_parse;
use crate::parser::spec_parse_item;
use crate::parser::spec_parse_members;
use crate::parser::spec_parse_elems;
use crate::parser::has_key;
use crate::parser::msg_eof_value;
use crate::parser::msg_eof_container;
use crate::parser::msg_tokens_left;
use crate::parser::msg_unexpected_token;
use crate::parser::msg_expected_key;
use crate::parser::msg_dup_key;
use crate::parser::msg_expected_got;
use crate::parser::msg_expected_eof;
use crate::j_item::distinct_keys;
use crate::j_item::plain_text;
use crate::j_item::spec_render;
use crate::j_item::spec_render_members;
use crate::j_item::spec_render_elems;
use crate::lexer::msg_unknown_keyword;

verus! {

// ---------------------------------------------------------------------------
// Every lexed number token is well formed
// ---------------------------------------------------------------------------

/// A literal core with digits and at most one decimal point.
pub open spec fn scan_shaped(t: Seq<char>, at_most_dots: int) -> bool {
    &&& forall|k: int| 0 <= k < t.len() ==> is_digit_char(#[trigger] t[k]) || t[k] == '.'
    &&& (at_most_dots == 0 ==> forall|k: int| 0 <= k < t.len() ==> #[trigger] t[k] != '.')
    &&& (forall|k1: int, k2: int|
        0 <= k1 < k2 < t.len() ==> !(#[trigger] t[k1] == '.' && #[trigger] t[k2] == '.'))
}

/// Every character a number scan consumes is a digit or the decimal point,
/// with at most one point in all (and none once one was already seen).
proof fn lemma_scan_number_chars(s: Seq<char>, hd: bool)
    ensures
        spec_scan_number_body(s, hd) is Ok ==> scan_shaped(
            spec_scan_number_body(s, hd)->Ok_0,
            if hd {
                0int
            } else {
                1int
            },
        ),
    decreases s.len(),
{
    if s.len() > 0 {
        lemma_scan_number_chars(s.drop_first(), hd);
        lemma_scan_number_chars(s.drop_first(), true);
        match spec_scan_number_body(s, hd) {
            Ok(t) => {
                if is_digit_char(s[0]) {
                    let tail = spec_scan_number_body(s.drop_first(), hd)->Ok_0;
                    assert(t == seq![s[0]] + tail);
                    assert(forall|k: int| 1 <= k < t.len() ==> t[k] == tail[k - 1]);
                } else if s[0] == '.' && !hd {
                    let tail = spec_scan_number_body(s.drop_first(), true)->Ok_0;
                    assert(t == seq!['.'] + tail);
                    assert(forall|k: int| 1 <= k < t.len() ==> t[k] == tail[k - 1]);
                }
            },
            Err(e) => {},
        }
    }
}

/// Splitting a core of digits and at most one point yields digit runs on
/// both sides, and a fraction exactly when a point is present.
proof fn lemma_split_parts(core: Seq<char>)
    requires
        scan_shaped(core, 1int),
    ensures
        all_digits(split_number(core).0),
        split_number(core).1 is Some ==> all_digits(split_number(core).1->0),
        split_number(core).1 is Some <==> exists|k: int| 0 <= k < core.len() && core[k] == '.',
    decreases core.len(),
{
    if core.len() > 0 {
        let head = core.drop_last();
        assert(forall|k: int| 0 <= k < head.len() ==> head[k] == core[k]);
        lemma_split_parts(head);
        let prev = split_number(head);
        let ch = core.last();
        assert(ch == core[core.len() - 1]);
        match prev.1 {
            None => {
                if ch == '.' {
                    assert(core[core.len() - 1] == '.');
                } else {
                    assert(is_digit_char(ch));
                    assert(all_digits(prev.0.push(ch)));
                    assert(forall|k: int| 0 <= k < core.len() ==> #[trigger] core[k] != '.');
                }
            },
            Some(f) => {
                let k0 = choose|k: int| 0 <= k < head.len() && head[k] == '.';
                assert(core[k0] == '.');
                assert(ch != '.');
                assert(is_digit_char(ch));
                assert(all_digits(f.push(ch)));
            },
        }
    }
}

/// A core that starts with something other than the point puts that first
/// character into the integer part.
proof fn lemma_split_first(core: Seq<char>)
    requires
        core.len() > 0,
        core[0] != '.',
    ensures
        split_number(core).0.len() > 0,
    decreases core.len(),
{
    let head = core.drop_last();
    if core.len() > 1 {
        assert(head[0] == core[0]);
        lemma_split_first(head);
    } else {
        assert(head.len() == 0);
        assert(split_number(head) == (Seq::<char>::empty(), None::<Seq<char>>));
        assert(core.last() == core[0]);
    }
}

/// Every token a successful lexer run hands out is well formed: the number
/// scanner admits only digit runs with at most one decimal point, and the
/// lexer itself rejects a literal without a digit.
pub proof fn lemma_lex_wf(s: Seq<char>)
    ensures
        spec_lex(s) is Ok ==> tokens_wf(spec_lex(s)->Ok_0),
    decreases s.len(),
{
    if s.len() > 0 {
        let c = s[0];
        let rest = s.drop_first();
        lemma_scan_string_used(rest, false);
        lemma_scan_number_len(rest, false);
        lemma_take_alpha_len(rest);
        if is_ws_char(c) {
            lemma_lex_wf(rest);
        } else if c == '{' || c == '}' || c == '[' || c == ']' || c == ':' || c == ',' {
            lemma_lex_wf(rest);
            match spec_lex(rest) {
                Ok(ts) => {
                    let t = spec_lex(s)->Ok_0[0];
                    lemma_tokens_wf_cons(t, ts);
                },
                Err(e) => {},
            }
        } else if c == '"' {
            match spec_scan_string(rest, false) {
                Ok((content, used)) => {
                    lemma_lex_wf(rest.skip(used as int));
                    match spec_lex(rest.skip(used as int)) {
                        Ok(ts) => {
                            lemma_tokens_wf_cons(SpecToken::String(content), ts);
                        },
                        Err(e) => {},
                    }
                },
                Err(e) => {},
            }
        } else if c == '-' || is_digit_char(c) {
            match spec_scan_number_body(rest, false) {
                Ok(body) => {
                    let lit = seq![c] + body;
                    let num = number_of_literal(lit);
                    if !(num.int_digits.len() == 0 && (num.frac_digits is None
                        || num.frac_digits->0.len() == 0)) {
                        lemma_lex_wf(rest.skip(body.len() as int));
                        lemma_scan_number_chars(rest, false);
                        assert(lit[0] == c);
                        assert(forall|k: int| 0 <= k < body.len() ==> lit[k + 1] == body[k]);
                        let core = if num.neg {
                            lit.drop_first()
                        } else {
                            lit
                        };
                        if num.neg {
                            assert(core =~= body);
                        } else {
                            assert(forall|k: int| 1 <= k < core.len() ==> core[k] == body[k - 1]);
                            assert forall|k1: int, k2: int|
                                0 <= k1 < k2 < core.len() implies !(#[trigger] core[k1] == '.'
                                && #[trigger] core[k2] == '.') by {
                                if k1 == 0 {
                                    assert(core[0] == c);
                                } else {
                                    assert(core[k1] == body[k1 - 1]);
                                    assert(core[k2] == body[k2 - 1]);
                                }
                            }
                        }
                        assert(scan_shaped(core, 1int));
                        lemma_split_parts(core);
                        if !num.neg {
                            assert(core[0] == c);
                            assert(is_digit_char(c));
                            lemma_split_first(core);
                        }
                        assert(num.wf());
                        match spec_lex(rest.skip(body.len() as int)) {
                            Ok(ts) => {
                                lemma_tokens_wf_cons(SpecToken::Number(num), ts);
                            },
                            Err(e) => {},
                        }
                    }
                },
                Err(e) => {},
            }
        } else if is_alpha_char(c) {
            let word = seq![c] + take_alpha(rest);
            lemma_lex_wf(rest.skip(take_alpha(rest).len() as int));
            match spec_lex(rest.skip(take_alpha(rest).len() as int)) {
                Ok(ts) => {
                    lemma_tokens_wf_cons(SpecToken::True, ts);
                    lemma_tokens_wf_cons(SpecToken::False, ts);
                    lemma_tokens_wf_cons(SpecToken::Null, ts);
                },
                Err(e) => {},
            }
        }
    }
}

/// A well-formed token in front of a well-formed tail keeps the whole
/// sequence well formed.
proof fn lemma_tokens_wf_cons(t: SpecToken, ts: Seq<SpecToken>)
    requires
        token_wf(t),
        tokens_wf(ts),
    ensures
        tokens_wf(seq![t] + ts),
{
    let all = seq![t] + ts;
    assert forall|k: int| 0 <= k < all.len() implies token_wf(#[trigger] all[k]) by {
        if k == 0 {
            assert(all[0] == t);
        } else {
            assert(all[k] == ts[k - 1]);
        }
    }
}

// ---------------------------------------------------------------------------
// Every parsed item is well formed
// ---------------------------------------------------------------------------

/// Whatever `spec_parse_item` accepts out of well-formed tokens is a
/// well-formed item.
pub proof fn lemma_parse_item_wf(ts: Seq<SpecToken>, i: int)
    requires
        tokens_wf(ts),
    ensures
        spec_parse_item(ts, i) is Ok ==> spec_parse_item(ts, i)->Ok_0.0.wf(),
    decreases ts.len() - i, 0int,
{
    if 0 <= i < ts.len() {
        match ts[i] {
            SpecToken::LBrace => {
                lemma_parse_members_wf(ts, i + 1, Seq::<(Seq<char>, SpecItem)>::empty());
            },
            SpecToken::LSquareBracket => {
                lemma_parse_elems_wf(ts, i + 1, Seq::<SpecItem>::empty());
            },
            _ => {},
        }
    }
}

pub proof fn lemma_parse_members_wf(ts: Seq<SpecToken>, i: int, acc: Seq<(Seq<char>, SpecItem)>)
    requires
        tokens_wf(ts),
        distinct_keys(acc),
        forall|k: int| 0 <= k < acc.len() ==> (#[trigger] acc[k]).1.wf(),
    ensures
        spec_parse_members(ts, i, acc) is Ok ==> spec_parse_members(ts, i, acc)->Ok_0.0.wf(),
    decreases ts.len() - i, 1int,
{
    if 0 <= i < ts.len() && !(ts[i] matches SpecToken::RBrace) {
        match ts[i] {
            SpecToken::String(key) => {
                if !has_key(acc, key) && i + 1 < ts.len() && (ts[i + 1] matches SpecToken::Colon) {
                    lemma_parse_item_wf(ts, i + 2);
                    match spec_parse_item(ts, i + 2) {
                        Ok((v, j)) => {
                            let acc2 = acc.push((key, v));
                            assert(distinct_keys(acc2));
                            assert(forall|k: int|
                                0 <= k < acc2.len() ==> (#[trigger] acc2[k]).1.wf());
                            if !(j <= i + 2 || j > ts.len()) {
                                if !(j < ts.len() && (ts[j] matches SpecToken::RBrace)) {
                                    if j < ts.len() && (ts[j] matches SpecToken::Comma) {
                                        lemma_parse_members_wf(ts, j + 1, acc2);
                                    }
                                }
                            }
                        },
                        Err(e) => {},
                    }
                }
            },
            _ => {},
        }
    }
}

pub proof fn lemma_parse_elems_wf(ts: Seq<SpecToken>, i: int, acc: Seq<SpecItem>)
    requires
        tokens_wf(ts),
        forall|k: int| 0 <= k < acc.len() ==> (#[trigger] acc[k]).wf(),
    ensures
        spec_parse_elems(ts, i, acc) is Ok ==> spec_parse_elems(ts, i, acc)->Ok_0.0.wf(),
    decreases ts.len() - i, 2int,
{
    if 0 <= i < ts.len() && !(ts[i] matches SpecToken::RSquareBracket) {
        lemma_parse_item_wf(ts, i);
        match spec_parse_item(ts, i) {
            Ok((v, j)) => {
                let acc2 = acc.push(v);
                assert(forall|k: int| 0 <= k < acc2.len() ==> (#[trigger] acc2[k]).wf());
                if !(j <= i || j > ts.len()) {
                    if !(j < ts.len() && (ts[j] matches SpecToken::RSquareBracket)) {
                        if j < ts.len() && (ts[j] matches SpecToken::Comma) {
                            lemma_parse_elems_wf(ts, j + 1, acc2);
                        }
                    }
                }
            },
            Err(e) => {},
        }
    }
}

/// The composed pipeline only ever builds well-formed items.
pub proof fn lemma_parse_wf(ts: Seq<SpecToken>)
    requires
        tokens_wf(ts),
    ensures
        spec_parse(ts) is Ok ==> spec_parse(ts)->Ok_0.wf(),
{
    lemma_parse_item_wf(ts, 0);
}

// ---------------------------------------------------------------------------
// The canonical token sequence of an item
// ---------------------------------------------------------------------------

/// The token sequence that renders an item: exactly what lexing its
/// canonical text yields.
pub open spec fn spec_tokens(v: SpecItem) -> Seq<SpecToken>
    decreases v,
{
    match v {
        SpecItem::Object(ms) => seq![SpecToken::LBrace] + spec_tokens_members(ms) + seq![
            SpecToken::RBrace,
        ],
        SpecItem::Array(es) => seq![SpecToken::LSquareBracket] + spec_tokens_elems(es) + seq![
            SpecToken::RSquareBracket,
        ],
        SpecItem::String(s) => seq![SpecToken::String(s)],
        SpecItem::Number(n) => seq![SpecToken::Number(n)],
        SpecItem::True => seq![SpecToken::True],
        SpecItem::False => seq![SpecToken::False],
        SpecItem::Null => seq![SpecToken::Null],
    }
}

pub open spec fn spec_tokens_members(ms: Seq<(Seq<char>, SpecItem)>) -> Seq<SpecToken>
    decreases ms,
{
    if ms.len() == 0 {
        Seq::<SpecToken>::empty()
    } else {
        let first = seq![SpecToken::String(ms[0].0), SpecToken::Colon] + spec_tokens(ms[0].1);
        if ms.len() == 1 {
            first
        } else {
            first + seq![SpecToken::Comma] + spec_tokens_members(ms.drop_first())
        }
    }
}

pub open spec fn spec_tokens_elems(es: Seq<SpecItem>) -> Seq<SpecToken>
    decreases es,
{
    if es.len() == 0 {
        Seq::<SpecToken>::empty()
    } else {
        let first = spec_tokens(es[0]);
        if es.len() == 1 {
            first
        } else {
            first + seq![SpecToken::Comma] + spec_tokens_elems(es.drop_first())
        }
    }
}

proof fn lemma_spec_tokens_nonempty(v: SpecItem)
    ensures
        spec_tokens(v).len() >= 1,
{
}

// ---------------------------------------------------------------------------
// The parser accepts exactly the canonical token sequence of an item
// ---------------------------------------------------------------------------

/// On the canonical token sequence of a well-formed item, the parser
/// rebuilds precisely that item and stops right behind it.
pub proof fn lemma_parse_canonical(v: SpecItem, ts: Seq<SpecToken>, i: int)
    requires
        v.wf(),
        0 <= i,
        i + spec_tokens(v).len() <= ts.len(),
        forall|k: int| 0 <= k < spec_tokens(v).len() ==> ts[i + k] == spec_tokens(v)[k],
    ensures
        spec_parse_item(ts, i) == Ok::<(SpecItem, int), Seq<char>>(
            (v, i + spec_tokens(v).len()),
        ),
    decreases v,
{
    let toks = spec_tokens(v);
    assert(ts[i] == toks[0]);
    match v {
        SpecItem::Object(ms) => {
            assert(toks[0] == SpecToken::LBrace);
            let lm = spec_tokens_members(ms).len() as int;
            assert(toks.len() == lm + 2);
            assert forall|k: int| 0 <= k < lm implies ts[i + 1 + k] == spec_tokens_members(ms)[k]
                by {
                assert(toks[1 + k] == spec_tokens_members(ms)[k]);
                assert(ts[i + (1 + k)] == toks[1 + k]);
            }
            assert(ts[i + 1 + lm] == toks[1 + lm]);
            assert(toks[1 + lm] == SpecToken::RBrace);
            lemma_parse_canonical_members(
                ms,
                Seq::<(Seq<char>, SpecItem)>::empty(),
                ts,
                i + 1,
            );
            assert(Seq::<(Seq<char>, SpecItem)>::empty() + ms =~= ms);
        },
        SpecItem::Array(es) => {
            assert(toks[0] == SpecToken::LSquareBracket);
            let le = spec_tokens_elems(es).len() as int;
            assert(toks.len() == le + 2);
            assert forall|k: int| 0 <= k < le implies ts[i + 1 + k] == spec_tokens_elems(es)[k]
                by {
                assert(toks[1 + k] == spec_tokens_elems(es)[k]);
                assert(ts[i + (1 + k)] == toks[1 + k]);
            }
            assert(ts[i + 1 + le] == toks[1 + le]);
            assert(toks[1 + le] == SpecToken::RSquareBracket);
            lemma_parse_canonical_elems(es, Seq::<SpecItem>::empty(), ts, i + 1);
            assert(Seq::<SpecItem>::empty() + es =~= es);
        },
        _ => {},
    }
}

/// The object-member loop of the parser walks the canonical member layout.
proof fn lemma_parse_canonical_members(
    ms: Seq<(Seq<char>, SpecItem)>,
    acc: Seq<(Seq<char>, SpecItem)>,
    ts: Seq<SpecToken>,
    i: int,
)
    requires
        distinct_keys(acc + ms),
        forall|k: int| 0 <= k < ms.len() ==> (#[trigger] ms[k]).1.wf(),
        0 <= i,
        i + spec_tokens_members(ms).len() + 1 <= ts.len(),
        forall|k: int|
            0 <= k < spec_tokens_members(ms).len() ==> ts[i + k] == spec_tokens_members(ms)[k],
        ts[i + spec_tokens_members(ms).len()] == SpecToken::RBrace,
    ensures
        spec_parse_members(ts, i, acc) == Ok::<(SpecItem, int), Seq<char>>(
            (SpecItem::Object(acc + ms), i + spec_tokens_members(ms).len() + 1),
        ),
    decreases ms,
{
    let lm = spec_tokens_members(ms).len() as int;
    if ms.len() == 0 {
        assert(ts[i] == SpecToken::RBrace);
        assert(acc + ms =~= acc);
    } else {
        let key = ms[0].0;
        let v0 = ms[0].1;
        let l0 = spec_tokens(v0).len() as int;
        let first = seq![SpecToken::String(key), SpecToken::Colon] + spec_tokens(v0);
        assert(spec_tokens_members(ms)[0] == SpecToken::String(key));
        assert(ts[i] == SpecToken::String(key));
        assert(spec_tokens_members(ms)[1] == SpecToken::Colon);
        assert(ts[i + 1] == SpecToken::Colon);
        assert(!has_key(acc, key)) by {
            if has_key(acc, key) {
                let k0 = choose|k: int| 0 <= k < acc.len() && acc[k].0 == key;
                assert((acc + ms)[k0] == acc[k0]);
                assert((acc + ms)[acc.len() as int] == ms[0]);
            }
        }
        lemma_spec_tokens_nonempty(v0);
        assert forall|k: int| 0 <= k < l0 implies ts[i + 2 + k] == spec_tokens(v0)[k] by {
            assert(spec_tokens_members(ms)[2 + k] == first[2 + k]);
            assert(first[2 + k] == spec_tokens(v0)[k]);
            assert(ts[i + (2 + k)] == spec_tokens_members(ms)[2 + k]);
        }
        lemma_parse_canonical(v0, ts, i + 2);
        let j = i + 2 + l0;
        let acc2 = acc.push((key, v0));
        assert(acc2 =~= acc.push(ms[0]));
        if ms.len() == 1 {
            assert(lm == 2 + l0);
            assert(ts[j] == SpecToken::RBrace);
            assert(acc2 =~= acc + ms);
        } else {
            assert(spec_tokens_members(ms)[2 + l0] == SpecToken::Comma);
            assert(ts[j] == SpecToken::Comma);
            let tail = ms.drop_first();
            let lt = spec_tokens_members(tail).len() as int;
            assert(lm == 2 + l0 + 1 + lt);
            assert(acc2 + tail =~= acc + ms);
            assert(distinct_keys(acc2 + tail));
            assert forall|k: int| 0 <= k < tail.len() implies (#[trigger] tail[k]).1.wf() by {
                assert(tail[k] == ms[k + 1]);
            }
            assert forall|k: int| 0 <= k < lt implies ts[j + 1 + k] == spec_tokens_members(
                tail,
            )[k] by {
                assert(spec_tokens_members(ms)[2 + l0 + 1 + k] == spec_tokens_members(tail)[k]);
                assert(ts[i + (2 + l0 + 1 + k)] == spec_tokens_members(ms)[2 + l0 + 1 + k]);
            }
            assert(ts[j + 1 + lt] == SpecToken::RBrace) by {
                assert(i + lm == j + 1 + lt);
            }
            lemma_parse_canonical_members(tail, acc2, ts, j + 1);
        }
    }
}

/// The array-element loop of the parser walks the canonical element layout.
proof fn lemma_parse_canonical_elems(
    es: Seq<SpecItem>,
    acc: Seq<SpecItem>,
    ts: Seq<SpecToken>,
    i: int,
)
    requires
        forall|k: int| 0 <= k < es.len() ==> (#[trigger] es[k]).wf(),
        0 <= i,
        i + spec_tokens_elems(es).len() + 1 <= ts.len(),
        forall|k: int|
            0 <= k < spec_tokens_elems(es).len() ==> ts[i + k] == spec_tokens_elems(es)[k],
        ts[i + spec_tokens_elems(es).len()] == SpecToken::RSquareBracket,
    ensures
        spec_parse_elems(ts, i, acc) == Ok::<(SpecItem, int), Seq<char>>(
            (SpecItem::Array(acc + es), i + spec_tokens_elems(es).len() + 1),
        ),
    decreases es,
{
    let le = spec_tokens_elems(es).len() as int;
    if es.len() == 0 {
        assert(ts[i] == SpecToken::RSquareBracket);
        assert(acc + es =~= acc);
    } else {
        let v0 = es[0];
        let l0 = spec_tokens(v0).len() as int;
        lemma_spec_tokens_nonempty(v0);
        assert forall|k: int| 0 <= k < l0 implies ts[i + k] == spec_tokens(v0)[k] by {
            assert(spec_tokens_elems(es)[k] == spec_tokens(v0)[k]);
        }
        assert(ts[i] == spec_tokens(v0)[0]);
        assert(!(spec_tokens(v0)[0] matches SpecToken::RSquareBracket)) by {
            match v0 {
                SpecItem::Object(_) => {},
                SpecItem::Array(_) => {},
                _ => {},
            }
        }
        lemma_parse_canonical(v0, ts, i);
        let j = i + l0;
        let acc2 = acc.push(v0);
        if es.len() == 1 {
            assert(le == l0);
            assert(ts[j] == SpecToken::RSquareBracket);
            assert(acc2 =~= acc + es);
        } else {
            assert(spec_tokens_elems(es)[l0] == SpecToken::Comma);
            assert(ts[j] == SpecToken::Comma);
            let tail = es.drop_first();
            let lt = spec_tokens_elems(tail).len() as int;
            assert(le == l0 + 1 + lt);
            assert(acc2 + tail =~= acc + es);
            assert forall|k: int| 0 <= k < tail.len() implies (#[trigger] tail[k]).wf() by {
                assert(tail[k] == es[k + 1]);
            }
            assert forall|k: int| 0 <= k < lt implies ts[j + 1 + k] == spec_tokens_elems(
                tail,
            )[k] by {
                assert(spec_tokens_elems(es)[l0 + 1 + k] == spec_tokens_elems(tail)[k]);
                assert(ts[i + (l0 + 1 + k)] == spec_tokens_elems(es)[l0 + 1 + k]);
            }
            assert(ts[j + 1 + lt] == SpecToken::RSquareBracket) by {
                assert(i + le == j + 1 + lt);
            }
            lemma_parse_canonical_elems(tail, acc2, ts, j + 1);
        }
    }
}

// ---------------------------------------------------------------------------
// Lexing the canonical text gives back the canonical tokens
// ---------------------------------------------------------------------------

/// Prepends already-known tokens to the outcome of lexing a suffix.
pub open spec fn cons_tokens(pre: Seq<SpecToken>, r: Result<Seq<SpecToken>, Seq<char>>) -> Result<
    Seq<SpecToken>,
    Seq<char>,
> {
    match r {
        Ok(ts) => Ok(pre + ts),
        Err(e) => Err(e),
    }
}

/// What may follow a rendered item inside a larger rendering: nothing, or a
/// separator or closer, none of which extends any literal.
pub open spec fn lex_break(rest: Seq<char>) -> bool {
    rest.len() == 0 || rest[0] == ',' || rest[0] == ']' || rest[0] == '}'
}

/// The maximal alphabetic prefix of a word followed by a break is the word.
proof fn lemma_take_alpha_all(w: Seq<char>, rest: Seq<char>)
    requires
        forall|k: int| 0 <= k < w.len() ==> is_alpha_char(#[trigger] w[k]),
        rest.len() == 0 || !is_alpha_char(rest[0]),
    ensures
        take_alpha(w + rest) == w,
    decreases w.len(),
{
    let s = w + rest;
    if w.len() == 0 {
        assert(s =~= rest);
        assert(take_alpha(s) =~= w);
    } else {
        assert(s[0] == w[0]);
        assert(s.drop_first() =~= w.drop_first() + rest);
        lemma_take_alpha_all(w.drop_first(), rest);
        assert(take_alpha(s) =~= seq![w[0]] + w.drop_first());
        assert(seq![w[0]] + w.drop_first() =~= w);
    }
}

/// Scanning quote-free text followed by the closing quote yields exactly
/// that text and consumes it plus the quote.
proof fn lemma_scan_plain_string(content: Seq<char>, rest: Seq<char>)
    requires
        plain_text(content),
    ensures
        spec_scan_string(content + seq!['"'] + rest, false) == Ok::<(Seq<char>, nat), Seq<char>>(
            (content, (content.len() + 1) as nat),
        ),
    decreases content.len(),
{
    let s = content + seq!['"'] + rest;
    if content.len() == 0 {
        assert(s =~= seq!['"'] + rest);
        assert(s[0] == '"');
        assert(Seq::<char>::empty() =~= content);
    } else {
        assert(s[0] == content[0]);
        assert(s.drop_first() =~= content.drop_first() + seq!['"'] + rest);
        lemma_scan_plain_string(content.drop_first(), rest);
        assert(seq![content[0]] + content.drop_first() =~= content);
    }
}

/// Scanning a digit run that ends at a break yields exactly that run.
proof fn lemma_scan_digits(d: Seq<char>, hd: bool, rest: Seq<char>)
    requires
        all_digits(d),
        lex_break(rest),
    ensures
        spec_scan_number_body(d + rest, hd) == Ok::<Seq<char>, Seq<char>>(d),
    decreases d.len(),
{
    let s = d + rest;
    if d.len() == 0 {
        assert(s =~= rest);
        assert(Seq::<char>::empty() =~= d);
    } else {
        assert(s[0] == d[0]);
        assert(is_digit_char(d[0]));
        assert(s.drop_first() =~= d.drop_first() + rest);
        lemma_scan_digits(d.drop_first(), hd, rest);
        assert(seq![d[0]] + d.drop_first() =~= d);
    }
}

/// Scanning digits, one point, then more digits up to a break yields the
/// whole literal body.
proof fn lemma_scan_digits_dot(d: Seq<char>, f: Seq<char>, rest: Seq<char>)
    requires
        all_digits(d),
        all_digits(f),
        lex_break(rest),
    ensures
        spec_scan_number_body(d + seq!['.'] + f + rest, false) == Ok::<Seq<char>, Seq<char>>(
            d + seq!['.'] + f,
        ),
    decreases d.len(),
{
    let s = d + seq!['.'] + f + rest;
    if d.len() == 0 {
        assert(s =~= seq!['.'] + (f + rest));
        assert(s[0] == '.');
        assert(s.drop_first() =~= f + rest);
        lemma_scan_digits(f, true, rest);
        assert(seq!['.'] + f =~= d + seq!['.'] + f);
    } else {
        assert(s[0] == d[0]);
        assert(is_digit_char(d[0]));
        assert(s.drop_first() =~= d.drop_first() + seq!['.'] + f + rest);
        lemma_scan_digits_dot(d.drop_first(), f, rest);
        assert(seq![d[0]] + (d.drop_first() + seq!['.'] + f) =~= d + seq!['.'] + f);
    }
}

/// Splitting a pure digit run leaves everything in the integer part.
proof fn lemma_split_digits_only(d: Seq<char>)
    requires
        all_digits(d),
    ensures
        split_number(d) == (d, None::<Seq<char>>),
    decreases d.len(),
{
    if d.len() > 0 {
        let head = d.drop_last();
        assert(forall|k: int| 0 <= k < head.len() ==> head[k] == d[k]);
        lemma_split_digits_only(head);
        assert(is_digit_char(d.last()));
        assert(head.push(d.last()) =~= d);
    }
}

/// Splitting digits, one point, then digits recovers the two runs.
proof fn lemma_split_with_dot(d: Seq<char>, f: Seq<char>)
    requires
        all_digits(d),
        all_digits(f),
    ensures
        split_number(d + seq!['.'] + f) == (d, Some(f)),
    decreases f.len(),
{
    let core = d + seq!['.'] + f;
    if f.len() == 0 {
        assert(core =~= (d + seq!['.']));
        assert(core.drop_last() =~= d);
        lemma_split_digits_only(d);
        assert(core.last() == '.');
        assert(split_number(core).1 == Some(Seq::<char>::empty()));
        assert(Seq::<char>::empty() =~= f);
    } else {
        assert(core.drop_last() =~= d + seq!['.'] + f.drop_last());
        lemma_split_with_dot(d, f.drop_last());
        assert(core.last() == f.last());
        assert(is_digit_char(f.last()));
        assert(f.drop_last().push(f.last()) =~= f);
    }
}

/// The three keyword literals hold only alphabetic characters, and start
/// with distinct letters.
proof fn lemma_keyword_chars()
    ensures
        forall|k: int| 0 <= k < "true"@.len() ==> is_alpha_char(#[trigger] "true"@[k]),
        forall|k: int| 0 <= k < "false"@.len() ==> is_alpha_char(#[trigger] "false"@[k]),
        forall|k: int| 0 <= k < "null"@.len() ==> is_alpha_char(#[trigger] "null"@[k]),
        "true"@.len() == 4,
        "false"@.len() == 5,
        "null"@.len() == 4,
        "true"@[0] == 't',
        "false"@[0] == 'f',
        "null"@[0] == 'n',
{
    reveal_strlit("true");
    reveal_strlit("false");
    reveal_strlit("null");
    assert forall|k: int| 0 <= k < "true"@.len() implies is_alpha_char(#[trigger] "true"@[k]) by {
        if k == 0 {
            assert("true"@[0] == 't');
        } else if k == 1 {
            assert("true"@[1] == 'r');
        } else if k == 2 {
            assert("true"@[2] == 'u');
        } else {
            assert("true"@[3] == 'e');
        }
    }
    assert forall|k: int| 0 <= k < "false"@.len() implies is_alpha_char(
        #[trigger] "false"@[k],
    ) by {
        if k == 0 {
            assert("false"@[0] == 'f');
        } else if k == 1 {
            assert("false"@[1] == 'a');
        } else if k == 2 {
            assert("false"@[2] == 'l');
        } else if k == 3 {
            assert("false"@[3] == 's');
        } else {
            assert("false"@[4] == 'e');
        }
    }
    assert forall|k: int| 0 <= k < "null"@.len() implies is_alpha_char(#[trigger] "null"@[k]) by {
        if k == 0 {
            assert("null"@[0] == 'n');
        } else if k == 1 {
            assert("null"@[1] == 'u');
        } else if k == 2 {
            assert("null"@[2] == 'l');
        } else {
            assert("null"@[3] == 'l');
        }
    }
}

/// Lexing an alphabetic word followed by a break: the keyword tokens for
/// the three keywords, the unknown-keyword error otherwise.
proof fn lemma_lex_word(w: Seq<char>, rest: Seq<char>)
    requires
        w.len() > 0,
        forall|k: int| 0 <= k < w.len() ==> is_alpha_char(#[trigger] w[k]),
        lex_break(rest),
    ensures
        spec_lex(w + rest) == if w == "true"@ {
            lex_cons(SpecToken::True, spec_lex(rest))
        } else if w == "false"@ {
            lex_cons(SpecToken::False, spec_lex(rest))
        } else if w == "null"@ {
            lex_cons(SpecToken::Null, spec_lex(rest))
        } else {
            Err(msg_unknown_keyword(w))
        },
{
    let s = w + rest;
    assert(s[0] == w[0]);
    assert(is_alpha_char(w[0]));
    assert(s.drop_first() =~= w.drop_first() + rest);
    assert(forall|k: int|
        0 <= k < w.drop_first().len() ==> is_alpha_char(#[trigger] w.drop_first()[k]));
    lemma_take_alpha_all(w.drop_first(), rest);
    assert(seq![w[0]] + w.drop_first() =~= w);
    assert((w.drop_first() + rest).skip(w.drop_first().len() as int) =~= rest);
}

/// Lexing the text of a well-formed number up to a break yields exactly
/// that number token.
#[verifier::rlimit(100)]
proof fn lemma_lex_number_text(n: SpecNumber, rest: Seq<char>)
    requires
        n.wf(),
        lex_break(rest),
    ensures
        spec_lex(n.text() + rest) == lex_cons(SpecToken::Number(n), spec_lex(rest)),
{
    let txt = n.text();
    let s = txt + rest;
    let dotpart = match n.frac_digits {
        Some(f) => seq!['.'] + f,
        None => Seq::<char>::empty(),
    };
    if n.neg {
        assert(txt =~= seq!['-'] + (n.int_digits + dotpart));
        assert(s[0] == '-');
        let body = n.int_digits + dotpart;
        assert(s.drop_first() =~= body + rest);
        match n.frac_digits {
            Some(f) => {
                assert(body + rest =~= n.int_digits + seq!['.'] + f + rest);
                lemma_scan_digits_dot(n.int_digits, f, rest);
                assert(body =~= n.int_digits + seq!['.'] + f);
                lemma_split_with_dot(n.int_digits, f);
            },
            None => {
                assert(body =~= n.int_digits);
                lemma_scan_digits(n.int_digits, false, rest);
            },
        }
        assert(spec_scan_number_body(s.drop_first(), false) == Ok::<Seq<char>, Seq<char>>(body));
        let lit = seq!['-'] + body;
        assert(lit[0] == '-');
        let core = lit.drop_first();
        assert(core =~= body);
        match n.frac_digits {
            Some(f) => {
                assert(split_number(core) == (n.int_digits, Some(f)));
            },
            None => {
                lemma_split_digits_only(core);
            },
        }
        let num = number_of_literal(lit);
        assert(num == n);
        assert(s.drop_first().skip(body.len() as int) =~= rest);
    } else {
        assert(n.int_digits.len() > 0);
        let c = n.int_digits[0];
        assert(is_digit_char(c));
        assert(txt =~= n.int_digits + dotpart);
        assert(s[0] == c);
        let body = n.int_digits.drop_first() + dotpart;
        assert(s.drop_first() =~= body + rest);
        assert(forall|k: int|
            0 <= k < n.int_digits.drop_first().len() ==> is_digit_char(
                #[trigger] n.int_digits.drop_first()[k],
            ));
        match n.frac_digits {
            Some(f) => {
                assert(body + rest =~= n.int_digits.drop_first() + seq!['.'] + f + rest);
                lemma_scan_digits_dot(n.int_digits.drop_first(), f, rest);
                assert(body =~= n.int_digits.drop_first() + seq!['.'] + f);
                lemma_split_with_dot(n.int_digits, f);
            },
            None => {
                assert(body =~= n.int_digits.drop_first());
                lemma_scan_digits(n.int_digits.drop_first(), false, rest);
            },
        }
        assert(spec_scan_number_body(s.drop_first(), false) == Ok::<Seq<char>, Seq<char>>(body));
        let lit = seq![c] + body;
        assert(lit[0] == c);
        assert(c != '-');
        let core = lit;
        assert(core =~= n.int_digits + dotpart);
        match n.frac_digits {
            Some(f) => {
                assert(core =~= n.int_digits + seq!['.'] + f);
                assert(split_number(core) == (n.int_digits, Some(f)));
            },
            None => {
                assert(core =~= n.int_digits);
                lemma_split_digits_only(n.int_digits);
            },
        }
        let num = number_of_literal(lit);
        assert(num == n);
        assert(s.drop_first().skip(body.len() as int) =~= rest);
    }
}

/// Lexing the canonical text of a well-formed, escape-free item, followed
/// by a break, yields its canonical tokens followed by whatever the break
/// text lexes to.
pub proof fn lemma_lex_render(v: SpecItem, rest: Seq<char>)
    requires
        v.wf(),
        v.esc_free(),
        lex_break(rest),
    ensures
        spec_lex(spec_render(v) + rest) == cons_tokens(spec_tokens(v), spec_lex(rest)),
    decreases v,
{
    let s = spec_render(v) + rest;
    match v {
        SpecItem::Object(ms) => {
            assert(s[0] == '{');
            assert(s.drop_first() =~= spec_render_members(ms) + seq!['}'] + rest);
            lemma_lex_render_members(ms, rest);
            match spec_lex(rest) {
                Ok(tsr) => {
                    assert(seq![SpecToken::LBrace] + (spec_tokens_members(ms).push(
                        SpecToken::RBrace,
                    ) + tsr) =~= spec_tokens(v) + tsr);
                },
                Err(e) => {},
            }
        },
        SpecItem::Array(es) => {
            assert(s[0] == '[');
            assert(s.drop_first() =~= spec_render_elems(es) + seq![']'] + rest);
            lemma_lex_render_elems(es, rest);
            match spec_lex(rest) {
                Ok(tsr) => {
                    assert(seq![SpecToken::LSquareBracket] + (spec_tokens_elems(es).push(
                        SpecToken::RSquareBracket,
                    ) + tsr) =~= spec_tokens(v) + tsr);
                },
                Err(e) => {},
            }
        },
        SpecItem::String(text) => {
            assert(s[0] == '"');
            assert(s.drop_first() =~= text + seq!['"'] + rest);
            lemma_scan_plain_string(text, rest);
            assert((text + seq!['"'] + rest).skip((text.len() + 1) as int) =~= rest);
            match spec_lex(rest) {
                Ok(tsr) => {
                    assert(seq![SpecToken::String(text)] + tsr =~= spec_tokens(v) + tsr);
                },
                Err(e) => {},
            }
        },
        SpecItem::Number(n) => {
            assert(spec_render(v) == n.text());
            assert(n.text() + rest =~= s);
            lemma_lex_number_text(n, rest);
            match spec_lex(rest) {
                Ok(tsr) => {
                    assert(seq![SpecToken::Number(n)] + tsr =~= spec_tokens(v) + tsr);
                },
                Err(e) => {},
            }
        },
        SpecItem::True => {
            lemma_keyword_chars();
            assert("true"@ + rest =~= s);
            lemma_lex_word("true"@, rest);
            match spec_lex(rest) {
                Ok(tsr) => {
                    assert(seq![SpecToken::True] + tsr =~= spec_tokens(v) + tsr);
                },
                Err(e) => {},
            }
        },
        SpecItem::False => {
            lemma_keyword_chars();
            assert("false"@ + rest =~= s);
            lemma_lex_word("false"@, rest);
            match spec_lex(rest) {
                Ok(tsr) => {
                    assert(seq![SpecToken::False] + tsr =~= spec_tokens(v) + tsr);
                },
                Err(e) => {},
            }
        },
        SpecItem::Null => {
            lemma_keyword_chars();
            assert("null"@ + rest =~= s);
            lemma_lex_word("null"@, rest);
            match spec_lex(rest) {
                Ok(tsr) => {
                    assert(seq![SpecToken::Null] + tsr =~= spec_tokens(v) + tsr);
                },
                Err(e) => {},
            }
        },
    }
}

/// The member analogue of `lemma_lex_render`, closing brace included.
#[verifier::rlimit(80)]
proof fn lemma_lex_render_members(ms: Seq<(Seq<char>, SpecItem)>, rest: Seq<char>)
    requires
        forall|k: int|
            0 <= k < ms.len() ==> plain_text((#[trigger] ms[k]).0) && ms[k].1.wf()
                && ms[k].1.esc_free(),
        lex_break(rest),
    ensures
        spec_lex(spec_render_members(ms) + seq!['}'] + rest) == cons_tokens(
            spec_tokens_members(ms).push(SpecToken::RBrace),
            spec_lex(rest),
        ),
    decreases ms,
{
    let s = spec_render_members(ms) + seq!['}'] + rest;
    if ms.len() == 0 {
        assert(s =~= seq!['}'] + rest);
        assert(s[0] == '}');
        assert(s.drop_first() =~= rest);
        match spec_lex(rest) {
            Ok(tsr) => {
                assert(seq![SpecToken::RBrace] + tsr =~= spec_tokens_members(ms).push(
                    SpecToken::RBrace,
                ) + tsr);
            },
            Err(e) => {},
        }
    } else {
        let key = ms[0].0;
        let v0 = ms[0].1;
        let tail_text: Seq<char> = if ms.len() == 1 {
            seq!['}'] + rest
        } else {
            seq![','] + (spec_render_members(ms.drop_first()) + seq!['}'] + rest)
        };
        let t2 = seq![':'] + spec_render(v0) + tail_text;
        assert(s =~= seq!['"'] + key + seq!['"'] + t2);
        assert(s[0] == '"');
        assert(s.drop_first() =~= key + seq!['"'] + t2);
        lemma_scan_plain_string(key, t2);
        assert((key + seq!['"'] + t2).skip((key.len() + 1) as int) =~= t2);
        assert(t2[0] == ':');
        assert(t2.drop_first() =~= spec_render(v0) + tail_text);
        assert(lex_break(tail_text));
        lemma_lex_render(v0, tail_text);
        if ms.len() == 1 {
            assert(tail_text[0] == '}');
            assert(tail_text.drop_first() =~= rest);
            match spec_lex(rest) {
                Ok(tsr) => {
                    assert(spec_lex(tail_text) == Ok::<Seq<SpecToken>, Seq<char>>(
                        seq![SpecToken::RBrace] + tsr,
                    ));
                    assert(spec_lex(spec_render(v0) + tail_text) == Ok::<
                        Seq<SpecToken>,
                        Seq<char>,
                    >(spec_tokens(v0) + (seq![SpecToken::RBrace] + tsr)));
                    assert(spec_lex(t2) == Ok::<Seq<SpecToken>, Seq<char>>(
                        seq![SpecToken::Colon] + (spec_tokens(v0) + (seq![SpecToken::RBrace]
                            + tsr)),
                    ));
                    assert(spec_lex(s) == Ok::<Seq<SpecToken>, Seq<char>>(
                        seq![SpecToken::String(key)] + (seq![SpecToken::Colon] + (spec_tokens(v0)
                            + (seq![SpecToken::RBrace] + tsr))),
                    ));
                    assert(seq![SpecToken::String(key)] + (seq![SpecToken::Colon] + (spec_tokens(
                        v0,
                    ) + (seq![SpecToken::RBrace] + tsr))) =~= spec_tokens_members(ms).push(
                        SpecToken::RBrace,
                    ) + tsr);
                },
                Err(e) => {
                    assert(spec_lex(s) == Err::<Seq<SpecToken>, Seq<char>>(e));
                },
            }
        } else {
            let tail = ms.drop_first();
            assert(forall|k: int|
                0 <= k < tail.len() ==> plain_text((#[trigger] tail[k]).0) && tail[k].1.wf()
                    && tail[k].1.esc_free()) by {
                assert(forall|k: int| 0 <= k < tail.len() ==> tail[k] == ms[k + 1]);
            }
            lemma_lex_render_members(tail, rest);
            assert(tail_text[0] == ',');
            assert(tail_text.drop_first() =~= spec_render_members(tail) + seq!['}'] + rest);
            match spec_lex(rest) {
                Ok(tsr) => {
                    assert(spec_lex(tail_text) == Ok::<Seq<SpecToken>, Seq<char>>(
                        seq![SpecToken::Comma] + (spec_tokens_members(tail).push(
                            SpecToken::RBrace,
                        ) + tsr),
                    ));
                    let mid = spec_tokens(v0) + (seq![SpecToken::Comma] + (spec_tokens_members(
                        tail,
                    ).push(SpecToken::RBrace) + tsr));
                    assert(spec_lex(spec_render(v0) + tail_text) == Ok::<
                        Seq<SpecToken>,
                        Seq<char>,
                    >(mid));
                    assert(spec_lex(t2) == Ok::<Seq<SpecToken>, Seq<char>>(
                        seq![SpecToken::Colon] + mid,
                    ));
                    assert(spec_lex(s) == Ok::<Seq<SpecToken>, Seq<char>>(
                        seq![SpecToken::String(key)] + (seq![SpecToken::Colon] + mid),
                    ));
                    assert(seq![SpecToken::String(key)] + (seq![SpecToken::Colon] + mid)
                        =~= spec_tokens_members(ms).push(SpecToken::RBrace) + tsr);
                },
                Err(e) => {
                    assert(spec_lex(s) == Err::<Seq<SpecToken>, Seq<char>>(e));
                },
            }
        }
    }
}

/// The element analogue of `lemma_lex_render`, closing bracket included.
#[verifier::rlimit(80)]
proof fn lemma_lex_render_elems(es: Seq<SpecItem>, rest: Seq<char>)
    requires
        forall|k: int| 0 <= k < es.len() ==> (#[trigger] es[k]).wf() && es[k].esc_free(),
        lex_break(rest),
    ensures
        spec_lex(spec_render_elems(es) + seq![']'] + rest) == cons_tokens(
            spec_tokens_elems(es).push(SpecToken::RSquareBracket),
            spec_lex(rest),
        ),
    decreases es,
{
    let s = spec_render_elems(es) + seq![']'] + rest;
    if es.len() == 0 {
        assert(s =~= seq![']'] + rest);
        assert(s[0] == ']');
        assert(s.drop_first() =~= rest);
        match spec_lex(rest) {
            Ok(tsr) => {
                assert(seq![SpecToken::RSquareBracket] + tsr =~= spec_tokens_elems(es).push(
                    SpecToken::RSquareBracket,
                ) + tsr);
            },
            Err(e) => {},
        }
    } else {
        let v0 = es[0];
        let tail_text: Seq<char> = if es.len() == 1 {
            seq![']'] + rest
        } else {
            seq![','] + (spec_render_elems(es.drop_first()) + seq![']'] + rest)
        };
        assert(s =~= spec_render(v0) + tail_text);
        assert(lex_break(tail_text));
        lemma_lex_render(v0, tail_text);
        if es.len() == 1 {
            assert(tail_text[0] == ']');
            assert(tail_text.drop_first() =~= rest);
            match spec_lex(rest) {
                Ok(tsr) => {
                    assert(spec_lex(tail_text) == Ok::<Seq<SpecToken>, Seq<char>>(
                        seq![SpecToken::RSquareBracket] + tsr,
                    ));
                    assert(spec_tokens(v0) + (seq![SpecToken::RSquareBracket] + tsr)
                        =~= spec_tokens_elems(es).push(SpecToken::RSquareBracket) + tsr);
                },
                Err(e) => {},
            }
        } else {
            let tail = es.drop_first();
            assert(forall|k: int|
                0 <= k < tail.len() ==> (#[trigger] tail[k]).wf() && tail[k].esc_free()) by {
                assert(forall|k: int| 0 <= k < tail.len() ==> tail[k] == es[k + 1]);
            }
            lemma_lex_render_elems(tail, rest);
            assert(tail_text[0] == ',');
            assert(tail_text.drop_first() =~= spec_render_elems(tail) + seq![']'] + rest);
            match spec_lex(rest) {
                Ok(tsr) => {
                    assert(spec_lex(tail_text) == Ok::<Seq<SpecToken>, Seq<char>>(
                        seq![SpecToken::Comma] + (spec_tokens_elems(tail).push(
                            SpecToken::RSquareBracket,
                        ) + tsr),
                    ));
                    assert(spec_tokens(v0) + (seq![SpecToken::Comma] + (spec_tokens_elems(
                        tail,
                    ).push(SpecToken::RSquareBracket) + tsr)) =~= spec_tokens_elems(es).push(
                        SpecToken::RSquareBracket,
                    ) + tsr);
                },
                Err(e) => {},
            }
        }
    }
}

// ---------------------------------------------------------------------------
// Round trip and determinism
// ---------------------------------------------------------------------------

/// Rendering any well-formed, escape-free item and feeding the text back
/// through the whole pipeline returns exactly that item. Items whose
/// strings hold a quote or backslash are the documented exception: their
/// rendering does not re-lex to the same tokens.
pub proof fn lemma_render_parse_round_trip(v: SpecItem)
    requires
        v.wf(),
        v.esc_free(),
    ensures
        crate::spec_parse_text(spec_render(v)) == Ok::<SpecItem, Seq<char>>(v),
{
    lemma_lex_render(v, Seq::<char>::empty());
    assert(spec_render(v) + Seq::<char>::empty() =~= spec_render(v));
    assert(spec_lex(Seq::<char>::empty()) == Ok::<Seq<SpecToken>, Seq<char>>(
        Seq::<SpecToken>::empty(),
    ));
    assert(spec_tokens(v) + Seq::<SpecToken>::empty() =~= spec_tokens(v));
    assert(spec_lex(spec_render(v)) == Ok::<Seq<SpecToken>, Seq<char>>(spec_tokens(v)));
    lemma_parse_canonical(v, spec_tokens(v), 0);
}

/// Parsing is deterministic: the outcome, value or error, is a function of
/// the input text alone, which the contracts of `lex`, `parse` and `render`
/// pin to the spec-level pipeline.
pub proof fn lemma_parse_deterministic(s1: Seq<char>, s2: Seq<char>)
    requires
        s1 == s2,
    ensures
        crate::spec_parse_text(s1) == crate::spec_parse_text(s2),
{
}



// ---------------------------------------------------------------------------
// Every grammar error names what was expected and what was found
// ---------------------------------------------------------------------------

/// The closed set of forms a structural/grammar error can take. Each form
/// spells out, by its definition, what the parser expected there and what
/// it actually found: the offending token by its description, or EOF.
pub open spec fn grammar_error_form(m: Seq<char>) -> bool {
    ||| m == msg_eof_value()
    ||| m == msg_eof_container()
    ||| m == msg_tokens_left()
    ||| exists|t: SpecToken| m == msg_unexpected_token(t)
    ||| exists|t: SpecToken| m == msg_expected_key(t)
    ||| exists|k: Seq<char>| m == msg_dup_key(k)
    ||| exists|e: SpecToken, g: SpecToken| m == msg_expected_got(e, g)
    ||| exists|e: SpecToken| m == msg_expected_eof(e)
}

proof fn lemma_parse_item_errors(ts: Seq<SpecToken>, i: int)
    ensures
        spec_parse_item(ts, i) is Err ==> grammar_error_form(spec_parse_item(ts, i)->Err_0),
    decreases ts.len() - i, 0int,
{
    if 0 <= i < ts.len() {
        match ts[i] {
            SpecToken::LBrace => {
                lemma_parse_members_errors(ts, i + 1, Seq::<(Seq<char>, SpecItem)>::empty());
            },
            SpecToken::LSquareBracket => {
                lemma_parse_elems_errors(ts, i + 1, Seq::<SpecItem>::empty());
            },
            _ => {
                if spec_parse_item(ts, i) is Err {
                    assert(spec_parse_item(ts, i)->Err_0 == msg_unexpected_token(ts[i]));
                }
            },
        }
    }
}

proof fn lemma_parse_members_errors(ts: Seq<SpecToken>, i: int, acc: Seq<(Seq<char>, SpecItem)>)
    ensures
        spec_parse_members(ts, i, acc) is Err ==> grammar_error_form(
            spec_parse_members(ts, i, acc)->Err_0,
        ),
    decreases ts.len() - i, 1int,
{
    if 0 <= i < ts.len() && !(ts[i] matches SpecToken::RBrace) {
        match ts[i] {
            SpecToken::String(key) => {
                if has_key(acc, key) {
                    assert(spec_parse_members(ts, i, acc)->Err_0 == msg_dup_key(key));
                } else if i + 1 >= ts.len() {
                    assert(spec_parse_members(ts, i, acc)->Err_0 == msg_expected_eof(
                        SpecToken::Colon,
                    ));
                } else if !(ts[i + 1] matches SpecToken::Colon) {
                    assert(spec_parse_members(ts, i, acc)->Err_0 == msg_expected_got(
                        SpecToken::Colon,
                        ts[i + 1],
                    ));
                } else {
                    lemma_parse_item_errors(ts, i + 2);
                    match spec_parse_item(ts, i + 2) {
                        Ok((v, j)) => {
                            let acc2 = acc.push((key, v));
                            if !(j <= i + 2 || j > ts.len()) {
                                if !(j < ts.len() && (ts[j] matches SpecToken::RBrace)) {
                                    if j >= ts.len() {
                                        assert(spec_parse_members(ts, i, acc)->Err_0
                                            == msg_expected_eof(SpecToken::Comma));
                                    } else if !(ts[j] matches SpecToken::Comma) {
                                        assert(spec_parse_members(ts, i, acc)->Err_0
                                            == msg_expected_got(SpecToken::Comma, ts[j]));
                                    } else {
                                        lemma_parse_members_errors(ts, j + 1, acc2);
                                    }
                                }
                            }
                        },
                        Err(e) => {},
                    }
                }
            },
            _ => {
                assert(spec_parse_members(ts, i, acc)->Err_0 == msg_expected_key(ts[i]));
            },
        }
    }
}

proof fn lemma_parse_elems_errors(ts: Seq<SpecToken>, i: int, acc: Seq<SpecItem>)
    ensures
        spec_parse_elems(ts, i, acc) is Err ==> grammar_error_form(
            spec_parse_elems(ts, i, acc)->Err_0,
        ),
    decreases ts.len() - i, 2int,
{
    if 0 <= i < ts.len() && !(ts[i] matches SpecToken::RSquareBracket) {
        lemma_parse_item_errors(ts, i);
        match spec_parse_item(ts, i) {
            Ok((v, j)) => {
                let acc2 = acc.push(v);
                if !(j <= i || j > ts.len()) {
                    if !(j < ts.len() && (ts[j] matches SpecToken::RSquareBracket)) {
                        if j >= ts.len() {
                            assert(spec_parse_elems(ts, i, acc)->Err_0 == msg_expected_eof(
                                SpecToken::Comma,
                            ));
                        } else if !(ts[j] matches SpecToken::Comma) {
                            assert(spec_parse_elems(ts, i, acc)->Err_0 == msg_expected_got(
                                SpecToken::Comma,
                                ts[j],
                            ));
                        } else {
                            lemma_parse_elems_errors(ts, j + 1, acc2);
                        }
                    }
                }
            },
            Err(e) => {},
        }
    }
}

/// Whenever the parser fails, its message takes one of the forms above, so
/// it names the expected token and the found token (or EOF).
pub proof fn lemma_parse_errors_named(ts: Seq<SpecToken>)
    ensures
        spec_parse(ts) is Err ==> grammar_error_form(spec_parse(ts)->Err_0),
{
    lemma_parse_item_errors(ts, 0);
}

} // verus!
