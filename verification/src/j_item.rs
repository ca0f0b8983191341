//! The tree value produced by parsing and its canonical text form.
use vstd::prelude::*;
use vstd::string::StringExecFns;

verus! {

// ---------------------------------------------------------------------------
// Mathematical model
// ---------------------------------------------------------------------------

/// Spec-level model of a number literal: an exact decimal, kept as the sign
/// and the digit runs on either side of the optional decimal point.
pub struct SpecNumber {
    pub neg: bool,
    pub int_digits: Seq<char>,
    /// `Some` exactly when the literal contains a decimal point.
    pub frac_digits: Option<Seq<char>>,
}

pub open spec fn is_digit_char(c: char) -> bool {
    '0' <= c && c <= '9'
}

pub open spec fn all_digits(s: Seq<char>) -> bool {
    forall|i: int| 0 <= i < s.len() ==> is_digit_char(#[trigger] s[i])
}

impl SpecNumber {
    /// A number literal is well formed when both digit runs hold only
    /// digits, at least one digit is present somewhere, and an unsigned
    /// literal starts with a digit rather than the decimal point.
    pub open spec fn wf(self) -> bool {
        &&& all_digits(self.int_digits)
        &&& (self.frac_digits is Some ==> all_digits(self.frac_digits.unwrap()))
        &&& (self.int_digits.len() > 0 || (self.frac_digits is Some
            && self.frac_digits.unwrap().len() > 0))
        &&& (!self.neg ==> self.int_digits.len() > 0)
    }

    /// The literal text of the number: sign, integer digits, then the
    /// fractional digits behind a point when the literal carried one.
    pub open spec fn text(self) -> Seq<char> {
        (if self.neg {
            seq!['-']
        } else {
            Seq::<char>::empty()
        }) + self.int_digits + (match self.frac_digits {
            Some(f) => seq!['.'] + f,
            None => Seq::<char>::empty(),
        })
    }
}

/// Spec-level model of a parsed document node.
pub enum SpecItem {
    Object(Seq<(Seq<char>, SpecItem)>),
    String(Seq<char>),
    Array(Seq<SpecItem>),
    Number(SpecNumber),
    True,
    False,
    Null,
}

/// No two members of one object share a key.
pub open spec fn distinct_keys(ms: Seq<(Seq<char>, SpecItem)>) -> bool {
    forall|i: int, j: int| 0 <= i < j < ms.len() ==> ms[i].0 != ms[j].0
}

impl SpecItem {
    /// The parser only ever builds well-formed items: every object has
    /// distinct keys and every number literal holds at least one digit.
    pub open spec fn wf(self) -> bool
        decreases self,
    {
        match self {
            SpecItem::Object(ms) => distinct_keys(ms) && (forall|i: int|
                0 <= i < ms.len() ==> (#[trigger] ms[i]).1.wf()),
            SpecItem::Array(es) => forall|i: int| 0 <= i < es.len() ==> (#[trigger] es[i]).wf(),
            SpecItem::Number(n) => n.wf(),
            _ => true,
        }
    }

    /// No string content or object key holds a quote or a backslash. The
    /// printer copies text verbatim, so only such items re-lex to the exact
    /// same token sequence (the documented round-trip limitation).
    pub open spec fn esc_free(self) -> bool
        decreases self,
    {
        match self {
            SpecItem::Object(ms) => forall|i: int|
                0 <= i < ms.len() ==> plain_text((#[trigger] ms[i]).0) && ms[i].1.esc_free(),
            SpecItem::Array(es) => forall|i: int|
                0 <= i < es.len() ==> (#[trigger] es[i]).esc_free(),
            SpecItem::String(s) => plain_text(s),
            _ => true,
        }
    }
}

/// Text free of quotes and backslashes: it passes through the string
/// scanner unchanged.
pub open spec fn plain_text(s: Seq<char>) -> bool {
    forall|i: int| 0 <= i < s.len() ==> #[trigger] s[i] != '"' && s[i] != '\\'
}

// ---------------------------------------------------------------------------
// Canonical rendering, at the spec level
// ---------------------------------------------------------------------------

/// The canonical text of an item: compact, no whitespace, object members in
/// the order the tree holds them.
pub open spec fn spec_render(v: SpecItem) -> Seq<char>
    decreases v,
{
    match v {
        SpecItem::Object(ms) => seq!['{'] + spec_render_members(ms) + seq!['}'],
        SpecItem::Array(es) => seq!['['] + spec_render_elems(es) + seq![']'],
        SpecItem::String(s) => seq!['"'] + s + seq!['"'],
        SpecItem::Number(n) => n.text(),
        SpecItem::True => "true"@,
        SpecItem::False => "false"@,
        SpecItem::Null => "null"@,
    }
}

/// `"key":value` members joined by commas.
pub open spec fn spec_render_members(ms: Seq<(Seq<char>, SpecItem)>) -> Seq<char>
    decreases ms,
{
    if ms.len() == 0 {
        Seq::<char>::empty()
    } else {
        let first = seq!['"'] + ms[0].0 + seq!['"'] + seq![':'] + spec_render(ms[0].1);
        if ms.len() == 1 {
            first
        } else {
            first + seq![','] + spec_render_members(ms.drop_first())
        }
    }
}

/// Element renderings joined by commas.
pub open spec fn spec_render_elems(es: Seq<SpecItem>) -> Seq<char>
    decreases es,
{
    if es.len() == 0 {
        Seq::<char>::empty()
    } else {
        let first = spec_render(es[0]);
        if es.len() == 1 {
            first
        } else {
            first + seq![','] + spec_render_elems(es.drop_first())
        }
    }
}

// ---------------------------------------------------------------------------
// Executable types
// ---------------------------------------------------------------------------

/// A number literal, kept as an exact decimal: the sign and the digit runs on
/// either side of the optional decimal point. `frac_digits` is `Some` exactly
/// when the literal contained a decimal point.
#[derive(Debug, PartialEq, Eq)]
pub struct JNumber {
    pub neg: bool,
    pub int_digits: String,
    pub frac_digits: Option<String>,
}

impl View for JNumber {
    type V = SpecNumber;

    open spec fn view(&self) -> SpecNumber {
        SpecNumber {
            neg: self.neg,
            int_digits: self.int_digits@,
            frac_digits: match self.frac_digits {
                Some(f) => Some(f@),
                None => None,
            },
        }
    }
}

/// A parsed document node. An object keeps its members in the order the
/// parser inserted them; its keys are distinct (a duplicate is a parse
/// error, never a silent overwrite).
#[derive(Debug, PartialEq, Eq)]
pub enum JItem {
    Object(Vec<(String, JItem)>),
    String(String),
    Array(Vec<JItem>),
    Number(JNumber),
    True,
    False,
    Null,
}

/// The model of an item tree.
pub open spec fn item_view(item: JItem) -> SpecItem
    decreases item,
{
    match item {
        JItem::Object(ms) => SpecItem::Object(member_views(ms@)),
        JItem::String(s) => SpecItem::String(s@),
        JItem::Array(es) => SpecItem::Array(elem_views(es@)),
        JItem::Number(n) => SpecItem::Number(n@),
        JItem::True => SpecItem::True,
        JItem::False => SpecItem::False,
        JItem::Null => SpecItem::Null,
    }
}

pub open spec fn member_views(ms: Seq<(String, JItem)>) -> Seq<(Seq<char>, SpecItem)>
    decreases ms,
{
    if ms.len() == 0 {
        Seq::<(Seq<char>, SpecItem)>::empty()
    } else {
        seq![(ms[0].0@, item_view(ms[0].1))] + member_views(ms.drop_first())
    }
}

pub open spec fn elem_views(es: Seq<JItem>) -> Seq<SpecItem>
    decreases es,
{
    if es.len() == 0 {
        Seq::<SpecItem>::empty()
    } else {
        seq![item_view(es[0])] + elem_views(es.drop_first())
    }
}

impl View for JItem {
    type V = SpecItem;

    open spec fn view(&self) -> SpecItem {
        item_view(*self)
    }
}

/// `member_views` maps the sequence pointwise.
pub proof fn lemma_member_views(ms: Seq<(String, JItem)>)
    ensures
        member_views(ms).len() == ms.len(),
        forall|i: int| 0 <= i < ms.len() ==> member_views(ms)[i] == (ms[i].0@, item_view(
            ms[i].1,
        )),
    decreases ms,
{
    if ms.len() > 0 {
        lemma_member_views(ms.drop_first());
    }
}

/// `elem_views` maps the sequence pointwise.
pub proof fn lemma_elem_views(es: Seq<JItem>)
    ensures
        elem_views(es).len() == es.len(),
        forall|i: int| 0 <= i < es.len() ==> elem_views(es)[i] == item_view(es[i]),
    decreases es,
{
    if es.len() > 0 {
        lemma_elem_views(es.drop_first());
    }
}

// ---------------------------------------------------------------------------
// Text building
// ---------------------------------------------------------------------------

/// Relies on `String::push`: appends the one character at the end of the
/// string and changes nothing else.
#[verifier::external_body]
pub(crate) fn push_char(s: &mut String, c: char)
    ensures
        final(s)@ == old(s)@.push(c),
{
    s.push(c)
}

// ---------------------------------------------------------------------------
// Executable rendering
// ---------------------------------------------------------------------------

/// Appending one element to a rendered element list costs a comma separator
/// unless the list was empty.
pub proof fn lemma_render_elems_push(es: Seq<SpecItem>, e: SpecItem)
    ensures
        spec_render_elems(es.push(e)) == if es.len() == 0 {
            spec_render(e)
        } else {
            spec_render_elems(es) + seq![','] + spec_render(e)
        },
    decreases es,
{
    let pushed = es.push(e);
    if es.len() == 0 {
        assert(pushed.len() == 1);
        assert(pushed[0] == e);
    } else {
        assert(pushed[0] == es[0]);
        assert(pushed.drop_first() =~= es.drop_first().push(e));
        lemma_render_elems_push(es.drop_first(), e);
        if es.len() == 1 {
            assert(es.drop_first().len() == 0);
            assert(spec_render_elems(es) == spec_render(es[0]));
        }
    }
}

/// The member-list analogue of `lemma_render_elems_push`.
pub proof fn lemma_render_members_push(ms: Seq<(Seq<char>, SpecItem)>, m: (Seq<char>, SpecItem))
    ensures
        spec_render_members(ms.push(m)) == if ms.len() == 0 {
            seq!['"'] + m.0 + seq!['"'] + seq![':'] + spec_render(m.1)
        } else {
            spec_render_members(ms) + seq![','] + seq!['"'] + m.0 + seq!['"'] + seq![':']
                + spec_render(m.1)
        },
    decreases ms,
{
    let pushed = ms.push(m);
    if ms.len() == 0 {
        assert(pushed.len() == 1);
        assert(pushed[0] == m);
    } else {
        assert(pushed[0] == ms[0]);
        assert(pushed.drop_first() =~= ms.drop_first().push(m));
        lemma_render_members_push(ms.drop_first(), m);
        if ms.len() == 1 {
            assert(ms.drop_first().len() == 0);
        }
    }
}

/// Renders a number literal back as its exact decimal text.
pub fn render_number(n: &JNumber) -> (s: String)
    ensures
        s@ == n@.text(),
{
    let mut out = String::new();
    if n.neg {
        push_char(&mut out, '-');
    }
    out.append(n.int_digits.as_str());
    match &n.frac_digits {
        Some(f) => {
            push_char(&mut out, '.');
            out.append(f.as_str());
            proof {
                assert(out@ =~= n@.text());
            }
        },
        None => {
            proof {
                assert(out@ =~= n@.text());
            }
        },
    }
    out
}

/// Renders any item as compact text with no whitespace between tokens.
pub fn render(item: &JItem) -> (s: String)
    ensures
        s@ == spec_render(item@),
    decreases item,
{
    match item {
        JItem::Object(members) => fmt_j_object(members),
        JItem::Array(items) => fmt_j_array(items),
        JItem::String(text) => {
            let mut out = String::new();
            push_char(&mut out, '"');
            out.append(text.as_str());
            push_char(&mut out, '"');
            proof {
                assert(out@ =~= seq!['"'] + text@ + seq!['"']);
            }
            out
        },
        JItem::Number(n) => render_number(n),
        JItem::True => String::from_str("true"),
        JItem::False => String::from_str("false"),
        JItem::Null => String::from_str("null"),
    }
}

/// Renders `[` + comma-joined element renderings + `]`.
pub fn fmt_j_array(arr: &Vec<JItem>) -> (s: String)
    ensures
        s@ == spec_render(SpecItem::Array(elem_views(arr@))),
    decreases arr,
{
    let mut out = String::new();
    push_char(&mut out, '[');
    let mut i: usize = 0;
    while i < arr.len()
        invariant
            i <= arr.len(),
            out@ == seq!['['] + spec_render_elems(elem_views(arr@.take(i as int))),
        decreases arr.len() - i,
    {
        if i > 0 {
            push_char(&mut out, ',');
        }
        let piece = render(&arr[i]);
        out.append(piece.as_str());
        proof {
            lemma_elem_views(arr@.take(i as int));
            lemma_elem_views(arr@.take(i + 1 as int));
            assert(elem_views(arr@.take(i + 1 as int)) =~= elem_views(arr@.take(i as int)).push(
                item_view(arr@[i as int]),
            ));
            lemma_render_elems_push(elem_views(arr@.take(i as int)), item_view(arr@[i as int]));
            assert(out@ =~= seq!['['] + spec_render_elems(elem_views(arr@.take(i + 1 as int))));
        }
        i = i + 1;
    }
    push_char(&mut out, ']');
    proof {
        assert(arr@.take(arr@.len() as int) =~= arr@);
        assert(out@ =~= seq!['['] + spec_render_elems(elem_views(arr@)) + seq![']']);
    }
    out
}

/// Renders `{` + comma-joined `"key":value` members + `}`.
pub fn fmt_j_object(members: &Vec<(String, JItem)>) -> (s: String)
    ensures
        s@ == spec_render(SpecItem::Object(member_views(members@))),
    decreases members,
{
    let mut out = String::new();
    push_char(&mut out, '{');
    let mut i: usize = 0;
    while i < members.len()
        invariant
            i <= members.len(),
            out@ == seq!['{'] + spec_render_members(member_views(members@.take(i as int))),
        decreases members.len() - i,
    {
        if i > 0 {
            push_char(&mut out, ',');
        }
        push_char(&mut out, '"');
        out.append(members[i].0.as_str());
        push_char(&mut out, '"');
        push_char(&mut out, ':');
        let piece = render(&members[i].1);
        out.append(piece.as_str());
        proof {
            lemma_member_views(members@.take(i as int));
            lemma_member_views(members@.take(i + 1 as int));
            assert(member_views(members@.take(i + 1 as int)) =~= member_views(
                members@.take(i as int),
            ).push((members@[i as int].0@, item_view(members@[i as int].1))));
            lemma_render_members_push(
                member_views(members@.take(i as int)),
                (members@[i as int].0@, item_view(members@[i as int].1)),
            );
            assert(out@ =~= seq!['{'] + spec_render_members(
                member_views(members@.take(i + 1 as int)),
            ));
        }
        i = i + 1;
    }
    push_char(&mut out, '}');
    proof {
        assert(members@.take(members@.len() as int) =~= members@);
        assert(out@ =~= seq!['{'] + spec_render_members(member_views(members@)) + seq!['}']);
    }
    out
}

} // verus!
