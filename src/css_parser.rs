//! Stylesheets: their data model and a parser for a small subset of CSS.
use vstd::prelude::*;

use crate::cursor::{
    lemma_skip_skip,
    at_end, bytes_of, char_at, chars_before, consume_char_at, consume_until_at, consume_while_at,
    consume_whitespace_at, expect_at, lemma_end, lemma_later_shorter, lemma_run_len,
    lemma_run_len_bounds, lemma_start, on_boundary, rest_of, run_len, starts_with_at, utf8_len,
};
use crate::sorting::{
    lemma_insert_stable_at, lemma_sort_stable_map, lemma_sort_stable_sorted,
    lemma_sort_stable_step,
    sort_stable, sorted_by, strict_weak_order,
};
use crate::text::is_whitespace;

verus! {

/// An ordered list of rules.
#[derive(Debug, PartialEq)]
pub struct Stylesheet {
    pub rules: Vec<Rule>,
}

/// Selectors, sorted most-specific first, and the declarations they apply.
#[derive(Debug, PartialEq)]
pub struct Rule {
    pub selectors: Vec<Selector>,
    pub declarations: Vec<Declaration>,
}

#[derive(Debug, PartialEq)]
pub enum Selector {
    Simple(SimpleSelector),
}

/// A selector such as `type#id.class1.class2`.
#[derive(Debug, PartialEq)]
pub struct SimpleSelector {
    pub tag_name: Option<String>,
    pub id: Option<String>,
    pub class: Vec<String>,
}

/// One `name: value;` pair.
#[derive(Debug, PartialEq)]
pub struct Declaration {
    pub name: String,
    pub value: Value,
}

#[derive(Debug, PartialEq)]
pub enum Value {
    Keyword(String),
    Length(u32, Unit),
    Colorvalue(Color),
}

#[derive(Debug, PartialEq, Eq, Clone, Copy)]
pub enum Unit {
    Px,
}

#[derive(Debug, PartialEq, Eq, Clone, Copy)]
pub struct Color {
    pub r: u8,
    pub g: u8,
    pub b: u8,
}

impl Clone for Value {
    fn clone(&self) -> (r: Self)
        ensures
            r == *self,
    {
        match self {
            Value::Keyword(s) => Value::Keyword(s.clone()),
            Value::Length(n, u) => Value::Length(*n, *u),
            Value::Colorvalue(c) => Value::Colorvalue(*c),
        }
    }
}

/// (number of ids, number of classes, number of tag names) of a selector.
pub type Specificity = (usize, usize, usize);

/// `a` ranks strictly below `b`: the triples compared lexicographically.
pub open spec fn ranks_below(a: Specificity, b: Specificity) -> bool {
    a.0 < b.0 || (a.0 == b.0 && a.1 < b.1) || (a.0 == b.0 && a.1 == b.1 && a.2 < b.2)
}

/// Whether `a` ranks strictly below `b`.
pub fn specificity_below(a: Specificity, b: Specificity) -> (r: bool)
    ensures
        r == ranks_below(a, b),
{
    a.0 < b.0 || (a.0 == b.0 && a.1 < b.1) || (a.0 == b.0 && a.1 == b.1 && a.2 < b.2)
}

/// Ranking by specificity is a strict total order: irreflexive, transitive,
/// and any two distinct triples are ranked one way or the other, never both.
pub proof fn lemma_specificity_strict_total_order(a: Specificity, b: Specificity, c: Specificity)
    ensures
        !ranks_below(a, a),
        ranks_below(a, b) && ranks_below(b, c) ==> ranks_below(a, c),
        ranks_below(a, b) ==> !ranks_below(b, a),
        a != b ==> ranks_below(a, b) || ranks_below(b, a),
{
}

impl SimpleSelector {
    pub open spec fn spec_specificity(&self) -> Specificity {
        (
            if self.id is Some { 1usize } else { 0usize },
            self.class@.len() as usize,
            if self.tag_name is Some { 1usize } else { 0usize },
        )
    }
}

impl Selector {
    pub open spec fn spec_specificity(&self) -> Specificity {
        match self {
            Selector::Simple(s) => s.spec_specificity(),
        }
    }

    /// The specificity of the selector.
    pub fn specificity(&self) -> (r: Specificity)
        ensures
            r == self.spec_specificity(),
    {
        let Selector::Simple(simple) = self;
        let a: usize = if simple.id.is_some() { 1 } else { 0 };
        let b: usize = simple.class.len();
        let c: usize = if simple.tag_name.is_some() { 1 } else { 0 };
        (a, b, c)
    }
}

/// Parse a whole CSS stylesheet.
///
/// Malformed input does not stop the parser: a delimiter that is missing is
/// passed over, and a list ends where its next item would not advance.
pub fn parse(source: String) -> (r: Stylesheet)
    ensures
        ({
            let rr = read_rules(source@, (source@.len() + 1) as nat);
            &&& r.rules@.len() == rr.len()
            &&& forall|i: int| 0 <= i < rr.len() ==> rule_reads(#[trigger] r.rules@[i], rr[i])
        }),
        forall|i: int|
            0 <= i < r.rules@.len() ==> sorted_by(
                (#[trigger] r.rules@[i]).selectors@,
                |a, b| more_specific(a, b),
            ),
{
    let mut parser = Parser { pos: 0, input: source };
    proof {
        lemma_start(parser.input);
    }
    parser.parse_rules()
}

/// Characters of identifiers.
pub open spec fn is_ident_char(c: char) -> bool {
    ('a' <= c && c <= 'z') || ('A' <= c && c <= 'Z') || ('0' <= c && c <= '9') || c == '-' || c
        == '_'
}

fn ident_char(c: char) -> (r: bool)
    ensures
        r == is_ident_char(c),
{
    ('a' <= c && c <= 'z') || ('A' <= c && c <= 'Z') || ('0' <= c && c <= '9') || c == '-' || c
        == '_'
}

/// ASCII letters, which start a tag name.
pub open spec fn is_letter(c: char) -> bool {
    ('a' <= c && c <= 'z') || ('A' <= c && c <= 'Z')
}

/// An optional string as its characters.
pub open spec fn opt_text(o: Option<String>) -> Option<Seq<char>> {
    match o {
        Some(s) => Some(s@),
        None => None,
    }
}

/// Strings as their characters.
pub open spec fn texts(v: Seq<String>) -> Seq<Seq<char>> {
    v.map_values(|s: String| s@)
}

/// The tag name, id and classes read from the start of `s` on top of those
/// already read, and how many characters are read: `#` and an identifier
/// set the id, `.` and an identifier add a class, an identifier starting
/// with a letter sets the tag name; anything else ends the selector. Each
/// step reads at least one character, so `s.len()` steps suffice.
pub open spec fn scan_selector(
    s: Seq<char>,
    steps: nat,
    tag: Option<Seq<char>>,
    id: Option<Seq<char>>,
    class: Seq<Seq<char>>,
) -> (Option<Seq<char>>, Option<Seq<char>>, Seq<Seq<char>>, int)
    decreases steps,
{
    if steps == 0 || s.len() == 0 {
        (tag, id, class, 0)
    } else if s[0] == '#' || s[0] == '.' {
        let t = s.drop_first();
        let n = run_len(t, |c: char| is_ident_char(c));
        let name = t.take(n);
        let r = if s[0] == '#' {
            scan_selector(t.skip(n), (steps - 1) as nat, tag, Some(name), class)
        } else {
            scan_selector(t.skip(n), (steps - 1) as nat, tag, id, class.push(name))
        };
        (r.0, r.1, r.2, 1 + n + r.3)
    } else if is_letter(s[0]) {
        let n = run_len(s, |c: char| is_ident_char(c));
        let r = scan_selector(s.skip(n), (steps - 1) as nat, Some(s.take(n)), id, class);
        (r.0, r.1, r.2, n + r.3)
    } else {
        (tag, id, class, 0)
    }
}

/// More steps than characters change nothing.
proof fn lemma_scan_steps(
    s: Seq<char>,
    a: nat,
    b: nat,
    tag: Option<Seq<char>>,
    id: Option<Seq<char>>,
    class: Seq<Seq<char>>,
)
    requires
        a >= s.len(),
        b >= s.len(),
    ensures
        scan_selector(s, a, tag, id, class) == scan_selector(s, b, tag, id, class),
        0 <= scan_selector(s, a, tag, id, class).3 <= s.len(),
    decreases s.len(),
{
    if s.len() > 0 {
        if s[0] == '#' || s[0] == '.' {
            let t = s.drop_first();
            let n = run_len(t, |c: char| is_ident_char(c));
            lemma_run_len_bounds(t, |c: char| is_ident_char(c));
            if s[0] == '#' {
                lemma_scan_steps(t.skip(n), (a - 1) as nat, (b - 1) as nat, tag, Some(t.take(n)), class);
            } else {
                lemma_scan_steps(t.skip(n), (a - 1) as nat, (b - 1) as nat, tag, id, class.push(t.take(n)));
            }
        } else if is_letter(s[0]) {
            let n = run_len(s, |c: char| is_ident_char(c));
            lemma_run_len_bounds(s, |c: char| is_ident_char(c));
            assert(is_ident_char(s[0]));
            lemma_scan_steps(s.skip(n), (a - 1) as nat, (b - 1) as nat, Some(s.take(n)), id, class);
        }
    }
}

/// A simple selector as its tag name, id and classes.
pub open spec fn selector_view(sel: Selector) -> (Option<Seq<char>>, Option<Seq<char>>, Seq<Seq<char>>) {
    match sel {
        Selector::Simple(s) => (opt_text(s.tag_name), opt_text(s.id), texts(s.class@)),
    }
}

pub open spec fn selector_views(v: Seq<Selector>) -> Seq<(Option<Seq<char>>, Option<Seq<char>>, Seq<Seq<char>>)> {
    v.map_values(|x: Selector| selector_view(x))
}

/// The specificity of a selector given as tag name, id and classes.
pub open spec fn view_specificity(m: (Option<Seq<char>>, Option<Seq<char>>, Seq<Seq<char>>)) -> Specificity {
    (
        if m.1 is Some { 1usize } else { 0usize },
        m.2.len() as usize,
        if m.0 is Some { 1usize } else { 0usize },
    )
}

/// `a` is strictly more specific than `b`.
pub open spec fn view_more_specific(
    a: (Option<Seq<char>>, Option<Seq<char>>, Seq<Seq<char>>),
    b: (Option<Seq<char>>, Option<Seq<char>>, Seq<Seq<char>>),
) -> bool {
    ranks_below(view_specificity(b), view_specificity(a))
}

/// The selectors of a comma-separated list at the start of `s`, as
/// written, and how many characters the list takes: each simple selector
/// and the white space after it; a comma and the white space after it lead
/// to the next one. Every step past the first reads a comma, so
/// `s.len() + 1` steps suffice.
pub open spec fn scan_selector_list(s: Seq<char>, steps: nat) -> (
    Seq<(Option<Seq<char>>, Option<Seq<char>>, Seq<Seq<char>>)>,
    int,
)
    decreases steps,
{
    let m = scan_selector(s, s.len(), None, None, Seq::empty());
    let s1 = s.skip(m.3);
    let w = run_len(s1, |c: char| is_whitespace(c));
    let s2 = s1.skip(w);
    let item = (m.0, m.1, m.2);
    if steps <= 1 || s2.len() == 0 || s2[0] != ',' {
        (seq![item], m.3 + w)
    } else {
        let s3 = s2.drop_first();
        let w2 = run_len(s3, |c: char| is_whitespace(c));
        let r = scan_selector_list(s3.skip(w2), (steps - 1) as nat);
        (seq![item] + r.0, m.3 + w + 1 + w2 + r.1)
    }
}

/// A value as its parts: a keyword's characters, a length, a color.
pub enum ValueView {
    Keyword(Seq<char>),
    Length(u32),
    Color(Color),
}

pub open spec fn value_view(v: Value) -> ValueView {
    match v {
        Value::Keyword(k) => ValueView::Keyword(k@),
        Value::Length(n, _) => ValueView::Length(n),
        Value::Colorvalue(c) => ValueView::Color(c),
    }
}

/// A declaration as its name and value.
pub open spec fn declaration_view(d: Declaration) -> (Seq<char>, ValueView) {
    (d.name@, value_view(d.value))
}

pub open spec fn declaration_views(v: Seq<Declaration>) -> Seq<(Seq<char>, ValueView)> {
    v.map_values(|d: Declaration| declaration_view(d))
}

/// One hexadecimal digit at the start of `s`: its value and one character
/// read, or zero and nothing read.
pub open spec fn read_hex(s: Seq<char>) -> (int, int) {
    if s.len() > 0 && hex_value(s[0]) is Some {
        (hex_value(s[0])->0, 1)
    } else {
        (0, 0)
    }
}

/// The color of the six hexadecimal digits at the start of `t`, digits
/// that are missing counting as zero, and how many characters are read.
pub open spec fn read_color(t: Seq<char>) -> (Color, int) {
    let (a, n1) = read_hex(t);
    let t1 = t.skip(n1);
    let (b, n2) = read_hex(t1);
    let t2 = t1.skip(n2);
    let (c, n3) = read_hex(t2);
    let t3 = t2.skip(n3);
    let (d, n4) = read_hex(t3);
    let t4 = t3.skip(n4);
    let (e, n5) = read_hex(t4);
    let t5 = t4.skip(n5);
    let (f, n6) = read_hex(t5);
    (
        Color { r: (a * 16 + b) as u8, g: (c * 16 + d) as u8, b: (e * 16 + f) as u8 },
        n1 + n2 + n3 + n4 + n5 + n6,
    )
}

/// The length at the start of `s`: its digits, then `px` if it follows.
pub open spec fn read_length(s: Seq<char>) -> (u32, int) {
    let k = run_len(s, |c: char| is_digit(c));
    let after = s.skip(k);
    let unit = if after.len() >= 2 && after[0] == 'p' && after[1] == 'x' {
        2int
    } else {
        0int
    };
    (decimal(s.take(k)) as u32, k + unit)
}

/// The value at the start of `s`: a color after `#`, a length after a
/// digit, else a keyword; and how many characters it takes.
pub open spec fn read_value(s: Seq<char>) -> (ValueView, int) {
    if s.len() > 0 && s[0] == '#' {
        let c = read_color(s.drop_first());
        (ValueView::Color(c.0), 1 + c.1)
    } else if s.len() > 0 && is_digit(s[0]) {
        let l = read_length(s);
        (ValueView::Length(l.0), l.1)
    } else {
        let k = run_len(s, |c: char| is_ident_char(c));
        (ValueView::Keyword(s.take(k)), k)
    }
}

/// The declaration at the start of `s`: a name, `:` if present, white
/// space, a value, `;` if present; and how many characters it takes.
pub open spec fn read_declaration(s: Seq<char>) -> (Seq<char>, ValueView, int) {
    let n = run_len(s, |c: char| is_ident_char(c));
    let s1 = s.skip(n);
    let c1 = if s1.len() > 0 && s1[0] == ':' {
        1int
    } else {
        0int
    };
    let s2 = s1.skip(c1);
    let w = run_len(s2, |c: char| is_whitespace(c));
    let s3 = s2.skip(w);
    let v = read_value(s3);
    let s4 = s3.skip(v.1);
    let c4 = if s4.len() > 0 && s4[0] == ';' {
        1int
    } else {
        0int
    };
    (s.take(n), v.0, n + c1 + w + v.1 + c4)
}

/// The declarations at the start of `s` and how many characters they take:
/// white space, then a declaration unless at the end or at `}`, again until
/// a declaration would read nothing.
pub open spec fn read_declarations(s: Seq<char>, steps: nat) -> (Seq<(Seq<char>, ValueView)>, int)
    decreases steps,
{
    let w = run_len(s, |c: char| is_whitespace(c));
    let s1 = s.skip(w);
    if steps == 0 || s1.len() == 0 || s1[0] == '}' {
        (Seq::empty(), w)
    } else {
        let d = read_declaration(s1);
        if d.2 == 0 {
            (Seq::empty(), w)
        } else {
            let r = read_declarations(s1.skip(d.2), (steps - 1) as nat);
            (seq![(d.0, d.1)] + r.0, w + d.2 + r.1)
        }
    }
}

/// The rule at the start of `s`: its selectors as written, its
/// declarations, and how many characters it takes, with the braces and the
/// white space after each brace.
pub open spec fn read_rule(s: Seq<char>) -> (
    Seq<(Option<Seq<char>>, Option<Seq<char>>, Seq<Seq<char>>)>,
    Seq<(Seq<char>, ValueView)>,
    int,
) {
    let l = scan_selector_list(s, (s.len() + 1) as nat);
    let s1 = s.skip(l.1);
    let c1 = if s1.len() > 0 && s1[0] == '{' {
        1int
    } else {
        0int
    };
    let s2 = s1.skip(c1);
    let w = run_len(s2, |c: char| is_whitespace(c));
    let s3 = s2.skip(w);
    let d = read_declarations(s3, (s3.len() + 1) as nat);
    let s4 = s3.skip(d.1);
    let c4 = if s4.len() > 0 && s4[0] == '}' {
        1int
    } else {
        0int
    };
    let s5 = s4.skip(c4);
    let w5 = run_len(s5, |c: char| is_whitespace(c));
    (l.0, d.0, l.1 + c1 + w + d.1 + c4 + w5)
}

/// The rules of a stylesheet `s`: white space, then a rule unless at the
/// end, again until a rule would read nothing.
pub open spec fn read_rules(s: Seq<char>, steps: nat) -> Seq<
    (Seq<(Option<Seq<char>>, Option<Seq<char>>, Seq<Seq<char>>)>, Seq<(Seq<char>, ValueView)>),
>
    decreases steps,
{
    let w = run_len(s, |c: char| is_whitespace(c));
    let s1 = s.skip(w);
    if steps == 0 || s1.len() == 0 {
        Seq::empty()
    } else {
        let r = read_rule(s1);
        if r.2 == 0 {
            Seq::empty()
        } else {
            seq![(r.0, r.1)] + read_rules(s1.skip(r.2), (steps - 1) as nat)
        }
    }
}

/// `rule` holds what `written` describes: the selectors, sorted most
/// specific first, and the declarations.
pub open spec fn rule_reads(
    rule: Rule,
    written: (Seq<(Option<Seq<char>>, Option<Seq<char>>, Seq<Seq<char>>)>, Seq<(Seq<char>, ValueView)>),
) -> bool {
    &&& selector_views(rule.selectors@) == sort_stable(written.0, |a, b| view_more_specific(a, b))
    &&& declaration_views(rule.declarations@) == written.1
}

proof fn lemma_read_value_bounds(s: Seq<char>)
    ensures
        0 <= read_value(s).1 <= s.len(),
{
    lemma_run_len_bounds(s, |c: char| is_ident_char(c));
    lemma_run_len_bounds(s, |c: char| is_digit(c));
}

proof fn lemma_read_declaration_bounds(s: Seq<char>)
    ensures
        0 <= read_declaration(s).2 <= s.len(),
{
    let n = run_len(s, |c: char| is_ident_char(c));
    lemma_run_len_bounds(s, |c: char| is_ident_char(c));
    let s1 = s.skip(n);
    let c1 = if s1.len() > 0 && s1[0] == ':' { 1int } else { 0int };
    let s2 = s1.skip(c1);
    lemma_run_len_bounds(s2, |c: char| is_whitespace(c));
    let w = run_len(s2, |c: char| is_whitespace(c));
    lemma_read_value_bounds(s2.skip(w));
}

proof fn lemma_scan_list_bounds(s: Seq<char>, steps: nat)
    ensures
        0 <= scan_selector_list(s, steps).1 <= s.len(),
    decreases steps,
{
    lemma_scan_steps(s, s.len(), s.len(), None, None, Seq::empty());
    let m = scan_selector(s, s.len(), None, None, Seq::empty());
    let s1 = s.skip(m.3);
    lemma_run_len_bounds(s1, |c: char| is_whitespace(c));
    let w = run_len(s1, |c: char| is_whitespace(c));
    let s2 = s1.skip(w);
    if !(steps <= 1 || s2.len() == 0 || s2[0] != ',') {
        let s3 = s2.drop_first();
        lemma_run_len_bounds(s3, |c: char| is_whitespace(c));
        let w2 = run_len(s3, |c: char| is_whitespace(c));
        lemma_scan_list_bounds(s3.skip(w2), (steps - 1) as nat);
    }
}

proof fn lemma_read_declarations_bounds(s: Seq<char>, steps: nat)
    ensures
        0 <= read_declarations(s, steps).1 <= s.len(),
    decreases steps,
{
    lemma_run_len_bounds(s, |c: char| is_whitespace(c));
    let w = run_len(s, |c: char| is_whitespace(c));
    let s1 = s.skip(w);
    if !(steps == 0 || s1.len() == 0 || s1[0] == '}') {
        lemma_read_declaration_bounds(s1);
        let d = read_declaration(s1);
        if d.2 != 0 {
            lemma_read_declarations_bounds(s1.skip(d.2), (steps - 1) as nat);
        }
    }
}

/// ASCII decimal digits.
pub open spec fn is_digit(c: char) -> bool {
    '0' <= c && c <= '9'
}

/// The value of a hexadecimal digit, if `c` is one.
pub open spec fn hex_value(c: char) -> Option<int> {
    if '0' <= c && c <= '9' {
        Some(c as int - '0' as int)
    } else if 'a' <= c && c <= 'f' {
        Some(c as int - 'a' as int + 10)
    } else if 'A' <= c && c <= 'F' {
        Some(c as int - 'A' as int + 10)
    } else {
        None
    }
}

/// The decimal number written by the digits `s`, or `u32::MAX` if larger.
pub open spec fn decimal(s: Seq<char>) -> int
    decreases s.len(),
{
    if s.len() == 0 {
        0
    } else {
        let v = decimal(s.drop_last()) * 10 + (s.last() as int - '0' as int);
        if v > u32::MAX {
            u32::MAX as int
        } else {
            v
        }
    }
}

/// Selectors ordered from most to least specific.
pub open spec fn more_specific(a: Selector, b: Selector) -> bool {
    ranks_below(b.spec_specificity(), a.spec_specificity())
}

proof fn lemma_more_specific_order()
    ensures
        strict_weak_order(|a: Selector, b: Selector| more_specific(a, b)),
{
}

/// Stably sort selectors, most specific first.
pub fn sort_selectors(selectors: Vec<Selector>) -> (r: Vec<Selector>)
    ensures
        r@ == sort_stable(selectors@, |a, b| more_specific(a, b)),
{
    let ghost before = |a: Selector, b: Selector| more_specific(a, b);
    let ghost input = selectors@;
    let total = selectors.len();
    let mut rest = selectors;
    let mut out: Vec<Selector> = Vec::new();
    let mut n: usize = 0;
    while rest.len() > 0
        invariant
            n <= input.len(),
            input.len() == total,
            before == (|a: Selector, b: Selector| more_specific(a, b)),
            rest@ == input.skip(n as int),
            out@ == sort_stable(input.take(n as int), before),
        decreases rest@.len(),
    {
        let x = rest.remove(0);
        let sx = x.specificity();
        let mut j: usize = out.len();
        while j > 0 && specificity_below(out[j - 1].specificity(), sx)
            invariant
                j <= out@.len(),
                sx == x.spec_specificity(),
                forall|k: int| j <= k < out@.len() ==> more_specific(x, #[trigger] out@[k]),
            decreases j,
        {
            j = j - 1;
        }
        proof {
            assert forall|k: int| j <= k < out@.len() implies before(x, #[trigger] out@[k]) by {
                assert(more_specific(x, out@[k]));
            }
            if j > 0 {
                assert(!more_specific(x, out@[j - 1]));
            }
            lemma_insert_stable_at(out@, x, before, j as int);
            lemma_sort_stable_step(input, n as int, before);
            assert(input[n as int] == x);
            assert(rest@ =~= input.skip(n + 1));
        }
        out.insert(j, x);
        n = n + 1;
    }
    proof {
        assert(input.take(n as int) =~= input);
    }
    out
}

/// A stylesheet being read.
pub struct Parser {
    /// The byte index of the next character to read.
    pub pos: usize,
    /// The whole input.
    pub input: String,
}

impl Parser {
    /// The position is a character boundary of the input.
    pub open spec fn wf(&self) -> bool {
        on_boundary(self.input, self.pos as int)
    }

    /// What is left to read.
    pub open spec fn rest(&self) -> Seq<char> {
        rest_of(self.input, self.pos as int)
    }

    /// Read the current character without consuming it.
    pub fn next_char(&self) -> (r: char)
        requires
            self.wf(),
            self.rest().len() > 0,
        ensures
            r == self.rest()[0],
    {
        proof {
            lemma_end(self.input, self.pos as int);
        }
        char_at(&self.input, self.pos)
    }

    /// Return true if the next characters start with the given string.
    pub fn starts_with(&self, s: &str) -> (r: bool)
        requires
            self.wf(),
        ensures
            r == (s@.len() <= self.rest().len() && self.rest().take(s@.len() as int) == s@),
    {
        starts_with_at(&self.input, self.pos, s)
    }

    /// Return true if all input is consumed.
    pub fn eof(&self) -> (r: bool)
        ensures
            r == (self.pos >= bytes_of(self.input).len()),
            self.wf() ==> (r == (self.rest().len() == 0)),
    {
        at_end(&self.input, self.pos)
    }

    /// Return the current character, and advance pos to the next character.
    pub fn consume_char(&mut self) -> (r: char)
        requires
            old(self).wf(),
            old(self).rest().len() > 0,
        ensures
            r == old(self).rest()[0],
            final(self).wf(),
            final(self).input == old(self).input,
            final(self).pos == old(self).pos + utf8_len(r),
            final(self).pos > old(self).pos,
            final(self).rest() == old(self).rest().drop_first(),
    {
        consume_char_at(&self.input, &mut self.pos)
    }

    /// Consume characters until `test` returns false.
    pub fn consume_while<F: Fn(char) -> bool>(&mut self, test: F) -> (r: String)
        requires
            old(self).wf(),
            forall|c: char| test.requires((c,)),
        ensures
            final(self).wf(),
            final(self).input == old(self).input,
            final(self).pos >= old(self).pos,
            r@.len() <= old(self).rest().len(),
            r@ == old(self).rest().take(r@.len() as int),
            final(self).rest() == old(self).rest().skip(r@.len() as int),
            forall|j: int| 0 <= j < r@.len() ==> test.ensures((#[trigger] r@[j],), true),
            r@.len() < old(self).rest().len() ==> test.ensures((old(self).rest()[r@.len() as int],), false),
    {
        consume_while_at(&self.input, &mut self.pos, test)
    }

    /// Consume and discard zero or more whitespace characters.
    pub fn consume_whitespace(&mut self)
        requires
            old(self).wf(),
        ensures
            final(self).wf(),
            final(self).input == old(self).input,
            final(self).pos >= old(self).pos,
            final(self).rest() == old(self).rest().skip(
                run_len(old(self).rest(), |c: char| is_whitespace(c)),
            ),
    {
        consume_whitespace_at(&self.input, &mut self.pos)
    }

    /// Consume characters up to the first `stop`, or to the end.
    fn consume_until(&mut self, stop: char) -> (r: String)
        requires
            old(self).wf(),
        ensures
            final(self).wf(),
            final(self).input == old(self).input,
            final(self).pos >= old(self).pos,
            r@ == old(self).rest().take(chars_before(old(self).rest(), stop)),
            final(self).rest() == old(self).rest().skip(chars_before(old(self).rest(), stop)),
    {
        consume_until_at(&self.input, &mut self.pos, stop)
    }

    /// Consume `c` if it is the next character.
    fn expect(&mut self, c: char) -> (r: bool)
        requires
            old(self).wf(),
        ensures
            final(self).wf(),
            final(self).input == old(self).input,
            final(self).pos >= old(self).pos,
            r ==> final(self).pos > old(self).pos,
            r == (old(self).rest().len() > 0 && old(self).rest()[0] == c),
            final(self).rest() == if r {
                old(self).rest().drop_first()
            } else {
                old(self).rest()
            },
    {
        expect_at(&self.input, &mut self.pos, c)
    }

    fn parse_rules(&mut self) -> (r: Stylesheet)
        requires
            old(self).wf(),
        ensures
            final(self).wf(),
            final(self).input == old(self).input,
            ({
                let rr = read_rules(old(self).rest(), (old(self).rest().len() + 1) as nat);
                &&& r.rules@.len() == rr.len()
                &&& forall|i: int| 0 <= i < rr.len() ==> rule_reads(#[trigger] r.rules@[i], rr[i])
            }),
            forall|i: int|
                0 <= i < r.rules@.len() ==> sorted_by(
                    (#[trigger] r.rules@[i]).selectors@,
                    |a, b| more_specific(a, b),
                ),
    {
        let ghost rest0 = self.rest();
        let ghost full = read_rules(rest0, (rest0.len() + 1) as nat);
        let ghost mut steps: nat = (rest0.len() + 1) as nat;
        let mut rules: Vec<Rule> = Vec::new();
        proof {
            assert(full.skip(0) =~= full);
        }
        loop
            invariant_except_break
                full.skip(rules@.len() as int) == read_rules(self.rest(), steps),
            invariant
                self.wf(),
                self.input == old(self).input,
                rest0 == old(self).rest(),
                full == read_rules(rest0, (rest0.len() + 1) as nat),
                steps >= self.rest().len() + 1,
                rules@.len() <= full.len(),
                forall|i: int| 0 <= i < rules@.len() ==> rule_reads(#[trigger] rules@[i], full[i]),
                forall|i: int|
                    0 <= i < rules@.len() ==> sorted_by(
                        (#[trigger] rules@[i]).selectors@,
                        |a, b| more_specific(a, b),
                    ),
            ensures
                rules@.len() == full.len(),
            decreases self.rest().len(),
        {
            let ghost cur = self.rest();
            let ghost mark = self.pos;
            self.consume_whitespace();
            let ghost s1 = self.rest();
            proof {
                lemma_run_len_bounds(cur, |c: char| is_whitespace(c));
            }
            if self.eof() {
                proof {
                    assert(full.skip(rules@.len() as int).len() == 0);
                }
                break;
            }
            let before = self.pos;
            let rule = self.parse_rule();
            let ghost rr = read_rule(s1);
            if self.pos == before {
                proof {
                    assert(rr.2 == 0) by {
                        assert(self.rest().len() == s1.len() - rr.2);
                    }
                    assert(full.skip(rules@.len() as int).len() == 0);
                }
                break;
            }
            proof {
                if rr.2 == 0 {
                    assert(self.rest() =~= s1);
                    lemma_later_shorter(self.input, before as int, self.pos as int);
                }
                lemma_later_shorter(self.input, mark as int, self.pos as int);
                let k = rules@.len() as int;
                assert(full.skip(k)[0] == full[k]);
                assert(full.skip(k + 1) =~= full.skip(k).drop_first());
                steps = (steps - 1) as nat;
            }
            rules.push(rule);
        }
        Stylesheet { rules }
    }

    /// Parse a CSS rule set.
    ///
    /// <rule> := <selectors> "{" <declarations> "}"
    pub fn parse_rule(&mut self) -> (r: Rule)
        requires
            old(self).wf(),
        ensures
            final(self).wf(),
            final(self).input == old(self).input,
            final(self).pos >= old(self).pos,
            sorted_by(r.selectors@, |a, b| more_specific(a, b)),
            ({
                let rr = read_rule(old(self).rest());
                &&& rule_reads(r, (rr.0, rr.1))
                &&& final(self).rest() == old(self).rest().skip(rr.2)
                &&& 0 <= rr.2 <= old(self).rest().len()
            }),
    {
        let ghost s = self.rest();
        let selectors = self.parse_selectors();
        let ghost s1 = self.rest();
        let ghost l = scan_selector_list(s, (s.len() + 1) as nat);
        self.expect('{');
        let ghost s2 = self.rest();
        let ghost c1 = if s1.len() > 0 && s1[0] == '{' { 1int } else { 0int };
        self.consume_whitespace();
        let ghost s3 = self.rest();
        let ghost w = run_len(s2, |c: char| is_whitespace(c));
        proof {
            lemma_scan_list_bounds(s, (s.len() + 1) as nat);
            lemma_skip_skip(s, l.1, c1);
            assert(s1.skip(c1) == s2) by {
                assert(s1.skip(0) =~= s1);
                if c1 == 1 {
                    assert(s1.skip(1) =~= s1.drop_first());
                }
            }
            lemma_run_len_bounds(s2, |c: char| is_whitespace(c));
            lemma_skip_skip(s, l.1 + c1, w);
        }

        let declarations = self.parse_declarations();
        let ghost s4 = self.rest();
        let ghost d = read_declarations(s3, (s3.len() + 1) as nat);
        proof {
            lemma_read_declarations_bounds(s3, (s3.len() + 1) as nat);
            lemma_skip_skip(s, l.1 + c1 + w, d.1);
        }
        self.expect('}');
        let ghost s5 = self.rest();
        let ghost c4 = if s4.len() > 0 && s4[0] == '}' { 1int } else { 0int };
        proof {
            assert(s4.skip(c4) == s5) by {
                assert(s4.skip(0) =~= s4);
                if c4 == 1 {
                    assert(s4.skip(1) =~= s4.drop_first());
                }
            }
            lemma_skip_skip(s, l.1 + c1 + w + d.1, c4);
            lemma_run_len_bounds(s5, |c: char| is_whitespace(c));
        }
        self.consume_whitespace();
        proof {
            let w5 = run_len(s5, |c: char| is_whitespace(c));
            lemma_skip_skip(s, l.1 + c1 + w + d.1 + c4, w5);
        }

        Rule { selectors, declarations }
    }

    /// Parse a comma-separated list of selectors. Returned list is sorted by
    /// specificity.
    ///
    /// <selectors> := <selector> ("," <selector>)*
    pub fn parse_selectors(&mut self) -> (r: Vec<Selector>)
        requires
            old(self).wf(),
        ensures
            final(self).wf(),
            final(self).input == old(self).input,
            final(self).pos >= old(self).pos,
            ({
                let rest = old(self).rest();
                let list = scan_selector_list(rest, (rest.len() + 1) as nat);
                &&& selector_views(r@) == sort_stable(list.0, |a, b| view_more_specific(a, b))
                &&& final(self).rest() == rest.skip(list.1)
            }),
            sorted_by(r@, |a, b| more_specific(a, b)),
    {
        let ghost rest0 = self.rest();
        let ghost full = scan_selector_list(rest0, (rest0.len() + 1) as nat);
        let ghost mut steps: nat = (rest0.len() + 1) as nat;
        let mut selectors: Vec<Selector> = Vec::new();
        proof {
            assert(rest0.skip(0) =~= rest0);
            assert(selector_views(selectors@) + full.0 =~= full.0);
        }
        loop
            invariant_except_break
                full.0 == selector_views(selectors@) + scan_selector_list(self.rest(), steps).0,
                full.1 == rest0.len() - self.rest().len() + scan_selector_list(self.rest(), steps).1,
            invariant
                self.wf(),
                self.input == old(self).input,
                self.pos >= old(self).pos,
                rest0 == old(self).rest(),
                full == scan_selector_list(rest0, (rest0.len() + 1) as nat),
                steps >= self.rest().len() + 1,
                0 <= rest0.len() - self.rest().len(),
                self.rest() == rest0.skip(rest0.len() - self.rest().len()),
            ensures
                selector_views(selectors@) == full.0,
                self.rest() == rest0.skip(full.1),
            decreases self.rest().len(),
        {
            let ghost cur = self.rest();
            let ghost mark = self.pos;
            let sel = self.parse_simple_selector();
            let ghost m = scan_selector(cur, cur.len(), None, None, Seq::empty());
            proof {
                lemma_scan_steps(cur, cur.len(), cur.len(), None, None, Seq::empty());
                assert(self.rest() == cur.skip(m.3));
                lemma_run_len_bounds(cur.skip(m.3), |c: char| is_whitespace(c));
            }
            let ghost views_before = selector_views(selectors@);
            selectors.push(Selector::Simple(sel));
            self.consume_whitespace();
            proof {
                let s1 = cur.skip(m.3);
                let w = run_len(s1, |c: char| is_whitespace(c));
                assert(self.rest() == s1.skip(w));
                assert(s1.skip(w) =~= cur.skip(m.3 + w));
                assert(selector_views(selectors@) =~= views_before.push((m.0, m.1, m.2)));
                assert(cur.skip(m.3 + w) =~= rest0.skip(rest0.len() - self.rest().len()));
            }
            if self.eof() || self.next_char() != ',' {
                // A `{` starts the declarations.
                proof {
                    assert(views_before + seq![(m.0, m.1, m.2)] =~= selector_views(selectors@));
                }
                break;
            }
            let ghost s2 = self.rest();
            self.consume_char();
            proof {
                lemma_run_len_bounds(s2.drop_first(), |c: char| is_whitespace(c));
            }
            self.consume_whitespace();
            proof {
                let s3 = s2.drop_first();
                let w2 = run_len(s3, |c: char| is_whitespace(c));
                assert(self.rest() == s3.skip(w2));
                let r = scan_selector_list(s3.skip(w2), (steps - 1) as nat);
                assert(views_before + (seq![(m.0, m.1, m.2)] + r.0) =~= selector_views(selectors@) + r.0);
                assert(s3.skip(w2) =~= rest0.skip(rest0.len() - self.rest().len())) by {
                    assert(s2 =~= rest0.skip(rest0.len() - s2.len()));
                }
                lemma_later_shorter(self.input, mark as int, self.pos as int);
                steps = (steps - 1) as nat;
            }
        }
        let sorted = sort_selectors(selectors);
        proof {
            lemma_more_specific_order();
            lemma_sort_stable_sorted(selectors@, |a, b| more_specific(a, b));
            lemma_sort_stable_map(
                selectors@,
                |a, b| more_specific(a, b),
                |a, b| view_more_specific(a, b),
                |x: Selector| selector_view(x),
            );
        }
        sorted
    }

    /// Parse a simple selector, e.g., `type#id.class1.class2`.
    pub fn parse_simple_selector(&mut self) -> (r: SimpleSelector)
        requires
            old(self).wf(),
        ensures
            final(self).wf(),
            final(self).input == old(self).input,
            final(self).pos >= old(self).pos,
            ({
                let rest = old(self).rest();
                let m = scan_selector(rest, rest.len(), None, None, Seq::empty());
                &&& opt_text(r.tag_name) == m.0
                &&& opt_text(r.id) == m.1
                &&& texts(r.class@) == m.2
                &&& final(self).rest() == rest.skip(m.3)
            }),
    {
        let ghost rest0 = self.rest();
        let ghost full = scan_selector(rest0, rest0.len(), None, None, Seq::empty());
        let mut selector = SimpleSelector { tag_name: None, id: None, class: Vec::new() };
        proof {
            assert(texts(selector.class@) =~= Seq::<Seq<char>>::empty());
            assert(rest0.skip(0) =~= rest0);
        }
        while !self.eof()
            invariant
                self.wf(),
                self.input == old(self).input,
                self.pos >= old(self).pos,
                rest0 == old(self).rest(),
                full == scan_selector(rest0, rest0.len(), None, None, Seq::empty()),
                0 <= rest0.len() - self.rest().len(),
                self.rest() == rest0.skip(rest0.len() - self.rest().len()),
                ({
                    let cur = scan_selector(
                        self.rest(),
                        self.rest().len(),
                        opt_text(selector.tag_name),
                        opt_text(selector.id),
                        texts(selector.class@),
                    );
                    &&& full.0 == cur.0
                    &&& full.1 == cur.1
                    &&& full.2 == cur.2
                    &&& full.3 == rest0.len() - self.rest().len() + cur.3
                }),
            ensures
                scan_selector(
                    self.rest(),
                    self.rest().len(),
                    opt_text(selector.tag_name),
                    opt_text(selector.id),
                    texts(selector.class@),
                ) == (opt_text(selector.tag_name), opt_text(selector.id), texts(selector.class@), 0int),
            decreases self.rest().len(),
        {
            let c = self.next_char();
            let ghost mark = self.pos;
            let ghost s = self.rest();
            let ghost st = (opt_text(selector.tag_name), opt_text(selector.id), texts(selector.class@));
            if c == '#' || c == '.' {
                self.consume_char();
                let name = self.parse_identifier();
                proof {
                    let t = s.drop_first();
                    let n = run_len(t, |c: char| is_ident_char(c));
                    lemma_run_len_bounds(t, |c: char| is_ident_char(c));
                    assert(self.rest() == t.skip(n));
                    if c == '#' {
                        lemma_scan_steps(t.skip(n), (s.len() - 1) as nat, self.rest().len(), st.0, Some(name@), st.2);
                    } else {
                        lemma_scan_steps(t.skip(n), (s.len() - 1) as nat, self.rest().len(), st.0, st.1, st.2.push(name@));
                        assert(texts(selector.class@.push(name)) =~= st.2.push(name@));
                    }
                    assert(rest0.skip(rest0.len() - s.len()).drop_first().skip(n) =~= rest0.skip(rest0.len() - self.rest().len()));
                }
                if c == '#' {
                    selector.id = Some(name);
                } else {
                    selector.class.push(name);
                }
            } else if ('a' <= c && c <= 'z') || ('A' <= c && c <= 'Z') {
                let name = self.parse_identifier();
                proof {
                    let n = run_len(s, |c: char| is_ident_char(c));
                    lemma_run_len_bounds(s, |c: char| is_ident_char(c));
                    assert(is_ident_char(s[0]));
                    lemma_scan_steps(s.skip(n), (s.len() - 1) as nat, self.rest().len(), Some(name@), st.1, st.2);
                    assert(rest0.skip(rest0.len() - s.len()).skip(n) =~= rest0.skip(rest0.len() - self.rest().len()));
                }
                selector.tag_name = Some(name);
            } else {
                break;
            }
            proof {
                lemma_later_shorter(self.input, mark as int, self.pos as int);
            }
        }
        selector
    }

    /// Parse a list of declarations.
    ///
    /// <declarations> := <declaration>*
    pub fn parse_declarations(&mut self) -> (r: Vec<Declaration>)
        requires
            old(self).wf(),
        ensures
            final(self).wf(),
            final(self).input == old(self).input,
            final(self).pos >= old(self).pos,
            ({
                let rest = old(self).rest();
                let d = read_declarations(rest, (rest.len() + 1) as nat);
                &&& declaration_views(r@) == d.0
                &&& final(self).rest() == rest.skip(d.1)
            }),
    {
        let ghost rest0 = self.rest();
        let ghost full = read_declarations(rest0, (rest0.len() + 1) as nat);
        let ghost mut steps: nat = (rest0.len() + 1) as nat;
        let mut decls: Vec<Declaration> = Vec::new();
        proof {
            assert(rest0.skip(0) =~= rest0);
            assert(declaration_views(decls@) + full.0 =~= full.0);
        }
        loop
            invariant_except_break
                full.0 == declaration_views(decls@) + read_declarations(self.rest(), steps).0,
                full.1 == rest0.len() - self.rest().len() + read_declarations(self.rest(), steps).1,
            invariant
                self.wf(),
                self.input == old(self).input,
                self.pos >= old(self).pos,
                rest0 == old(self).rest(),
                full == read_declarations(rest0, (rest0.len() + 1) as nat),
                steps >= self.rest().len() + 1,
                0 <= rest0.len() - self.rest().len(),
                self.rest() == rest0.skip(rest0.len() - self.rest().len()),
            ensures
                declaration_views(decls@) == full.0,
                self.rest() == rest0.skip(full.1),
            decreases self.rest().len(),
        {
            let ghost cur = self.rest();
            let ghost mark = self.pos;
            let ghost views_before = declaration_views(decls@);
            self.consume_whitespace();
            let ghost s1 = self.rest();
            let ghost w = run_len(cur, |c: char| is_whitespace(c));
            proof {
                lemma_run_len_bounds(cur, |c: char| is_whitespace(c));
                lemma_skip_skip(rest0, rest0.len() - cur.len(), w);
                assert(views_before + Seq::<(Seq<char>, ValueView)>::empty() =~= views_before);
            }
            if self.eof() || self.next_char() == '}' {
                break;
            }
            let before = self.pos;
            let decl = self.parse_declaration();
            let ghost d = read_declaration(s1);
            proof {
                lemma_read_declaration_bounds(s1);
                lemma_skip_skip(rest0, rest0.len() - s1.len(), d.2);
            }
            if self.pos == before {
                proof {
                    assert(d.2 == 0);
                }
                break;
            }
            proof {
                if d.2 == 0 {
                    assert(self.rest() =~= s1);
                    lemma_later_shorter(self.input, before as int, self.pos as int);
                }
                lemma_later_shorter(self.input, mark as int, self.pos as int);
                let r = read_declarations(s1.skip(d.2), (steps - 1) as nat);
                assert(views_before + (seq![(d.0, d.1)] + r.0) =~= views_before.push(
                    declaration_view(decl),
                ) + r.0);
                steps = (steps - 1) as nat;
            }
            decls.push(decl);
            proof {
                assert(declaration_views(decls@) =~= views_before.push(declaration_view(decl)));
            }
        }
        decls
    }

    /// Parse a declaration.
    ///
    /// <declaration> := ident ":" <value> ";"
    /// <value>       := <color> | <length> | ident
    pub fn parse_declaration(&mut self) -> (r: Declaration)
        requires
            old(self).wf(),
        ensures
            final(self).wf(),
            final(self).input == old(self).input,
            final(self).pos >= old(self).pos,
            ({
                let d = read_declaration(old(self).rest());
                &&& declaration_view(r) == (d.0, d.1)
                &&& final(self).rest() == old(self).rest().skip(d.2)
            }),
    {
        let ghost s = self.rest();
        let name = self.parse_identifier();
        let ghost s1 = self.rest();
        self.expect(':');
        let ghost s2 = self.rest();
        self.consume_whitespace();
        let ghost s3 = self.rest();
        let ghost n = run_len(s, |c: char| is_ident_char(c));
        let ghost c1 = if s1.len() > 0 && s1[0] == ':' { 1int } else { 0int };
        let ghost w = run_len(s2, |c: char| is_whitespace(c));
        proof {
            lemma_run_len_bounds(s, |c: char| is_ident_char(c));
            lemma_skip_skip(s, n, c1);
            assert(s1.skip(c1) == s2) by {
                assert(s1.skip(0) =~= s1);
                if c1 == 1 {
                    assert(s1.skip(1) =~= s1.drop_first());
                }
            }
            lemma_run_len_bounds(s2, |c: char| is_whitespace(c));
            lemma_skip_skip(s, n + c1, w);
        }

        let value = if self.eof() {
            Value::Keyword(self.parse_identifier())
        } else {
            let c = self.next_char();
            if c == '#' {
                self.parse_color()
            } else if '0' <= c && c <= '9' {
                self.parse_length()
            } else {
                Value::Keyword(self.parse_identifier())
            }
        };
        let ghost s4 = self.rest();
        let ghost v = read_value(s3);
        proof {
            assert(value_view(value) == v.0);
            assert(s4 == s3.skip(v.1));
            lemma_read_value_bounds(s3);
            lemma_skip_skip(s, n + c1 + w, v.1);
        }
        self.expect(';');
        proof {
            let c4 = if s4.len() > 0 && s4[0] == ';' { 1int } else { 0int };
            assert(self.rest() == s4.skip(c4)) by {
                assert(s4.skip(0) =~= s4);
                if c4 == 1 {
                    assert(s4.skip(1) =~= s4.drop_first());
                }
            }
            lemma_skip_skip(s, n + c1 + w + v.1, c4);
        }

        Declaration { name, value }
    }

    /// The value of the next character if it is a hexadecimal digit, which
    /// is then consumed; otherwise zero, and nothing is consumed.
    fn parse_hex_digit(&mut self) -> (r: u8)
        requires
            old(self).wf(),
        ensures
            final(self).wf(),
            final(self).input == old(self).input,
            final(self).pos >= old(self).pos,
            r < 16,
            r as int == read_hex(old(self).rest()).0,
            final(self).rest() == old(self).rest().skip(read_hex(old(self).rest()).1),
    {
        proof {
            assert(self.rest().skip(0) =~= self.rest());
            if self.rest().len() > 0 {
                assert(self.rest().skip(1) =~= self.rest().drop_first());
            }
        }
        if self.eof() {
            return 0;
        }
        let c = self.next_char();
        let v: u32 = c as u32;
        if '0' <= c && c <= '9' {
            self.consume_char();
            (v - ('0' as u32)) as u8
        } else if 'a' <= c && c <= 'f' {
            self.consume_char();
            (v - ('a' as u32) + 10) as u8
        } else if 'A' <= c && c <= 'F' {
            self.consume_char();
            (v - ('A' as u32) + 10) as u8
        } else {
            0
        }
    }

    /// Parse a color, e.g. `#aa2233`. Digits that are missing count as zero.
    pub fn parse_color(&mut self) -> (r: Value)
        requires
            old(self).wf(),
        ensures
            final(self).wf(),
            final(self).input == old(self).input,
            final(self).pos >= old(self).pos,
            old(self).rest().len() > 0 && old(self).rest()[0] == '#' ==> {
                let c = read_color(old(self).rest().drop_first());
                &&& r == Value::Colorvalue(c.0)
                &&& final(self).rest() == old(self).rest().skip(1 + c.1)
            },
    {
        let ghost s = self.rest();
        self.expect('#');
        let ghost t0 = self.rest();
        let r1 = self.parse_hex_digit();
        let ghost t1 = self.rest();
        let r2 = self.parse_hex_digit();
        let ghost t2 = self.rest();
        let g1 = self.parse_hex_digit();
        let ghost t3 = self.rest();
        let g2 = self.parse_hex_digit();
        let ghost t4 = self.rest();
        let b1 = self.parse_hex_digit();
        let ghost t5 = self.rest();
        let b2 = self.parse_hex_digit();
        proof {
            if s.len() > 0 && s[0] == '#' {
                assert(t0 == s.drop_first());
                assert(s.drop_first() =~= s.skip(1));
                let n1 = read_hex(t0).1;
                let n2 = read_hex(t1).1;
                let n3 = read_hex(t2).1;
                let n4 = read_hex(t3).1;
                let n5 = read_hex(t4).1;
                let n6 = read_hex(t5).1;
                lemma_skip_skip(s, 1, n1);
                lemma_skip_skip(s, 1 + n1, n2);
                lemma_skip_skip(s, 1 + n1 + n2, n3);
                lemma_skip_skip(s, 1 + n1 + n2 + n3, n4);
                lemma_skip_skip(s, 1 + n1 + n2 + n3 + n4, n5);
                lemma_skip_skip(s, 1 + n1 + n2 + n3 + n4 + n5, n6);
            }
        }
        Value::Colorvalue(Color { r: r1 * 16 + r2, g: g1 * 16 + g2, b: b1 * 16 + b2 })
    }

    /// Parse a size, e.g. `24px`: the digits give the number, saturating at
    /// `u32::MAX`, and a `px` after them is consumed.
    pub fn parse_length(&mut self) -> (r: Value)
        requires
            old(self).wf(),
        ensures
            final(self).wf(),
            final(self).input == old(self).input,
            final(self).pos >= old(self).pos,
            final(self).rest() == old(self).rest().skip(read_length(old(self).rest()).1),
            r == Value::Length(
                decimal(old(self).rest().take(run_len(old(self).rest(), |c: char| is_digit(c))))
                    as u32,
                Unit::Px,
            ),
    {
        let ghost s = self.rest();
        let mut num: u32 = 0;
        let mut m: usize = 0;
        proof {
            assert(s.skip(0) =~= s);
        }
        while !self.eof() && '0' <= self.next_char() && self.next_char() <= '9'
            invariant
                self.wf(),
                self.input == old(self).input,
                self.pos >= old(self).pos,
                s == old(self).rest(),
                m <= s.len(),
                m <= self.pos - old(self).pos,
                self.rest() == s.skip(m as int),
                forall|j: int| 0 <= j < m ==> is_digit(#[trigger] s[j]),
                num as int == decimal(s.take(m as int)),
            decreases self.rest().len(),
        {
            let c = self.consume_char();
            let d: u64 = (c as u32 - '0' as u32) as u64;
            let v: u64 = num as u64 * 10 + d;
            num = if v > u32::MAX as u64 {
                u32::MAX
            } else {
                v as u32
            };
            proof {
                assert(s[m as int] == c);
                assert(s.take(m + 1).drop_last() =~= s.take(m as int));
                assert(s.skip(m as int).drop_first() =~= s.skip(m + 1));
            }
            m = m + 1;
        }
        proof {
            if m < s.len() {
                assert(self.rest()[0] == s[m as int]);
            }
            lemma_run_len(s, |c: char| is_digit(c), m as int);
        }
        let ghost after = self.rest();
        proof {
            reveal_strlit("px");
            lemma_run_len_bounds(s, |c: char| is_digit(c));
            assert(after == s.skip(m as int));
        }
        if self.starts_with("px") {
            proof {
                assert(after.take(2)[0] == 'p' && after.take(2)[1] == 'x');
            }
            self.consume_char();
            self.consume_char();
            proof {
                assert(after.drop_first().drop_first() =~= s.skip(m + 2));
            }
        } else {
            proof {
                if after.len() >= 2 && after[0] == 'p' && after[1] == 'x' {
                    assert(after.take(2) =~= "px"@);
                }
            }
        }
        Value::Length(num, Unit::Px)
    }

    /// Parse an identifier: letters, digits, `-` and `_`.
    pub fn parse_identifier(&mut self) -> (r: String)
        requires
            old(self).wf(),
        ensures
            final(self).wf(),
            final(self).input == old(self).input,
            final(self).pos >= old(self).pos,
            r@ == old(self).rest().take(run_len(old(self).rest(), |c: char| is_ident_char(c))),
            final(self).rest() == old(self).rest().skip(
                run_len(old(self).rest(), |c: char| is_ident_char(c)),
            ),
            old(self).rest().len() > 0 && is_ident_char(old(self).rest()[0]) ==> final(self).pos
                > old(self).pos,
    {
        let ghost rest0 = self.rest();
        let s = self.consume_while(ident_char);
        proof {
            assert forall|j: int| 0 <= j < s@.len() implies is_ident_char(#[trigger] rest0[j]) by {
                assert(s@[j] == rest0[j]);
                assert(ident_char.ensures((s@[j],), true));
            }
            if s@.len() < rest0.len() {
                assert(ident_char.ensures((rest0[s@.len() as int],), false));
            }
            lemma_run_len(rest0, |c: char| is_ident_char(c), s@.len() as int);
            if rest0.len() > 0 && is_ident_char(rest0[0]) {
                assert(s@.len() > 0);
                assert(self.rest().len() < rest0.len());
            }
        }
        s
    }
}

} // verus!
