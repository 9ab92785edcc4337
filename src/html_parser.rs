//! A parser for a small subset of HTML: elements with quoted attributes,
//! and text.
//!
//! Malformed input does not stop the parser: a delimiter that is missing is
//! passed over, and a list ends where its next item would not advance.
use vstd::prelude::*;

use crate::cursor::{
    lemma_skip_skip,
    at_end, bytes_of, char_at, chars_before, consume_char_at, consume_until_at, consume_while_at,
    consume_whitespace_at, expect_at, lemma_chars_before_bounds, lemma_end, lemma_later_shorter,
    lemma_run_len, lemma_run_len_bounds, lemma_start, on_boundary, rest_of,
    run_len, starts_with_at, utf8_len,
};
use crate::dom;
use crate::text::is_whitespace;

verus! {

/// Parse an HTML document and return the root element.
pub fn parse(source: String) -> (r: dom::Node)
    ensures
        node_reads(r, NodeView::Element("html"@, Map::empty(), read_nodes(source@).0)),
{
    let mut parser = Parser { pos: 0, input: source };
    proof {
        lemma_start(parser.input);
    }
    let nodes = parser.parse_nodes();
    let attrs = dom::AttrMap::new();
    proof {
        assert(attr_view(attrs) =~= Map::<Seq<char>, Seq<char>>::empty());
    }
    dom::elem("html".to_string(), attrs, nodes)
}

/// Characters of tag and attribute names.
pub open spec fn is_name_char(c: char) -> bool {
    ('a' <= c && c <= 'z') || ('A' <= c && c <= 'Z') || ('0' <= c && c <= '9')
}

fn name_char(c: char) -> (r: bool)
    ensures
        r == is_name_char(c),
{
    ('a' <= c && c <= 'z') || ('A' <= c && c <= 'Z') || ('0' <= c && c <= '9')
}

/// A node as its parts: a text's characters, or an element's tag name,
/// attributes and children.
pub enum NodeView {
    Text(Seq<char>),
    Element(Seq<char>, Map<Seq<char>, Seq<char>>, Seq<NodeView>),
}

/// Attributes as a map of character sequences.
pub open spec fn attr_view(m: dom::AttrMap) -> Map<Seq<char>, Seq<char>> {
    Map::new(|k: Seq<char>| m@.contains_key(k), |k: Seq<char>| m@[k]@)
}

/// `n` is the node that `v` describes.
pub open spec fn node_reads(n: dom::Node, v: NodeView) -> bool
    decreases n,
{
    match v {
        NodeView::Text(t) => n.node_type matches dom::NodeType::Text(x) && x@ == t
            && n.children@.len() == 0,
        NodeView::Element(tag, attrs, children) => {
            &&& n.node_type matches dom::NodeType::Element(e) && e.tag_name@ == tag && attr_view(
                e.attributes,
            ) == attrs
            &&& n.children@.len() == children.len()
            &&& forall|i: int|
                0 <= i < children.len() ==> node_reads(#[trigger] n.children@[i], children[i])
        },
    }
}

/// `nodes` are the nodes that `views` describe, in order.
pub open spec fn nodes_read_as(nodes: Seq<dom::Node>, views: Seq<NodeView>) -> bool {
    &&& nodes.len() == views.len()
    &&& forall|i: int| 0 <= i < views.len() ==> node_reads(#[trigger] nodes[i], views[i])
}

/// The attributes that `pairs` give, later ones replacing earlier ones.
pub open spec fn pairs_map(pairs: Seq<(Seq<char>, Seq<char>)>) -> Map<Seq<char>, Seq<char>>
    decreases pairs.len(),
{
    if pairs.len() == 0 {
        Map::empty()
    } else {
        pairs_map(pairs.drop_last()).insert(pairs.last().0, pairs.last().1)
    }
}

/// A quoted value at the start of `s`: the characters up to the matching
/// quote, and how many characters are read, both quotes included.
pub open spec fn read_attr_value(s: Seq<char>) -> (Seq<char>, int) {
    if s.len() > 0 && (s[0] == '"' || s[0] == '\'') {
        let t = s.drop_first();
        let k = chars_before(t, s[0]);
        let after = t.skip(k);
        let close = if after.len() > 0 && after[0] == s[0] {
            1int
        } else {
            0int
        };
        (t.take(k), 1 + k + close)
    } else {
        (Seq::empty(), 0)
    }
}

/// A `name="value"` pair at the start of `s`, and how many characters it
/// takes.
pub open spec fn read_attr(s: Seq<char>) -> (Seq<char>, Seq<char>, int) {
    let n = run_len(s, |c: char| is_name_char(c));
    let s1 = s.skip(n);
    let c1 = if s1.len() > 0 && s1[0] == '=' {
        1int
    } else {
        0int
    };
    let v = read_attr_value(s1.skip(c1));
    (s.take(n), v.0, n + c1 + v.1)
}

/// The pairs of an attribute list at the start of `s` and how many
/// characters they take: white space, then a pair unless at the end or at
/// `>`, again until a pair would read nothing.
pub open spec fn read_attributes(s: Seq<char>, steps: nat) -> (Seq<(Seq<char>, Seq<char>)>, int)
    decreases steps,
{
    let w = run_len(s, |c: char| is_whitespace(c));
    let s1 = s.skip(w);
    if steps == 0 || s1.len() == 0 || s1[0] == '>' {
        (Seq::empty(), w)
    } else {
        let a = read_attr(s1);
        if a.2 == 0 {
            (Seq::empty(), w)
        } else {
            let r = read_attributes(s1.skip(a.2), (steps - 1) as nat);
            (seq![(a.0, a.1)] + r.0, w + a.2 + r.1)
        }
    }
}

/// `c` if `s` starts with it, else nothing: how many characters that is.
pub open spec fn opt_char(s: Seq<char>, c: char) -> int {
    if s.len() > 0 && s[0] == c {
        1
    } else {
        0
    }
}

/// The sibling nodes at the start of `s` and how many characters they
/// take: white space, then a node unless at the end or at `</`, again.
pub open spec fn read_nodes(s: Seq<char>) -> (Seq<NodeView>, int)
    decreases s.len(), 2int,
{
    let w = run_len(s, |c: char| is_whitespace(c));
    if !(0 <= w <= s.len()) {
        (Seq::empty(), 0)
    } else {
        let s1 = s.skip(w);
        if s1.len() == 0 || (s1.len() >= 2 && s1[0] == '<' && s1[1] == '/') {
            (Seq::empty(), w)
        } else {
            let nd = read_node(s1);
            if !(0 < nd.1 <= s1.len()) {
                (Seq::empty(), w)
            } else {
                let r = read_nodes(s1.skip(nd.1));
                (seq![nd.0] + r.0, w + nd.1 + r.1)
            }
        }
    }
}

/// The node at the start of `s`: an element at `<`, else the text up to
/// the next `<`; and how many characters it takes.
pub open spec fn read_node(s: Seq<char>) -> (NodeView, int)
    decreases s.len(), 1int,
{
    if s.len() > 0 && s[0] == '<' {
        read_element(s)
    } else {
        let k = chars_before(s, '<');
        (NodeView::Text(s.take(k)), k)
    }
}

/// The element at the start of `s`, which starts with `<`: its tag name,
/// attributes, `>`, children, and closing tag; and how many characters it
/// takes. Delimiters that are missing are passed over.
pub open spec fn read_element(s: Seq<char>) -> (NodeView, int)
    decreases s.len(), 0int,
{
    let t = s.drop_first();
    let n = run_len(t, |c: char| is_name_char(c));
    let a = read_attributes(t.skip(n), (t.len() - n + 1) as nat);
    if !(s.len() > 0 && 0 <= n <= t.len() && 0 <= a.1 <= t.len() - n) {
        (NodeView::Text(Seq::empty()), 0)
    } else {
        let s2 = t.skip(n + a.1);
        let c2 = opt_char(s2, '>');
        let s3 = s2.skip(c2);
        let ch = read_nodes(s3);
        if !(0 <= ch.1 <= s3.len()) {
            (NodeView::Text(Seq::empty()), 0)
        } else {
            let s4 = s3.skip(ch.1);
            let c4 = opt_char(s4, '<');
            let s5 = s4.skip(c4);
            let c5 = opt_char(s5, '/');
            let s6 = s5.skip(c5);
            let n6 = run_len(s6, |c: char| is_name_char(c));
            let c7 = if 0 <= n6 <= s6.len() {
                opt_char(s6.skip(n6), '>')
            } else {
                0
            };
            (
                NodeView::Element(t.take(n), pairs_map(a.0), ch.0),
                1 + n + a.1 + c2 + ch.1 + c4 + c5 + n6 + c7,
            )
        }
    }
}

#[derive(Debug)]
pub struct Parser {
    /// The index of the next character that hasn't be processed yet.
    pub pos: usize,
    /// The whole input string.
    pub input: String,
}

impl Parser {
    /// The position is a character boundary of the input.
    pub open spec fn wf(&self) -> bool {
        on_boundary(self.input, self.pos as int)
    }

    /// What is left to read.
    pub open spec fn rest(&self) -> Seq<char> {
        rest_of(self.input, self.pos as int)
    }

    /// Read the current character without consuming it.
    pub fn next_char(&self) -> (r: char)
        requires
            self.wf(),
            self.rest().len() > 0,
        ensures
            r == self.rest()[0],
    {
        proof {
            lemma_end(self.input, self.pos as int);
        }
        char_at(&self.input, self.pos)
    }

    /// Return true if the next characters start with the given string.
    pub fn starts_with(&self, s: &str) -> (r: bool)
        requires
            self.wf(),
        ensures
            r == (s@.len() <= self.rest().len() && self.rest().take(s@.len() as int) == s@),
    {
        starts_with_at(&self.input, self.pos, s)
    }

    /// Return true if all input is consumed.
    pub fn eof(&self) -> (r: bool)
        ensures
            r == (self.pos >= bytes_of(self.input).len()),
            self.wf() ==> (r == (self.rest().len() == 0)),
    {
        at_end(&self.input, self.pos)
    }

    /// Return the current character, and advance pos to the next character.
    pub fn consume_char(&mut self) -> (r: char)
        requires
            old(self).wf(),
            old(self).rest().len() > 0,
        ensures
            r == old(self).rest()[0],
            final(self).wf(),
            final(self).input == old(self).input,
            final(self).pos == old(self).pos + utf8_len(r),
            final(self).pos > old(self).pos,
            final(self).rest() == old(self).rest().drop_first(),
    {
        consume_char_at(&self.input, &mut self.pos)
    }

    /// Consume characters until `test` returns false.
    pub fn consume_while<F: Fn(char) -> bool>(&mut self, test: F) -> (r: String)
        requires
            old(self).wf(),
            forall|c: char| test.requires((c,)),
        ensures
            final(self).wf(),
            final(self).input == old(self).input,
            final(self).pos >= old(self).pos,
            r@.len() <= old(self).rest().len(),
            r@ == old(self).rest().take(r@.len() as int),
            final(self).rest() == old(self).rest().skip(r@.len() as int),
            forall|j: int| 0 <= j < r@.len() ==> test.ensures((#[trigger] r@[j],), true),
            r@.len() < old(self).rest().len() ==> test.ensures((old(self).rest()[r@.len() as int],), false),
    {
        consume_while_at(&self.input, &mut self.pos, test)
    }

    /// Consume and discard zero or more whitespace characters.
    pub fn consume_whitespace(&mut self)
        requires
            old(self).wf(),
        ensures
            final(self).wf(),
            final(self).input == old(self).input,
            final(self).pos >= old(self).pos,
            final(self).rest() == old(self).rest().skip(
                run_len(old(self).rest(), |c: char| is_whitespace(c)),
            ),
    {
        consume_whitespace_at(&self.input, &mut self.pos)
    }

    /// Consume characters up to the first `stop`, or to the end.
    fn consume_until(&mut self, stop: char) -> (r: String)
        requires
            old(self).wf(),
        ensures
            final(self).wf(),
            final(self).input == old(self).input,
            final(self).pos >= old(self).pos,
            r@ == old(self).rest().take(chars_before(old(self).rest(), stop)),
            final(self).rest() == old(self).rest().skip(chars_before(old(self).rest(), stop)),
    {
        consume_until_at(&self.input, &mut self.pos, stop)
    }

    /// Consume `c` if it is the next character.
    fn expect(&mut self, c: char) -> (r: bool)
        requires
            old(self).wf(),
        ensures
            final(self).wf(),
            final(self).input == old(self).input,
            final(self).pos >= old(self).pos,
            r ==> final(self).pos > old(self).pos,
            r == (old(self).rest().len() > 0 && old(self).rest()[0] == c),
            final(self).rest() == if r {
                old(self).rest().drop_first()
            } else {
                old(self).rest()
            },
    {
        expect_at(&self.input, &mut self.pos, c)
    }

    /// Parse a tag or attribute name.
    pub fn parse_tag_name(&mut self) -> (r: String)
        requires
            old(self).wf(),
        ensures
            final(self).wf(),
            final(self).input == old(self).input,
            final(self).pos >= old(self).pos,
            r@ == old(self).rest().take(run_len(old(self).rest(), |c: char| is_name_char(c))),
            final(self).rest() == old(self).rest().skip(
                run_len(old(self).rest(), |c: char| is_name_char(c)),
            ),
    {
        let ghost rest0 = self.rest();
        let s = self.consume_while(name_char);
        proof {
            assert forall|j: int| 0 <= j < s@.len() implies is_name_char(#[trigger] rest0[j]) by {
                assert(s@[j] == rest0[j]);
                assert(name_char.ensures((s@[j],), true));
            }
            if s@.len() < rest0.len() {
                assert(name_char.ensures((rest0[s@.len() as int],), false));
            }
            lemma_run_len(rest0, |c: char| is_name_char(c), s@.len() as int);
        }
        s
    }

    /// Parse a single node.
    pub fn parse_node(&mut self) -> (r: dom::Node)
        requires
            old(self).wf(),
            old(self).rest().len() > 0,
        ensures
            final(self).wf(),
            final(self).input == old(self).input,
            final(self).pos > old(self).pos,
            ({
                let nd = read_node(old(self).rest());
                &&& node_reads(r, nd.0)
                &&& final(self).rest() == old(self).rest().skip(nd.1)
                &&& 0 < nd.1 <= old(self).rest().len()
            }),
        decreases old(self).rest().len(), 1int,
    {
        if self.next_char() == '<' {
            self.parse_element()
        } else {
            let r = self.parse_text();
            proof {
                lemma_chars_before_bounds(old(self).rest(), '<');
            }
            r
        }
    }

    /// Parse a text node: everything up to the next `<`.
    pub fn parse_text(&mut self) -> (r: dom::Node)
        requires
            old(self).wf(),
        ensures
            final(self).wf(),
            final(self).input == old(self).input,
            final(self).pos >= old(self).pos,
            r.children@.len() == 0,
            r.node_type matches dom::NodeType::Text(t) && t@ == old(self).rest().take(
                chars_before(old(self).rest(), '<'),
            ),
            final(self).rest() == old(self).rest().skip(chars_before(old(self).rest(), '<')),
            old(self).rest().len() > 0 && old(self).rest()[0] != '<'
                ==> final(self).pos > old(self).pos,
    {
        let s = self.consume_until('<');
        proof {
            if old(self).rest().len() > 0 && old(self).rest()[0] != '<' {
                lemma_chars_before_bounds(old(self).rest(), '<');
                assert(self.rest().len() < old(self).rest().len());
                assert(self.pos != old(self).pos);
            }
        }
        dom::text(s)
    }

    /// Parse a single element, including its open tag, contents, and closing tag.
    pub fn parse_element(&mut self) -> (r: dom::Node)
        requires
            old(self).wf(),
            old(self).rest().len() > 0,
            old(self).rest()[0] == '<',
        ensures
            final(self).wf(),
            final(self).input == old(self).input,
            final(self).pos > old(self).pos,
            ({
                let el = read_element(old(self).rest());
                &&& node_reads(r, el.0)
                &&& final(self).rest() == old(self).rest().skip(el.1)
                &&& 0 < el.1 <= old(self).rest().len()
            }),
        decreases old(self).rest().len(), 0int,
    {
        let ghost s = self.rest();
        let ghost t = s.drop_first();
        // opening tag
        self.consume_char();
        let tag_name = self.parse_tag_name();
        let ghost n = run_len(t, |c: char| is_name_char(c));
        proof {
            lemma_run_len_bounds(t, |c: char| is_name_char(c));
            assert(t =~= s.skip(1));
            lemma_skip_skip(s, 1, n);
        }
        let attrs = self.parse_attributes();
        let ghost a = read_attributes(t.skip(n), (t.len() - n + 1) as nat);
        proof {
            lemma_skip_skip(s, 1 + n, a.1);
            lemma_skip_skip(t, n, a.1);
        }
        let ghost s2 = self.rest();
        self.expect('>');
        let ghost c2 = opt_char(s2, '>');
        let ghost s3 = self.rest();
        proof {
            assert(s2.skip(0) =~= s2);
            if c2 == 1 {
                assert(s2.skip(1) =~= s2.drop_first());
            }
            lemma_skip_skip(s, 1 + n + a.1, c2);
            lemma_later_shorter(self.input, old(self).pos as int, self.pos as int);
        }

        // contents
        let children = self.parse_nodes();
        let ghost ch = read_nodes(s3);
        let ghost s4 = self.rest();
        proof {
            lemma_skip_skip(s, 1 + n + a.1 + c2, ch.1);
        }

        // closing tag
        self.expect('<');
        let ghost c4 = opt_char(s4, '<');
        let ghost s5 = self.rest();
        proof {
            assert(s4.skip(0) =~= s4);
            if c4 == 1 {
                assert(s4.skip(1) =~= s4.drop_first());
            }
            lemma_skip_skip(s, 1 + n + a.1 + c2 + ch.1, c4);
        }
        self.expect('/');
        let ghost c5 = opt_char(s5, '/');
        let ghost s6 = self.rest();
        proof {
            assert(s5.skip(0) =~= s5);
            if c5 == 1 {
                assert(s5.skip(1) =~= s5.drop_first());
            }
            lemma_skip_skip(s, 1 + n + a.1 + c2 + ch.1 + c4, c5);
        }
        self.parse_tag_name();
        let ghost n6 = run_len(s6, |c: char| is_name_char(c));
        let ghost s7 = self.rest();
        proof {
            lemma_run_len_bounds(s6, |c: char| is_name_char(c));
            lemma_skip_skip(s, 1 + n + a.1 + c2 + ch.1 + c4 + c5, n6);
        }
        self.expect('>');
        proof {
            let c7 = opt_char(s7, '>');
            assert(s7.skip(0) =~= s7);
            if c7 == 1 {
                assert(s7.skip(1) =~= s7.drop_first());
            }
            lemma_skip_skip(s, 1 + n + a.1 + c2 + ch.1 + c4 + c5 + n6, c7);
        }

        dom::elem(tag_name, attrs, children)
    }

    /// Parse a single name="value" pair.
    pub fn parse_attr(&mut self) -> (r: (String, String))
        requires
            old(self).wf(),
        ensures
            final(self).wf(),
            final(self).input == old(self).input,
            final(self).pos >= old(self).pos,
            ({
                let a = read_attr(old(self).rest());
                &&& r.0@ == a.0
                &&& r.1@ == a.1
                &&& final(self).rest() == old(self).rest().skip(a.2)
                &&& 0 <= a.2 <= old(self).rest().len()
            }),
    {
        let ghost s = self.rest();
        let name = self.parse_tag_name();
        let ghost n = run_len(s, |c: char| is_name_char(c));
        let ghost s1 = self.rest();
        proof {
            lemma_run_len_bounds(s, |c: char| is_name_char(c));
        }
        self.expect('=');
        let ghost c1 = opt_char(s1, '=');
        proof {
            assert(s1.skip(0) =~= s1);
            if c1 == 1 {
                assert(s1.skip(1) =~= s1.drop_first());
            }
            lemma_skip_skip(s, n, c1);
        }
        let ghost s2 = self.rest();
        let value = self.parse_attr_value();
        proof {
            lemma_skip_skip(s, n + c1, read_attr_value(s2).1);
        }
        (name, value)
    }

    /// Parse a quoted value: the characters up to the matching quote.
    pub fn parse_attr_value(&mut self) -> (r: String)
        requires
            old(self).wf(),
        ensures
            final(self).wf(),
            final(self).input == old(self).input,
            final(self).pos >= old(self).pos,
            ({
                let v = read_attr_value(old(self).rest());
                &&& r@ == v.0
                &&& final(self).rest() == old(self).rest().skip(v.1)
                &&& 0 <= v.1 <= old(self).rest().len()
            }),
    {
        let ghost s = self.rest();
        proof {
            assert(s.skip(0) =~= s);
        }
        if self.eof() {
            return String::new();
        }
        let open_quote = self.next_char();
        if open_quote != '"' && open_quote != '\'' {
            return String::new();
        }
        self.consume_char();
        let ghost t = self.rest();
        let value = self.consume_until(open_quote);
        let ghost k = chars_before(t, open_quote);
        let ghost after = self.rest();
        proof {
            lemma_chars_before_bounds(t, open_quote);
            assert(t =~= s.skip(1));
            lemma_skip_skip(s, 1, k);
        }
        self.expect(open_quote);
        proof {
            let close = opt_char(after, open_quote);
            assert(after.skip(0) =~= after);
            if close == 1 {
                assert(after.skip(1) =~= after.drop_first());
            }
            lemma_skip_skip(s, 1 + k, close);
        }
        value
    }

    /// Parse a list of name="value" pairs, separated by whitespace.
    pub fn parse_attributes(&mut self) -> (r: dom::AttrMap)
        requires
            old(self).wf(),
        ensures
            final(self).wf(),
            final(self).input == old(self).input,
            final(self).pos >= old(self).pos,
            ({
                let rest = old(self).rest();
                let a = read_attributes(rest, (rest.len() + 1) as nat);
                &&& attr_view(r) == pairs_map(a.0)
                &&& final(self).rest() == rest.skip(a.1)
                &&& 0 <= a.1 <= rest.len()
            }),
    {
        let ghost rest0 = self.rest();
        let ghost full = read_attributes(rest0, (rest0.len() + 1) as nat);
        let ghost mut steps: nat = (rest0.len() + 1) as nat;
        let ghost mut done: Seq<(Seq<char>, Seq<char>)> = Seq::empty();
        let mut attrs = dom::AttrMap::new();
        proof {
            assert(rest0.skip(0) =~= rest0);
            assert(done + full.0 =~= full.0);
            assert(attr_view(attrs) =~= pairs_map(done));
        }
        loop
            invariant_except_break
                full.0 == done + read_attributes(self.rest(), steps).0,
                full.1 == rest0.len() - self.rest().len() + read_attributes(self.rest(), steps).1,
            invariant
                self.wf(),
                self.input == old(self).input,
                self.pos >= old(self).pos,
                rest0 == old(self).rest(),
                full == read_attributes(rest0, (rest0.len() + 1) as nat),
                steps >= self.rest().len() + 1,
                0 <= rest0.len() - self.rest().len(),
                self.rest() == rest0.skip(rest0.len() - self.rest().len()),
                attr_view(attrs) == pairs_map(done),
            ensures
                done == full.0,
                self.rest() == rest0.skip(full.1),
                0 <= full.1 <= rest0.len(),
            decreases self.rest().len(),
        {
            let ghost cur = self.rest();
            let ghost mark = self.pos;
            self.consume_whitespace();
            let ghost s1 = self.rest();
            let ghost w = run_len(cur, |c: char| is_whitespace(c));
            proof {
                lemma_run_len_bounds(cur, |c: char| is_whitespace(c));
                lemma_skip_skip(rest0, rest0.len() - cur.len(), w);
                assert(done + Seq::<(Seq<char>, Seq<char>)>::empty() =~= done);
            }
            if self.eof() || self.next_char() == '>' {
                break;
            }
            let before = self.pos;
            let (name, value) = self.parse_attr();
            let ghost a = read_attr(s1);
            proof {
                lemma_skip_skip(rest0, rest0.len() - s1.len(), a.2);
            }
            if self.pos == before {
                proof {
                    assert(a.2 == 0);
                }
                break;
            }
            proof {
                if a.2 == 0 {
                    assert(self.rest() =~= s1);
                    lemma_later_shorter(self.input, before as int, self.pos as int);
                }
                lemma_later_shorter(self.input, mark as int, self.pos as int);
                let r = read_attributes(s1.skip(a.2), (steps - 1) as nat);
                assert(done + (seq![(a.0, a.1)] + r.0) =~= done.push((a.0, a.1)) + r.0);
                assert(done.push((a.0, a.1)).drop_last() =~= done);
                steps = (steps - 1) as nat;
            }
            let ghost before_map = attrs;
            attrs.insert(name, value);
            proof {
                assert(attr_view(attrs) =~= attr_view(before_map).insert(a.0, a.1));
                done = done.push((a.0, a.1));
            }
        }
        attrs
    }

    /// Parse a sequence of sibling nodes.
    pub fn parse_nodes(&mut self) -> (r: Vec<dom::Node>)
        requires
            old(self).wf(),
        ensures
            final(self).wf(),
            final(self).input == old(self).input,
            final(self).pos >= old(self).pos,
            ({
                let nd = read_nodes(old(self).rest());
                &&& nodes_read_as(r@, nd.0)
                &&& final(self).rest() == old(self).rest().skip(nd.1)
                &&& 0 <= nd.1 <= old(self).rest().len()
            }),
        decreases old(self).rest().len(), 2int,
    {
        let ghost rest0 = self.rest();
        let ghost full = read_nodes(rest0);
        let ghost mut done: Seq<NodeView> = Seq::empty();
        let mut nodes: Vec<dom::Node> = Vec::new();
        proof {
            assert(rest0.skip(0) =~= rest0);
            assert(done + full.0 =~= full.0);
        }
        loop
            invariant_except_break
                full.0 == done + read_nodes(self.rest()).0,
                full.1 == rest0.len() - self.rest().len() + read_nodes(self.rest()).1,
            invariant
                self.wf(),
                self.input == old(self).input,
                self.pos >= old(self).pos,
                rest0 == old(self).rest(),
                full == read_nodes(rest0),
                0 <= rest0.len() - self.rest().len(),
                self.rest() == rest0.skip(rest0.len() - self.rest().len()),
                nodes_read_as(nodes@, done),
            ensures
                done == full.0,
                self.rest() == rest0.skip(full.1),
                0 <= full.1 <= rest0.len(),
            decreases self.rest().len(),
        {
            let ghost cur = self.rest();
            let ghost mark = self.pos;
            self.consume_whitespace();
            let ghost s1 = self.rest();
            let ghost w = run_len(cur, |c: char| is_whitespace(c));
            proof {
                lemma_run_len_bounds(cur, |c: char| is_whitespace(c));
                lemma_skip_skip(rest0, rest0.len() - cur.len(), w);
                assert(done + Seq::<NodeView>::empty() =~= done);
                reveal_strlit("</");
            }
            if self.eof() || self.starts_with("</") {
                proof {
                    if !(s1.len() == 0) {
                        assert(s1.take(2)[0] == s1[0] && s1.take(2)[1] == s1[1]);
                    }
                }
                break;
            }
            proof {
                lemma_end(self.input, self.pos as int);
                if s1.len() >= 2 && s1[0] == '<' && s1[1] == '/' {
                    assert(s1.take(2) =~= "</"@);
                }
            }
            let node = self.parse_node();
            proof {
                let nd = read_node(s1);
                lemma_skip_skip(rest0, rest0.len() - s1.len(), nd.1);
                lemma_later_shorter(self.input, mark as int, self.pos as int);
                let r = read_nodes(s1.skip(nd.1));
                assert(done + (seq![nd.0] + r.0) =~= done.push(nd.0) + r.0);
            }
            let ghost before_nodes = nodes@;
            nodes.push(node);
            proof {
                let nd = read_node(s1);
                assert forall|i: int| 0 <= i < done.push(nd.0).len() implies node_reads(
                    #[trigger] nodes@[i],
                    done.push(nd.0)[i],
                ) by {
                    if i < done.len() {
                        assert(nodes@[i] == before_nodes[i]);
                    }
                }
                done = done.push(nd.0);
            }
        }
        nodes
    }
}

} // verus!
