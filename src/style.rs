//! The style step: selector matching and the cascade, which combine the
//! document tree and a stylesheet into a styled tree.
use vstd::prelude::*;

use crate::css_parser::{
    value_view,
    ranks_below, specificity_below, Declaration, Rule, Selector, SimpleSelector, Specificity,
    Stylesheet, Value,
};
use crate::dom::{ElementData, Node, NodeType};
use crate::keyed::KeyedMap;
use crate::sorting::{
    lemma_insert_stable_at, lemma_sort_stable_preserves, lemma_sort_stable_step,
    sort_stable,
};
use crate::text::same_text;

verus! {

/// Map from property names to values.
pub type PropertyMap = KeyedMap<Value>;

/// A document node with the values that the stylesheet gives it.
#[derive(Debug)]
pub struct StyledNode<'a> {
    pub node: &'a Node,
    pub specified_values: PropertyMap,
    pub children: Vec<StyledNode<'a>>,
}

#[derive(Debug, PartialEq, Eq, Clone, Copy)]
pub enum Display {
    Inline,
    Block,
    Hidden,
}

impl<'a> StyledNode<'a> {
    /// The specified value of property `name`, if any.
    pub open spec fn spec_value(&self, name: Seq<char>) -> Option<Value> {
        if self.specified_values@.contains_key(name) {
            Some(self.specified_values@[name])
        } else {
            None
        }
    }

    /// `display`: `block` and `none` as written, anything else inline.
    pub open spec fn spec_display(&self) -> Display {
        match self.spec_value("display"@) {
            Some(Value::Keyword(s)) => if s@ == "block"@ {
                Display::Block
            } else if s@ == "none"@ {
                Display::Hidden
            } else {
                Display::Inline
            },
            _ => Display::Inline,
        }
    }

    /// The value of `name`, else of `fallback_name`, else `default`.
    pub open spec fn spec_lookup(&self, name: Seq<char>, fallback_name: Seq<char>, default: Value) -> Value {
        match self.spec_value(name) {
            Some(v) => v,
            None => match self.spec_value(fallback_name) {
                Some(v) => v,
                None => default,
            },
        }
    }

    /// Return the specified value of a property if it exists, otherwise `None`.
    pub fn value(&self, name: &str) -> (r: Option<Value>)
        ensures
            r == self.spec_value(name@),
    {
        match self.specified_values.get(name) {
            Some(v) => Some(v.clone()),
            None => None,
        }
    }

    /// The value of the `display` property (defaults to inline).
    pub fn display(&self) -> (r: Display)
        ensures
            r == self.spec_display(),
    {
        match self.value("display") {
            Some(Value::Keyword(s)) => {
                if same_text(s.as_str(), "block") {
                    Display::Block
                } else if same_text(s.as_str(), "none") {
                    Display::Hidden
                } else {
                    Display::Inline
                }
            },
            _ => Display::Inline,
        }
    }

    /// The value of `name`, falling back to `fallback_name`, then to `default`.
    pub fn lookup(&self, name: &str, fallback_name: &str, default: &Value) -> (r: Value)
        ensures
            r == self.spec_lookup(name@, fallback_name@, *default),
    {
        match self.value(name) {
            Some(v) => v,
            None => match self.value(fallback_name) {
                Some(v) => v,
                None => default.clone(),
            },
        }
    }
}

/// Whether `selector` matches `elem`: the tag name and id, where given, are
/// equal, and every class of the selector is among the element's classes.
pub open spec fn simple_selector_matches(elem: ElementData, selector: SimpleSelector) -> bool {
    &&& (selector.tag_name matches Some(t) ==> elem.tag_name@ == t@)
    &&& (selector.id matches Some(id) ==> elem.attributes@.contains_key("id"@)
        && elem.attributes@["id"@]@ == id@)
    &&& forall|k: int|
        0 <= k < selector.class@.len() ==> elem.class_list().contains(#[trigger] selector.class@[k]@)
}

pub open spec fn selector_matches(elem: ElementData, selector: Selector) -> bool {
    match selector {
        Selector::Simple(s) => simple_selector_matches(elem, s),
    }
}

/// The specificity of the first selector of the list that matches `elem`.
pub open spec fn first_match(elem: ElementData, selectors: Seq<Selector>) -> Option<Specificity>
    decreases selectors.len(),
{
    if selectors.len() == 0 {
        None
    } else if selector_matches(elem, selectors[0]) {
        Some(selectors[0].spec_specificity())
    } else {
        first_match(elem, selectors.drop_first())
    }
}

/// The rules that match `elem`, each with its index and the specificity of
/// its first matching selector, in stylesheet order.
pub open spec fn matched_rules(elem: ElementData, rules: Seq<Rule>) -> Seq<(Specificity, usize)>
    decreases rules.len(),
{
    if rules.len() == 0 {
        Seq::empty()
    } else {
        let earlier = matched_rules(elem, rules.drop_last());
        match first_match(elem, rules.last().selectors@) {
            Some(sp) => earlier.push((sp, (rules.len() - 1) as usize)),
            None => earlier,
        }
    }
}

/// A matched rule goes before another when its specificity is lower.
pub open spec fn lower_specificity(a: (Specificity, usize), b: (Specificity, usize)) -> bool {
    ranks_below(a.0, b.0)
}

/// The declarations of `decls` written in order into `m`.
pub open spec fn apply_declarations(m: Map<Seq<char>, Value>, decls: Seq<Declaration>) -> Map<
    Seq<char>,
    Value,
>
    decreases decls.len(),
{
    if decls.len() == 0 {
        m
    } else {
        apply_declarations(m, decls.drop_last()).insert(decls.last().name@, decls.last().value)
    }
}

/// The declarations of the rules of `matched`, in that order, written into
/// an empty map.
pub open spec fn cascade(rules: Seq<Rule>, matched: Seq<(Specificity, usize)>) -> Map<
    Seq<char>,
    Value,
>
    decreases matched.len(),
{
    if matched.len() == 0 {
        Map::empty()
    } else {
        apply_declarations(
            cascade(rules, matched.drop_last()),
            rules[matched.last().1 as int].declarations@,
        )
    }
}

/// The values that `stylesheet` gives `elem`: its matching rules, stably
/// sorted by ascending specificity, applied in turn.
pub open spec fn cascaded_values(elem: ElementData, stylesheet: Stylesheet) -> Map<Seq<char>, Value> {
    cascade(
        stylesheet.rules@,
        sort_stable(matched_rules(elem, stylesheet.rules@), |a, b| lower_specificity(a, b)),
    )
}

/// The values of a document node: text nodes have none.
pub open spec fn node_values(node: Node, stylesheet: Stylesheet) -> Map<Seq<char>, Value> {
    match node.node_type {
        NodeType::Element(e) => cascaded_values(e, stylesheet),
        NodeType::Text(_) => Map::empty(),
    }
}

/// `styled` is the styled tree of `node`: same shape, each styled node
/// pointing at its document node and holding that node's values.
pub open spec fn styles(styled: StyledNode, node: Node, stylesheet: Stylesheet) -> bool
    decreases node,
{
    &&& *styled.node == node
    &&& styled.specified_values@ == node_values(node, stylesheet)
    &&& styled.children@.len() == node.children@.len()
    &&& forall|i: int|
        0 <= i < node.children@.len() ==> styles(
            #[trigger] styled.children@[i],
            node.children@[i],
            stylesheet,
        )
}

/// Two styled trees of the same shape with the same values at every node.
pub open spec fn same_values(a: StyledNode, b: StyledNode) -> bool
    decreases a,
{
    &&& a.specified_values@ == b.specified_values@
    &&& a.children@.len() == b.children@.len()
    &&& forall|i: int|
        0 <= i < a.children@.len() ==> same_values(#[trigger] a.children@[i], b.children@[i])
}

/// Resolution is deterministic: two styled trees of one document under one
/// stylesheet hold identical property maps at every node.
pub proof fn lemma_resolution_deterministic(
    node: Node,
    stylesheet: Stylesheet,
    a: StyledNode,
    b: StyledNode,
)
    requires
        styles(a, node, stylesheet),
        styles(b, node, stylesheet),
    ensures
        same_values(a, b),
    decreases node,
{
    assert forall|i: int| 0 <= i < a.children@.len() implies same_values(
        #[trigger] a.children@[i],
        b.children@[i],
    ) by {
        assert(styles(a.children@[i], node.children@[i], stylesheet));
        assert(styles(b.children@[i], node.children@[i], stylesheet));
        lemma_resolution_deterministic(node.children@[i], stylesheet, a.children@[i], b.children@[i]);
    }
}

/// Apply a stylesheet to an entire DOM tree, returning a StyledNode tree.
pub fn style_tree<'a>(root: &'a Node, stylesheet: &'a Stylesheet) -> (r: StyledNode<'a>)
    ensures
        styles(r, *root, *stylesheet),
    decreases root,
{
    let specified_values = match &root.node_type {
        NodeType::Element(elem) => specified_values(elem, stylesheet),
        NodeType::Text(_) => KeyedMap::new(),
    };
    let mut children: Vec<StyledNode<'a>> = Vec::new();
    let mut i: usize = 0;
    while i < root.children.len()
        invariant
            i <= root.children@.len(),
            children@.len() == i,
            forall|j: int| 0 <= j < i ==> styles(#[trigger] children@[j], root.children@[j], *stylesheet),
        decreases root.children@.len() - i,
    {
        let child = style_tree(&root.children[i], stylesheet);
        children.push(child);
        i = i + 1;
    }
    StyledNode { node: root, specified_values, children }
}

/// Apply styles to a single element, returning the specified values.
fn specified_values(elem: &ElementData, stylesheet: &Stylesheet) -> (r: PropertyMap)
    ensures
        r@ == cascaded_values(*elem, *stylesheet),
{
    let ghost rules = stylesheet.rules@;
    let matched = matching_rules(elem, stylesheet);
    let ghost before = |a: (Specificity, usize), b: (Specificity, usize)| lower_specificity(a, b);
    proof {
        lemma_sort_stable_preserves(
            matched@,
            before,
            |m: (Specificity, usize)| (m.1 as int) < rules.len(),
        );
    }
    let sorted = sort_by_specificity(matched);
    let mut values: PropertyMap = KeyedMap::new();
    let mut i: usize = 0;
    while i < sorted.len()
        invariant
            i <= sorted@.len(),
            sorted@ == sort_stable(matched_rules(*elem, rules), before),
            forall|k: int| 0 <= k < sorted@.len() ==> (#[trigger] sorted@[k].1 as int) < rules.len(),
            rules == stylesheet.rules@,
            values@ == cascade(rules, sorted@.take(i as int)),
        decreases sorted@.len() - i,
    {
        let rule = &stylesheet.rules[sorted[i].1];
        let mut j: usize = 0;
        while j < rule.declarations.len()
            invariant
                i < sorted@.len(),
                *rule == rules[sorted@[i as int].1 as int],
                j <= rule.declarations@.len(),
                values@ == apply_declarations(
                    cascade(rules, sorted@.take(i as int)),
                    rule.declarations@.take(j as int),
                ),
            decreases rule.declarations@.len() - j,
        {
            let declaration = &rule.declarations[j];
            values.insert(declaration.name.clone(), declaration.value.clone());
            proof {
                assert(rule.declarations@.take(j + 1).drop_last() =~= rule.declarations@.take(
                    j as int,
                ));
            }
            j = j + 1;
        }
        proof {
            assert(rule.declarations@.take(j as int) =~= rule.declarations@);
            assert(sorted@.take(i + 1).drop_last() =~= sorted@.take(i as int));
        }
        i = i + 1;
    }
    proof {
        assert(sorted@.take(i as int) =~= sorted@);
    }
    values
}

/// Stably sort matched rules by ascending specificity.
fn sort_by_specificity(matched: Vec<(Specificity, usize)>) -> (r: Vec<(Specificity, usize)>)
    ensures
        r@ == sort_stable(matched@, |a, b| lower_specificity(a, b)),
{
    let ghost before = |a: (Specificity, usize), b: (Specificity, usize)| lower_specificity(a, b);
    let ghost input = matched@;
    let total = matched.len();
    let mut rest = matched;
    let mut out: Vec<(Specificity, usize)> = Vec::new();
    let mut n: usize = 0;
    while rest.len() > 0
        invariant
            n <= input.len(),
            input.len() == total,
            before == (|a: (Specificity, usize), b: (Specificity, usize)| lower_specificity(a, b)),
            rest@ == input.skip(n as int),
            out@ == sort_stable(input.take(n as int), before),
        decreases rest@.len(),
    {
        let x = rest.remove(0);
        let mut j: usize = out.len();
        while j > 0 && specificity_below(x.0, out[j - 1].0)
            invariant
                j <= out@.len(),
                forall|k: int| j <= k < out@.len() ==> ranks_below(x.0, #[trigger] out@[k].0),
            decreases j,
        {
            j = j - 1;
        }
        proof {
            assert forall|k: int| j <= k < out@.len() implies before(x, #[trigger] out@[k]) by {
                assert(ranks_below(x.0, out@[k].0));
            }
            if j > 0 {
                assert(!ranks_below(x.0, out@[j - 1].0));
            }
            lemma_insert_stable_at(out@, x, before, j as int);
            lemma_sort_stable_step(input, n as int, before);
            assert(input[n as int] == x);
            assert(rest@ =~= input.skip(n + 1));
        }
        out.insert(j, x);
        n = n + 1;
    }
    proof {
        assert(input.take(n as int) =~= input);
    }
    out
}

/// Find all CSS rules that match the given element.
fn matching_rules(elem: &ElementData, stylesheet: &Stylesheet) -> (r: Vec<(Specificity, usize)>)
    ensures
        r@ == matched_rules(*elem, stylesheet.rules@),
        forall|k: int| 0 <= k < r@.len() ==> (#[trigger] r@[k].1 as int) < stylesheet.rules@.len(),
{
    let ghost rules = stylesheet.rules@;
    let mut out: Vec<(Specificity, usize)> = Vec::new();
    let mut i: usize = 0;
    while i < stylesheet.rules.len()
        invariant
            i <= rules.len(),
            rules == stylesheet.rules@,
            out@ == matched_rules(*elem, rules.take(i as int)),
            forall|k: int| 0 <= k < out@.len() ==> (#[trigger] out@[k].1 as int) < i,
        decreases rules.len() - i,
    {
        proof {
            assert(rules.take(i + 1).drop_last() =~= rules.take(i as int));
        }
        match match_rule(elem, &stylesheet.rules[i]) {
            Some(sp) => out.push((sp, i)),
            None => {},
        }
        i = i + 1;
    }
    proof {
        assert(rules.take(i as int) =~= rules);
    }
    out
}

/// If `rule` matches `elem`, the specificity of its first matching selector.
fn match_rule(elem: &ElementData, rule: &Rule) -> (r: Option<Specificity>)
    ensures
        r == first_match(*elem, rule.selectors@),
{
    let mut i: usize = 0;
    assert(rule.selectors@.skip(0) =~= rule.selectors@);
    while i < rule.selectors.len()
        invariant
            i <= rule.selectors@.len(),
            first_match(*elem, rule.selectors@) == first_match(*elem, rule.selectors@.skip(i as int)),
        decreases rule.selectors@.len() - i,
    {
        let ghost rest = rule.selectors@.skip(i as int);
        if matches(elem, &rule.selectors[i]) {
            assert(rest[0] == rule.selectors@[i as int]);
            return Some(rule.selectors[i].specificity());
        }
        assert(rest.drop_first() =~= rule.selectors@.skip(i + 1));
        i = i + 1;
    }
    None
}

fn matches(elem: &ElementData, selector: &Selector) -> (r: bool)
    ensures
        r == selector_matches(*elem, *selector),
{
    match selector {
        Selector::Simple(simple_selector) => matches_simple_selector(elem, simple_selector),
    }
}

fn matches_simple_selector(elem: &ElementData, selector: &SimpleSelector) -> (r: bool)
    ensures
        r == simple_selector_matches(*elem, *selector),
{
    // Check type selector.
    match &selector.tag_name {
        Some(tag_name) => {
            if !same_text(elem.tag_name.as_str(), tag_name.as_str()) {
                return false;
            }
        },
        None => {},
    }

    // Check id selector.
    match &selector.id {
        Some(id) => match elem.id() {
            Some(elem_id) => {
                if !same_text(elem_id.as_str(), id.as_str()) {
                    return false;
                }
            },
            None => {
                return false;
            },
        },
        None => {},
    }

    // Check class selectors.
    let elem_classes = elem.classes();
    let mut k: usize = 0;
    while k < selector.class.len()
        invariant
            k <= selector.class@.len(),
            elem_classes@.len() == elem.class_list().len(),
            forall|i: int| 0 <= i < elem_classes@.len() ==> #[trigger] elem_classes@[i]@ == elem.class_list()[i],
            forall|q: int| 0 <= q < k ==> elem.class_list().contains(#[trigger] selector.class@[q]@),
        decreases selector.class@.len() - k,
    {
        let wanted = selector.class[k].as_str();
        let mut j: usize = 0;
        while j < elem_classes.len() && !same_text(elem_classes[j].as_str(), wanted)
            invariant
                j <= elem_classes@.len(),
                forall|i: int| 0 <= i < j ==> elem_classes@[i]@ != wanted@,
            decreases elem_classes@.len() - j,
        {
            j = j + 1;
        }
        if j == elem_classes.len() {
            proof {
                assert forall|i: int| 0 <= i < elem.class_list().len() implies elem.class_list()[i]
                    != wanted@ by {
                    assert(elem_classes@[i]@ == elem.class_list()[i]);
                }
                assert(!elem.class_list().contains(selector.class@[k as int]@));
            }
            return false;
        }
        assert(elem.class_list()[j as int] == wanted@);
        k = k + 1;
    }
    true
}

/// Whether two values are the same keyword, length or color.
pub fn same_value(a: &Value, b: &Value) -> (r: bool)
    ensures
        r == (value_view(*a) == value_view(*b)),
{
    match (a, b) {
        (Value::Keyword(x), Value::Keyword(y)) => same_text(x.as_str(), y.as_str()),
        (Value::Length(x, _), Value::Length(y, _)) => *x == *y,
        (Value::Colorvalue(x), Value::Colorvalue(y)) => x.r == y.r && x.g == y.g && x.b == y.b,
        _ => false,
    }
}

/// Every property of `a` is a property of `b`, with the same value.
fn covers(a: &PropertyMap, b: &PropertyMap) -> (r: bool)
    ensures
        r == forall|k: Seq<char>| #[trigger] a@.contains_key(k) ==> b@.contains_key(k)
            && value_view(a@[k]) == value_view(b@[k]),
{
    proof {
        a.lemma_keys();
    }
    let mut i: usize = 0;
    while i < a.len()
        invariant
            i <= a.keys().len(),
            forall|k: Seq<char>| #[trigger] a@.contains_key(k) <==> a.keys().contains(k),
            forall|j: int|
                0 <= j < i ==> b@.contains_key(#[trigger] a.keys()[j]) && value_view(a@[a.keys()[j]])
                    == value_view(b@[a.keys()[j]]),
        decreases a.keys().len() - i,
    {
        let k = a.key(i).as_str();
        proof {
            assert(a.keys().contains(k@));
        }
        match (a.get(k), b.get(k)) {
            (Some(x), Some(y)) => {
                if !same_value(x, y) {
                    return false;
                }
            },
            _ => {
                return false;
            },
        }
        i = i + 1;
    }
    proof {
        assert forall|k: Seq<char>| #[trigger] a@.contains_key(k) implies b@.contains_key(k)
            && value_view(a@[k]) == value_view(b@[k]) by {
            let j = choose|j: int| 0 <= j < a.keys().len() && a.keys()[j] == k;
        }
    }
    true
}

/// Two property maps are equal when they hold the same properties with the
/// same values, in whatever order they were written.
impl PartialEq for KeyedMap<Value> {
    fn eq(&self, other: &KeyedMap<Value>) -> (r: bool) {
        let r = covers(self, other) && covers(other, self);
        proof {
            if r {
                assert(self@.dom() =~= other@.dom());
            }
            if self@.dom() == other@.dom() && forall|k: Seq<char>| #[trigger]
                self@.contains_key(k) ==> value_view(self@[k]) == value_view(other@[k]) {
                assert forall|k: Seq<char>| #[trigger] other@.contains_key(k) implies self@.contains_key(k)
                    && value_view(other@[k]) == value_view(self@[k]) by {
                    assert(other@.dom().contains(k));
                }
            }
        }
        r
    }
}

impl vstd::std_specs::cmp::PartialEqSpecImpl for KeyedMap<Value> {
    open spec fn obeys_eq_spec() -> bool {
        true
    }

    open spec fn eq_spec(&self, other: &KeyedMap<Value>) -> bool {
        &&& self@.dom() == other@.dom()
        &&& forall|k: Seq<char>| #[trigger] self@.contains_key(k) ==> value_view(self@[k]) == value_view(other@[k])
    }
}

} // verus!
