use minibrowser::css_parser::{self, Color, Unit, Value};
use minibrowser::html_parser;
use minibrowser::layout::{
    build_layout_tree, layout_tree, styled_node_count, BoxType, Dimensions, LayoutBox,
};
use minibrowser::style::{style_tree, Display, StyledNode};

/// A viewport `width` pixels wide; layout counts half-pixels.
fn viewport(width: i64) -> Dimensions {
    let mut d = Dimensions::default();
    d.content.width = 2 * width;
    d.content.height = 2 * 600;
    d
}

fn tag_of(b: &LayoutBox) -> Option<String> {
    match b.box_type {
        BoxType::BlockNode(s) | BoxType::InlineNode(s) => match &s.node.node_type {
            minibrowser::dom::NodeType::Element(e) => Some(e.tag_name.clone()),
            minibrowser::dom::NodeType::Text(_) => None,
        },
        BoxType::AnonymousBlock => None,
    }
}

fn find_styled<'a>(node: &'a StyledNode<'a>, tag: &str) -> Option<&'a StyledNode<'a>> {
    if let minibrowser::dom::NodeType::Element(e) = &node.node.node_type {
        if e.tag_name == tag {
            return Some(node);
        }
    }
    node.children.iter().find_map(|c| find_styled(c, tag))
}

fn count_boxes(b: &LayoutBox, pred: &dyn Fn(&LayoutBox) -> bool) -> usize {
    (if pred(b) { 1 } else { 0 })
        + b.children.iter().map(|c| count_boxes(c, pred)).sum::<usize>()
}

#[test]
fn cascade_scenario() {
    let css = css_parser::parse(
        "h1, h2, h3 { margin: auto; color: #cc0000; }
         div.note { margin-bottom: 20px; padding: 10px; }
         #answer { display: none; }"
            .to_string(),
    );
    let dom = html_parser::parse(
        "<body><h1>Title</h1><div class=\"note\">n</div><p id=\"answer\"><b>x</b></p></body>"
            .to_string(),
    );
    let styled = style_tree(&dom, &css);

    let h1 = find_styled(&styled, "h1").unwrap();
    assert_eq!(h1.value("margin"), Some(Value::Keyword("auto".to_string())));
    assert_eq!(h1.value("color"), Some(Value::Colorvalue(Color { r: 204, g: 0, b: 0 })));
    assert_eq!(h1.value("padding"), None);

    let note = find_styled(&styled, "div").unwrap();
    assert_eq!(note.value("margin-bottom"), Some(Value::Length(20, Unit::Px)));
    assert_eq!(note.value("padding"), Some(Value::Length(10, Unit::Px)));
    assert_eq!(note.value("margin"), None);
    assert_eq!(note.value("color"), None);
    assert_eq!(note.lookup("padding-left", "padding", &Value::Length(0, Unit::Px)), Value::Length(10, Unit::Px));
    assert_eq!(note.lookup("margin-top", "margin", &Value::Length(0, Unit::Px)), Value::Length(0, Unit::Px));

    let answer = find_styled(&styled, "p").unwrap();
    assert_eq!(answer.display(), Display::Hidden);

    let root = build_layout_tree(&styled);
    assert_eq!(count_boxes(&root, &|b| tag_of(b).as_deref() == Some("p")), 0);
    assert_eq!(count_boxes(&root, &|b| tag_of(b).as_deref() == Some("b")), 0);
    assert_eq!(count_boxes(&root, &|b| tag_of(b).as_deref() == Some("h1")), 1);
}

#[test]
fn resolving_twice_gives_the_same_values() {
    let css = css_parser::parse("p { color: #010203; } .x { width: 5px; } #y { width: 7px; }".to_string());
    let dom = html_parser::parse("<p class=\"x\" id=\"y\">a</p><p class=\"x\">b</p>".to_string());
    let a = style_tree(&dom, &css);
    let b = style_tree(&dom, &css);
    fn same(a: &StyledNode, b: &StyledNode) {
        assert_eq!(a.specified_values, b.specified_values);
        assert_eq!(a.children.len(), b.children.len());
        for (x, y) in a.children.iter().zip(b.children.iter()) {
            same(x, y);
        }
    }
    same(&a, &b);
    let p = find_styled(&a, "p").unwrap();
    // The id rule outranks the class rule.
    assert_eq!(p.value("width"), Some(Value::Length(7, Unit::Px)));
}

#[test]
fn later_rule_wins_among_equal_specificity() {
    let css = css_parser::parse("p { width: 1px; } p { width: 2px; }".to_string());
    let dom = html_parser::parse("<p></p>".to_string());
    let styled = style_tree(&dom, &css);
    let p = find_styled(&styled, "p").unwrap();
    assert_eq!(p.value("width"), Some(Value::Length(2, Unit::Px)));
}

#[test]
fn unknown_display_is_inline() {
    let css = css_parser::parse("p { display: flex; } div { display: block; }".to_string());
    let dom = html_parser::parse("<p></p><div></div><span></span>".to_string());
    let styled = style_tree(&dom, &css);
    assert_eq!(find_styled(&styled, "p").unwrap().display(), Display::Inline);
    assert_eq!(find_styled(&styled, "div").unwrap().display(), Display::Block);
    assert_eq!(find_styled(&styled, "span").unwrap().display(), Display::Inline);
}

fn laid_out_child_width(css: &str) -> Dimensions {
    let css = css_parser::parse(format!("html {{ display: block; }} {}", css));
    let dom = html_parser::parse("<div></div>".to_string());
    let styled = style_tree(&dom, &css);
    let mut vp = viewport(800);
    let root = layout_tree(&styled, &mut vp);
    assert_eq!(root.children.len(), 1);
    root.children[0].dimensions
}

fn horizontal_sum(d: &Dimensions) -> i64 {
    d.margin.left + d.border.left + d.padding.left + d.content.width + d.padding.right
        + d.border.right
        + d.margin.right
}

#[test]
fn auto_width_fills_container() {
    let d = laid_out_child_width("div { display: block; }");
    assert_eq!(d.content.width, 1600);
    assert_eq!(d.content.x, 0);
    assert_eq!(d.content.y, 0);
    assert_eq!(horizontal_sum(&d), 1600);
}

#[test]
fn auto_margins_center_a_fixed_width() {
    let d = laid_out_child_width("div { display: block; width: 300px; margin: auto; }");
    assert_eq!(d.content.width, 600);
    assert_eq!(d.margin.left, 500);
    assert_eq!(d.margin.right, 500);
    assert_eq!(d.content.x, 500);
    assert_eq!(horizontal_sum(&d), 1600);
}

#[test]
fn odd_free_space_is_split_evenly() {
    let d = laid_out_child_width("div { display: block; width: 301px; margin: auto; }");
    // 249.5 pixels each side, in half-pixels.
    assert_eq!(d.margin.left, 499);
    assert_eq!(d.margin.right, 499);
    assert_eq!(d.content.x, 499);
    assert_eq!(horizontal_sum(&d), 1600);
}

#[test]
fn over_constrained_width_moves_margin_right() {
    let d = laid_out_child_width(
        "div { display: block; width: 300px; margin-left: 100px; margin-right: 100px; }",
    );
    assert_eq!(d.margin.left, 200);
    assert_eq!(d.margin.right, 800);
    assert_eq!(horizontal_sum(&d), 1600);
}

#[test]
fn overflowing_fixed_width_zeroes_auto_margins() {
    let d = laid_out_child_width("div { display: block; width: 900px; margin-left: auto; }");
    assert_eq!(d.margin.left, 0);
    assert_eq!(d.margin.right, -200);
    assert_eq!(d.content.width, 1800);
}

#[test]
fn one_auto_margin_takes_the_rest() {
    let d = laid_out_child_width("div { display: block; width: 200px; margin-left: auto; margin-right: 50px; }");
    assert_eq!(d.margin.left, 1100);
    assert_eq!(d.margin.right, 100);
    let d = laid_out_child_width("div { display: block; width: 200px; margin-left: 50px; margin-right: auto; }");
    assert_eq!(d.margin.left, 100);
    assert_eq!(d.margin.right, 1100);
}

#[test]
fn auto_width_with_negative_underflow() {
    let d = laid_out_child_width("div { display: block; padding-left: 900px; }");
    assert_eq!(d.content.width, 0);
    assert_eq!(d.margin.right, -200);
    assert_eq!(d.padding.left, 1800);
}

#[test]
fn blocks_stack_vertically() {
    let css = css_parser::parse(
        "html, div { display: block; } div { height: 10px; margin-top: 5px; padding: 1px; border: 2px; }"
            .to_string(),
    );
    let dom = html_parser::parse("<div></div><div></div>".to_string());
    let styled = style_tree(&dom, &css);
    let mut vp = viewport(800);
    let root = layout_tree(&styled, &mut vp);
    assert_eq!(vp.content.height, 0);
    let first = root.children[0].dimensions;
    let second = root.children[1].dimensions;
    assert_eq!(first.content.y, 2 * (5 + 2 + 1));
    assert_eq!(first.content.x, 6);
    assert_eq!(first.content.width, 2 * (800 - 6));
    // margin box height of the first: 5 + 2 + 1 + 10 + 1 + 2
    assert_eq!(second.content.y, 2 * (21 + 5 + 2 + 1));
    assert_eq!(root.dimensions.content.height, 84);
}

#[test]
fn empty_block_has_zero_height() {
    let d = laid_out_child_width("div { display: block; }");
    assert_eq!(d.content.height, 0);
    let d = laid_out_child_width("div { display: block; height: 50px; }");
    assert_eq!(d.content.height, 100);
}

#[test]
fn inline_runs_share_anonymous_boxes() {
    let css = css_parser::parse("html, div, p { display: block; } i { display: none; }".to_string());
    let dom = html_parser::parse(
        "<div><span>a</span><i>h</i><span>b</span><em>c</em><p></p><span>d</span></div>".to_string(),
    );
    let styled = style_tree(&dom, &css);
    let root = build_layout_tree(&styled);
    let div = &root.children[0];
    assert_eq!(div.children.len(), 3);
    assert!(matches!(div.children[0].box_type, BoxType::AnonymousBlock));
    let run: Vec<Option<String>> = div.children[0].children.iter().map(tag_of).collect();
    assert_eq!(
        run,
        vec![Some("span".to_string()), Some("span".to_string()), Some("em".to_string())]
    );
    assert!(matches!(div.children[1].box_type, BoxType::BlockNode(_)));
    assert!(matches!(div.children[2].box_type, BoxType::AnonymousBlock));
    assert_eq!(div.children[2].children.len(), 1);
}

#[test]
fn inline_parent_takes_children_directly() {
    let css = css_parser::parse("div { display: block; }".to_string());
    let dom = html_parser::parse("<span>a</span><div></div>".to_string());
    let styled = style_tree(&dom, &css);
    // The root is inline: its children are not wrapped.
    let root = build_layout_tree(&styled);
    assert!(matches!(root.box_type, BoxType::InlineNode(_)));
    assert_eq!(root.children.len(), 2);
    assert!(matches!(root.children[0].box_type, BoxType::InlineNode(_)));
    assert!(matches!(root.children[1].box_type, BoxType::BlockNode(_)));
}

#[test]
fn rule_counts_at_its_most_specific_matching_selector() {
    let css = css_parser::parse("p, #i { width: 1px; } .x { width: 2px; }".to_string());
    let dom = html_parser::parse("<p id=\"i\" class=\"x\"></p><p class=\"x\"></p>".to_string());
    let styled = style_tree(&dom, &css);
    // The first rule matches through `#i`, which outranks `.x`.
    assert_eq!(styled.children[0].value("width"), Some(Value::Length(1, Unit::Px)));
    // Here it matches only through `p`, which `.x` outranks.
    assert_eq!(styled.children[1].value("width"), Some(Value::Length(2, Unit::Px)));
}

#[test]
fn empty_stylesheet_gives_empty_values() {
    let css = css_parser::parse("   ".to_string());
    assert_eq!(css.rules.len(), 0);
    let dom = html_parser::parse("<p>t</p>".to_string());
    let styled = style_tree(&dom, &css);
    assert_eq!(styled.value("display"), None);
    assert_eq!(styled.display(), Display::Inline);
    assert_eq!(styled.children[0].children.len(), 1);
    assert_eq!(styled.children[0].children[0].value("display"), None);
}

#[test]
fn largest_lengths_are_laid_out_exactly() {
    let d = laid_out_child_width("div { display: block; width: 4294967295px; margin: auto; }");
    assert_eq!(d.content.width, 8589934590);
    assert_eq!(d.margin.left, 0);
    assert_eq!(d.margin.right, 2 * (800 - 4294967295));
    assert_eq!(horizontal_sum(&d), 1600);
}

#[test]
fn unset_side_margins_are_auto() {
    let d = laid_out_child_width("div { display: block; width: 200px; }");
    assert_eq!(d.content.width, 400);
    assert_eq!(d.margin.left, 600);
    assert_eq!(d.margin.right, 600);
    // A margin set through the shorthand is not auto.
    let d = laid_out_child_width("div { display: block; width: 200px; margin: 10px; }");
    assert_eq!(d.margin.left, 20);
    assert_eq!(d.margin.right, 1180);
    // One side set, the other unset: the unset side takes the rest.
    let d = laid_out_child_width("div { display: block; width: 200px; margin-left: 100px; }");
    assert_eq!(d.margin.left, 200);
    assert_eq!(d.margin.right, 1000);
}

#[test]
fn node_count_is_capped() {
    let css = css_parser::parse("".to_string());
    let dom = html_parser::parse("<div><p>a</p><p>b</p></div>".to_string());
    let styled = style_tree(&dom, &css);
    // html, div, two p, two texts.
    assert_eq!(styled_node_count(&styled, 100), 6);
    assert_eq!(styled_node_count(&styled, 4), 4);
    assert_eq!(styled_node_count(&styled, 1), 1);
}
