use minibrowser::css_parser::{
    parse, specificity_below, Color, Declaration, Parser, Rule, Selector, SimpleSelector,
    Stylesheet, Unit, Value,
};

fn parser(input: &str) -> Parser {
    Parser { pos: 0, input: input.to_string() }
}

fn simple(tag: Option<&str>, id: Option<&str>, class: &[&str]) -> Selector {
    Selector::Simple(SimpleSelector {
        tag_name: tag.map(|t| t.to_string()),
        id: id.map(|i| i.to_string()),
        class: class.iter().map(|c| c.to_string()).collect(),
    })
}

fn decl(name: &str, value: Value) -> Declaration {
    Declaration { name: name.to_string(), value }
}

fn keyword(k: &str) -> Value {
    Value::Keyword(k.to_string())
}

#[test]
fn parse_css_stylesheet() {
    let input = r#"
            h1, h2, h3 { margin: auto; color: #cc0000; }
            div.note { margin-bottom: 20px; padding: 10px; }
            #answer { display: none; }
        "#
    .to_string();
    let stylesheet = parse(input);

    let expected_rules = vec![
        Rule {
            selectors: vec![
                simple(Some("h1"), None, &[]),
                simple(Some("h2"), None, &[]),
                simple(Some("h3"), None, &[]),
            ],
            declarations: vec![
                decl("margin", keyword("auto")),
                decl("color", Value::Colorvalue(Color { r: 204, g: 0, b: 0 })),
            ],
        },
        Rule {
            selectors: vec![simple(Some("div"), None, &["note"])],
            declarations: vec![
                decl("margin-bottom", Value::Length(20, Unit::Px)),
                decl("padding", Value::Length(10, Unit::Px)),
            ],
        },
        Rule {
            selectors: vec![simple(None, Some("answer"), &[])],
            declarations: vec![decl("display", keyword("none"))],
        },
    ];

    assert_eq!(stylesheet, Stylesheet { rules: expected_rules });
}

#[test]
fn specificity() {
    let selector = simple(None, Some("main"), &[]);
    assert_eq!(selector.specificity(), (1, 0, 0));

    let selector = simple(Some("div"), Some("main"), &["someclass1", "someclass2"]);
    assert_eq!(selector.specificity(), (1, 2, 1));
}

#[test]
fn specificity_order_is_lexicographic() {
    // An id-only selector outranks a tag with two classes.
    assert!(specificity_below((0, 2, 1), (1, 0, 0)));
    assert!(!specificity_below((1, 0, 0), (0, 2, 1)));
    assert!(!specificity_below((0, 2, 1), (0, 2, 1)));
    assert!(specificity_below((0, 0, 1), (0, 1, 0)));
    assert!(specificity_below((0, 1, 0), (0, 1, 1)));
}

#[test]
fn parse_rule() {
    let mut parser = parser(r#"div#main.class1.class2 { margin: auto; display: block; }"#);
    let rule = parser.parse_rule();
    assert_eq!(
        rule,
        Rule {
            selectors: vec![simple(Some("div"), Some("main"), &["class1", "class2"])],
            declarations: vec![decl("margin", keyword("auto")), decl("display", keyword("block"))],
        },
    );
}

#[test]
fn parse_selectors() {
    let mut parser = parser(r#"h1, h2, div.class1.class2, p#id { ..."#);
    let selectors = parser.parse_selectors();
    assert_eq!(
        selectors,
        vec![
            simple(Some("p"), Some("id"), &[]),
            simple(Some("div"), None, &["class1", "class2"]),
            simple(Some("h1"), None, &[]),
            simple(Some("h2"), None, &[]),
        ]
    );
    assert_eq!(parser.pos, 32);
}

#[test]
fn parse_simple_selector() {
    // id only
    let mut p = parser("#id");
    assert_eq!(
        Selector::Simple(p.parse_simple_selector()),
        simple(None, Some("id"), &[])
    );

    // classes only
    let mut p = parser(".class1.class2");
    assert_eq!(
        Selector::Simple(p.parse_simple_selector()),
        simple(None, None, &["class1", "class2"])
    );

    // id + classes
    let mut p = parser("#id.class1.class2");
    assert_eq!(
        Selector::Simple(p.parse_simple_selector()),
        simple(None, Some("id"), &["class1", "class2"])
    );

    // tag name only
    let mut p = parser("div");
    assert_eq!(
        Selector::Simple(p.parse_simple_selector()),
        simple(Some("div"), None, &[])
    );

    // tag name + id + classes
    let mut p = parser("div#id.class1.class2");
    assert_eq!(
        Selector::Simple(p.parse_simple_selector()),
        simple(Some("div"), Some("id"), &["class1", "class2"])
    );
}

#[test]
fn parse_declarations() {
    let mut parser = parser("margin: auto; display: block; } ...");
    let decls = parser.parse_declarations();
    assert_eq!(
        decls,
        vec![decl("margin", keyword("auto")), decl("display", keyword("block"))],
    );
}

#[test]
fn parse_declaration() {
    let mut parser = parser("margin: auto; ...");
    let decl_parsed = parser.parse_declaration();
    assert_eq!(decl_parsed, decl("margin", keyword("auto")));
}

#[test]
fn parse_color() {
    let mut parser = parser("#aacc11;");
    let color = parser.parse_color();
    assert_eq!(color, Value::Colorvalue(Color { r: 170, g: 204, b: 17 }));
    assert_eq!(parser.pos, 7);
}

#[test]
fn parse_color_upper_case_digits() {
    let mut parser = parser("#FF08A0");
    assert_eq!(parser.parse_color(), Value::Colorvalue(Color { r: 255, g: 8, b: 160 }));
    assert_eq!(parser.pos, 7);
}

#[test]
fn parse_length() {
    let mut parser = parser("123px;");
    let length = parser.parse_length();
    assert_eq!(length, Value::Length(123, Unit::Px));
    assert_eq!(parser.pos, 5);
}

#[test]
fn parse_length_saturates() {
    let mut parser = parser("99999999999px;");
    assert_eq!(parser.parse_length(), Value::Length(u32::MAX, Unit::Px));
    assert_eq!(parser.pos, 13);
}

#[test]
fn parse_identifier() {
    let mut parser = parser("abc_ef...");
    assert_eq!(parser.parse_identifier(), "abc_ef".to_string());
}

#[test]
fn css_parser_next_char() {
    let mut parser = parser("abc");
    assert_eq!(parser.next_char(), 'a');

    parser.pos = 1;
    assert_eq!(parser.next_char(), 'b');
}

#[test]
fn css_parser_consume_char() {
    let mut p = parser("abc");
    assert_eq!(p.consume_char(), 'a');
    assert_eq!(p.pos, 1);
    assert_eq!(p.consume_char(), 'b');
    assert_eq!(p.pos, 2);

    let mut p = parser("あいう");
    assert_eq!(p.consume_char(), 'あ');
    assert_eq!(p.pos, 3);
    assert_eq!(p.consume_char(), 'い');
    assert_eq!(p.pos, 6);
}

#[test]
fn css_parser_eof() {
    let mut parser = Parser { pos: 2, input: "abc".to_string() };
    assert!(!parser.eof());

    parser.pos = 3;
    assert!(parser.eof());
}

#[test]
fn malformed_declaration_does_not_stop_parsing() {
    // The missing semicolon is passed over.
    let stylesheet = parse("p { color: #000000 } div { width: 10px; }".to_string());
    assert_eq!(stylesheet.rules.len(), 2);
    assert_eq!(
        stylesheet.rules[1].declarations,
        vec![decl("width", Value::Length(10, Unit::Px))]
    );
}
