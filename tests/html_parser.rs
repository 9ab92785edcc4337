use minibrowser::dom::{self, AttrMap};
use minibrowser::html_parser::{parse, Parser};

fn attrs(pairs: &[(&str, &str)]) -> AttrMap {
    let mut map = AttrMap::new();
    for (k, v) in pairs {
        map.insert(k.to_string(), v.to_string());
    }
    map
}

fn parser(pos: usize, input: &str) -> Parser {
    Parser { pos, input: String::from(input) }
}

#[test]
fn parse_html_document() {
    let source = "<div><div id=\"main\">hello</div><p>parag</p></div>".to_string();
    assert_eq!(
        parse(source),
        dom::elem(
            String::from("html"),
            AttrMap::new(),
            vec![dom::elem(
                String::from("div"),
                AttrMap::new(),
                vec![
                    dom::elem(
                        String::from("div"),
                        attrs(&[("id", "main")]),
                        vec![dom::text("hello".to_string())],
                    ),
                    dom::elem(
                        String::from("p"),
                        AttrMap::new(),
                        vec![dom::text("parag".to_string())],
                    ),
                ],
            )],
        ),
    );
}

#[test]
fn html_parser_next_char() {
    let mut parser = parser(0, "Hello, world!");
    assert_eq!(parser.next_char(), 'H');

    parser.pos = 4;
    assert_eq!(parser.next_char(), 'o');
}

#[test]
fn starts_with() {
    let parser = parser(2, "Hello, world!");
    assert!(parser.starts_with("llo"));
    assert!(!parser.starts_with("lo"));
}

#[test]
fn html_parser_eof() {
    let mut parser = parser(2, "Hello, world!");
    assert!(!parser.eof());

    parser.pos = 13;
    assert!(parser.eof());

    // over
    parser.pos = 14;
    assert!(parser.eof());
}

#[test]
fn html_parser_consume_char() {
    let mut p = parser(0, "Hello, world!");
    assert_eq!(p.consume_char(), 'H');
    assert_eq!(p.pos, 1);
    assert_eq!(p.consume_char(), 'e');
    assert_eq!(p.pos, 2);

    // including multi-byte character
    let mut p = parser(0, "ハロー");
    assert_eq!(p.consume_char(), 'ハ');
    assert_eq!(p.pos, 3);
    assert_eq!(p.consume_char(), 'ロ');
    assert_eq!(p.pos, 6);
}

#[test]
fn consume_while() {
    let mut parser = parser(0, "Hello, world!");
    let s = parser.consume_while(|c| c != ',');
    assert_eq!(s, String::from("Hello"));
    assert_eq!(parser.pos, 5);

    // till eof
    let s = parser.consume_while(|c| c != 'Z');
    assert_eq!(s, String::from(", world!"));
    assert_eq!(parser.pos, 13);
}

#[test]
fn consume_whitespace() {
    let mut parser = parser(0, "!   John.");

    // consume nothing
    parser.consume_whitespace();
    assert_eq!(parser.pos, 0);

    parser.pos += 1;

    parser.consume_whitespace();
    assert_eq!(parser.pos, 4);
}

#[test]
fn consume_whitespace_unicode() {
    // U+3000 (ideographic space) is three bytes long.
    let mut parser = parser(0, "\u{3000}\t\nx");
    parser.consume_whitespace();
    assert_eq!(parser.pos, 5);
    assert_eq!(parser.next_char(), 'x');
}

#[test]
fn parse_tag_name() {
    let mut parser = parser(0, "Hello, this is me.");

    let s = parser.parse_tag_name();
    assert_eq!(s, String::from("Hello"));
}

#[test]
fn parse_text() {
    let mut parser = parser(5, "<div>hello</div>");
    assert_eq!(parser.parse_text(), dom::text(String::from("hello")),);
}

#[test]
fn parse_element() {
    let mut p = parser(0, "<div>hello</div>");
    assert_eq!(
        p.parse_element(),
        dom::elem(
            String::from("div"),
            AttrMap::new(),
            vec![dom::text("hello".to_string())],
        ),
    );

    // nested
    let mut p = parser(0, "<div><p>parag</p></div>");
    assert_eq!(
        p.parse_element(),
        dom::elem(
            String::from("div"),
            AttrMap::new(),
            vec![dom::elem(
                String::from("p"),
                AttrMap::new(),
                vec![dom::text("parag".to_string())],
            )],
        ),
    );

    // with attrs
    let mut p = parser(0, "<div id=\"main\" class=\"test\">hello</div>");
    assert_eq!(
        p.parse_element(),
        dom::elem(
            String::from("div"),
            attrs(&[("id", "main"), ("class", "test")]),
            vec![dom::text("hello".to_string())],
        ),
    );
}

#[test]
fn parse_attributes() {
    let mut parser = parser(0, "id=\"main\" class=\"someclass\" >");
    assert_eq!(
        parser.parse_attributes(),
        attrs(&[("id", "main"), ("class", "someclass")]),
    );
}

#[test]
fn parse_attributes_single_quotes_and_repeats() {
    let mut parser = parser(0, "id='a' id='b'>");
    let parsed = parser.parse_attributes();
    assert_eq!(parsed, attrs(&[("id", "b")]));
    assert_eq!(parsed.get("id"), Some(&"b".to_string()));
}

#[test]
fn parse_nodes() {
    let mut parser = parser(0, "<div id=\"main\">hello</div><p>parag</p>");
    assert_eq!(
        parser.parse_nodes(),
        vec![
            dom::elem(
                String::from("div"),
                attrs(&[("id", "main")]),
                vec![dom::text("hello".to_string())],
            ),
            dom::elem(
                String::from("p"),
                AttrMap::new(),
                vec![dom::text("parag".to_string())],
            ),
        ],
    );
}

#[test]
fn unclosed_element_ends_at_input_end() {
    let node = parse("<div>text".to_string());
    assert_eq!(
        node,
        dom::elem(
            String::from("html"),
            AttrMap::new(),
            vec![dom::elem(
                String::from("div"),
                AttrMap::new(),
                vec![dom::text("text".to_string())],
            )],
        ),
    );
}
