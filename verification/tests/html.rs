use browser_engine::dom::{Node, NodeType};
use browser_engine::parsing::html_parser::HtmlParser;
use browser_engine::parsing::parser::ParseError;

fn tag(n: &Node) -> &str {
    match &n.node_type {
        NodeType::Element(e) => &e.tag_name,
        NodeType::Text(_) => panic!("not an element"),
    }
}

fn attribute<'a>(n: &'a Node, name: &str) -> Option<&'a str> {
    match &n.node_type {
        NodeType::Element(e) => e.attributes.get(name).map(|s| s.as_str()),
        NodeType::Text(_) => panic!("not an element"),
    }
}

fn text_of(n: &Node) -> &str {
    match &n.node_type {
        NodeType::Text(t) => t,
        NodeType::Element(_) => panic!("not text"),
    }
}

fn error(html: &str) -> ParseError {
    HtmlParser::parse(html.to_string()).unwrap_err()
}

#[test]
fn single_root_is_the_document() {
    let doc = HtmlParser::parse("<div id=\"a\"><p>hi</p><p class='x y'>there</p></div>".to_string())
        .unwrap();
    assert_eq!(tag(&doc), "div");
    assert_eq!(attribute(&doc, "id"), Some("a"));
    assert_eq!(doc.children.len(), 2);
    assert_eq!(tag(&doc.children[0]), "p");
    assert_eq!(text_of(&doc.children[0].children[0]), "hi");
    assert_eq!(attribute(&doc.children[1], "class"), Some("x y"));
    assert_eq!(text_of(&doc.children[1].children[0]), "there");
    assert!(doc.children[0].children[0].children.is_empty());
}

#[test]
fn several_roots_get_an_html_element() {
    let doc = HtmlParser::parse("<a></a>text<b></b>".to_string()).unwrap();
    assert_eq!(tag(&doc), "html");
    assert_eq!(attribute(&doc, "id"), None);
    assert_eq!(doc.children.len(), 3);
    assert_eq!(tag(&doc.children[0]), "a");
    assert_eq!(text_of(&doc.children[1]), "text");
    assert_eq!(tag(&doc.children[2]), "b");
}

#[test]
fn empty_input_is_an_empty_html_element() {
    for input in ["", "  \n\t "] {
        let doc = HtmlParser::parse(input.to_string()).unwrap();
        assert_eq!(tag(&doc), "html");
        assert!(doc.children.is_empty());
    }
}

#[test]
fn lone_text_is_the_document() {
    let doc = HtmlParser::parse("  just text ".to_string()).unwrap();
    assert_eq!(text_of(&doc), "just text ");
}

#[test]
fn white_space_between_nodes_is_dropped() {
    let doc = HtmlParser::parse("<a>\n  <b> x </b>\n  y\n</a>".to_string()).unwrap();
    assert_eq!(doc.children.len(), 2);
    assert_eq!(text_of(&doc.children[0].children[0]), "x ");
    assert_eq!(text_of(&doc.children[1]), "y\n");
}

#[test]
fn attributes_take_both_quotes_and_the_later_value() {
    let doc =
        HtmlParser::parse("<a   x=\"it's\"  y='say \"hi\"' x='2'\n z=\"\"></a>".to_string()).unwrap();
    assert_eq!(attribute(&doc, "x"), Some("2"));
    assert_eq!(attribute(&doc, "y"), Some("say \"hi\""));
    assert_eq!(attribute(&doc, "z"), Some(""));
    match &doc.node_type {
        NodeType::Element(e) => {
            assert_eq!(e.attributes.len(), 3);
            assert_eq!(e.attributes.key_at(0), "x");
        }
        NodeType::Text(_) => panic!("not an element"),
    }
}

#[test]
fn closing_tag_at_top_level_ends_the_document() {
    let doc = HtmlParser::parse("<a></a></b>ignored".to_string()).unwrap();
    assert_eq!(tag(&doc), "a");
    assert!(doc.children.is_empty());
}

#[test]
fn nested_elements_keep_their_order() {
    let doc = HtmlParser::parse("<a><b><c></c></b><d></d></a>".to_string()).unwrap();
    assert_eq!(tag(&doc.children[0].children[0]), "c");
    assert_eq!(tag(&doc.children[1]), "d");
}

#[test]
fn mismatched_closing_tag_is_rejected() {
    assert_eq!(error("<a></b>"), ParseError::MismatchedTag);
    assert_eq!(error("<a><b></a></b>"), ParseError::MismatchedTag);
    assert_eq!(error("<div></DIV>"), ParseError::MismatchedTag);
    assert_eq!(error("<a></"), ParseError::MismatchedTag);
    assert_eq!(error("<a></>"), ParseError::MismatchedTag);
}

#[test]
fn unfinished_input_is_rejected() {
    for input in ["<", "<a", "<a ", "<a>", "<a><b></b>", "<a><", "<a></a", "<a x", "<a x=", "<a x='1", "<a x='1'"] {
        assert_eq!(error(input), ParseError::UnexpectedEof, "{}", input);
    }
}

#[test]
fn unexpected_characters_are_rejected() {
    for input in ["<a x>", "<a x=1></a>", "<a x ='1'></a>", "<a-b></a-b>", "<a/>", "<a><!x></a>", "<a></a >"] {
        assert_eq!(error(input), ParseError::UnexpectedChar, "{}", input);
    }
}

#[test]
fn readers_leave_the_position_on_failure() {
    let mut r = HtmlParser::new("<a x='1'><b></a>");
    assert_eq!(r.parse_element().unwrap_err(), ParseError::MismatchedTag);
    assert_eq!(r.p.pos, 0);
    assert_eq!(r.parse_node().unwrap_err(), ParseError::MismatchedTag);
    assert_eq!(r.parse_nodes().unwrap_err(), ParseError::MismatchedTag);
    assert_eq!(r.p.pos, 0);
    r.p.pos = 3;
    assert_eq!(r.parse_attribute(), Ok(("x".to_string(), "1".to_string())));
    assert_eq!(r.p.pos, 8);
    assert_eq!(r.parse_attribute().unwrap_err(), ParseError::UnexpectedChar);
    assert_eq!(r.p.pos, 8);
    assert_eq!(r.parse_attribute_value().unwrap_err(), ParseError::UnexpectedChar);
    r.p.pos = 5;
    assert_eq!(r.parse_attribute_value(), Ok("1".to_string()));
    r.p.pos = 2;
    let attributes = r.parse_attributes().unwrap();
    assert_eq!(attributes.get("x"), Some(&"1".to_string()));
    assert_eq!(r.p.pos, 8);
    r.p.pos = 16;
    assert_eq!(r.parse_node().unwrap_err(), ParseError::UnexpectedEof);
    assert_eq!(r.parse_attributes().unwrap_err(), ParseError::UnexpectedEof);
}

#[test]
fn parse_text_reads_up_to_the_next_tag() {
    let mut r = HtmlParser::new("some text<b>");
    let n = r.parse_text();
    assert_eq!(text_of(&n), "some text");
    assert_eq!(r.p.pos, 9);
    assert_eq!(text_of(&r.parse_text()), "");
}
