use browser_engine::dom::{elem, split_on_space, text, AttrMap, Node, NodeType};
use browser_engine::parsing::html_parser::HtmlParser;
use browser_engine::str_map::StrMap;

fn attrs(pairs: &[(&str, &str)]) -> AttrMap {
    let mut m: AttrMap = StrMap::new();
    for (k, v) in pairs {
        m.insert(k.to_string(), v.to_string());
    }
    m
}

fn data(n: &Node) -> &browser_engine::dom::ElementData {
    match &n.node_type {
        NodeType::Element(e) => e,
        NodeType::Text(_) => panic!("not an element"),
    }
}

#[test]
fn text_node_holds_its_text() {
    let n = text("hello".to_string());
    assert!(n.children.is_empty());
    assert!(matches!(&n.node_type, NodeType::Text(t) if t == "hello"));
}

#[test]
fn element_node_holds_its_parts() {
    let n = elem(
        "div".to_string(),
        attrs(&[("id", "x"), ("class", "a b")]),
        vec![text("t".to_string()), elem("p".to_string(), attrs(&[]), vec![])],
    );
    assert_eq!(n.children.len(), 2);
    let e = data(&n);
    assert_eq!(e.tag_name, "div");
    assert_eq!(e.attributes.get("id"), Some(&"x".to_string()));
    assert_eq!(e.attributes.len(), 2);
    assert_eq!(data(&n.children[1]).tag_name, "p");
}

#[test]
fn id_is_read_from_the_attributes() {
    let with = elem("a".to_string(), attrs(&[("id", "main")]), vec![]);
    assert_eq!(data(&with).id(), Some(&"main".to_string()));
    let without = elem("a".to_string(), attrs(&[("ID", "main"), ("class", "id")]), vec![]);
    assert_eq!(data(&without).id(), None);
}

#[test]
fn classes_are_split_on_single_spaces() {
    let n = elem("a".to_string(), attrs(&[("class", "one two  three")]), vec![]);
    assert_eq!(data(&n).classes(), vec!["one", "two", "", "three"]);
    let none = elem("a".to_string(), attrs(&[]), vec![]);
    assert!(data(&none).classes().is_empty());
    let empty = elem("a".to_string(), attrs(&[("class", "")]), vec![]);
    assert_eq!(data(&empty).classes(), vec![""]);
}

#[test]
fn split_on_space_keeps_every_piece() {
    assert_eq!(split_on_space(""), vec![""]);
    assert_eq!(split_on_space("a"), vec!["a"]);
    assert_eq!(split_on_space(" "), vec!["", ""]);
    assert_eq!(split_on_space(" a b "), vec!["", "a", "b", ""]);
    assert_eq!(split_on_space("a\tb c"), vec!["a\tb", "c"]);
    for s in ["", "x y", "  lead", "tail  ", "a b c d"] {
        let expected: Vec<String> = s.split(' ').map(|p| p.to_string()).collect();
        assert_eq!(split_on_space(s), expected);
        assert_eq!(split_on_space(s).join(" "), s);
    }
}

#[test]
fn str_map_replaces_and_keeps_order() {
    let mut m: StrMap<String> = StrMap::new();
    assert_eq!(m.len(), 0);
    assert_eq!(m.get("a"), None);
    m.insert("b".to_string(), "1".to_string());
    m.insert("a".to_string(), "2".to_string());
    m.insert("b".to_string(), "3".to_string());
    assert_eq!(m.len(), 2);
    assert_eq!(m.get("b"), Some(&"3".to_string()));
    assert_eq!(m.get("a"), Some(&"2".to_string()));
    assert_eq!(m.get(""), None);
    assert_eq!(m.key_at(0), "b");
    assert_eq!(m.value_at(0), "3");
    assert_eq!(m.key_at(1), "a");
    assert_eq!(m.value_at(1), "2");
}

#[test]
fn element_text_lists_attributes_in_order() {
    let n = elem("div".to_string(), attrs(&[("id", "x"), ("class", "a b")]), vec![]);
    assert_eq!(data(&n).to_text(), "<div id=\"x\" class=\"a b\">");
    assert_eq!(n.node_type.to_text(), "<div id=\"x\" class=\"a b\">");
    assert_eq!(data(&elem("p".to_string(), attrs(&[]), vec![])).to_text(), "<p>");
    assert_eq!(text("hi there".to_string()).node_type.to_text(), "hi there");
}

#[test]
fn tree_text_indents_children() {
    let doc = HtmlParser::parse(
        "<html><body class='c'><p>hello</p><div></div></body></html>".to_string(),
    )
    .unwrap();
    assert_eq!(
        doc.to_text(),
        "<html>\n    <body class=\"c\">\n        <p>\n            hello\n        </p>\n        \
         <div>\n        </div>\n    </body>\n</html>\n\n"
    );
    assert_eq!(text("t".to_string()).to_text(), "t\n\n");
}
