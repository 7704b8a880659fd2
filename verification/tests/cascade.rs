use browser_engine::box_model::Display;
use browser_engine::dom::{elem, text, AttrMap, Node, NodeType};
use browser_engine::parsing::css_parser::CssParser;
use browser_engine::str_map::StrMap;
use browser_engine::style::css::{
    specificity_at_most, Colour, Declaration, MatchedRule, Rule, Selector, SimpleSelector,
    Stylesheet, Unit, Value, UNITS_PER_PX,
};
use browser_engine::style::style_tree::{
    match_rule, matches_simple_selector, matching_rules, sort_by_specificity,
    specified_values, style_tree,
};

fn px(n: i64) -> Value {
    Value::Length(n * UNITS_PER_PX, Unit::Px)
}

fn keyword(k: &str) -> Value {
    Value::Keyword(k.to_string())
}

fn attrs(pairs: &[(&str, &str)]) -> AttrMap {
    let mut m: AttrMap = StrMap::new();
    for (k, v) in pairs {
        m.insert(k.to_string(), v.to_string());
    }
    m
}

fn element(tag: &str, pairs: &[(&str, &str)], children: Vec<Node>) -> Node {
    elem(tag.to_string(), attrs(pairs), children)
}

fn selector(css: &str) -> Selector {
    Selector::Simple(CssParser::new(css).parse_simple_selector())
}

fn rule(selectors: &[&str], declarations: &[(&str, Value)]) -> Rule {
    Rule {
        selectors: selectors.iter().map(|s| selector(s)).collect(),
        declarations: declarations
            .iter()
            .map(|(name, value)| Declaration { name: name.to_string(), value: value.clone() })
            .collect(),
    }
}

fn data(n: &Node) -> &browser_engine::dom::ElementData {
    match &n.node_type {
        NodeType::Element(e) => e,
        NodeType::Text(_) => panic!("not an element"),
    }
}

#[test]
fn specificity_counts_ids_classes_and_tags() {
    assert_eq!(selector("#x").specificity(), (1, 0, 0));
    assert_eq!(selector(".y.z").specificity(), (0, 2, 0));
    assert_eq!(selector("div").specificity(), (0, 0, 1));
    assert_eq!(selector("*").specificity(), (0, 0, 0));
    assert_eq!(selector("div#x.y.z").specificity(), (1, 2, 1));
}

#[test]
fn id_outweighs_classes_outweigh_tag_outweighs_universal() {
    let order = [selector("*"), selector("div"), selector(".y.z"), selector("#x")];
    for i in 0..order.len() {
        for j in 0..order.len() {
            assert_eq!(
                specificity_at_most(order[i].specificity(), order[j].specificity()),
                i <= j
            );
        }
    }
    assert!(specificity_at_most((0, 9, 9), (1, 0, 0)));
    assert!(!specificity_at_most((1, 0, 0), (0, 9, 9)));
    assert!(specificity_at_most((0, 0, 9), (0, 1, 0)));
    assert!(specificity_at_most((1, 2, 3), (1, 2, 3)));
    assert!(!specificity_at_most((1, 2, 4), (1, 2, 3)));
}

#[test]
fn head_to_head_the_weightier_selector_wins() {
    let e = element("div", &[("id", "x"), ("class", "y z")], vec![]);
    let selectors = ["*", "div", ".y.z", "#x"];
    for i in 0..selectors.len() {
        for j in 0..selectors.len() {
            if i == j {
                continue;
            }
            let sheet = Stylesheet {
                rules: vec![
                    rule(&[selectors[i]], &[("width", px(i as i64))]),
                    rule(&[selectors[j]], &[("width", px(j as i64))]),
                ],
            };
            let values = specified_values(data(&e), &sheet);
            let winner = if i > j { i } else { j };
            assert_eq!(values.get("width"), Some(&px(winner as i64)));
        }
    }
}

#[test]
fn id_rule_beats_class_rule() {
    let e = element("div", &[("id", "x"), ("class", "a")], vec![]);
    let sheet = Stylesheet {
        rules: vec![
            rule(&[".a"], &[("width", px(50))]),
            rule(&["div#x"], &[("width", px(100))]),
        ],
    };
    assert_eq!(specified_values(data(&e), &sheet).get("width"), Some(&px(100)));
    let reversed = Stylesheet {
        rules: vec![
            rule(&["div#x"], &[("width", px(100))]),
            rule(&[".a"], &[("width", px(50))]),
        ],
    };
    assert_eq!(specified_values(data(&e), &reversed).get("width"), Some(&px(100)));
}

#[test]
fn id_rule_beats_class_rule_read_from_text() {
    let e = element("div", &[("id", "x"), ("class", "a")], vec![]);
    let sheet = CssParser::parse(".a {width: 50px;} div#x {width: 100px;}".to_string()).unwrap();
    assert_eq!(specified_values(data(&e), &sheet).get("width"), Some(&px(100)));
}

#[test]
fn resolving_twice_gives_the_same_properties() {
    let e = element("p", &[("class", "a b")], vec![]);
    let sheet = Stylesheet {
        rules: vec![
            rule(&["p"], &[("width", px(1)), ("display", keyword("block"))]),
            rule(&[".a"], &[("width", px(2)), ("margin", px(3))]),
            rule(&[".b"], &[("colour", Value::ColourValue(Colour { r: 1, g: 2, b: 3, a: 255 }))]),
            rule(&["#none"], &[("height", px(9))]),
        ],
    };
    let first = specified_values(data(&e), &sheet);
    let second = specified_values(data(&e), &sheet);
    assert_eq!(first.len(), 4);
    assert_eq!(second.len(), 4);
    for name in ["width", "display", "margin", "colour", "height"] {
        assert_eq!(first.get(name), second.get(name));
    }
    assert_eq!(first.get("width"), Some(&px(2)));
    assert_eq!(first.get("display"), Some(&keyword("block")));
    assert_eq!(first.get("height"), None);
}

#[test]
fn equal_weights_fall_to_the_later_rule() {
    let e = element("p", &[("class", "a b")], vec![]);
    let sheet = Stylesheet {
        rules: vec![
            rule(&[".a"], &[("width", px(1))]),
            rule(&[".b"], &[("width", px(2))]),
        ],
    };
    assert_eq!(specified_values(data(&e), &sheet).get("width"), Some(&px(2)));
}

#[test]
fn later_declaration_of_a_rule_wins() {
    let e = element("p", &[], vec![]);
    let sheet = Stylesheet { rules: vec![rule(&["p"], &[("width", px(1)), ("width", px(2))])] };
    let values = specified_values(data(&e), &sheet);
    assert_eq!(values.get("width"), Some(&px(2)));
    assert_eq!(values.len(), 1);
}

#[test]
fn nothing_matches_nothing_is_set() {
    let e = element("p", &[], vec![]);
    let sheet = Stylesheet { rules: vec![rule(&["div"], &[("width", px(1))])] };
    let values = specified_values(data(&e), &sheet);
    assert_eq!(values.len(), 0);
    assert_eq!(values.get("width"), None);
    assert_eq!(specified_values(data(&e), &Stylesheet { rules: vec![] }).len(), 0);
}

#[test]
fn simple_selector_needs_every_part() {
    let e = element("div", &[("id", "x"), ("class", "a b")], vec![]);
    let d = data(&e);
    for (css, expected) in [
        ("*", true),
        ("", true),
        ("div", true),
        ("p", false),
        ("#x", true),
        ("#y", false),
        (".a", true),
        (".b.a", true),
        (".a.c", false),
        ("div#x.a.b", true),
        ("div#x.a.c", false),
        ("p#x.a.b", false),
        (".A", false),
    ] {
        assert_eq!(
            browser_engine::style::style_tree::matches(d, &selector(css)),
            expected,
            "{}",
            css
        );
    }
    let bare = element("div", &[], vec![]);
    assert!(!browser_engine::style::style_tree::matches(data(&bare), &selector("#x")));
    assert!(!browser_engine::style::style_tree::matches(data(&bare), &selector(".a")));
    assert!(matches_simple_selector(
        data(&bare),
        &SimpleSelector { tag_name: None, id: None, class: vec![] }
    ));
    assert!(!matches_simple_selector(
        data(&bare),
        &SimpleSelector { tag_name: Some("p".to_string()), id: None, class: vec![] }
    ));
}

#[test]
fn rule_matches_by_its_first_matching_selector() {
    let e = element("div", &[("id", "x")], vec![]);
    let r = rule(&["p", "div", "#x"], &[("width", px(1))]);
    let m = match_rule(data(&e), &r).unwrap();
    assert_eq!(m.specificity, (0, 0, 1));
    assert!(std::ptr::eq(m.rule, &r));
    let other = rule(&["p", ".a"], &[("width", px(1))]);
    assert!(match_rule(data(&e), &other).is_none());
    let made = MatchedRule::new((1, 2, 3), &r);
    assert_eq!(made.specificity, (1, 2, 3));
    assert!(std::ptr::eq(made.rule, &r));
}

#[test]
fn matching_rules_keep_the_order_of_the_sheet() {
    let e = element("div", &[("id", "x"), ("class", "a")], vec![]);
    let sheet = Stylesheet {
        rules: vec![
            rule(&["#x"], &[]),
            rule(&["p"], &[]),
            rule(&["div"], &[]),
            rule(&[".a"], &[]),
            rule(&["*"], &[]),
        ],
    };
    let found = matching_rules(data(&e), &sheet);
    let weights: Vec<_> = found.iter().map(|m| m.specificity).collect();
    assert_eq!(weights, vec![(1, 0, 0), (0, 0, 1), (0, 1, 0), (0, 0, 0)]);
    assert!(std::ptr::eq(found[1].rule, &sheet.rules[2]));
}

#[test]
fn sorting_is_ascending_and_keeps_ties_in_order() {
    let rules: Vec<Rule> = (0..6).map(|i| rule(&["*"], &[("width", px(i))])).collect();
    let weights = [(0, 1, 0), (1, 0, 0), (0, 1, 0), (0, 0, 1), (0, 1, 0), (0, 0, 0)];
    let input: Vec<MatchedRule> =
        (0..6).map(|i| MatchedRule::new(weights[i], &rules[i])).collect();
    let sorted = sort_by_specificity(input);
    let order: Vec<usize> = sorted
        .iter()
        .map(|m| rules.iter().position(|r| std::ptr::eq(r, m.rule)).unwrap())
        .collect();
    assert_eq!(order, vec![5, 3, 0, 2, 4, 1]);
    assert!(sort_by_specificity(vec![]).is_empty());
}

#[test]
fn style_tree_mirrors_the_document() {
    let doc = element(
        "div",
        &[("class", "a")],
        vec![
            element("p", &[], vec![text("hello".to_string())]),
            text("world".to_string()),
            element("p", &[("id", "x")], vec![]),
        ],
    );
    let sheet = Stylesheet {
        rules: vec![
            rule(&["p"], &[("display", keyword("block"))]),
            rule(&["#x"], &[("display", keyword("none"))]),
            rule(&[".a"], &[("width", px(7))]),
        ],
    };
    let styled = style_tree(&doc, &sheet);
    assert!(std::ptr::eq(styled.node, &doc));
    assert_eq!(styled.children.len(), 3);
    assert_eq!(styled.children[0].children.len(), 1);
    assert!(std::ptr::eq(styled.children[0].children[0].node, &doc.children[0].children[0]));
    assert!(std::ptr::eq(styled.children[2].node, &doc.children[2]));
    assert_eq!(styled.value("width"), Some(px(7)));
    assert_eq!(styled.value("display"), None);
    assert_eq!(styled.children[0].value("width"), None);
    assert_eq!(styled.children[0].display(), Display::Block);
    assert_eq!(styled.children[0].children[0].specified_values.len(), 0);
    assert_eq!(styled.children[1].specified_values.len(), 0);
    assert_eq!(styled.children[2].display(), Display::Omitted);
    assert_eq!(styled.display(), Display::Inline);
}

#[test]
fn display_reads_the_keyword() {
    let doc = element("a", &[], vec![]);
    for (value, expected) in [
        (keyword("block"), Display::Block),
        (keyword("none"), Display::Omitted),
        (keyword("inline"), Display::Inline),
        (keyword("flex"), Display::Inline),
        (keyword("Block"), Display::Inline),
        (px(1), Display::Inline),
    ] {
        let sheet = Stylesheet { rules: vec![rule(&["a"], &[("display", value)])] };
        assert_eq!(style_tree(&doc, &sheet).display(), expected);
    }
}

#[test]
fn lookup_falls_back_twice() {
    let doc = element("a", &[], vec![]);
    let sheet = Stylesheet {
        rules: vec![rule(&["a"], &[("margin", px(1)), ("margin-left", px(2))])],
    };
    let styled = style_tree(&doc, &sheet);
    let zero = px(0);
    assert_eq!(styled.lookup("margin-left", "margin", &zero), px(2));
    assert_eq!(styled.lookup("margin-right", "margin", &zero), px(1));
    assert_eq!(styled.lookup("padding-left", "padding", &zero), px(0));
    assert_eq!(styled.lookup("padding-left", "padding", &keyword("auto")), keyword("auto"));
}

#[test]
fn to_px_is_zero_for_what_is_no_length() {
    assert_eq!(px(3).to_px(), 3 * UNITS_PER_PX);
    assert_eq!(Value::Length(-5, Unit::Px).to_px(), -5);
    assert_eq!(keyword("auto").to_px(), 0);
    assert_eq!(Value::ColourValue(Colour { r: 9, g: 9, b: 9, a: 9 }).to_px(), 0);
    assert!(keyword("auto").is_auto());
    assert!(!keyword("Auto").is_auto());
    assert!(!px(0).is_auto());
    assert_eq!(keyword("x").clone(), keyword("x"));
    assert_eq!(px(4).clone(), px(4));
}
