//! Style sheets, the values they declare, and styled nodes.

use vstd::prelude::*;
use crate::box_model::Display;
use crate::dom::{Node, NodeView, string_views};
use crate::str_map::StrMap;
use crate::text::str_eq;

verus! {

/// How many layout units make one CSS pixel.
pub const UNITS_PER_PX: i64 = 1000;

/// A set of style rules, in the order in which they were written.
#[derive(Debug)]
pub struct Stylesheet {
    pub rules: Vec<Rule>,
}

/// A rule: declarations together with the selectors they are meant for.
#[derive(Debug, PartialEq, Eq)]
pub struct Rule {
    pub selectors: Vec<Selector>,
    pub declarations: Vec<Declaration>,
}

/// The weight of a selector: how many ids, classes and tag names it
/// names. Weights compare id first, then class, then tag.
pub type Specificity = (usize, usize, usize);

/// A rule together with the weight of the selector through which it
/// matched.
#[derive(Clone, Copy, Debug)]
pub struct MatchedRule<'a> {
    pub specificity: Specificity,
    pub rule: &'a Rule,
}

/// The kinds of selector.
#[derive(Debug, PartialEq, Eq)]
pub enum Selector {
    Simple(SimpleSelector),
}

/// A selector without combinators: an optional tag name, an optional id
/// and any number of classes, all of which an element must have.
#[derive(Debug, PartialEq, Eq)]
pub struct SimpleSelector {
    pub tag_name: Option<String>,
    pub id: Option<String>,
    pub class: Vec<String>,
}

/// One property with the value declared for it.
#[derive(Debug, PartialEq, Eq)]
pub struct Declaration {
    pub name: String,
    pub value: Value,
}

/// The resolved properties of a node, keyed by property name.
pub type PropertyMap = StrMap<Value>;

/// A declared value.
#[derive(Debug, PartialEq, Eq)]
pub enum Value {
    Keyword(String),
    Length(i64, Unit),
    ColourValue(Colour),
}

/// The units of length.
#[derive(Debug, Clone, Copy, PartialEq, Eq, Structural)]
pub enum Unit {
    Px,
}

/// A colour with its four channels.
#[derive(Debug, Clone, Copy, PartialEq, Eq, Structural)]
pub struct Colour {
    pub r: u8,
    pub g: u8,
    pub b: u8,
    pub a: u8,
}

/// The mathematical value of a [`Value`].
pub enum ValueView {
    Keyword(Seq<char>),
    Length(i64, Unit),
    ColourValue(Colour),
}

/// The mathematical value of a [`Declaration`].
pub struct DeclarationView {
    pub name: Seq<char>,
    pub value: ValueView,
}

/// The mathematical value of a [`SimpleSelector`].
pub struct SimpleSelectorView {
    pub tag_name: Option<Seq<char>>,
    pub id: Option<Seq<char>>,
    pub class: Seq<Seq<char>>,
}

/// The mathematical value of a [`Selector`].
pub enum SelectorView {
    Simple(SimpleSelectorView),
}

/// The mathematical value of a [`Rule`].
pub struct RuleView {
    pub selectors: Seq<SelectorView>,
    pub declarations: Seq<DeclarationView>,
}

/// The mathematical value of a [`Stylesheet`].
pub struct StylesheetView {
    pub rules: Seq<RuleView>,
}

/// The mathematical value of a [`MatchedRule`].
pub struct MatchedRuleView {
    pub specificity: (int, int, int),
    pub rule: RuleView,
}

impl View for Value {
    type V = ValueView;

    open spec fn view(&self) -> ValueView {
        match self {
            Value::Keyword(k) => ValueView::Keyword(k@),
            Value::Length(n, u) => ValueView::Length(*n, *u),
            Value::ColourValue(c) => ValueView::ColourValue(*c),
        }
    }
}

impl View for Declaration {
    type V = DeclarationView;

    open spec fn view(&self) -> DeclarationView {
        DeclarationView { name: self.name@, value: self.value@ }
    }
}

/// The view of an optional string.
pub open spec fn option_view(s: Option<String>) -> Option<Seq<char>> {
    match s {
        Some(s) => Some(s@),
        None => None,
    }
}

impl View for SimpleSelector {
    type V = SimpleSelectorView;

    open spec fn view(&self) -> SimpleSelectorView {
        SimpleSelectorView {
            tag_name: option_view(self.tag_name),
            id: option_view(self.id),
            class: string_views(self.class@),
        }
    }
}

impl View for Selector {
    type V = SelectorView;

    open spec fn view(&self) -> SelectorView {
        match self {
            Selector::Simple(s) => SelectorView::Simple(s@),
        }
    }
}

/// The views of a sequence of selectors, in order.
pub open spec fn selector_views(s: Seq<Selector>) -> Seq<SelectorView> {
    Seq::new(s.len(), |i: int| s[i]@)
}

/// The views of a sequence of declarations, in order.
pub open spec fn declaration_views(s: Seq<Declaration>) -> Seq<DeclarationView> {
    Seq::new(s.len(), |i: int| s[i]@)
}

/// The views of a sequence of rules, in order.
pub open spec fn rule_views(s: Seq<Rule>) -> Seq<RuleView> {
    Seq::new(s.len(), |i: int| s[i]@)
}

impl View for Rule {
    type V = RuleView;

    open spec fn view(&self) -> RuleView {
        RuleView {
            selectors: selector_views(self.selectors@),
            declarations: declaration_views(self.declarations@),
        }
    }
}

impl View for Stylesheet {
    type V = StylesheetView;

    open spec fn view(&self) -> StylesheetView {
        StylesheetView { rules: rule_views(self.rules@) }
    }
}

impl<'a> View for MatchedRule<'a> {
    type V = MatchedRuleView;

    open spec fn view(&self) -> MatchedRuleView {
        MatchedRuleView { specificity: weight(self.specificity), rule: (*self.rule)@ }
    }
}

impl<'a> MatchedRule<'a> {
    /// Pairs a rule with the weight of the selector that matched.
    pub fn new(specificity: Specificity, rule: &'a Rule) -> (m: Self)
        ensures
            m.specificity == specificity,
            m.rule == rule,
    {
        Self { specificity, rule }
    }
}

impl ValueView {
    /// The size of a length in layout units; zero for what is no length.
    pub open spec fn to_px(self) -> i64 {
        match self {
            ValueView::Length(n, Unit::Px) => n,
            _ => 0,
        }
    }

    /// Whether this is the keyword `auto`.
    pub open spec fn is_auto(self) -> bool {
        self == ValueView::Keyword("auto"@)
    }
}

impl Clone for Value {
    fn clone(&self) -> (r: Self)
        ensures
            r == *self,
    {
        match self {
            Value::Keyword(k) => Value::Keyword(k.clone()),
            Value::Length(n, u) => Value::Length(*n, *u),
            Value::ColourValue(c) => Value::ColourValue(*c),
        }
    }
}

impl Value {
    /// The size of a length in layout units; zero for what is no length.
    pub fn to_px(&self) -> (r: i64)
        ensures
            r == self@.to_px(),
    {
        match self {
            Value::Length(n, Unit::Px) => *n,
            _ => 0,
        }
    }

    /// Whether this is the keyword `auto`.
    pub fn is_auto(&self) -> (r: bool)
        ensures
            r == self@.is_auto(),
    {
        match self {
            Value::Keyword(k) => str_eq(k.as_str(), "auto"),
            _ => false,
        }
    }
}

impl SimpleSelectorView {
    /// The weight of the selector: one for an id, one for each class,
    /// one for a tag name.
    pub open spec fn specificity(self) -> (int, int, int) {
        (
            if self.id is Some { 1int } else { 0int },
            self.class.len() as int,
            if self.tag_name is Some { 1int } else { 0int },
        )
    }
}

impl SelectorView {
    /// The weight of the selector.
    pub open spec fn specificity(self) -> (int, int, int) {
        match self {
            SelectorView::Simple(s) => s.specificity(),
        }
    }
}

/// Whether weight `a` is strictly below weight `b`: ids decide first,
/// then classes, then tag names.
pub open spec fn specificity_lt(a: (int, int, int), b: (int, int, int)) -> bool {
    a.0 < b.0 || (a.0 == b.0 && (a.1 < b.1 || (a.1 == b.1 && a.2 < b.2)))
}

/// Whether weight `a` is below or equal to weight `b`.
pub open spec fn specificity_le(a: (int, int, int), b: (int, int, int)) -> bool {
    a == b || specificity_lt(a, b)
}

/// A weight as a triple of mathematical integers.
pub open spec fn weight(s: Specificity) -> (int, int, int) {
    (s.0 as int, s.1 as int, s.2 as int)
}

impl Selector {
    /// The weight of the selector: one for an id, one for each class,
    /// one for a tag name.
    pub fn specificity(&self) -> (r: Specificity)
        ensures
            weight(r) == self@.specificity(),
    {
        match self {
            Selector::Simple(simple) => {
                let a: usize = if simple.id.is_some() { 1 } else { 0 };
                let b: usize = simple.class.len();
                let c: usize = if simple.tag_name.is_some() { 1 } else { 0 };
                (a, b, c)
            },
        }
    }
}

/// Whether weight `a` is below or equal to weight `b`.
pub fn specificity_at_most(a: Specificity, b: Specificity) -> (r: bool)
    ensures
        r == specificity_le(weight(a), weight(b)),
{
    if a.0 != b.0 {
        a.0 < b.0
    } else if a.1 != b.1 {
        a.1 < b.1
    } else {
        a.2 <= b.2
    }
}

/// A document node together with the properties resolved for it and the
/// styled nodes of its children.
#[derive(Debug)]
pub struct StyledNode<'a> {
    pub node: &'a Node,
    pub specified_values: PropertyMap,
    pub children: Vec<StyledNode<'a>>,
}

/// The mathematical value of a [`StyledNode`].
pub struct StyledNodeView {
    pub node: NodeView,
    pub specified_values: Map<Seq<char>, ValueView>,
    pub children: Seq<StyledNodeView>,
}

/// The mathematical value of `n`: its node, its properties and the
/// values of its children, in order.
pub open spec fn styled_node_view(n: StyledNode) -> StyledNodeView
    decreases n,
{
    StyledNodeView {
        node: (*n.node)@,
        specified_values: n.specified_values@,
        children: Seq::new(
            n.children@.len(),
            |i: int|
                if 0 <= i < n.children@.len() {
                    styled_node_view(n.children@[i])
                } else {
                    arbitrary()
                },
        ),
    }
}

impl<'a> View for StyledNode<'a> {
    type V = StyledNodeView;

    open spec fn view(&self) -> StyledNodeView {
        styled_node_view(*self)
    }
}

/// The value that `values` holds for `key`, else the one for `key_2`,
/// else `default_val`.
pub open spec fn lookup_in(
    values: Map<Seq<char>, ValueView>,
    key: Seq<char>,
    key_2: Seq<char>,
    default_val: ValueView,
) -> ValueView {
    if values.contains_key(key) {
        values[key]
    } else if values.contains_key(key_2) {
        values[key_2]
    } else {
        default_val
    }
}

/// The display category that `values` asks for: `block` and `none` by
/// their keywords, `inline` for everything else.
pub open spec fn display_of(values: Map<Seq<char>, ValueView>) -> Display {
    if values.contains_key("display"@) {
        if values["display"@] == ValueView::Keyword("block"@) {
            Display::Block
        } else if values["display"@] == ValueView::Keyword("none"@) {
            Display::Omitted
        } else {
            Display::Inline
        }
    } else {
        Display::Inline
    }
}

impl StyledNodeView {
    /// The display category of the node.
    pub open spec fn display(self) -> Display {
        display_of(self.specified_values)
    }
}

impl<'a> StyledNode<'a> {
    /// The value resolved for the property `name`, if there is one.
    pub fn value(&self, name: &str) -> (r: Option<Value>)
        ensures
            match r {
                Some(v) => self@.specified_values.contains_key(name@)
                    && self@.specified_values[name@] == v@,
                None => !self@.specified_values.contains_key(name@),
            },
    {
        match self.specified_values.get(name) {
            Some(v) => Some(v.clone()),
            None => None,
        }
    }

    /// The display category of the node.
    pub fn display(&self) -> (r: Display)
        ensures
            r == self@.display(),
    {
        match self.specified_values.get("display") {
            Some(Value::Keyword(v)) => {
                if str_eq(v.as_str(), "block") {
                    Display::Block
                } else if str_eq(v.as_str(), "none") {
                    Display::Omitted
                } else {
                    Display::Inline
                }
            },
            _ => Display::Inline,
        }
    }

    /// The value resolved for `key`, else the one for `key_2`, else
    /// `default_val`.
    pub fn lookup(&self, key: &str, key_2: &str, default_val: &Value) -> (r: Value)
        ensures
            r@ == lookup_in(self@.specified_values, key@, key_2@, default_val@),
    {
        match self.specified_values.get(key) {
            Some(v) => v.clone(),
            None => match self.specified_values.get(key_2) {
                Some(v) => v.clone(),
                None => default_val.clone(),
            },
        }
    }
}

} // verus!
