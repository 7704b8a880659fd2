//! The cascade: which rules apply to an element, and what they make of
//! its properties.

use vstd::prelude::*;
use crate::dom::{ElementData, ElementDataView, Node, NodeType, NodeTypeView, NodeView, string_views};
use crate::style::css::{
    DeclarationView, MatchedRule, MatchedRuleView, PropertyMap, Rule, RuleView, Selector,
    SelectorView, SimpleSelector, SimpleSelectorView, StyledNode, StyledNodeView, Stylesheet,
    StylesheetView, ValueView, specificity_at_most, specificity_le, specificity_lt, weight,
};
use crate::text::str_eq;

verus! {

/// Whether the simple selector `selector` matches the element `elem`:
/// the tag name, the id and every class that the selector names must be
/// those of the element. A selector that names nothing matches every
/// element.
pub open spec fn simple_selector_matches(elem: ElementDataView, selector: SimpleSelectorView) -> bool {
    &&& selector.tag_name matches Some(t) ==> t == elem.tag_name
    &&& selector.id matches Some(i) ==> elem.id() == Some(i)
    &&& forall|k: int| 0 <= k < selector.class.len() ==> elem.has_class(#[trigger] selector.class[k])
}

/// Whether `selector` matches the element `elem`.
pub open spec fn selector_matches(elem: ElementDataView, selector: SelectorView) -> bool {
    match selector {
        SelectorView::Simple(s) => simple_selector_matches(elem, s),
    }
}

/// Whether `selectors[i]` is the first of `selectors` to match `elem`.
pub open spec fn is_first_match(elem: ElementDataView, selectors: Seq<SelectorView>, i: int) -> bool {
    &&& 0 <= i < selectors.len()
    &&& selector_matches(elem, selectors[i])
    &&& forall|j: int| 0 <= j < i ==> !selector_matches(elem, #[trigger] selectors[j])
}

/// The match of `rule` with `elem`, if there is one. A rule matches if
/// any of its selectors does, and then by the first that does: its
/// weight is recorded with the rule.
pub open spec fn rule_match(elem: ElementDataView, rule: RuleView) -> Option<MatchedRuleView> {
    if exists|i: int| is_first_match(elem, rule.selectors, i) {
        let i = choose|i: int| is_first_match(elem, rule.selectors, i);
        Some(MatchedRuleView { specificity: rule.selectors[i].specificity(), rule })
    } else {
        None
    }
}

/// The matches of the first `n` of `rules` with `elem`, in the order of
/// the rules.
pub open spec fn rule_matches(elem: ElementDataView, rules: Seq<RuleView>, n: nat) -> Seq<
    MatchedRuleView,
>
    decreases n,
{
    if n == 0 || n > rules.len() {
        Seq::<MatchedRuleView>::empty()
    } else {
        let before = rule_matches(elem, rules, (n - 1) as nat);
        match rule_match(elem, rules[n - 1]) {
            Some(m) => before.push(m),
            None => before,
        }
    }
}

/// `sorted` with `m` put behind the last match that weighs no more than
/// `m` does.
pub open spec fn insert_by_weight(sorted: Seq<MatchedRuleView>, m: MatchedRuleView) -> Seq<
    MatchedRuleView,
>
    decreases sorted.len(),
{
    if sorted.len() == 0 {
        seq![m]
    } else if specificity_le(sorted.last().specificity, m.specificity) {
        sorted.push(m)
    } else {
        insert_by_weight(sorted.drop_last(), m).push(sorted.last())
    }
}

/// The first `n` of `matches` in cascade order: by ascending weight, and
/// matches of one weight in the order in which they came.
pub open spec fn cascade_order(matches: Seq<MatchedRuleView>, n: nat) -> Seq<MatchedRuleView>
    decreases n,
{
    if n == 0 || n > matches.len() {
        Seq::<MatchedRuleView>::empty()
    } else {
        insert_by_weight(cascade_order(matches, (n - 1) as nat), matches[n - 1])
    }
}

/// `values` after the first `n` of `declarations` were written into it
/// one after the other, a later one replacing an earlier one for the
/// same property.
pub open spec fn apply_declarations(
    values: Map<Seq<char>, ValueView>,
    declarations: Seq<DeclarationView>,
    n: nat,
) -> Map<Seq<char>, ValueView>
    decreases n,
{
    if n == 0 || n > declarations.len() {
        values
    } else {
        apply_declarations(values, declarations, (n - 1) as nat).insert(
            declarations[n - 1].name,
            declarations[n - 1].value,
        )
    }
}

/// `values` after the declarations of the first `n` of `matches` were
/// written into it, rule after rule.
pub open spec fn apply_matches(
    values: Map<Seq<char>, ValueView>,
    matches: Seq<MatchedRuleView>,
    n: nat,
) -> Map<Seq<char>, ValueView>
    decreases n,
{
    if n == 0 || n > matches.len() {
        values
    } else {
        apply_declarations(
            apply_matches(values, matches, (n - 1) as nat),
            matches[n - 1].rule.declarations,
            matches[n - 1].rule.declarations.len(),
        )
    }
}

/// The properties that `stylesheet` gives to the element `elem`: the
/// declarations of all rules that match it, written in cascade order,
/// so that the declaration of the weightiest rule stands in the end.
pub open spec fn cascade(elem: ElementDataView, stylesheet: StylesheetView) -> Map<
    Seq<char>,
    ValueView,
> {
    let matches = rule_matches(elem, stylesheet.rules, stylesheet.rules.len());
    let ordered = cascade_order(matches, matches.len());
    apply_matches(Map::empty(), ordered, ordered.len())
}

/// The styled tree that `stylesheet` makes of the document tree `root`:
/// node for node the same tree, each element with the properties that
/// the cascade gives it, each text node with none.
pub open spec fn styled_tree(root: NodeView, stylesheet: StylesheetView) -> StyledNodeView
    decreases root,
{
    StyledNodeView {
        node: root,
        specified_values: match root.node_type {
            NodeTypeView::Element(elem) => cascade(elem, stylesheet),
            NodeTypeView::Text(_) => Map::empty(),
        },
        children: Seq::new(
            root.children.len(),
            |i: int|
                if 0 <= i < root.children.len() {
                    styled_tree(root.children[i], stylesheet)
                } else {
                    arbitrary()
                },
        ),
    }
}

/// The views of a sequence of matches, in order.
pub open spec fn matched_views(s: Seq<MatchedRule>) -> Seq<MatchedRuleView> {
    Seq::new(s.len(), |i: int| s[i]@)
}

/// Whether `name` is one of `names`.
fn contains_name(names: &Vec<String>, name: &str) -> (r: bool)
    ensures
        r == string_views(names@).contains(name@),
{
    let mut i: usize = 0;
    while i < names.len()
        invariant
            i <= names.len(),
            forall|j: int| 0 <= j < i ==> string_views(names@)[j] != name@,
        decreases names.len() - i,
    {
        if str_eq(names[i].as_str(), name) {
            assert(string_views(names@)[i as int] == name@);
            return true;
        }
        i += 1;
    }
    false
}

/// Whether `selector` matches the element `elem`.
pub fn matches(elem: &ElementData, selector: &Selector) -> (r: bool)
    ensures
        r == selector_matches(elem@, selector@),
{
    match selector {
        Selector::Simple(simple_selector) => matches_simple_selector(elem, simple_selector),
    }
}

/// Whether the simple selector `selector` matches the element `elem`.
pub fn matches_simple_selector(elem: &ElementData, selector: &SimpleSelector) -> (r: bool)
    ensures
        r == simple_selector_matches(elem@, selector@),
{
    match &selector.tag_name {
        Some(t) => {
            if !str_eq(t.as_str(), elem.tag_name.as_str()) {
                return false;
            }
        },
        None => {},
    }
    match &selector.id {
        Some(i) => match elem.id() {
            Some(own) => {
                if !str_eq(i.as_str(), own.as_str()) {
                    return false;
                }
            },
            None => {
                return false;
            },
        },
        None => {},
    }
    let classes = elem.classes();
    let mut k: usize = 0;
    while k < selector.class.len()
        invariant
            k <= selector.class.len(),
            string_views(classes@) == elem@.classes(),
            forall|j: int| 0 <= j < k ==> elem@.has_class(#[trigger] selector@.class[j]),
        decreases selector.class.len() - k,
    {
        if !contains_name(&classes, selector.class[k].as_str()) {
            assert(!elem@.has_class(selector@.class[k as int]));
            return false;
        }
        k += 1;
    }
    true
}

/// The match of `rule` with `elem`, if there is one.
pub fn match_rule<'a>(elem: &ElementData, rule: &'a Rule) -> (r: Option<MatchedRule<'a>>)
    ensures
        match r {
            Some(m) => rule_match(elem@, rule@) == Some(m@) && m.rule == rule,
            None => rule_match(elem@, rule@) is None,
        },
{
    let mut i: usize = 0;
    while i < rule.selectors.len()
        invariant
            i <= rule.selectors.len(),
            forall|j: int| 0 <= j < i ==> !selector_matches(elem@, #[trigger] rule@.selectors[j]),
        decreases rule.selectors.len() - i,
    {
        if matches(elem, &rule.selectors[i]) {
            proof {
                assert(is_first_match(elem@, rule@.selectors, i as int));
                let c = choose|c: int| is_first_match(elem@, rule@.selectors, c);
                assert(c == i) by {
                    if c < i {
                        assert(!selector_matches(elem@, rule@.selectors[c]));
                    } else if i < c {
                        assert(!selector_matches(elem@, rule@.selectors[i as int]));
                    }
                }
            }
            return Some(MatchedRule::new(rule.selectors[i].specificity(), rule));
        }
        i += 1;
    }
    None
}

/// The matches of the rules of `stylesheet` with `elem`, in the order of
/// the rules.
pub fn matching_rules<'a>(elem: &ElementData, stylesheet: &'a Stylesheet) -> (r: Vec<MatchedRule<'a>>)
    ensures
        matched_views(r@) == rule_matches(elem@, stylesheet@.rules, stylesheet@.rules.len()),
{
    let mut found: Vec<MatchedRule<'a>> = Vec::new();
    let mut i: usize = 0;
    assert(matched_views(found@) =~= Seq::<MatchedRuleView>::empty());
    while i < stylesheet.rules.len()
        invariant
            i <= stylesheet.rules.len(),
            stylesheet@.rules.len() == stylesheet.rules.len(),
            matched_views(found@) == rule_matches(elem@, stylesheet@.rules, i as nat),
        decreases stylesheet.rules.len() - i,
    {
        let ghost before = matched_views(found@);
        match match_rule(elem, &stylesheet.rules[i]) {
            Some(m) => {
                found.push(m);
                assert(matched_views(found@) =~= before.push(m@));
            },
            None => {},
        }
        i += 1;
    }
    found
}

/// Where `m` goes in `sorted`: the elements from `at` on all weigh more
/// than `m`, and the one before `at`, if there is one, does not.
proof fn lemma_insert_position(sorted: Seq<MatchedRuleView>, m: MatchedRuleView, at: int)
    requires
        0 <= at <= sorted.len(),
        forall|j: int| at <= j < sorted.len() ==> !specificity_le(
            (#[trigger] sorted[j]).specificity,
            m.specificity,
        ),
        at > 0 ==> specificity_le(sorted[at - 1].specificity, m.specificity),
    ensures
        insert_by_weight(sorted, m) == sorted.insert(at, m),
    decreases sorted.len(),
{
    if sorted.len() == 0 {
        assert(sorted.insert(at, m) =~= seq![m]);
    } else if at == sorted.len() {
        assert(sorted.insert(at, m) =~= sorted.push(m));
    } else {
        lemma_insert_position(sorted.drop_last(), m, at);
        assert(sorted.insert(at, m) =~= sorted.drop_last().insert(at, m).push(sorted.last()));
    }
}

/// Puts `matches` in cascade order: by ascending weight, and matches of
/// one weight in the order in which they came.
pub fn sort_by_specificity<'a>(matches: Vec<MatchedRule<'a>>) -> (r: Vec<MatchedRule<'a>>)
    ensures
        matched_views(r@) == cascade_order(matched_views(matches@), matches@.len()),
{
    let mut sorted: Vec<MatchedRule<'a>> = Vec::new();
    let mut i: usize = 0;
    assert(matched_views(sorted@) =~= Seq::<MatchedRuleView>::empty());
    while i < matches.len()
        invariant
            i <= matches.len(),
            sorted.len() == i,
            matched_views(sorted@) == cascade_order(matched_views(matches@), i as nat),
        decreases matches.len() - i,
    {
        let m = matches[i];
        let mut at: usize = sorted.len();
        while at > 0 && !specificity_at_most(sorted[at - 1].specificity, m.specificity)
            invariant
                at <= sorted.len(),
                forall|j: int| at <= j < sorted.len() ==> !specificity_le(
                    (#[trigger] matched_views(sorted@)[j]).specificity,
                    m@.specificity,
                ),
            decreases at,
        {
            at -= 1;
        }
        let ghost before = matched_views(sorted@);
        proof {
            lemma_insert_position(before, m@, at as int);
        }
        sorted.insert(at, m);
        assert(matched_views(sorted@) =~= before.insert(at as int, m@));
        i += 1;
    }
    sorted
}

/// The properties that `stylesheet` gives to the element `elem`.
pub fn specified_values(elem: &ElementData, stylesheet: &Stylesheet) -> (r: PropertyMap)
    ensures
        r@ == cascade(elem@, stylesheet@),
{
    let mut values = PropertyMap::new();
    let rules = sort_by_specificity(matching_rules(elem, stylesheet));
    let ghost ordered = matched_views(rules@);
    let mut i: usize = 0;
    while i < rules.len()
        invariant
            i <= rules.len(),
            ordered == matched_views(rules@),
            values@ == apply_matches(Map::empty(), ordered, i as nat),
        decreases rules.len() - i,
    {
        let rule = rules[i].rule;
        let ghost start = values@;
        let ghost declarations = rule@.declarations;
        assert(ordered[i as int].rule == rule@);
        let mut k: usize = 0;
        while k < rule.declarations.len()
            invariant
                k <= rule.declarations.len(),
                declarations == rule@.declarations,
                declarations.len() == rule.declarations.len(),
                values@ == apply_declarations(start, declarations, k as nat),
            decreases rule.declarations.len() - k,
        {
            let declaration = &rule.declarations[k];
            assert(declarations[k as int] == declaration@);
            values.insert(declaration.name.clone(), declaration.value.clone());
            k += 1;
        }
        i += 1;
    }
    values
}

/// Applies `stylesheet` to the whole document tree below `root`.
pub fn style_tree<'a>(root: &'a Node, stylesheet: &'a Stylesheet) -> (r: StyledNode<'a>)
    ensures
        r@ == styled_tree(root@, stylesheet@),
        r.node == root,
    decreases root,
{
    let specified_values = match &root.node_type {
        NodeType::Element(elem) => specified_values(elem, stylesheet),
        NodeType::Text(_) => PropertyMap::new(),
    };
    let mut children: Vec<StyledNode<'a>> = Vec::new();
    let mut i: usize = 0;
    while i < root.children.len()
        invariant
            i <= root.children.len(),
            children.len() == i,
            forall|j: int| 0 <= j < i ==> (#[trigger] children[j])@ == styled_tree(
                root.children[j]@,
                stylesheet@,
            ),
        decreases root.children.len() - i,
    {
        let child = style_tree(&root.children[i], stylesheet);
        children.push(child);
        i += 1;
    }
    let r = StyledNode { node: root, specified_values, children };
    assert(r@.children =~= styled_tree(root@, stylesheet@).children);
    r
}


/// Weights are totally ordered.
pub proof fn lemma_specificity_is_total_order(a: (int, int, int), b: (int, int, int), c: (int, int, int))
    ensures
        specificity_le(a, a),
        specificity_le(a, b) || specificity_le(b, a),
        specificity_le(a, b) && specificity_le(b, a) ==> a == b,
        specificity_le(a, b) && specificity_le(b, c) ==> specificity_le(a, c),
        specificity_lt(a, b) <==> !specificity_le(b, a),
{
}

/// An id outweighs any number of classes and tag names, and a class
/// outweighs a tag name: of two selectors the one with the id weighs
/// more; with ids on both sides or on neither the one with more classes;
/// and with as many classes the one with the tag name.
pub proof fn lemma_specificity_order(a: SimpleSelectorView, b: SimpleSelectorView)
    ensures
        a.id is Some && b.id is None ==> specificity_lt(b.specificity(), a.specificity()),
        (a.id is Some <==> b.id is Some) && a.class.len() > b.class.len() ==> specificity_lt(
            b.specificity(),
            a.specificity(),
        ),
        (a.id is Some <==> b.id is Some) && a.class.len() == b.class.len() && a.tag_name is Some
            && b.tag_name is None ==> specificity_lt(b.specificity(), a.specificity()),
{
}

/// The cascade depends on nothing but the element and the style sheet:
/// resolving the same pair again gives the same properties, and the
/// same styled tree.
pub proof fn lemma_cascade_repeats(
    first: ElementData,
    second: ElementData,
    sheet: Stylesheet,
    again: Stylesheet,
)
    requires
        first@ == second@,
        sheet@ == again@,
    ensures
        cascade(first@, sheet@) == cascade(second@, again@),
{
}

/// The styled tree mirrors the document tree: it has a styled node for
/// each node, and for the children of a node the styled trees of these
/// children, in their order.
pub proof fn lemma_styled_tree_mirrors_document(root: NodeView, stylesheet: StylesheetView)
    ensures
        styled_tree(root, stylesheet).node == root,
        styled_tree(root, stylesheet).children.len() == root.children.len(),
        forall|i: int|
            0 <= i < root.children.len() ==> (#[trigger] styled_tree(root, stylesheet).children[i])
                == styled_tree(root.children[i], stylesheet),
        root.node_type is Text ==> styled_tree(root, stylesheet).specified_values == Map::<
            Seq<char>,
            ValueView,
        >::empty(),
{
}

/// Whether the weights of `matches` never fall from one to the next.
pub open spec fn ascending(matches: Seq<MatchedRuleView>) -> bool {
    forall|i: int, j: int|
        0 <= i < j < matches.len() ==> specificity_le(
            (#[trigger] matches[i]).specificity,
            (#[trigger] matches[j]).specificity,
        )
}

/// Putting a match into a sequence by its weight puts it at one place
/// of that sequence and moves nothing else: behind everything that
/// weighs no more, and before everything that weighs more, where the
/// weights of the sequence are ascending.
pub proof fn lemma_insert_by_weight(sorted: Seq<MatchedRuleView>, m: MatchedRuleView) -> (at: int)
    ensures
        0 <= at <= sorted.len(),
        insert_by_weight(sorted, m) == sorted.insert(at, m),
        forall|j: int|
            at <= j < sorted.len() ==> specificity_lt(
                m.specificity,
                (#[trigger] sorted[j]).specificity,
            ),
        at > 0 ==> specificity_le(sorted[at - 1].specificity, m.specificity),
        ascending(sorted) ==> ascending(insert_by_weight(sorted, m)),
    decreases sorted.len(),
{
    let at = if sorted.len() == 0 {
        assert(sorted.insert(0, m) =~= seq![m]);
        0
    } else if specificity_le(sorted.last().specificity, m.specificity) {
        assert(sorted.insert(sorted.len() as int, m) =~= sorted.push(m));
        sorted.len() as int
    } else {
        let at = lemma_insert_by_weight(sorted.drop_last(), m);
        assert(sorted.insert(at, m) =~= sorted.drop_last().insert(at, m).push(sorted.last()));
        assert forall|j: int| at <= j < sorted.len() implies specificity_lt(
            m.specificity,
            (#[trigger] sorted[j]).specificity,
        ) by {
            if j < sorted.len() - 1 {
                assert(sorted[j] == sorted.drop_last()[j]);
            }
        }
        assert(at > 0 ==> sorted[at - 1] == sorted.drop_last()[at - 1]);
        at
    };
    let r = sorted.insert(at, m);
    if ascending(sorted) {
        assert forall|i: int, j: int| 0 <= i < j < r.len() implies specificity_le(
            (#[trigger] r[i]).specificity,
            (#[trigger] r[j]).specificity,
        ) by {
            if j < at {
                assert(r[i] == sorted[i] && r[j] == sorted[j]);
            } else if j == at {
                assert(r[i] == sorted[i]);
                assert(specificity_le(sorted[i].specificity, sorted[at - 1].specificity));
            } else if i < at {
                assert(r[i] == sorted[i] && r[j] == sorted[j - 1]);
            } else if i == at {
                assert(r[j] == sorted[j - 1]);
            } else {
                assert(r[i] == sorted[i - 1] && r[j] == sorted[j - 1]);
            }
        }
    }
    at
}

/// The cascade order holds the matches it was given, each as often as
/// it came, and by ascending weight.
pub proof fn lemma_cascade_order(matches: Seq<MatchedRuleView>, n: nat)
    requires
        n <= matches.len(),
    ensures
        ascending(cascade_order(matches, n)),
        cascade_order(matches, n).len() == n,
        cascade_order(matches, n).to_multiset() == matches.take(n as int).to_multiset(),
    decreases n,
{
    broadcast use vstd::seq_lib::group_to_multiset_ensures;

    if n == 0 {
        assert(matches.take(0) =~= Seq::<MatchedRuleView>::empty());
    } else {
        lemma_cascade_order(matches, (n - 1) as nat);
        let before = cascade_order(matches, (n - 1) as nat);
        let m = matches[n - 1];
        let at = lemma_insert_by_weight(before, m);
        assert(matches.take(n as int) =~= matches.take(n - 1).push(m));
        vstd::seq_lib::to_multiset_insert(before, at, m);
    }
}


/// Whether one of the first `n` of `declarations` is for the property
/// `p`.
pub open spec fn declared_among(declarations: Seq<DeclarationView>, p: Seq<char>, n: nat) -> bool {
    exists|k: int| 0 <= k < n && k < declarations.len() && (#[trigger] declarations[k]).name == p
}

/// Whether `rule` has a declaration for the property `p`.
pub open spec fn declares(rule: RuleView, p: Seq<char>) -> bool {
    declared_among(rule.declarations, p, rule.declarations.len())
}

/// The value that `rule` declares for the property `p`: that of its
/// last declaration for `p`.
pub open spec fn declared_value(rule: RuleView, p: Seq<char>) -> ValueView {
    apply_declarations(Map::empty(), rule.declarations, rule.declarations.len())[p]
}

/// A later write wins: after declarations were written into a mapping,
/// a property that one of them is for has the value of the last of
/// these, and any other property is as it was.
pub proof fn lemma_apply_declarations(
    values: Map<Seq<char>, ValueView>,
    declarations: Seq<DeclarationView>,
    n: nat,
    p: Seq<char>,
)
    requires
        n <= declarations.len(),
    ensures
        ({
            let after = apply_declarations(values, declarations, n);
            if declared_among(declarations, p, n) {
                &&& after.contains_key(p)
                &&& after[p] == apply_declarations(Map::empty(), declarations, n)[p]
            } else {
                &&& after.contains_key(p) == values.contains_key(p)
                &&& values.contains_key(p) ==> after[p] == values[p]
            }
        }),
    decreases n,
{
    if n > 0 {
        lemma_apply_declarations(values, declarations, (n - 1) as nat, p);
        lemma_apply_declarations(Map::empty(), declarations, (n - 1) as nat, p);
        if declarations[n - 1].name == p {
            assert(declared_among(declarations, p, n));
        } else if declared_among(declarations, p, n) {
            let k = choose|k: int|
                0 <= k < n && k < declarations.len() && (#[trigger] declarations[k]).name == p;
            assert(k < n - 1);
            assert(declared_among(declarations, p, (n - 1) as nat));
        } else {
            assert(!declared_among(declarations, p, (n - 1) as nat)) by {
                if declared_among(declarations, p, (n - 1) as nat) {
                    let k = choose|k: int|
                        0 <= k < n - 1 && k < declarations.len() && (#[trigger] declarations[k]).name
                            == p;
                    assert(declarations[k].name == p);
                }
            }
        }
    }
}

/// After the declarations of matched rules were written into a
/// mapping, a property has the value that the last rule with a
/// declaration for it declares; a property that none of the rules has a
/// declaration for is as it was.
pub proof fn lemma_apply_matches(
    values: Map<Seq<char>, ValueView>,
    matches: Seq<MatchedRuleView>,
    n: nat,
    p: Seq<char>,
    last: int,
)
    requires
        n <= matches.len(),
        -1 <= last < n,
        last >= 0 ==> declares(matches[last].rule, p),
        forall|j: int| last < j < n ==> !declares((#[trigger] matches[j]).rule, p),
    ensures
        ({
            let after = apply_matches(values, matches, n);
            if last >= 0 {
                &&& after.contains_key(p)
                &&& after[p] == declared_value(matches[last].rule, p)
            } else {
                &&& after.contains_key(p) == values.contains_key(p)
                &&& values.contains_key(p) ==> after[p] == values[p]
            }
        }),
    decreases n,
{
    if n > 0 {
        let before = apply_matches(values, matches, (n - 1) as nat);
        let rule = matches[n - 1].rule;
        lemma_apply_declarations(before, rule.declarations, rule.declarations.len(), p);
        if last < n - 1 {
            lemma_apply_matches(values, matches, (n - 1) as nat, p, last);
            assert(!declares(matches[n - 1].rule, p));
        }
    }
}

/// The greatest index below `n` of a match whose rule has a declaration
/// for `p`; -1 if there is none.
pub open spec fn last_declaring(matches: Seq<MatchedRuleView>, p: Seq<char>, n: nat) -> int
    decreases n,
{
    if n == 0 || n > matches.len() {
        -1
    } else if declares(matches[n - 1].rule, p) {
        n - 1
    } else {
        last_declaring(matches, p, (n - 1) as nat)
    }
}

/// What [`last_declaring`] finds is the last match with a declaration
/// for `p`.
pub proof fn lemma_last_declaring(matches: Seq<MatchedRuleView>, p: Seq<char>, n: nat)
    requires
        n <= matches.len(),
    ensures
        -1 <= last_declaring(matches, p, n) < n,
        last_declaring(matches, p, n) >= 0 ==> declares(
            matches[last_declaring(matches, p, n)].rule,
            p,
        ),
        forall|j: int|
            last_declaring(matches, p, n) < j < n ==> !declares((#[trigger] matches[j]).rule, p),
    decreases n,
{
    if n > 0 && !declares(matches[n - 1].rule, p) {
        lemma_last_declaring(matches, p, (n - 1) as nat);
    }
}

/// Among matches the weightiest declaration wins: where one match
/// declares `v` for the property `p`, and every match with a
/// declaration for `p` either weighs less than that one or declares
/// `v` too, the properties written in cascade order hold `v` for `p`.
pub proof fn lemma_weightiest_match_wins(
    matches: Seq<MatchedRuleView>,
    winner: int,
    p: Seq<char>,
)
    requires
        0 <= winner < matches.len(),
        declares(matches[winner].rule, p),
        forall|j: int|
            0 <= j < matches.len() && declares((#[trigger] matches[j]).rule, p)
                ==> specificity_lt(matches[j].specificity, matches[winner].specificity)
                || declared_value(matches[j].rule, p) == declared_value(matches[winner].rule, p),
    ensures
        ({
            let ordered = cascade_order(matches, matches.len());
            let after = apply_matches(Map::empty(), ordered, ordered.len());
            &&& after.contains_key(p)
            &&& after[p] == declared_value(matches[winner].rule, p)
        }),
{
    broadcast use vstd::seq_lib::group_to_multiset_ensures;

    let ordered = cascade_order(matches, matches.len());
    lemma_cascade_order(matches, matches.len());
    assert(matches.take(matches.len() as int) =~= matches);
    let w = matches[winner];
    assert(matches.contains(w));
    assert(ordered.to_multiset().count(w) > 0);
    assert(ordered.contains(w));
    let iw = choose|i: int| 0 <= i < ordered.len() && ordered[i] == w;
    let last = last_declaring(ordered, p, ordered.len());
    lemma_last_declaring(ordered, p, ordered.len());
    assert(last >= iw) by {
        if last < iw {
            assert(!declares(ordered[iw].rule, p));
        }
    }
    let x = ordered[last];
    assert(ordered.contains(x));
    assert(matches.to_multiset().count(x) > 0);
    assert(matches.contains(x));
    let jx = choose|j: int| 0 <= j < matches.len() && matches[j] == x;
    assert(declares(matches[jx].rule, p));
    if specificity_lt(x.specificity, w.specificity) {
        if iw < last {
            assert(specificity_le(ordered[iw].specificity, ordered[last].specificity));
        }
        assert(false);
    }
    lemma_apply_matches(Map::empty(), ordered, ordered.len(), p, last);
}

/// Every match of a rule with the element is among the matches of the
/// rules, and each of these is the match of a rule.
pub proof fn lemma_rule_matches(elem: ElementDataView, rules: Seq<RuleView>, n: nat)
    requires
        n <= rules.len(),
    ensures
        forall|j: int|
            0 <= j < n && rule_match(elem, #[trigger] rules[j]) is Some ==> rule_matches(
                elem,
                rules,
                n,
            ).contains(rule_match(elem, rules[j])->Some_0),
        forall|k: int|
            0 <= k < rule_matches(elem, rules, n).len() ==> exists|j: int|
                0 <= j < n && rule_match(elem, #[trigger] rules[j]) == Some(
                    #[trigger] rule_matches(elem, rules, n)[k],
                ),
    decreases n,
{
    if n > 0 {
        lemma_rule_matches(elem, rules, (n - 1) as nat);
        let before = rule_matches(elem, rules, (n - 1) as nat);
        let now = rule_matches(elem, rules, n);
        assert forall|j: int| 0 <= j < n && rule_match(elem, #[trigger] rules[j]) is Some implies now.contains(
            rule_match(elem, rules[j])->Some_0,
        ) by {
            let m = rule_match(elem, rules[j])->Some_0;
            if j < n - 1 {
                assert(before.contains(m));
                let k = choose|k: int| 0 <= k < before.len() && before[k] == m;
                assert(now[k] == m);
            } else {
                assert(now[now.len() - 1] == m);
            }
        }
        assert forall|k: int| 0 <= k < now.len() implies exists|j: int|
            0 <= j < n && rule_match(elem, #[trigger] rules[j]) == Some(#[trigger] now[k]) by {
            if k < before.len() {
                assert(now[k] == before[k]);
                let j = choose|j: int|
                    0 <= j < n - 1 && rule_match(elem, #[trigger] rules[j]) == Some(before[k]);
                assert(rule_match(elem, rules[j]) == Some(now[k]));
            } else {
                assert(rule_match(elem, rules[n - 1]) == Some(now[k]));
            }
        }
    }
}

/// The weightiest declaration wins: where a rule that matches the
/// element has a declaration for the property `p`, and every other
/// matching rule with a declaration for `p` matches with less weight,
/// the cascade gives `p` the value that this rule declares.
pub proof fn lemma_weightiest_rule_wins(
    elem: ElementDataView,
    stylesheet: StylesheetView,
    i: int,
    p: Seq<char>,
)
    requires
        0 <= i < stylesheet.rules.len(),
        rule_match(elem, stylesheet.rules[i]) is Some,
        declares(stylesheet.rules[i], p),
        forall|j: int|
            0 <= j < stylesheet.rules.len() && j != i && rule_match(
                elem,
                #[trigger] stylesheet.rules[j],
            ) is Some && declares(stylesheet.rules[j], p) ==> specificity_lt(
                rule_match(elem, stylesheet.rules[j])->Some_0.specificity,
                rule_match(elem, stylesheet.rules[i])->Some_0.specificity,
            ),
    ensures
        cascade(elem, stylesheet).contains_key(p),
        cascade(elem, stylesheet)[p] == declared_value(stylesheet.rules[i], p),
{
    let rules = stylesheet.rules;
    let matches = rule_matches(elem, rules, rules.len());
    lemma_rule_matches(elem, rules, rules.len());
    let w = rule_match(elem, rules[i])->Some_0;
    assert(matches.contains(w));
    let winner = choose|k: int| 0 <= k < matches.len() && matches[k] == w;
    assert(w.rule == rules[i]);
    assert forall|k: int|
        0 <= k < matches.len() && declares((#[trigger] matches[k]).rule, p) implies specificity_lt(
        matches[k].specificity,
        matches[winner].specificity,
    ) || declared_value(matches[k].rule, p) == declared_value(matches[winner].rule, p) by {
        let j = choose|j: int|
            0 <= j < rules.len() && rule_match(elem, #[trigger] rules[j]) == Some(matches[k]);
        assert(matches[k].rule == rules[j]);
        if j == i {
            assert(matches[k] == w);
        }
    }
    lemma_weightiest_match_wins(matches, winner, p);
}

/// A property that no matching rule has a declaration for is absent
/// from what the cascade gives.
pub proof fn lemma_undeclared_property_is_absent(
    elem: ElementDataView,
    stylesheet: StylesheetView,
    p: Seq<char>,
)
    requires
        forall|j: int|
            0 <= j < stylesheet.rules.len() && rule_match(elem, #[trigger] stylesheet.rules[j])
                is Some ==> !declares(stylesheet.rules[j], p),
    ensures
        !cascade(elem, stylesheet).contains_key(p),
{
    broadcast use vstd::seq_lib::group_to_multiset_ensures;

    let rules = stylesheet.rules;
    let matches = rule_matches(elem, rules, rules.len());
    let ordered = cascade_order(matches, matches.len());
    lemma_rule_matches(elem, rules, rules.len());
    lemma_cascade_order(matches, matches.len());
    assert(matches.take(matches.len() as int) =~= matches);
    assert forall|k: int| 0 <= k < ordered.len() implies !declares((#[trigger] ordered[k]).rule, p) by {
        let x = ordered[k];
        assert(ordered.contains(x));
        assert(matches.to_multiset().count(x) > 0);
        assert(matches.contains(x));
        let m = choose|m: int| 0 <= m < matches.len() && matches[m] == x;
        let j = choose|j: int|
            0 <= j < rules.len() && rule_match(elem, #[trigger] rules[j]) == Some(matches[m]);
        assert(x.rule == rules[j]);
    }
    lemma_apply_matches(Map::empty(), ordered, ordered.len(), p, -1);
}

} // verus!
