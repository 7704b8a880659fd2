use browser_engine::box_model::{
    build_layout_tree, node_to_box, BoxType, Dimensions, LayoutBox,
};
use browser_engine::parsing::css_parser::CssParser;
use browser_engine::parsing::html_parser::HtmlParser;
use browser_engine::style::css::StyledNode;
use browser_engine::style::style_tree::style_tree;

const SHEET: &str = "div { display: block; } p { display: block; } \
                     .gone { display: none; } span { display: inline; }";

fn with_tree(html: &str, check: fn(&StyledNode, Option<LayoutBox>)) {
    let doc = HtmlParser::parse(html.to_string()).unwrap();
    let sheet = CssParser::parse(SHEET.to_string()).unwrap();
    let styled = style_tree(&doc, &sheet);
    let tree = build_layout_tree(&styled);
    check(&styled, tree);
}

fn count(b: &LayoutBox) -> usize {
    1 + b.children.iter().map(count).sum::<usize>()
}

fn is_block_of(b: &LayoutBox, n: &StyledNode) -> bool {
    match b.box_type {
        BoxType::BlockNode(s) => std::ptr::eq(s, n),
        _ => false,
    }
}

fn is_inline_of(b: &LayoutBox, n: &StyledNode) -> bool {
    match b.box_type {
        BoxType::InlineNode(s) => std::ptr::eq(s, n),
        _ => false,
    }
}

fn is_anonymous(b: &LayoutBox) -> bool {
    matches!(b.box_type, BoxType::AnonymousBlock)
}

#[test]
fn new_box_is_empty_and_at_zero() {
    let b = LayoutBox::new(BoxType::AnonymousBlock);
    assert!(is_anonymous(&b));
    assert!(b.children.is_empty());
    assert_eq!(b.dims, Dimensions::default());
}

#[test]
fn node_to_box_follows_display() {
    with_tree("<div><span></span><i class=\"gone\"></i></div>", |styled, _| {
        assert!(matches!(node_to_box(styled), Some(BoxType::BlockNode(_))));
        assert!(matches!(node_to_box(&styled.children[0]), Some(BoxType::InlineNode(_))));
        assert!(node_to_box(&styled.children[1]).is_none());
    });
}

#[test]
fn inline_children_share_one_anonymous_box() {
    with_tree("<div><span></span><span></span><p></p></div>", |styled, tree| {
        let root = tree.unwrap();
        assert!(is_block_of(&root, styled));
        assert_eq!(root.children.len(), 2);
        let wrapper = &root.children[0];
        assert!(is_anonymous(wrapper));
        assert_eq!(wrapper.children.len(), 2);
        assert!(is_inline_of(&wrapper.children[0], &styled.children[0]));
        assert!(is_inline_of(&wrapper.children[1], &styled.children[1]));
        assert!(is_block_of(&root.children[1], &styled.children[2]));
        assert_eq!(count(&root), 5);
    });
}

#[test]
fn first_inline_child_opens_an_anonymous_box() {
    with_tree("<div><span></span></div>", |styled, tree| {
        let root = tree.unwrap();
        assert_eq!(root.children.len(), 1);
        assert!(is_anonymous(&root.children[0]));
        assert_eq!(root.children[0].children.len(), 1);
        assert!(is_inline_of(&root.children[0].children[0], &styled.children[0]));
    });
}

#[test]
fn block_between_inlines_separates_anonymous_boxes() {
    with_tree(
        "<div><span></span><p></p><span></span><span></span><p></p><p></p></div>",
        |styled, tree| {
            let root = tree.unwrap();
            let kinds: Vec<bool> = root.children.iter().map(is_anonymous).collect();
            assert_eq!(kinds, vec![true, false, true, false, false]);
            assert_eq!(root.children[0].children.len(), 1);
            assert_eq!(root.children[2].children.len(), 2);
            assert!(is_inline_of(&root.children[2].children[1], &styled.children[3]));
            assert!(is_block_of(&root.children[4], &styled.children[5]));
        },
    );
}

#[test]
fn text_is_inline() {
    with_tree("<p>hello</p>", |styled, tree| {
        let root = tree.unwrap();
        assert_eq!(root.children.len(), 1);
        assert!(is_anonymous(&root.children[0]));
        assert!(is_inline_of(&root.children[0].children[0], &styled.children[0]));
    });
}

#[test]
fn inline_box_takes_children_as_they_are() {
    with_tree("<span><span></span><p></p><span></span></span>", |styled, tree| {
        let root = tree.unwrap();
        assert!(is_inline_of(&root, styled));
        assert_eq!(root.children.len(), 3);
        assert!(is_inline_of(&root.children[0], &styled.children[0]));
        assert!(is_block_of(&root.children[1], &styled.children[1]));
        assert!(is_inline_of(&root.children[2], &styled.children[2]));
    });
}

#[test]
fn display_none_root_has_no_boxes() {
    with_tree("<div class=\"gone\"><p></p><span></span></div>", |_, tree| {
        assert!(tree.is_none());
    });
}

#[test]
fn display_none_child_and_its_subtree_leave_no_boxes() {
    with_tree(
        "<div><p></p><div class=\"gone\"><p></p><span><p></p></span></div><p></p></div>",
        |styled, tree| {
            let root = tree.unwrap();
            assert_eq!(root.children.len(), 2);
            assert!(is_block_of(&root.children[0], &styled.children[0]));
            assert!(is_block_of(&root.children[1], &styled.children[2]));
            assert_eq!(count(&root), 3);
        },
    );
    with_tree("<div><p></p><p></p></div>", |_, tree| {
        assert_eq!(count(&tree.unwrap()), 3);
    });
}

#[test]
fn display_none_between_inlines_does_not_split_them() {
    with_tree("<div><span></span><i class=\"gone\"></i><span></span></div>", |_, tree| {
        let root = tree.unwrap();
        assert_eq!(root.children.len(), 1);
        assert_eq!(root.children[0].children.len(), 2);
    });
}

#[test]
fn inline_container_of_a_block_box() {
    with_tree("<div><p></p></div>", |_, tree| {
        let mut root = tree.unwrap();
        assert_eq!(root.children.len(), 1);
        {
            let c = root.get_inline_container();
            assert!(is_anonymous(c));
            assert!(c.children.is_empty());
            c.dims.content.width = 7;
        }
        assert_eq!(root.children.len(), 2);
        assert_eq!(root.children[1].dims.content.width, 7);
        // The anonymous box at the end is used again.
        root.get_inline_container().dims.content.height = 9;
        assert_eq!(root.children.len(), 2);
        assert_eq!(root.children[1].dims.content.width, 7);
        assert_eq!(root.children[1].dims.content.height, 9);
    });
}

#[test]
fn inline_container_of_other_boxes_is_the_box_itself() {
    let mut anonymous = LayoutBox::new(BoxType::AnonymousBlock);
    anonymous.get_inline_container().dims.content.x = 3;
    assert_eq!(anonymous.dims.content.x, 3);
    assert!(anonymous.children.is_empty());
    with_tree("<span></span>", |_, tree| {
        let mut root = tree.unwrap();
        root.get_inline_container().dims.content.x = 5;
        assert_eq!(root.dims.content.x, 5);
        assert!(root.children.is_empty());
    });
}

#[test]
fn built_tree_is_not_laid_out() {
    with_tree("<div><p></p><span></span></div>", |_, tree| {
        fn all_zero(b: &LayoutBox) -> bool {
            b.dims == Dimensions::default() && b.children.iter().all(all_zero)
        }
        assert!(all_zero(&tree.unwrap()));
    });
}
