use browser_engine::box_model::{
    build_layout_tree, declared_widths_of, BoxType, DeclaredWidths, Dimensions, EdgeSizes,
    LayoutBox, LayoutError, Rect, Size, UsedWidths,
};
use browser_engine::parsing::css_parser::CssParser;
use browser_engine::parsing::html_parser::HtmlParser;
use browser_engine::style::css::{Declaration, Rule, Stylesheet, UNITS_PER_PX};
use browser_engine::style::style_tree::style_tree;

fn px(n: i64) -> i64 {
    n * UNITS_PER_PX
}

fn declared(width: Size, margin_left: Size, margin_right: Size) -> DeclaredWidths {
    DeclaredWidths {
        width,
        margin_left,
        margin_right,
        border_left: 0,
        border_right: 0,
        padding_left: 0,
        padding_right: 0,
    }
}

fn container(width: i64) -> Dimensions {
    let mut d = Dimensions::default();
    d.content.width = width;
    d
}

fn total(d: &Dimensions) -> i64 {
    d.margin.left
        + d.border.left
        + d.padding.left
        + d.content.width
        + d.padding.right
        + d.border.right
        + d.margin.right
}

fn footprint(d: &Dimensions) -> i64 {
    d.margin.top
        + d.border.top
        + d.padding.top
        + d.content.height
        + d.padding.bottom
        + d.border.bottom
        + d.margin.bottom
}

/// A style sheet from rules written as `selectors { name: value; .. }`.
/// Unlike the reader, this takes property names with a hyphen.
fn sheet(css: &str) -> Stylesheet {
    let mut rules = Vec::new();
    for block in css.split('}') {
        if block.trim().is_empty() {
            continue;
        }
        let (selectors, body) = block.split_once('{').unwrap();
        let mut reader = CssParser::new(&format!("{}{{", selectors.trim()));
        let selectors = reader.parse_selectors().unwrap();
        let mut declarations = Vec::new();
        for d in body.split(';') {
            if d.trim().is_empty() {
                continue;
            }
            let (name, value) = d.split_once(':').unwrap();
            declarations.push(Declaration {
                name: name.trim().to_string(),
                value: CssParser::new(value.trim()).parse_value().unwrap(),
            });
        }
        rules.push(Rule { selectors, declarations });
    }
    Stylesheet { rules }
}

/// Lays out the document `html` under the style sheet `css` in a
/// container of the given width and hands the root box to `check`.
fn with_layout(html: &str, css: &str, width: i64, check: fn(&LayoutBox)) {
    let doc = HtmlParser::parse(html.to_string()).unwrap();
    let sheet = sheet(css);
    let styled = style_tree(&doc, &sheet);
    let mut root = build_layout_tree(&styled).unwrap();
    assert_eq!(root.layout(container(width)), Ok(()));
    check(&root);
}

#[test]
fn default_dimensions_are_zero() {
    let d = Dimensions::default();
    assert_eq!(d.content, Rect { x: 0, y: 0, width: 0, height: 0 });
    assert_eq!(d.padding, EdgeSizes { left: 0, right: 0, top: 0, bottom: 0 });
    assert_eq!(d.border, EdgeSizes::default());
    assert_eq!(d.margin, EdgeSizes::default());
    assert_eq!(Rect::default(), Rect { x: 0, y: 0, width: 0, height: 0 });
}

#[test]
fn auto_width_fills_the_container() {
    let d = declared(Size::Auto, Size::Length(0), Size::Length(0));
    assert_eq!(
        d.solve(px(100)),
        Ok(UsedWidths { width: px(100), margin_left: 0, margin_right: 0 })
    );
}

#[test]
fn auto_width_turns_auto_margins_to_zero() {
    let d = declared(Size::Auto, Size::Auto, Size::Auto);
    assert_eq!(
        d.solve(px(100)),
        Ok(UsedWidths { width: px(100), margin_left: 0, margin_right: 0 })
    );
}

#[test]
fn right_margin_absorbs_negative_underflow() {
    let d = declared(Size::Length(px(80)), Size::Length(px(30)), Size::Auto);
    assert_eq!(
        d.solve(px(100)),
        Ok(UsedWidths { width: px(80), margin_left: px(30), margin_right: px(-10) })
    );
}

#[test]
fn over_constrained_box_moves_only_the_right_margin() {
    let d = declared(Size::Length(px(50)), Size::Length(px(10)), Size::Length(px(10)));
    assert_eq!(
        d.solve(px(100)),
        Ok(UsedWidths { width: px(50), margin_left: px(10), margin_right: px(40) })
    );
    let wide = declared(Size::Length(px(120)), Size::Length(px(10)), Size::Length(px(10)));
    assert_eq!(
        wide.solve(px(100)),
        Ok(UsedWidths { width: px(120), margin_left: px(10), margin_right: px(-30) })
    );
}

#[test]
fn auto_left_margin_takes_the_underflow() {
    let d = declared(Size::Length(px(60)), Size::Auto, Size::Length(px(10)));
    assert_eq!(
        d.solve(px(100)),
        Ok(UsedWidths { width: px(60), margin_left: px(30), margin_right: px(10) })
    );
}

#[test]
fn auto_right_margin_takes_the_underflow() {
    let d = declared(Size::Length(px(60)), Size::Length(px(10)), Size::Auto);
    assert_eq!(
        d.solve(px(100)),
        Ok(UsedWidths { width: px(60), margin_left: px(10), margin_right: px(30) })
    );
}

#[test]
fn two_auto_margins_split_the_underflow() {
    let d = declared(Size::Length(px(60)), Size::Auto, Size::Auto);
    assert_eq!(
        d.solve(px(100)),
        Ok(UsedWidths { width: px(60), margin_left: px(20), margin_right: px(20) })
    );
}

#[test]
fn odd_underflow_is_split_without_loss() {
    let d = declared(Size::Length(0), Size::Auto, Size::Auto);
    assert_eq!(d.solve(7), Ok(UsedWidths { width: 0, margin_left: 3, margin_right: 4 }));
}

#[test]
fn too_wide_box_treats_auto_margins_as_zero() {
    let d = declared(Size::Length(px(120)), Size::Auto, Size::Auto);
    assert_eq!(
        d.solve(px(100)),
        Ok(UsedWidths { width: px(120), margin_left: 0, margin_right: px(-20) })
    );
}

#[test]
fn auto_width_is_never_negative() {
    let d = DeclaredWidths {
        width: Size::Auto,
        margin_left: Size::Length(px(70)),
        margin_right: Size::Length(px(50)),
        border_left: px(1),
        border_right: px(1),
        padding_left: px(2),
        padding_right: px(2),
    };
    assert_eq!(
        d.solve(px(100)),
        Ok(UsedWidths { width: 0, margin_left: px(70), margin_right: px(24) })
    );
}

#[test]
fn borders_and_padding_reduce_the_width() {
    let d = DeclaredWidths {
        width: Size::Auto,
        margin_left: Size::Length(px(5)),
        margin_right: Size::Length(px(5)),
        border_left: px(1),
        border_right: px(2),
        padding_left: px(3),
        padding_right: px(4),
    };
    assert_eq!(
        d.solve(px(100)),
        Ok(UsedWidths { width: px(80), margin_left: px(5), margin_right: px(5) })
    );
}

#[test]
fn solve_reports_overflow() {
    let d = declared(Size::Length(i64::MAX), Size::Length(i64::MIN), Size::Length(i64::MIN));
    assert_eq!(d.solve(i64::MAX), Err(LayoutError::Overflow));
    let e = declared(Size::Auto, Size::Length(i64::MIN), Size::Length(0));
    assert_eq!(e.solve(i64::MAX), Err(LayoutError::Overflow));
}

#[test]
fn size_reads_values() {
    assert_eq!(Size::Auto.to_px(), 0);
    assert_eq!(Size::Length(12).to_px(), 12);
    assert!(Size::Auto.is_auto());
    assert!(!Size::Length(0).is_auto());
}

#[test]
fn auto_width_child_fills_its_container() {
    with_layout("<div></div>", "div { display: block; }", px(100), |root| {
        assert_eq!(root.dims.content.width, px(100));
        assert_eq!(root.dims.margin.left, 0);
        assert_eq!(root.dims.margin.right, 0);
    });
}

#[test]
fn fixed_width_and_left_margin_leave_a_negative_right_margin() {
    with_layout(
        "<div></div>",
        "div { display: block; width: 80px; margin-left: 30px; margin-right: auto; }",
        px(100),
        |root| {
            assert_eq!(root.dims.content.width, px(80));
            assert_eq!(root.dims.margin.left, px(30));
            assert_eq!(root.dims.margin.right, px(-10));
        },
    );
}

#[test]
fn horizontal_quantities_sum_to_container_width() {
    let sheets = [
        "div { display: block; width: 30px; }",
        "div { display: block; width: 30px; margin-left: auto; }",
        "div { display: block; width: 30px; margin-right: auto; padding: 3px; }",
        "div { display: block; width: 30px; margin: auto; border-width: 2px; }",
        "div { display: block; width: 300px; margin: auto; }",
        "div { display: block; margin-left: 200px; }",
        "div { display: block; padding-left: 7.5px; border-right-width: 1px; }",
    ];
    for css in sheets {
        with_layout("<div></div>", css, px(100), |root| {
            assert_eq!(total(&root.dims), px(100));
            assert!(root.dims.content.width >= 0);
        });
    }
}

#[test]
fn declared_widths_fall_back_on_shorthands() {
    let doc = HtmlParser::parse("<p></p>".to_string()).unwrap();
    let sheet = sheet("p { margin: 4px; margin-left: auto; padding: 2px; padding-right: 3px; border-width: 1px; width: red; }");
    let styled = style_tree(&doc, &sheet);
    assert_eq!(
        declared_widths_of(&styled),
        DeclaredWidths {
            width: Size::Length(0),
            margin_left: Size::Auto,
            margin_right: Size::Length(px(4)),
            border_left: px(1),
            border_right: px(1),
            padding_left: px(2),
            padding_right: px(3),
        }
    );
}

#[test]
fn positions_and_heights_of_a_small_tree() {
    let html = "<div id=\"root\"><div class=\"a\"></div><div class=\"b\"></div></div>";
    let css = "div { display: block; } \
               #root { padding: 10px; margin-top: 5px; } \
               .a { height: 20px; margin-bottom: 3px; } \
               .b { height: 30px; margin-top: 4px; border-width: 1px; width: 50px; }";
    with_layout(html, css, px(200), |root| {
        assert_eq!(
            root.dims.content,
            Rect { x: px(10), y: px(15), width: px(180), height: px(59) }
        );
        assert_eq!(
            root.dims.padding,
            EdgeSizes { left: px(10), right: px(10), top: px(10), bottom: px(10) }
        );
        assert_eq!(root.dims.margin, EdgeSizes { left: 0, right: 0, top: px(5), bottom: 0 });
        assert_eq!(root.children.len(), 2);
        let a = &root.children[0].dims;
        let b = &root.children[1].dims;
        assert_eq!(a.content, Rect { x: px(10), y: px(15), width: px(180), height: px(20) });
        assert_eq!(a.margin, EdgeSizes { left: 0, right: 0, top: 0, bottom: px(3) });
        assert_eq!(b.content, Rect { x: px(11), y: px(43), width: px(50), height: px(30) });
        assert_eq!(b.border, EdgeSizes { left: px(1), right: px(1), top: px(1), bottom: px(1) });
        assert_eq!(b.margin, EdgeSizes { left: 0, right: px(128), top: px(4), bottom: 0 });
    });
}

#[test]
fn siblings_stack_below_each_other() {
    let html = "<div><p class=\"a\"></p><p class=\"b\"></p><p class=\"c\"></p></div>";
    let css = "div { display: block; } p { display: block; height: 10px; } \
               .a { padding-bottom: 2px; } .b { margin-top: 7px; } .c { margin-top: 7px; }";
    with_layout(html, css, px(100), |root| {
        let a = &root.children[0].dims;
        let b = &root.children[1].dims;
        let c = &root.children[2].dims;
        // No top spacing on the first: the second lies below its footprint,
        // further down by its own top margin.
        assert!(b.content.y >= a.content.y + footprint(a));
        assert_eq!(b.content.y, a.content.y + footprint(a) + px(7));
        // The margin box of each starts where that of the one before ends.
        assert_eq!(b.content.y - px(7), a.content.y + footprint(a));
        assert_eq!(c.content.y - px(7), b.content.y - px(7) + footprint(b));
        // Equal top edges: right below the footprint.
        assert_eq!(c.content.y, b.content.y + footprint(b));
        assert_eq!(root.dims.content.height, footprint(a) + footprint(b) + footprint(c));
    });
}

#[test]
fn siblings_without_spacing_touch() {
    let html = "<div><p></p><p></p></div>";
    let css = "div { display: block; } p { display: block; height: 10px; }";
    with_layout(html, css, px(100), |root| {
        let a = &root.children[0].dims;
        let b = &root.children[1].dims;
        assert_eq!(a.content.y, 0);
        assert_eq!(b.content.y, a.content.y + footprint(a));
        assert_eq!(b.content.y, px(10));
    });
}

#[test]
fn height_is_the_sum_of_the_children_unless_declared() {
    let html = "<div><p></p><p></p></div>";
    with_layout(
        html,
        "div { display: block; } p { display: block; height: 10px; padding: 1px; }",
        px(100),
        |root| assert_eq!(root.dims.content.height, px(24)),
    );
    with_layout(
        html,
        "div { display: block; height: 5px; } p { display: block; height: 10px; }",
        px(100),
        |root| {
            assert_eq!(root.dims.content.height, px(5));
            assert_eq!(root.children[1].dims.content.y, px(10));
        },
    );
    with_layout(
        html,
        "div { display: block; height: auto; } p { display: block; height: 10px; }",
        px(100),
        |root| assert_eq!(root.dims.content.height, px(20)),
    );
}

#[test]
fn container_position_moves_the_box() {
    let doc = HtmlParser::parse("<div></div>".to_string()).unwrap();
    let sheet = sheet("div { display: block; margin: 1px; }");
    let styled = style_tree(&doc, &sheet);
    let mut root = build_layout_tree(&styled).unwrap();
    let mut cb = container(px(50));
    cb.content.x = px(10);
    cb.content.y = px(20);
    cb.content.height = px(5);
    assert_eq!(root.layout(cb), Ok(()));
    assert_eq!(root.dims.content, Rect { x: px(11), y: px(26), width: px(48), height: 0 });
}

#[test]
fn layout_is_repeatable() {
    let doc = HtmlParser::parse("<div><p></p></div>".to_string()).unwrap();
    let sheet =
        sheet("div { display: block; } p { display: block; height: 9px; }");
    let styled = style_tree(&doc, &sheet);
    let mut root = build_layout_tree(&styled).unwrap();
    assert_eq!(root.layout(container(px(40))), Ok(()));
    let first = root.dims;
    assert_eq!(root.layout(container(px(40))), Ok(()));
    assert_eq!(root.dims, first);
    assert_eq!(root.dims.content.height, px(9));
    let copy = root.laid_out(&container(px(40))).unwrap();
    assert_eq!(copy.dims, first);
    assert_eq!(copy.children.len(), 1);
}

#[test]
fn inline_and_anonymous_boxes_are_not_laid_out() {
    let doc = HtmlParser::parse("<span></span>".to_string()).unwrap();
    let sheet = sheet("");
    let styled = style_tree(&doc, &sheet);
    let mut inline = build_layout_tree(&styled).unwrap();
    assert_eq!(inline.layout(container(px(10))), Err(LayoutError::NotSupported));
    let mut anonymous = LayoutBox::new(BoxType::AnonymousBlock);
    assert_eq!(anonymous.layout(container(px(10))), Err(LayoutError::NotSupported));
    assert_eq!(anonymous.dims, Dimensions::default());
}

#[test]
fn failed_layout_leaves_the_tree_as_it_was() {
    let doc = HtmlParser::parse("<div><p></p><span></span></div>".to_string()).unwrap();
    let sheet =
        sheet("div { display: block; } p { display: block; height: 9px; }");
    let styled = style_tree(&doc, &sheet);
    let mut root = build_layout_tree(&styled).unwrap();
    // The second child is an anonymous box around the inline one.
    assert_eq!(root.layout(container(px(40))), Err(LayoutError::NotSupported));
    assert_eq!(root.dims, Dimensions::default());
    assert_eq!(root.children[0].dims, Dimensions::default());
    assert_eq!(root.children.len(), 2);
}

#[test]
fn layout_reports_overflow() {
    let doc = HtmlParser::parse("<div></div>".to_string()).unwrap();
    let sheet = sheet("div { display: block; margin-top: 1px; }");
    let styled = style_tree(&doc, &sheet);
    let mut root = build_layout_tree(&styled).unwrap();
    let mut cb = container(px(40));
    cb.content.y = i64::MAX;
    assert_eq!(root.layout(cb), Err(LayoutError::Overflow));
    assert_eq!(root.dims, Dimensions::default());
    cb.content.y = 0;
    cb.content.x = i64::MAX;
    assert_eq!(root.calculate_block_width(cb), Ok(()));
    assert_eq!(root.calculate_block_position(cb), Ok(()));
    assert_eq!(root.dims.content.x, i64::MAX);
    assert_eq!(root.dims.content.y, px(1));
}

#[test]
fn single_steps_write_their_part_of_the_geometry() {
    let doc = HtmlParser::parse("<div></div>".to_string()).unwrap();
    let sheet = sheet("div { display: block; width: 10px; margin: auto; padding: 1px; height: 3px; }");
    let styled = style_tree(&doc, &sheet);
    let mut b = build_layout_tree(&styled).unwrap();
    assert_eq!(b.calculate_block_width(container(px(20))), Ok(()));
    assert_eq!(b.dims.content, Rect { x: 0, y: 0, width: px(10), height: 0 });
    assert_eq!(b.dims.margin, EdgeSizes { left: px(4), right: px(4), top: 0, bottom: 0 });
    assert_eq!(b.dims.padding, EdgeSizes { left: px(1), right: px(1), top: 0, bottom: 0 });
    assert_eq!(b.calculate_block_position(container(px(20))), Ok(()));
    assert_eq!(b.dims.content, Rect { x: px(5), y: px(1), width: px(10), height: 0 });
    assert_eq!(b.dims.margin, EdgeSizes { left: px(4), right: px(4), top: 0, bottom: 0 });
    assert_eq!(b.dims.padding, EdgeSizes { left: px(1), right: px(1), top: px(1), bottom: px(1) });
    b.calculate_block_height();
    assert_eq!(b.dims.content, Rect { x: px(5), y: px(1), width: px(10), height: px(3) });
    assert_eq!(b.dims.grow_by_margin_box(px(100)), Some(px(105)));
    assert_eq!(b.dims.grow_by_margin_box(i64::MAX), None);
    assert!(std::ptr::eq(b.get_style_node(), &styled));
}
