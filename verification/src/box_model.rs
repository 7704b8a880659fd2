//! The box tree and block layout. All sizes are in layout units.

use vstd::prelude::*;
use crate::style::css::{StyledNode, StyledNodeView, Unit, Value, ValueView, lookup_in};

verus! {

/// A rectangle.
#[derive(Debug, Clone, Copy, PartialEq, Eq, Structural)]
pub struct Rect {
    pub x: i64,
    pub y: i64,
    pub width: i64,
    pub height: i64,
}

/// The sizes of the four edges around a rectangle.
#[derive(Debug, Clone, Copy, PartialEq, Eq, Structural)]
pub struct EdgeSizes {
    pub left: i64,
    pub right: i64,
    pub top: i64,
    pub bottom: i64,
}

/// The geometry of a box: the content area, placed relative to the origin
/// of the document, and the edges that surround it.
#[derive(Debug, Clone, Copy, PartialEq, Eq, Structural)]
pub struct Dimensions {
    pub content: Rect,
    pub padding: EdgeSizes,
    pub border: EdgeSizes,
    pub margin: EdgeSizes,
}

/// Why a box could not be laid out.
#[derive(Debug, Clone, Copy, PartialEq, Eq, Structural)]
pub enum LayoutError {
    /// The box is an inline or an anonymous box; only block boxes are
    /// laid out.
    NotSupported,
    /// A computed size or position does not fit the number type.
    Overflow,
}

/// The display categories. `Omitted` is what the keyword `none` asks
/// for: no box at all.
#[derive(Debug, Clone, Copy, PartialEq, Eq, Structural)]
pub enum Display {
    Inline,
    Block,
    Omitted,
}

/// A declared size: a length, or `auto`.
#[derive(Debug, Clone, Copy, PartialEq, Eq, Structural)]
pub enum Size {
    Auto,
    Length(i64),
}

/// What a style declares for the seven horizontal quantities of a box.
#[derive(Debug, Clone, Copy, PartialEq, Eq, Structural)]
pub struct DeclaredWidths {
    pub width: Size,
    pub margin_left: Size,
    pub margin_right: Size,
    pub border_left: i64,
    pub border_right: i64,
    pub padding_left: i64,
    pub padding_right: i64,
}

/// The width and the horizontal margins that a box ends up with.
#[derive(Debug, Clone, Copy, PartialEq, Eq, Structural)]
pub struct UsedWidths {
    pub width: i64,
    pub margin_left: i64,
    pub margin_right: i64,
}

/// Whether `v` can be stored in a size or position.
pub open spec fn fits(v: int) -> bool {
    i64::MIN <= v <= i64::MAX
}

impl Rect {
    /// The rectangle at the origin with no extent.
    pub open spec fn zero() -> Rect {
        Rect { x: 0, y: 0, width: 0, height: 0 }
    }
}

impl EdgeSizes {
    /// Four edges of size zero.
    pub open spec fn zero() -> EdgeSizes {
        EdgeSizes { left: 0, right: 0, top: 0, bottom: 0 }
    }
}

impl Default for Rect {
    fn default() -> (r: Rect)
        ensures
            r == Rect::zero(),
    {
        Rect { x: 0, y: 0, width: 0, height: 0 }
    }
}

impl Default for EdgeSizes {
    fn default() -> (r: EdgeSizes)
        ensures
            r == EdgeSizes::zero(),
    {
        EdgeSizes { left: 0, right: 0, top: 0, bottom: 0 }
    }
}

impl Default for Dimensions {
    fn default() -> (r: Dimensions)
        ensures
            r == Dimensions::zero(),
    {
        Dimensions {
            content: Rect::default(),
            padding: EdgeSizes::default(),
            border: EdgeSizes::default(),
            margin: EdgeSizes::default(),
        }
    }
}

impl Dimensions {
    /// The geometry of a box that has not been laid out: all zero.
    pub open spec fn zero() -> Dimensions {
        Dimensions {
            content: Rect::zero(),
            padding: EdgeSizes::zero(),
            border: EdgeSizes::zero(),
            margin: EdgeSizes::zero(),
        }
    }

    /// The sum of the seven horizontal quantities: the content width and
    /// the left and right padding, border and margin.
    pub open spec fn horizontal_total(self) -> int {
        self.margin.left + self.border.left + self.padding.left + self.content.width
            + self.padding.right + self.border.right + self.margin.right
    }

    /// The sum of the top margin, border and padding.
    pub open spec fn top_edges(self) -> int {
        self.margin.top + self.border.top + self.padding.top
    }

    /// The sum of the bottom padding, border and margin.
    pub open spec fn bottom_edges(self) -> int {
        self.padding.bottom + self.border.bottom + self.margin.bottom
    }

    /// The vertical footprint of the box: the content height and the top
    /// and bottom padding, border and margin.
    pub open spec fn margin_box_height(self) -> int {
        self.top_edges() + self.content.height + self.bottom_edges()
    }
}

impl Size {
    /// The size in layout units, with zero for `auto`.
    pub open spec fn px(self) -> int {
        match self {
            Size::Auto => 0,
            Size::Length(n) => n as int,
        }
    }

    /// What `v` declares as a size: `auto` for that keyword, the length
    /// for a length, zero for anything else.
    pub open spec fn of(v: ValueView) -> Size {
        if v.is_auto() {
            Size::Auto
        } else {
            Size::Length(v.to_px())
        }
    }

    /// The size in layout units, with zero for `auto`.
    pub fn to_px(self) -> (r: i64)
        ensures
            r == self.px(),
    {
        match self {
            Size::Auto => 0,
            Size::Length(n) => n,
        }
    }

    /// Whether the size is `auto`.
    pub fn is_auto(self) -> (r: bool)
        ensures
            r == (self == Size::Auto),
    {
        match self {
            Size::Auto => true,
            Size::Length(_) => false,
        }
    }

    /// What `v` declares as a size.
    pub fn from_value(v: &Value) -> (r: Size)
        ensures
            r == Size::of(v@),
    {
        if v.is_auto() {
            Size::Auto
        } else {
            Size::Length(v.to_px())
        }
    }
}

impl DeclaredWidths {
    /// The sum of the seven quantities as declared, `auto` counting as
    /// zero.
    pub open spec fn total(self) -> int {
        self.margin_left.px() + self.margin_right.px() + self.border_left + self.border_right
            + self.padding_left + self.padding_right + self.width.px()
    }

    /// Whether the box is wider than its container although its width
    /// is fixed. Margins declared `auto` then count as fixed at zero.
    pub open spec fn too_wide(self, container_width: int) -> bool {
        self.width != Size::Auto && self.total() > container_width
    }

    /// The space of the container that the declared quantities leave
    /// unused; negative where they ask for more than there is.
    pub open spec fn underflow(self, container_width: int) -> int {
        container_width - self.total()
    }

    /// Whether the left margin is left to the solver.
    pub open spec fn left_is_free(self, container_width: int) -> bool {
        self.margin_left == Size::Auto && !self.too_wide(container_width)
    }

    /// Whether the right margin is left to the solver.
    pub open spec fn right_is_free(self, container_width: int) -> bool {
        self.margin_right == Size::Auto && !self.too_wide(container_width)
    }

    /// The width that the box ends up with. A fixed width stays; an
    /// `auto` width takes the unused space, but is never negative.
    pub open spec fn used_width(self, container_width: int) -> int {
        if self.width == Size::Auto {
            if self.underflow(container_width) >= 0 {
                self.underflow(container_width)
            } else {
                0
            }
        } else {
            self.width.px()
        }
    }

    /// The left margin that the box ends up with. A fixed margin stays.
    /// A free one is zero beside an `auto` width, takes the unused
    /// space where the right margin is fixed, and half of it, rounded
    /// down, where the right margin is free too.
    pub open spec fn used_margin_left(self, container_width: int) -> int {
        if self.width == Size::Auto || !self.left_is_free(container_width) {
            self.margin_left.px()
        } else if self.right_is_free(container_width) {
            self.underflow(container_width) / 2
        } else {
            self.underflow(container_width)
        }
    }

    /// The right margin that the box ends up with. A free one is zero
    /// beside an `auto` width and otherwise takes what the width and the
    /// left margin leave of the unused space. A fixed one stays, unless
    /// nothing else is free to absorb the difference to the container:
    /// then the right margin absorbs it, whatever its sign.
    pub open spec fn used_margin_right(self, container_width: int) -> int {
        let underflow = self.underflow(container_width);
        if self.width == Size::Auto {
            if underflow >= 0 {
                self.margin_right.px()
            } else {
                self.margin_right.px() + underflow
            }
        } else if self.right_is_free(container_width) {
            if self.left_is_free(container_width) {
                underflow - underflow / 2
            } else {
                underflow
            }
        } else if self.left_is_free(container_width) {
            self.margin_right.px()
        } else {
            self.margin_right.px() + underflow
        }
    }

    /// Whether the three used values can be stored.
    pub open spec fn solvable(self, container_width: int) -> bool {
        &&& fits(self.used_width(container_width))
        &&& fits(self.used_margin_left(container_width))
        &&& fits(self.used_margin_right(container_width))
    }

    /// Solves for the width and the horizontal margins of a box in a
    /// container of the given width.
    pub fn solve(&self, container_width: i64) -> (r: Result<UsedWidths, LayoutError>)
        ensures
            match r {
                Ok(u) => {
                    &&& self.solvable(container_width as int)
                    &&& u.width == self.used_width(container_width as int)
                    &&& u.margin_left == self.used_margin_left(container_width as int)
                    &&& u.margin_right == self.used_margin_right(container_width as int)
                },
                Err(e) => e == LayoutError::Overflow && !self.solvable(container_width as int),
            },
    {
        let width_auto = self.width.is_auto();
        let mut left_auto = self.margin_left.is_auto();
        let mut right_auto = self.margin_right.is_auto();
        let left: i128 = self.margin_left.to_px() as i128;
        let right: i128 = self.margin_right.to_px() as i128;
        let total: i128 = left + right + self.border_left as i128 + self.border_right as i128
            + self.padding_left as i128 + self.padding_right as i128 + self.width.to_px() as i128;
        let container: i128 = container_width as i128;

        // A box that is too wide for its container has no room to give
        // to its margins.
        if !width_auto && total > container {
            left_auto = false;
            right_auto = false;
        }
        let underflow: i128 = container - total;

        let mut width: i128 = self.width.to_px() as i128;
        let mut margin_left: i128 = left;
        let mut margin_right: i128 = right;
        if width_auto {
            if underflow >= 0 {
                width = underflow;
            } else {
                width = 0;
                margin_right = right + underflow;
            }
        } else if left_auto && right_auto {
            margin_left = underflow / 2;
            margin_right = underflow - margin_left;
        } else if left_auto {
            margin_left = underflow;
        } else if right_auto {
            margin_right = underflow;
        } else {
            margin_right = right + underflow;
        }

        if in_range(width) && in_range(margin_left) && in_range(margin_right) {
            Ok(UsedWidths {
                width: width as i64,
                margin_left: margin_left as i64,
                margin_right: margin_right as i64,
            })
        } else {
            Err(LayoutError::Overflow)
        }
    }
}

/// Whether `v` can be stored in a size or position.
pub fn in_range(v: i128) -> (r: bool)
    ensures
        r == fits(v as int),
{
    -0x8000_0000_0000_0000 <= v && v <= 0x7fff_ffff_ffff_ffff
}

/// The sum of the seven horizontal quantities is the width of the
/// container, whatever was declared.
pub proof fn lemma_used_widths_fill_container(d: DeclaredWidths, container_width: int)
    ensures
        d.used_margin_left(container_width) + d.border_left + d.padding_left + d.used_width(
            container_width,
        ) + d.padding_right + d.border_right + d.used_margin_right(container_width)
            == container_width,
{
}

/// The used width is never negative, unless a negative width was
/// declared.
pub proof fn lemma_used_width_not_negative(d: DeclaredWidths, container_width: int)
    requires
        d.width.px() >= 0,
    ensures
        d.used_width(container_width) >= 0,
{
}

/// With nothing declared `auto`, only the right margin gives way.
pub proof fn lemma_over_constrained_moves_right_margin(d: DeclaredWidths, container_width: int)
    requires
        d.width != Size::Auto,
        d.margin_left != Size::Auto,
        d.margin_right != Size::Auto,
    ensures
        d.used_width(container_width) == d.width.px(),
        d.used_margin_left(container_width) == d.margin_left.px(),
        d.used_margin_right(container_width) == d.margin_right.px() + d.underflow(container_width),
{
}


/// The kind of a box, with the styled node that it stands for; an
/// anonymous box stands for none.
#[derive(Debug, Clone, Copy)]
pub enum BoxType<'a> {
    BlockNode(&'a StyledNode<'a>),
    InlineNode(&'a StyledNode<'a>),
    AnonymousBlock,
}

/// A box with its geometry and the boxes inside it.
#[derive(Debug)]
pub struct LayoutBox<'a> {
    pub dims: Dimensions,
    pub box_type: BoxType<'a>,
    pub children: Vec<LayoutBox<'a>>,
}

/// The mathematical value of a [`BoxType`].
pub enum BoxTypeView {
    BlockNode(StyledNodeView),
    InlineNode(StyledNodeView),
    AnonymousBlock,
}

/// The mathematical value of a [`LayoutBox`].
pub struct LayoutBoxView {
    pub dims: Dimensions,
    pub box_type: BoxTypeView,
    pub children: Seq<LayoutBoxView>,
}

impl<'a> View for BoxType<'a> {
    type V = BoxTypeView;

    open spec fn view(&self) -> BoxTypeView {
        match self {
            BoxType::BlockNode(n) => BoxTypeView::BlockNode((**n)@),
            BoxType::InlineNode(n) => BoxTypeView::InlineNode((**n)@),
            BoxType::AnonymousBlock => BoxTypeView::AnonymousBlock,
        }
    }
}

/// The mathematical value of `b`: its geometry, its kind and the values
/// of its children, in order.
pub open spec fn layout_box_view(b: LayoutBox) -> LayoutBoxView
    decreases b,
{
    LayoutBoxView {
        dims: b.dims,
        box_type: b.box_type@,
        children: Seq::new(
            b.children@.len(),
            |i: int|
                if 0 <= i < b.children@.len() {
                    layout_box_view(b.children@[i])
                } else {
                    arbitrary()
                },
        ),
    }
}

impl<'a> View for LayoutBox<'a> {
    type V = LayoutBoxView;

    open spec fn view(&self) -> LayoutBoxView {
        layout_box_view(*self)
    }
}

/// The views of a sequence of boxes, in order.
pub open spec fn box_views(s: Seq<LayoutBox>) -> Seq<LayoutBoxView> {
    Seq::new(s.len(), |i: int| s[i]@)
}

impl BoxTypeView {
    /// The properties of the styled node that the box stands for; none
    /// for an anonymous box.
    pub open spec fn values(self) -> Map<Seq<char>, ValueView> {
        match self {
            BoxTypeView::BlockNode(n) => n.specified_values,
            BoxTypeView::InlineNode(n) => n.specified_values,
            BoxTypeView::AnonymousBlock => Map::empty(),
        }
    }
}

/// A length of zero, the value of an edge for which nothing is declared.
pub open spec fn zero_length() -> ValueView {
    ValueView::Length(0, Unit::Px)
}

/// The size of one edge: the value that `values` holds for `key`, else
/// the one for `key_2`, else zero.
pub open spec fn edge(values: Map<Seq<char>, ValueView>, key: Seq<char>, key_2: Seq<char>) -> i64 {
    lookup_in(values, key, key_2, zero_length()).to_px()
}

/// What `values` declares for the seven horizontal quantities. A width
/// is `auto` unless declared; margins, borders and padding are zero
/// unless declared, each side falling back on the property for all
/// four sides.
pub open spec fn declared_widths(values: Map<Seq<char>, ValueView>) -> DeclaredWidths {
    DeclaredWidths {
        width: if values.contains_key("width"@) {
            Size::of(values["width"@])
        } else {
            Size::Auto
        },
        margin_left: Size::of(lookup_in(values, "margin-left"@, "margin"@, zero_length())),
        margin_right: Size::of(lookup_in(values, "margin-right"@, "margin"@, zero_length())),
        border_left: edge(values, "border-left-width"@, "border-width"@),
        border_right: edge(values, "border-right-width"@, "border-width"@),
        padding_left: edge(values, "padding-left"@, "padding"@),
        padding_right: edge(values, "padding-right"@, "padding"@),
    }
}

/// `dims` after width resolution against a container of width
/// `container_width`: the content width and the left and right edges are
/// the used values, everything else is as before.
pub open spec fn with_block_width(
    dims: Dimensions,
    values: Map<Seq<char>, ValueView>,
    container_width: int,
) -> Result<Dimensions, LayoutError> {
    let d = declared_widths(values);
    if d.solvable(container_width) {
        Ok(
            Dimensions {
                content: Rect {
                    x: dims.content.x,
                    y: dims.content.y,
                    width: d.used_width(container_width) as i64,
                    height: dims.content.height,
                },
                padding: EdgeSizes {
                    left: d.padding_left,
                    right: d.padding_right,
                    top: dims.padding.top,
                    bottom: dims.padding.bottom,
                },
                border: EdgeSizes {
                    left: d.border_left,
                    right: d.border_right,
                    top: dims.border.top,
                    bottom: dims.border.bottom,
                },
                margin: EdgeSizes {
                    left: d.used_margin_left(container_width) as i64,
                    right: d.used_margin_right(container_width) as i64,
                    top: dims.margin.top,
                    bottom: dims.margin.bottom,
                },
            },
        )
    } else {
        Err(LayoutError::Overflow)
    }
}

/// `dims` after position resolution in the container `cb`: the top and
/// bottom edges are as declared, with zero for `auto`; the content area
/// starts right of the left edges, and below the container's content so
/// far and the top edges. Everything else is as before.
pub open spec fn with_block_position(
    dims: Dimensions,
    values: Map<Seq<char>, ValueView>,
    cb: Dimensions,
) -> Result<Dimensions, LayoutError> {
    let margin_top = edge(values, "margin-top"@, "margin"@);
    let border_top = edge(values, "border-top-width"@, "border-width"@);
    let padding_top = edge(values, "padding-top"@, "padding"@);
    let x = cb.content.x + dims.margin.left + dims.border.left + dims.padding.left;
    let y = cb.content.height + cb.content.y + margin_top + border_top + padding_top;
    if fits(x) && fits(y) {
        Ok(
            Dimensions {
                content: Rect {
                    x: x as i64,
                    y: y as i64,
                    width: dims.content.width,
                    height: dims.content.height,
                },
                padding: EdgeSizes {
                    left: dims.padding.left,
                    right: dims.padding.right,
                    top: padding_top,
                    bottom: edge(values, "padding-bottom"@, "padding"@),
                },
                border: EdgeSizes {
                    left: dims.border.left,
                    right: dims.border.right,
                    top: border_top,
                    bottom: edge(values, "border-bottom-width"@, "border-width"@),
                },
                margin: EdgeSizes {
                    left: dims.margin.left,
                    right: dims.margin.right,
                    top: margin_top,
                    bottom: edge(values, "margin-bottom"@, "margin"@),
                },
            },
        )
    } else {
        Err(LayoutError::Overflow)
    }
}

/// `dims` with the content height `height`.
pub open spec fn with_height(dims: Dimensions, height: i64) -> Dimensions {
    Dimensions {
        content: Rect {
            x: dims.content.x,
            y: dims.content.y,
            width: dims.content.width,
            height,
        },
        padding: dims.padding,
        border: dims.border,
        margin: dims.margin,
    }
}

/// `dims` after height resolution: a declared length replaces the
/// content height, anything else leaves it as it is.
pub open spec fn with_block_height(dims: Dimensions, values: Map<Seq<char>, ValueView>) -> Dimensions {
    if values.contains_key("height"@) {
        match values["height"@] {
            ValueView::Length(h, Unit::Px) => with_height(dims, h),
            _ => dims,
        }
    } else {
        dims
    }
}

/// The result of laying out the first `n` of `kids`, one below the
/// other, in a box with geometry `dims`: the boxes laid out, and `dims`
/// with its content height grown by the vertical footprint of each.
/// Each box is laid out against the geometry as the boxes before it
/// have left it. The first failure ends the whole.
pub open spec fn layout_children(kids: Seq<LayoutBoxView>, dims: Dimensions, n: nat) -> Result<
    (Seq<LayoutBoxView>, Dimensions),
    LayoutError,
>
    decreases kids, n,
{
    if n == 0 || n > kids.len() {
        Ok((Seq::<LayoutBoxView>::empty(), dims))
    } else {
        match layout_children(kids, dims, (n - 1) as nat) {
            Err(e) => Err(e),
            Ok((done, d)) => match layout_box(kids[n - 1], d) {
                Err(e) => Err(e),
                Ok(b) => {
                    let height = d.content.height + b.dims.margin_box_height();
                    if fits(height) {
                        Ok((done.push(b), with_height(d, height as i64)))
                    } else {
                        Err(LayoutError::Overflow)
                    }
                },
            },
        }
    }
}

/// The result of laying out `b` and the boxes inside it in the
/// container `cb`. Only a block box is laid out. Its geometry starts at
/// zero; then its width, its position, its children and its height are
/// resolved, in this order.
pub open spec fn layout_box(b: LayoutBoxView, cb: Dimensions) -> Result<LayoutBoxView, LayoutError>
    decreases b,
{
    match b.box_type {
        BoxTypeView::BlockNode(n) => {
            let values = n.specified_values;
            match with_block_width(Dimensions::zero(), values, cb.content.width as int) {
                Err(e) => Err(e),
                Ok(d1) => match with_block_position(d1, values, cb) {
                    Err(e) => Err(e),
                    Ok(d2) => match layout_children(b.children, d2, b.children.len()) {
                        Err(e) => Err(e),
                        Ok((kids, d3)) => Ok(
                            LayoutBoxView {
                                dims: with_block_height(d3, values),
                                box_type: b.box_type,
                                children: kids,
                            },
                        ),
                    },
                },
            }
        },
        _ => Err(LayoutError::NotSupported),
    }
}


/// The sum of up to five sizes, if it can be stored.
fn checked_sum(a: i64, b: i64, c: i64, d: i64, e: i64) -> (r: Option<i64>)
    ensures
        match r {
            Some(v) => v == a + b + c + d + e,
            None => !fits(a + b + c + d + e),
        },
{
    let sum: i128 = a as i128 + b as i128 + c as i128 + d as i128 + e as i128;
    if in_range(sum) {
        Some(sum as i64)
    } else {
        None
    }
}

impl Dimensions {
    /// The vertical footprint of the box added to `base`, if the sum
    /// can be stored.
    pub fn grow_by_margin_box(&self, base: i64) -> (r: Option<i64>)
        ensures
            match r {
                Some(v) => v == base + self.margin_box_height(),
                None => !fits(base + self.margin_box_height()),
            },
    {
        let sum: i128 = base as i128 + self.margin.top as i128 + self.border.top as i128
            + self.padding.top as i128 + self.content.height as i128 + self.padding.bottom as i128
            + self.border.bottom as i128 + self.margin.bottom as i128;
        if in_range(sum) {
            Some(sum as i64)
        } else {
            None
        }
    }
}

impl<'a> BoxType<'a> {
    /// The styled node that a block or inline box stands for.
    pub open spec fn style_node(self) -> &'a StyledNode<'a>
        recommends
            !(self is AnonymousBlock),
    {
        match self {
            BoxType::BlockNode(n) => n,
            BoxType::InlineNode(n) => n,
            BoxType::AnonymousBlock => arbitrary(),
        }
    }
}

/// The size of one edge as `style` declares it.
fn edge_of(style: &StyledNode, key: &str, key_2: &str) -> (r: i64)
    ensures
        r == edge(style@.specified_values, key@, key_2@),
{
    let zero = Value::Length(0, Unit::Px);
    style.lookup(key, key_2, &zero).to_px()
}

/// What `style` declares for the seven horizontal quantities.
pub fn declared_widths_of(style: &StyledNode) -> (r: DeclaredWidths)
    ensures
        r == declared_widths(style@.specified_values),
{
    let zero = Value::Length(0, Unit::Px);
    let width = match style.value("width") {
        Some(v) => Size::from_value(&v),
        None => Size::Auto,
    };
    DeclaredWidths {
        width,
        margin_left: Size::from_value(&style.lookup("margin-left", "margin", &zero)),
        margin_right: Size::from_value(&style.lookup("margin-right", "margin", &zero)),
        border_left: edge_of(style, "border-left-width", "border-width"),
        border_right: edge_of(style, "border-right-width", "border-width"),
        padding_left: edge_of(style, "padding-left", "padding"),
        padding_right: edge_of(style, "padding-right", "padding"),
    }
}

impl<'a> LayoutBox<'a> {
    /// A box of the given kind without children, its geometry all zero.
    pub fn new(box_type: BoxType<'a>) -> (b: Self)
        ensures
            b.dims == Dimensions::zero(),
            b.box_type == box_type,
            b.children@ == Seq::<LayoutBox<'a>>::empty(),
            b@ == (LayoutBoxView {
                dims: Dimensions::zero(),
                box_type: box_type@,
                children: Seq::<LayoutBoxView>::empty(),
            }),
    {
        let b = Self { box_type, dims: Dimensions::default(), children: Vec::new() };
        assert(b@.children =~= Seq::<LayoutBoxView>::empty());
        b
    }

    /// The styled node that the box stands for. An anonymous box stands
    /// for none.
    pub fn get_style_node(&self) -> (r: &'a StyledNode<'a>)
        requires
            !(self.box_type is AnonymousBlock),
        ensures
            r == self.box_type.style_node(),
            r@.specified_values == self.box_type@.values(),
    {
        match self.box_type {
            BoxType::BlockNode(n) => n,
            BoxType::InlineNode(n) => n,
            BoxType::AnonymousBlock => vstd::pervasive::unreached(),
        }
    }

    /// Resolves the width of the box and its left and right edges in a
    /// container with the geometry `containing_block`.
    pub fn calculate_block_width(&mut self, containing_block: Dimensions) -> (r: Result<
        (),
        LayoutError,
    >)
        requires
            !(old(self).box_type is AnonymousBlock),
        ensures
            final(self).box_type == old(self).box_type,
            final(self).children == old(self).children,
            match with_block_width(
                old(self).dims,
                old(self).box_type@.values(),
                containing_block.content.width as int,
            ) {
                Ok(d) => r is Ok && final(self).dims == d,
                Err(e) => r == Err::<(), LayoutError>(e) && final(self).dims == old(self).dims,
            },
            r is Ok ==> final(self).dims.horizontal_total() == containing_block.content.width,
    {
        let style = self.get_style_node();
        let declared = declared_widths_of(style);
        match declared.solve(containing_block.content.width) {
            Ok(used) => {
                proof {
                    lemma_used_widths_fill_container(declared, containing_block.content.width as int);
                }
                self.dims.content.width = used.width;
                self.dims.padding.left = declared.padding_left;
                self.dims.padding.right = declared.padding_right;
                self.dims.border.left = declared.border_left;
                self.dims.border.right = declared.border_right;
                self.dims.margin.left = used.margin_left;
                self.dims.margin.right = used.margin_right;
                Ok(())
            },
            Err(e) => Err(e),
        }
    }

    /// Resolves the top and bottom edges of the box and the position of
    /// its content area in a container with the geometry
    /// `containing_block`.
    pub fn calculate_block_position(&mut self, containing_block: Dimensions) -> (r: Result<
        (),
        LayoutError,
    >)
        requires
            !(old(self).box_type is AnonymousBlock),
        ensures
            final(self).box_type == old(self).box_type,
            final(self).children == old(self).children,
            match with_block_position(old(self).dims, old(self).box_type@.values(), containing_block) {
                Ok(d) => r is Ok && final(self).dims == d,
                Err(e) => r == Err::<(), LayoutError>(e) && final(self).dims == old(self).dims,
            },
    {
        let style = self.get_style_node();
        let margin_top = edge_of(style, "margin-top", "margin");
        let margin_bottom = edge_of(style, "margin-bottom", "margin");
        let border_top = edge_of(style, "border-top-width", "border-width");
        let border_bottom = edge_of(style, "border-bottom-width", "border-width");
        let padding_top = edge_of(style, "padding-top", "padding");
        let padding_bottom = edge_of(style, "padding-bottom", "padding");
        let x = checked_sum(
            containing_block.content.x,
            self.dims.margin.left,
            self.dims.border.left,
            self.dims.padding.left,
            0,
        );
        // Below everything that the container holds so far.
        let y = checked_sum(
            containing_block.content.height,
            containing_block.content.y,
            margin_top,
            border_top,
            padding_top,
        );
        match (x, y) {
            (Some(x), Some(y)) => {
                self.dims.margin.top = margin_top;
                self.dims.margin.bottom = margin_bottom;
                self.dims.border.top = border_top;
                self.dims.border.bottom = border_bottom;
                self.dims.padding.top = padding_top;
                self.dims.padding.bottom = padding_bottom;
                self.dims.content.x = x;
                self.dims.content.y = y;
                Ok(())
            },
            _ => Err(LayoutError::Overflow),
        }
    }

    /// Resolves the height of the box: a declared length, or else the
    /// height that its children have given it.
    pub fn calculate_block_height(&mut self)
        requires
            !(old(self).box_type is AnonymousBlock),
        ensures
            final(self).box_type == old(self).box_type,
            final(self).children == old(self).children,
            final(self).dims == with_block_height(old(self).dims, old(self).box_type@.values()),
    {
        let style = self.get_style_node();
        match style.value("height") {
            Some(Value::Length(h, Unit::Px)) => {
                self.dims.content.height = h;
            },
            _ => {},
        }
    }

    /// Lays out copies of `boxes` one below the other inside this
    /// box, which has no children yet, and grows its content height by
    /// the vertical footprint of each.
    fn layout_block_children(&mut self, boxes: &Vec<LayoutBox<'a>>) -> (r: Result<
        (),
        LayoutError,
    >)
        requires
            old(self).children@.len() == 0,
        ensures
            final(self).box_type == old(self).box_type,
            match layout_children(box_views(boxes@), old(self).dims, boxes@.len()) {
                Ok((kids, dims)) => r is Ok && box_views(final(self).children@) == kids
                    && final(self).dims == dims,
                Err(e) => r == Err::<(), LayoutError>(e),
            },
        decreases boxes,
    {
        let ghost views = box_views(boxes@);
        let ghost start = self.dims;
        let mut i: usize = 0;
        assert(box_views(self.children@) =~= Seq::<LayoutBoxView>::empty());
        while i < boxes.len()
            invariant
                i <= boxes.len(),
                views == box_views(boxes@),
                start == old(self).dims,
                self.box_type == old(self).box_type,
                layout_children(views, start, i as nat) == Ok::<
                    (Seq<LayoutBoxView>, Dimensions),
                    LayoutError,
                >((box_views(self.children@), self.dims)),
            decreases boxes.len() - i,
        {
            let laid = match boxes[i].laid_out(&self.dims) {
                Ok(b) => b,
                Err(e) => {
                    assert(layout_children(views, start, (i + 1) as nat) == Err::<
                        (Seq<LayoutBoxView>, Dimensions),
                        LayoutError,
                    >(e));
                    proof {
                        lemma_layout_children_fails_on(views, start, (i + 1) as nat, boxes@.len());
                    }
                    return Err(e);
                },
            };
            let height = match laid.dims.grow_by_margin_box(self.dims.content.height) {
                Some(h) => h,
                None => {
                    assert(layout_children(views, start, (i + 1) as nat) == Err::<
                        (Seq<LayoutBoxView>, Dimensions),
                        LayoutError,
                    >(LayoutError::Overflow));
                    proof {
                        lemma_layout_children_fails_on(views, start, (i + 1) as nat, boxes@.len());
                    }
                    return Err(LayoutError::Overflow);
                },
            };
            let ghost before = box_views(self.children@);
            self.children.push(laid);
            self.dims.content.height = height;
            assert(box_views(self.children@) =~= before.push(laid@));
            i += 1;
        }
        Ok(())
    }

    /// Lays out a copy of this block box and of the boxes inside it in
    /// a container with the geometry `containing_block`.
    fn layout_block(&self, containing_block: &Dimensions) -> (r: Result<LayoutBox<'a>, LayoutError>)
        requires
            self.box_type is BlockNode,
        ensures
            match layout_box(self@, *containing_block) {
                Ok(v) => r matches Ok(b) && b@ == v,
                Err(e) => r matches Err(x) && x == e,
            },
        decreases self, 0int,
    {
        let mut fresh = LayoutBox::new(self.box_type);
        assert(self@.children =~= box_views(self.children@));

        // The width of a child can depend on that of its parent, so the
        // width comes first.
        match fresh.calculate_block_width(*containing_block) {
            Err(e) => {
                return Err(e);
            },
            Ok(()) => {},
        }
        match fresh.calculate_block_position(*containing_block) {
            Err(e) => {
                return Err(e);
            },
            Ok(()) => {},
        }
        match fresh.layout_block_children(&self.children) {
            Err(e) => {
                return Err(e);
            },
            Ok(()) => {},
        }
        // The height of a parent can depend on that of its children, so
        // the height comes last.
        fresh.calculate_block_height();
        assert(fresh@.children =~= box_views(fresh.children@));
        Ok(fresh)
    }

    /// Lays out a copy of this box and of the boxes inside it in a
    /// container with the geometry `containing_block`. Only block boxes
    /// are laid out.
    pub fn laid_out(&self, containing_block: &Dimensions) -> (r: Result<LayoutBox<'a>, LayoutError>)
        ensures
            match layout_box(self@, *containing_block) {
                Ok(v) => r matches Ok(b) && b@ == v,
                Err(e) => r matches Err(x) && x == e,
            },
        decreases self, 1int,
    {
        match self.box_type {
            BoxType::BlockNode(_) => self.layout_block(containing_block),
            BoxType::InlineNode(_) => Err(LayoutError::NotSupported),
            BoxType::AnonymousBlock => Err(LayoutError::NotSupported),
        }
    }

    /// Lays out this box and the boxes inside it in a container with the
    /// geometry `containing_block`. Where that fails, the box is left as
    /// it was.
    pub fn layout(&mut self, containing_block: Dimensions) -> (r: Result<(), LayoutError>)
        ensures
            match layout_box(old(self)@, containing_block) {
                Ok(v) => r is Ok && final(self)@ == v,
                Err(e) => r == Err::<(), LayoutError>(e) && *final(self) == *old(self),
            },
    {
        match self.laid_out(&containing_block) {
            Ok(b) => {
                *self = b;
                Ok(())
            },
            Err(e) => Err(e),
        }
    }
}

/// Once laying out a prefix of the children has failed, laying out a
/// longer one fails in the same way.
pub proof fn lemma_layout_children_fails_on(kids: Seq<LayoutBoxView>, dims: Dimensions, n: nat, m: nat)
    requires
        n <= m <= kids.len(),
        layout_children(kids, dims, n) is Err,
    ensures
        layout_children(kids, dims, m) == layout_children(kids, dims, n),
    decreases m,
{
    if n < m {
        lemma_layout_children_fails_on(kids, dims, n, (m - 1) as nat);
    }
}


/// The kind of box that stands for `n`, if any does: a block box for
/// `block`, an inline box for `inline`, none for `none`.
pub open spec fn box_type_of(n: StyledNodeView) -> Option<BoxTypeView> {
    match n.display() {
        Display::Block => Some(BoxTypeView::BlockNode(n)),
        Display::Inline => Some(BoxTypeView::InlineNode(n)),
        Display::Omitted => None,
    }
}

/// A box of the given kind with the given children that has not been
/// laid out.
pub open spec fn fresh_box(box_type: BoxTypeView, children: Seq<LayoutBoxView>) -> LayoutBoxView {
    LayoutBoxView { dims: Dimensions::zero(), box_type, children }
}

impl LayoutBoxView {
    /// The box with `child` as one more child at the end.
    pub open spec fn with_child(self, child: LayoutBoxView) -> LayoutBoxView {
        LayoutBoxView {
            dims: self.dims,
            box_type: self.box_type,
            children: self.children.push(child),
        }
    }

    /// Whether the last child of the box is an anonymous box.
    pub open spec fn ends_in_anonymous(self) -> bool {
        self.children.len() > 0 && self.children.last().box_type is AnonymousBlock
    }

    /// The box after it has received the inline box `child`. A block box
    /// keeps inline boxes inside anonymous boxes: the child goes into
    /// the last child if that is an anonymous box, and else into a new
    /// anonymous box at the end. Any other box takes the child as it is.
    pub open spec fn with_inline_child(self, child: LayoutBoxView) -> LayoutBoxView {
        if self.box_type is BlockNode {
            if self.ends_in_anonymous() {
                LayoutBoxView {
                    dims: self.dims,
                    box_type: self.box_type,
                    children: self.children.update(
                        self.children.len() - 1,
                        self.children.last().with_child(child),
                    ),
                }
            } else {
                self.with_child(fresh_box(BoxTypeView::AnonymousBlock, seq![child]))
            }
        } else {
            self.with_child(child)
        }
    }
}

/// The box of kind `box_type` for `n` once the boxes for the first `k`
/// children of `n` are in it. Children come in document order. A block
/// child is added as it is, an inline child as
/// [`LayoutBoxView::with_inline_child`] says, and a child that is not
/// displayed leaves no trace.
pub open spec fn box_with_children(n: StyledNodeView, box_type: BoxTypeView, k: nat) -> LayoutBoxView
    decreases n, k,
{
    if k == 0 || k > n.children.len() {
        fresh_box(box_type, Seq::<LayoutBoxView>::empty())
    } else {
        let so_far = box_with_children(n, box_type, (k - 1) as nat);
        let c = n.children[k - 1];
        match c.display() {
            Display::Block => so_far.with_child(
                box_with_children(c, BoxTypeView::BlockNode(c), c.children.len()),
            ),
            Display::Inline => so_far.with_inline_child(
                box_with_children(c, BoxTypeView::InlineNode(c), c.children.len()),
            ),
            Display::Omitted => so_far,
        }
    }
}

/// The box tree for the styled tree `n`; none if `n` is not displayed.
pub open spec fn box_tree(n: StyledNodeView) -> Option<LayoutBoxView> {
    match box_type_of(n) {
        Some(t) => Some(box_with_children(n, t, n.children.len())),
        None => None,
    }
}

impl<'a> LayoutBox<'a> {
    /// The box that an inline child of this box goes into. For a block
    /// box that is its last child, if that is an anonymous box, and else
    /// a new anonymous box at its end. Any other box takes the child
    /// itself.
    pub fn get_inline_container(&mut self) -> (r: &mut LayoutBox<'a>)
        ensures
            old(self).box_type is BlockNode ==> {
                &&& final(self).dims == old(self).dims
                &&& final(self).box_type == old(self).box_type
            },
            old(self).box_type is BlockNode && old(self)@.ends_in_anonymous() ==> {
                &&& *r == old(self).children@.last()
                &&& final(self).children@ == old(self).children@.update(
                    old(self).children@.len() - 1,
                    *final(r),
                )
            },
            old(self).box_type is BlockNode && !old(self)@.ends_in_anonymous() ==> {
                &&& r.dims == Dimensions::zero()
                &&& r.box_type is AnonymousBlock
                &&& r.children@.len() == 0
                &&& final(self).children@ == old(self).children@.push(*final(r))
            },
            !(old(self).box_type is BlockNode) ==> *r == *old(self) && *final(self) == *final(r),
    {
        proof {
            reveal_with_fuel(layout_box_view, 2);
        }
        match self.box_type {
            BoxType::InlineNode(_) | BoxType::AnonymousBlock => self,
            BoxType::BlockNode(_) => {
                let n = self.children.len();
                let reuse = n > 0 && match self.children[n - 1].box_type {
                    BoxType::AnonymousBlock => true,
                    _ => false,
                };
                if !reuse {
                    self.children.push(LayoutBox::new(BoxType::AnonymousBlock));
                }
                let last = self.children.len() - 1;
                &mut self.children[last]
            },
        }
    }
}

/// The kind of box that stands for `n`, if any does.
pub fn node_to_box<'a>(n: &'a StyledNode<'a>) -> (r: Option<BoxType<'a>>)
    ensures
        match r {
            Some(t) => box_type_of(n@) == Some(t@),
            None => box_type_of(n@) is None,
        },
{
    match n.display() {
        Display::Inline => Some(BoxType::InlineNode(n)),
        Display::Block => Some(BoxType::BlockNode(n)),
        Display::Omitted => None,
    }
}

/// Builds the box of kind `box_type` for `style_node`, with the boxes
/// for its children in it. Nothing is laid out yet.
fn build_box<'a>(style_node: &'a StyledNode<'a>, box_type: BoxType<'a>) -> (r: LayoutBox<'a>)
    ensures
        r@ == box_with_children(style_node@, box_type@, style_node@.children.len()),
    decreases style_node,
{
    let mut root = LayoutBox::new(box_type);
    let mut i: usize = 0;
    while i < style_node.children.len()
        invariant
            i <= style_node.children.len(),
            style_node@.children.len() == style_node.children.len(),
            root@ == box_with_children(style_node@, box_type@, i as nat),
            root.box_type == box_type,
        decreases style_node.children.len() - i,
    {
        let c = &style_node.children[i];
        assert(style_node@.children[i as int] == c@);
        let ghost before = root@;
        match c.display() {
            Display::Block => {
                let child = build_box(c, BoxType::BlockNode(c));
                root.children.push(child);
                assert(root@.children =~= before.children.push(child@));
            },
            Display::Inline => {
                let child = build_box(c, BoxType::InlineNode(c));
                proof {
                    reveal_with_fuel(layout_box_view, 2);
                }
                let ghost old_children = root.children@;
                let container = root.get_inline_container();
                let ghost inner = *container;
                container.children.push(child);
                let ghost filled = *container;
                proof {
                    assert(filled@.children =~= inner@.children.push(child@));
                    assert(filled@ == inner@.with_child(child@));
                    if box_type is BlockNode {
                        if before.ends_in_anonymous() {
                            assert(root.children@ == old_children.update(
                                old_children.len() - 1,
                                filled,
                            ));
                        } else {
                            assert(root.children@ == old_children.push(filled));
                            assert(inner@.children =~= Seq::<LayoutBoxView>::empty());
                            assert(filled@.children =~= seq![child@]);
                        }
                    }
                    assert(root@.children =~= before.with_inline_child(child@).children);
                }
            },
            Display::Omitted => {},
        }
        i += 1;
    }
    root
}

/// Builds the box tree for the styled tree `style_node`; none if it is
/// not displayed. Nothing is laid out yet.
pub fn build_layout_tree<'a>(style_node: &'a StyledNode<'a>) -> (r: Option<LayoutBox<'a>>)
    ensures
        match box_tree(style_node@) {
            Some(v) => r matches Some(b) && b@ == v,
            None => r is None,
        },
{
    match node_to_box(style_node) {
        Some(t) => Some(build_box(style_node, t)),
        None => None,
    }
}


/// The sum of the vertical footprints of the first `n` of `boxes`.
pub open spec fn footprints(boxes: Seq<LayoutBoxView>, n: nat) -> int
    decreases n,
{
    if n == 0 || n > boxes.len() {
        0
    } else {
        footprints(boxes, (n - 1) as nat) + boxes[n - 1].dims.margin_box_height()
    }
}

/// Laying out children changes nothing of the geometry of their parent
/// but its content height, which grows by the footprint of each child;
/// and each child is laid out against the parent as the children before
/// it have left it.
pub proof fn lemma_layout_children_steps(kids: Seq<LayoutBoxView>, dims: Dimensions, n: nat, i: int)
    requires
        n <= kids.len(),
        0 <= i < n,
        layout_children(kids, dims, n) is Ok,
    ensures
        ({
            let (done, d) = layout_children(kids, dims, n)->Ok_0;
            let (before, at) = layout_children(kids, dims, i as nat)->Ok_0;
            &&& done.len() == n
            &&& d == with_height(dims, d.content.height)
            &&& d.content.height == dims.content.height + footprints(done, n)
            &&& layout_children(kids, dims, i as nat) is Ok
            &&& before == done.take(i)
            &&& at == with_height(dims, at.content.height)
            &&& at.content.height == dims.content.height + footprints(done, i as nat)
            &&& layout_box(kids[i], at) == Ok::<LayoutBoxView, LayoutError>(done[i])
        }),
    decreases n,
{
    let (done, d) = layout_children(kids, dims, n)->Ok_0;
    let (prev, dp) = layout_children(kids, dims, (n - 1) as nat)->Ok_0;
    let last = layout_box(kids[n - 1], dp)->Ok_0;
    assert(done == prev.push(last));
    if n >= 2 {
        lemma_layout_children_steps(kids, dims, (n - 1) as nat, 0);
    }
    assert(prev.len() == n - 1);
    lemma_footprints_of_prefix(done, prev, (n - 1) as nat);
    if i == n - 1 {
        assert(done.take(i) =~= prev);
    } else {
        lemma_layout_children_steps(kids, dims, (n - 1) as nat, i);
        assert(done.take(i) =~= prev.take(i));
        lemma_footprints_of_prefix(done, prev, i as nat);
    }
}

/// The footprints of the first `n` boxes depend on those boxes only.
pub proof fn lemma_footprints_of_prefix(a: Seq<LayoutBoxView>, b: Seq<LayoutBoxView>, n: nat)
    requires
        n <= a.len(),
        n <= b.len(),
        forall|k: int| 0 <= k < n ==> a[k] == b[k],
    ensures
        footprints(a, n) == footprints(b, n),
    decreases n,
{
    if n > 0 {
        lemma_footprints_of_prefix(a, b, (n - 1) as nat);
    }
}

/// What every block box has once it is laid out: its kind and the
/// number of its children are as before; its seven horizontal
/// quantities sum up to the content width of its container; and its
/// content area lies right of its left edges and below the content of
/// its container and its own top edges.
pub proof fn lemma_laid_out_box(b: LayoutBoxView, cb: Dimensions)
    requires
        layout_box(b, cb) is Ok,
    ensures
        ({
            let v = layout_box(b, cb)->Ok_0;
            &&& v.box_type == b.box_type
            &&& v.box_type is BlockNode
            &&& v.children.len() == b.children.len()
            &&& v.dims.horizontal_total() == cb.content.width
            &&& v.dims.content.x == cb.content.x + v.dims.margin.left + v.dims.border.left
                + v.dims.padding.left
            &&& v.dims.content.y == cb.content.y + cb.content.height + v.dims.top_edges()
        }),
{
    let values = b.box_type.values();
    let d1 = with_block_width(Dimensions::zero(), values, cb.content.width as int)->Ok_0;
    let d2 = with_block_position(d1, values, cb)->Ok_0;
    lemma_used_widths_fill_container(declared_widths(values), cb.content.width as int);
    if b.children.len() > 0 {
        lemma_layout_children_steps(b.children, d2, b.children.len(), 0);
    }
}

/// The content width of a laid-out box is not negative, unless its
/// style declares a negative width.
pub proof fn lemma_laid_out_width_not_negative(b: LayoutBoxView, cb: Dimensions)
    requires
        layout_box(b, cb) is Ok,
        declared_widths(b.box_type.values()).width.px() >= 0,
    ensures
        layout_box(b, cb)->Ok_0.dims.content.width >= 0,
{
    let values = b.box_type.values();
    let d1 = with_block_width(Dimensions::zero(), values, cb.content.width as int)->Ok_0;
    let d2 = with_block_position(d1, values, cb)->Ok_0;
    if b.children.len() > 0 {
        lemma_layout_children_steps(b.children, d2, b.children.len(), 0);
    }
}

/// Block siblings stack: the margin box of a child starts where the
/// margin box of the child before it ends.
pub proof fn lemma_siblings_stack(b: LayoutBoxView, cb: Dimensions, i: int)
    requires
        layout_box(b, cb) is Ok,
        0 <= i,
        i + 1 < b.children.len(),
    ensures
        ({
            let v = layout_box(b, cb)->Ok_0;
            let first = v.children[i].dims;
            let second = v.children[i + 1].dims;
            second.content.y - second.top_edges() == first.content.y - first.top_edges()
                + first.margin_box_height()
        }),
{
    let values = b.box_type.values();
    let d1 = with_block_width(Dimensions::zero(), values, cb.content.width as int)->Ok_0;
    let d2 = with_block_position(d1, values, cb)->Ok_0;
    let n = b.children.len();
    let (done, d) = layout_children(b.children, d2, n)->Ok_0;
    lemma_layout_children_steps(b.children, d2, n, i);
    lemma_layout_children_steps(b.children, d2, n, i + 1);
    let (_, at_first) = layout_children(b.children, d2, i as nat)->Ok_0;
    let (_, at_second) = layout_children(b.children, d2, (i + 1) as nat)->Ok_0;
    lemma_laid_out_box(b.children[i], at_first);
    lemma_laid_out_box(b.children[i + 1], at_second);
}

/// Of two block siblings the second has its content area below the
/// whole vertical footprint of the first, provided that its top edges
/// are no smaller than those of the first; and right below it where the
/// top edges are the same.
pub proof fn lemma_sibling_lies_below(b: LayoutBoxView, cb: Dimensions, i: int)
    requires
        layout_box(b, cb) is Ok,
        0 <= i,
        i + 1 < b.children.len(),
        ({
            let v = layout_box(b, cb)->Ok_0;
            v.children[i].dims.top_edges() <= v.children[i + 1].dims.top_edges()
        }),
    ensures
        ({
            let v = layout_box(b, cb)->Ok_0;
            let first = v.children[i].dims;
            let second = v.children[i + 1].dims;
            &&& second.content.y >= first.content.y + first.margin_box_height()
            &&& first.top_edges() == second.top_edges() ==> second.content.y == first.content.y
                + first.margin_box_height()
        }),
{
    lemma_siblings_stack(b, cb, i);
}

/// The content height of a laid-out box is the height that its style
/// declares as a length, and without such a declaration the sum of the
/// vertical footprints of its children.
pub proof fn lemma_laid_out_height(b: LayoutBoxView, cb: Dimensions)
    requires
        layout_box(b, cb) is Ok,
    ensures
        ({
            let v = layout_box(b, cb)->Ok_0;
            let values = b.box_type.values();
            if values.contains_key("height"@) && values["height"@] is Length {
                v.dims.content.height == values["height"@].to_px()
            } else {
                v.dims.content.height == footprints(v.children, v.children.len())
            }
        }),
{
    let values = b.box_type.values();
    let d1 = with_block_width(Dimensions::zero(), values, cb.content.width as int)->Ok_0;
    let d2 = with_block_position(d1, values, cb)->Ok_0;
    if b.children.len() > 0 {
        lemma_layout_children_steps(b.children, d2, b.children.len(), 0);
    }
}

/// Laying out the children that were laid out before, in the same box,
/// gives them back as they are.
proof fn lemma_layout_children_again(kids: Seq<LayoutBoxView>, dims: Dimensions, n: nat)
    requires
        n <= kids.len(),
        layout_children(kids, dims, kids.len()) is Ok,
    ensures
        layout_children(kids, dims, n) is Ok,
        layout_children(layout_children(kids, dims, kids.len())->Ok_0.0, dims, n)
            == layout_children(kids, dims, n),
    decreases kids, n,
{
    let done = layout_children(kids, dims, kids.len())->Ok_0.0;
    if n < kids.len() {
        lemma_layout_children_steps(kids, dims, kids.len(), n as int);
    }
    if n > 0 {
        lemma_layout_children_steps(kids, dims, kids.len(), n - 1);
        lemma_layout_children_again(kids, dims, (n - 1) as nat);
        let (before, at) = layout_children(kids, dims, (n - 1) as nat)->Ok_0;
        lemma_layout_is_idempotent(kids[n - 1], at);
        assert(done.len() == kids.len());
        assert(layout_box(done[n - 1], at) == layout_box(kids[n - 1], at));
    }
}

/// Layout is idempotent: a box that was laid out in a container comes
/// out of a second layout in that container as it went in.
pub proof fn lemma_layout_is_idempotent(b: LayoutBoxView, cb: Dimensions)
    requires
        layout_box(b, cb) is Ok,
    ensures
        layout_box(layout_box(b, cb)->Ok_0, cb) == layout_box(b, cb),
    decreases b,
{
    let values = b.box_type.values();
    let d1 = with_block_width(Dimensions::zero(), values, cb.content.width as int)->Ok_0;
    let d2 = with_block_position(d1, values, cb)->Ok_0;
    let v = layout_box(b, cb)->Ok_0;
    lemma_layout_children_again(b.children, d2, b.children.len());
    if b.children.len() > 0 {
        lemma_layout_children_steps(b.children, d2, b.children.len(), 0);
    }
    assert(v.children.len() == b.children.len());
}

/// A node that is not displayed has no box tree.
pub proof fn lemma_omitted_root_has_no_box(n: StyledNodeView)
    requires
        n.display() == Display::Omitted,
    ensures
        box_tree(n) is None,
{
}

/// A child that is not displayed adds nothing to the box of its parent,
/// whatever stands below that child.
pub proof fn lemma_omitted_child_leaves_no_box(n: StyledNodeView, box_type: BoxTypeView, k: nat)
    requires
        0 < k <= n.children.len(),
        n.children[k - 1].display() == Display::Omitted,
    ensures
        box_with_children(n, box_type, k) == box_with_children(n, box_type, (k - 1) as nat),
{
}

/// Whether `b` is a box that a block box has for a child: a block box,
/// or an anonymous box that holds at least one box and inline boxes
/// only.
pub open spec fn is_block_level(b: LayoutBoxView) -> bool {
    ||| b.box_type is BlockNode
    ||| {
        &&& b.box_type is AnonymousBlock
        &&& b.children.len() > 0
        &&& forall|i: int| 0 <= i < b.children.len() ==> (#[trigger] b.children[i]).box_type is InlineNode
    }
}

/// A block box never has an inline box for a child: inline content
/// stands inside anonymous boxes.
pub proof fn lemma_block_box_holds_block_level_boxes(n: StyledNodeView, k: nat)
    requires
        k <= n.children.len(),
    ensures
        ({
            let b = box_with_children(n, BoxTypeView::BlockNode(n), k);
            &&& b.box_type == BoxTypeView::BlockNode(n)
            &&& forall|i: int| 0 <= i < b.children.len() ==> is_block_level(#[trigger] b.children[i])
        }),
    decreases k,
{
    if k > 0 {
        lemma_block_box_holds_block_level_boxes(n, (k - 1) as nat);
        let so_far = box_with_children(n, BoxTypeView::BlockNode(n), (k - 1) as nat);
        let c = n.children[k - 1];
        lemma_box_kind(c, BoxTypeView::BlockNode(c), c.children.len());
        lemma_box_kind(c, BoxTypeView::InlineNode(c), c.children.len());
        let b = box_with_children(n, BoxTypeView::BlockNode(n), k);
        assert forall|i: int| 0 <= i < b.children.len() implies is_block_level(
            #[trigger] b.children[i],
        ) by {
            if i < so_far.children.len() - 1 {
                assert(is_block_level(so_far.children[i]));
            } else if i == so_far.children.len() - 1 {
                assert(is_block_level(so_far.children[i]));
            }
        }
    }
}

/// The box built for a node has the kind that it was built with.
pub proof fn lemma_box_kind(n: StyledNodeView, box_type: BoxTypeView, k: nat)
    ensures
        box_with_children(n, box_type, k).box_type == box_type,
        box_with_children(n, box_type, k).dims == Dimensions::zero(),
    decreases k,
{
    if 0 < k <= n.children.len() {
        lemma_box_kind(n, box_type, (k - 1) as nat);
    }
}

/// A block node with two inline children and then a block child has
/// two boxes for children: an anonymous box around the boxes of the two
/// inline children, in their order, and the box of the block child.
pub proof fn lemma_inline_children_share_a_box(n: StyledNodeView)
    requires
        n.display() == Display::Block,
        n.children.len() == 3,
        n.children[0].display() == Display::Inline,
        n.children[1].display() == Display::Inline,
        n.children[2].display() == Display::Block,
    ensures
        box_tree(n) is Some,
        box_tree(n)->Some_0.children == seq![
            fresh_box(
                BoxTypeView::AnonymousBlock,
                seq![box_tree(n.children[0])->Some_0, box_tree(n.children[1])->Some_0],
            ),
            box_tree(n.children[2])->Some_0,
        ],
{
    reveal_with_fuel(box_with_children, 4);
    let t = BoxTypeView::BlockNode(n);
    let b0 = box_with_children(n, t, 0);
    let b1 = box_with_children(n, t, 1);
    let b2 = box_with_children(n, t, 2);
    let b3 = box_with_children(n, t, 3);
    let c0 = box_tree(n.children[0])->Some_0;
    let c1 = box_tree(n.children[1])->Some_0;
    let c2 = box_tree(n.children[2])->Some_0;
    lemma_box_kind(n, t, 0);
    assert(b1 == b0.with_inline_child(c0));
    assert(b1.children =~= seq![fresh_box(BoxTypeView::AnonymousBlock, seq![c0])]);
    assert(b2 == b1.with_inline_child(c1));
    assert(seq![c0].push(c1) =~= seq![c0, c1]);
    assert(b2.children =~= seq![fresh_box(BoxTypeView::AnonymousBlock, seq![c0, c1])]);
    assert(b3 == b2.with_child(c2));
    assert(b3.children =~= seq![fresh_box(BoxTypeView::AnonymousBlock, seq![c0, c1]), c2]);
}

} // verus!
