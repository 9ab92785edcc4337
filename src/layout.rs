//! The layout step: a tree of boxes built from the styled tree, then sized
//! and positioned by block layout.
//!
//! Lengths are counted in half-pixels: a CSS length of `n` pixels is `2 * n`
//! here. Widths stay whole pixels, so the free space that two auto margins
//! share is always an even count and each margin takes exactly half of it.
use vstd::prelude::*;

use crate::css_parser::{Unit, Value};
use crate::style::{Display, StyledNode};

verus! {

/// Every `u32` length, in half-pixels, is below this.
pub open spec fn length_limit() -> int {
    0x2_0000_0000
}

/// The widest containing block that layout accepts, in half-pixels.
pub open spec fn max_width() -> int {
    0x2_0000_0000
}

/// How far a block box's content area can sit from its containing block's
/// left edge, either way: its left margin, border and padding together.
pub open spec fn x_step() -> int {
    0x40_0000_0000
}

/// Per box of a tree, the most that it adds to the height of the stack of
/// margin boxes: its explicit height and vertical edges.
pub open spec fn height_step() -> int {
    0x10_0000_0000
}

/// Bound on the coordinates of containing blocks.
pub open spec fn coordinate_limit() -> int {
    0x800_0000_0000_0000
}

/// A rectangle, in half-pixels.
#[derive(Debug, PartialEq, Eq, Clone, Copy)]
pub struct Rect {
    pub x: i64,
    pub y: i64,
    pub width: i64,
    pub height: i64,
}

#[derive(Debug, PartialEq, Eq, Clone, Copy)]
pub struct EdgeSizes {
    pub left: i64,
    pub right: i64,
    pub top: i64,
    pub bottom: i64,
}

/// A content rectangle and the padding, border and margin around it.
#[derive(Debug, PartialEq, Eq, Clone, Copy)]
pub struct Dimensions {
    /// Position of the content area relative to the document origin.
    pub content: Rect,
    pub padding: EdgeSizes,
    pub border: EdgeSizes,
    pub margin: EdgeSizes,
}

impl Default for Rect {
    fn default() -> (r: Rect)
        ensures
            r == Rect::zero(),
    {
        Rect { x: 0, y: 0, width: 0, height: 0 }
    }
}

impl Default for EdgeSizes {
    fn default() -> (r: EdgeSizes)
        ensures
            r == EdgeSizes::zero(),
    {
        EdgeSizes { left: 0, right: 0, top: 0, bottom: 0 }
    }
}

impl Default for Dimensions {
    fn default() -> (r: Dimensions)
        ensures
            r == Dimensions::zero(),
    {
        Dimensions {
            content: Rect::default(),
            padding: EdgeSizes::default(),
            border: EdgeSizes::default(),
            margin: EdgeSizes::default(),
        }
    }
}

impl Rect {
    pub open spec fn zero() -> Rect {
        Rect { x: 0, y: 0, width: 0, height: 0 }
    }
}

impl EdgeSizes {
    pub open spec fn zero() -> EdgeSizes {
        EdgeSizes { left: 0, right: 0, top: 0, bottom: 0 }
    }

    pub open spec fn bounded(&self, b: int) -> bool {
        -b <= self.left <= b && -b <= self.right <= b && -b <= self.top <= b && -b <= self.bottom
            <= b
    }
}

impl Dimensions {
    pub open spec fn zero() -> Dimensions {
        Dimensions {
            content: Rect::zero(),
            padding: EdgeSizes::zero(),
            border: EdgeSizes::zero(),
            margin: EdgeSizes::zero(),
        }
    }

    /// Every field lies within `[-b, b]`.
    pub open spec fn bounded(&self, b: int) -> bool {
        &&& -b <= self.content.x <= b
        &&& -b <= self.content.y <= b
        &&& -b <= self.content.width <= b
        &&& -b <= self.content.height <= b
        &&& self.padding.bounded(b)
        &&& self.border.bounded(b)
        &&& self.margin.bounded(b)
    }

    /// Height of the margin box.
    pub open spec fn margin_box_height(&self) -> int {
        self.content.height + self.padding.top + self.padding.bottom + self.border.top
            + self.border.bottom + self.margin.top + self.margin.bottom
    }

    /// The area covered by the content area plus its padding.
    pub fn padding_box(&self) -> (r: Rect)
        requires
            self.bounded(0x1000_0000_0000_0000),
        ensures
            r.x == self.content.x - self.padding.left,
            r.y == self.content.y - self.padding.top,
            r.width == self.content.width + self.padding.left + self.padding.right,
            r.height == self.content.height + self.padding.top + self.padding.bottom,
    {
        Rect {
            x: self.content.x - self.padding.left,
            y: self.content.y - self.padding.top,
            width: self.content.width + self.padding.left + self.padding.right,
            height: self.content.height + self.padding.top + self.padding.bottom,
        }
    }

    /// The area covered by the content area plus padding and borders.
    pub fn border_box(&self) -> (r: Rect)
        requires
            self.bounded(0x1000_0000_0000_0000),
        ensures
            r.x == self.content.x - self.padding.left - self.border.left,
            r.y == self.content.y - self.padding.top - self.border.top,
            r.width == self.content.width + self.padding.left + self.padding.right
                + self.border.left + self.border.right,
            r.height == self.content.height + self.padding.top + self.padding.bottom
                + self.border.top + self.border.bottom,
    {
        let Rect { x, y, width, height } = self.padding_box();
        Rect {
            x: x - self.border.left,
            y: y - self.border.top,
            width: width + self.border.left + self.border.right,
            height: height + self.border.top + self.border.bottom,
        }
    }

    /// The area covered by the content area plus padding, borders, and margin.
    pub fn margin_box(&self) -> (r: Rect)
        requires
            self.bounded(0x1000_0000_0000_0000),
        ensures
            r.x == self.content.x - self.padding.left - self.border.left - self.margin.left,
            r.y == self.content.y - self.padding.top - self.border.top - self.margin.top,
            r.width == self.content.width + self.padding.left + self.padding.right
                + self.border.left + self.border.right + self.margin.left + self.margin.right,
            r.height == self.margin_box_height(),
    {
        let Rect { x, y, width, height } = self.border_box();
        Rect {
            x: x - self.margin.left,
            y: y - self.margin.top,
            width: width + self.margin.left + self.margin.right,
            height: height + self.margin.top + self.margin.bottom,
        }
    }
}

/// A length in half-pixels; keywords and colors count as zero.
pub open spec fn px(v: Value) -> int {
    match v {
        Value::Length(n, _) => 2 * n,
        _ => 0,
    }
}

/// The sentinel for an unset width or margin.
pub open spec fn is_auto(v: Value) -> bool {
    v matches Value::Keyword(s) && s@ == "auto"@
}

impl Value {
    /// The value in half-pixels: twice a length's number, zero for anything
    /// else.
    pub fn to_px(&self) -> (r: i64)
        ensures
            r == px(*self),
            0 <= r < length_limit(),
    {
        match self {
            Value::Length(n, Unit::Px) => 2 * (*n as i64),
            _ => 0,
        }
    }

    fn is_auto_keyword(&self) -> (r: bool)
        ensures
            r == is_auto(*self),
    {
        match self {
            Value::Keyword(s) => crate::text::same_text(s.as_str(), "auto"),
            _ => false,
        }
    }
}

pub open spec fn zero_length() -> Value {
    Value::Length(0, Unit::Px)
}

/// Pixels of an edge: the side's own property, else the shorthand, else 0
/// (an unset margin is auto, whose pixels are 0 as well).
pub open spec fn edge_px(style: StyledNode, side: Seq<char>, shorthand: Seq<char>) -> int {
    px(style.spec_lookup(side, shorthand, zero_length()))
}

/// A side margin is auto when set to the keyword, or when unset and the
/// `margin` shorthand is auto or unset too: `auto` is its initial value.
pub open spec fn margin_is_auto(style: StyledNode, side: Seq<char>) -> bool {
    match style.spec_value(side) {
        Some(v) => is_auto(v),
        None => match style.spec_value("margin"@) {
            Some(v) => is_auto(v),
            None => true,
        },
    }
}

/// Whether margin `side` of `style` is auto.
fn margin_auto(style: &StyledNode, side: &str) -> (r: bool)
    ensures
        r == margin_is_auto(*style, side@),
{
    match style.value(side) {
        Some(v) => v.is_auto_keyword(),
        None => match style.value("margin") {
            Some(v) => v.is_auto_keyword(),
            None => true,
        },
    }
}

/// `width` is auto when unset or set to the keyword.
pub open spec fn width_is_auto(style: StyledNode) -> bool {
    match style.spec_value("width"@) {
        Some(v) => is_auto(v),
        None => true,
    }
}

pub open spec fn width_px(style: StyledNode) -> int {
    match style.spec_value("width"@) {
        Some(v) => px(v),
        None => 0,
    }
}

/// Sum of the seven horizontal quantities, auto counting as zero.
pub open spec fn horizontal_total(style: StyledNode) -> int {
    width_px(style) + edge_px(style, "margin-left"@, "margin"@) + edge_px(
        style,
        "margin-right"@,
        "margin"@,
    ) + edge_px(style, "border-left"@, "border"@) + edge_px(style, "border-right"@, "border"@)
        + edge_px(style, "padding-left"@, "padding"@) + edge_px(
        style,
        "padding-right"@,
        "padding"@,
    )
}

/// Used (width, margin-left, margin-right) of a block box in a containing
/// block `cb_width` wide.
pub open spec fn resolved_width(style: StyledNode, cb_width: int) -> (int, int, int) {
    let total = horizontal_total(style);
    let w_auto = width_is_auto(style);
    // A fixed width that overflows makes auto margins zero.
    let overflow = !w_auto && total > cb_width;
    let ml_auto = margin_is_auto(style, "margin-left"@) && !overflow;
    let mr_auto = margin_is_auto(style, "margin-right"@) && !overflow;
    let ml = edge_px(style, "margin-left"@, "margin"@);
    let mr = edge_px(style, "margin-right"@, "margin"@);
    let w = width_px(style);
    let underflow = cb_width - total;
    if !w_auto {
        if !ml_auto && !mr_auto {
            (w, ml, mr + underflow)
        } else if !ml_auto && mr_auto {
            (w, ml, underflow)
        } else if ml_auto && !mr_auto {
            (w, underflow, mr)
        } else {
            (w, underflow / 2, underflow / 2)
        }
    } else if underflow >= 0 {
        (underflow, ml, mr)
    } else {
        (0, ml, mr + underflow)
    }
}

/// The fields that width resolution sets hold the resolved values.
pub open spec fn width_resolved(d: Dimensions, style: StyledNode, cb_width: int) -> bool {
    let (w, ml, mr) = resolved_width(style, cb_width);
    &&& d.content.width == w
    &&& d.margin.left == ml
    &&& d.margin.right == mr
    &&& d.padding.left == edge_px(style, "padding-left"@, "padding"@)
    &&& d.padding.right == edge_px(style, "padding-right"@, "padding"@)
    &&& d.border.left == edge_px(style, "border-left"@, "border"@)
    &&& d.border.right == edge_px(style, "border-right"@, "border"@)
}

/// The fields that position resolution sets hold their values: vertical
/// edges from the style, and the content area placed below what the
/// containing block already holds.
pub open spec fn position_resolved(d: Dimensions, style: StyledNode, cb: Dimensions) -> bool {
    &&& d.padding.top == edge_px(style, "padding-top"@, "padding"@)
    &&& d.padding.bottom == edge_px(style, "padding-bottom"@, "padding"@)
    &&& d.border.top == edge_px(style, "border-top"@, "border"@)
    &&& d.border.bottom == edge_px(style, "border-bottom"@, "border"@)
    &&& d.margin.top == edge_px(style, "margin-top"@, "margin"@)
    &&& d.margin.bottom == edge_px(style, "margin-bottom"@, "margin"@)
    &&& d.content.x == cb.content.x + d.margin.left + d.border.left + d.padding.left
    &&& d.content.y == cb.content.y + cb.content.height + d.margin.top + d.border.top
        + d.padding.top
}

/// The horizontal quantities always add up to the containing block's width.
pub proof fn lemma_width_fills_containing_block(style: StyledNode, cb_width: int)
    requires
        cb_width % 2 == 0,
    ensures
        ({
            let (w, ml, mr) = resolved_width(style, cb_width);
            ml + edge_px(style, "border-left"@, "border"@) + edge_px(
                style,
                "padding-left"@,
                "padding"@,
            ) + w + edge_px(style, "padding-right"@, "padding"@) + edge_px(
                style,
                "border-right"@,
                "border"@,
            ) + mr == cb_width
        }),
{
}

/// When the width is fixed, both side margins are auto and the box fits,
/// the free space is split evenly between the two margins.
pub proof fn lemma_auto_margins_split_evenly(style: StyledNode, cb_width: int)
    requires
        cb_width % 2 == 0,
        !width_is_auto(style),
        margin_is_auto(style, "margin-left"@),
        margin_is_auto(style, "margin-right"@),
        horizontal_total(style) <= cb_width,
    ensures
        ({
            let (w, ml, mr) = resolved_width(style, cb_width);
            let free = cb_width - horizontal_total(style);
            &&& w == width_px(style)
            &&& 2 * ml == free
            &&& ml == mr
        }),
{
}

/// A block box's width never comes out negative.
proof fn lemma_width_bounds(style: StyledNode, cb_width: int)
    requires
        0 <= cb_width <= max_width(),
        cb_width % 2 == 0,
    ensures
        ({
            let (w, ml, mr) = resolved_width(style, cb_width);
            &&& 0 <= w <= max_width()
            &&& w % 2 == 0
            &&& -8 * length_limit() <= ml <= max_width()
            &&& -8 * length_limit() <= mr <= max_width() + length_limit()
        }),
{
    assert(0 <= edge_px(style, "margin-left"@, "margin"@) < length_limit());
}


/// A box of the layout tree; it owns its children.
#[derive(Debug)]
pub struct LayoutBox<'a> {
    pub dimensions: Dimensions,
    pub box_type: BoxType<'a>,
    pub children: Vec<LayoutBox<'a>>,
}

#[derive(Debug)]
pub enum BoxType<'a> {
    BlockNode(&'a StyledNode<'a>),
    InlineNode(&'a StyledNode<'a>),
    /// A block box that groups inline boxes and has no styled node.
    AnonymousBlock,
}

/// The styled node of a block or inline box.
pub open spec fn style_of<'a>(b: LayoutBox<'a>) -> StyledNode<'a>
    recommends
        !(b.box_type is AnonymousBlock),
{
    match b.box_type {
        BoxType::BlockNode(s) => *s,
        BoxType::InlineNode(s) => *s,
        BoxType::AnonymousBlock => arbitrary(),
    }
}

/// One plus the sizes of the first `k` children: the number of boxes in
/// `b` when `k` is its number of children.
pub open spec fn size_upto(b: LayoutBox, k: int) -> int
    decreases b, k,
{
    if k <= 0 || k > b.children@.len() {
        1
    } else {
        size_upto(b, k - 1) + size_upto(b.children@[k - 1], b.children@[k - 1].children@.len() as int)
    }
}

/// The number of boxes in the tree rooted at `b`.
pub open spec fn size(b: LayoutBox) -> int {
    size_upto(b, b.children@.len() as int)
}

proof fn lemma_size_upto_positive(b: LayoutBox, k: int)
    ensures
        size_upto(b, k) >= 1,
    decreases b, k,
{
    if 0 < k <= b.children@.len() {
        lemma_size_upto_positive(b, k - 1);
        lemma_size_upto_positive(b.children@[k - 1], b.children@[k - 1].children@.len() as int);
    }
}

/// A child's tree is smaller than its parent's.
proof fn lemma_child_size(b: LayoutBox, i: int)
    requires
        0 <= i < b.children@.len(),
    ensures
        size_upto(b, i + 1) == size_upto(b, i) + size(b.children@[i]),
        size_upto(b, i + 1) <= size(b),
        size(b.children@[i]) <= size(b) - 1,
        1 <= size(b.children@[i]),
    decreases b.children@.len() - i,
{
    lemma_size_upto_positive(b, i);
    lemma_size_upto_positive(b.children@[i], b.children@[i].children@.len() as int);
    if i + 1 < b.children@.len() {
        lemma_child_size(b, i + 1);
    }
}

/// Sizes depend only on the sizes of the children.
proof fn lemma_size_upto_same(a: LayoutBox, b: LayoutBox, k: int)
    requires
        0 <= k <= a.children@.len(),
        k <= b.children@.len(),
        forall|j: int| 0 <= j < k ==> size(#[trigger] a.children@[j]) == size(b.children@[j]),
    ensures
        size_upto(a, k) == size_upto(b, k),
    decreases k,
{
    if k > 0 {
        lemma_size_upto_same(a, b, k - 1);
        assert(size(a.children@[k - 1]) == size(b.children@[k - 1]));
    }
}

/// Total height of the margin boxes of the first `k` boxes.
pub open spec fn stacked(boxes: Seq<LayoutBox>, k: int) -> int
    decreases k,
{
    if k <= 0 {
        0
    } else {
        stacked(boxes, k - 1) + boxes[k - 1].dimensions.margin_box_height()
    }
}

proof fn lemma_stacked_prefix(a: Seq<LayoutBox>, b: Seq<LayoutBox>, k: int)
    requires
        0 <= k <= a.len(),
        k <= b.len(),
        forall|j: int| 0 <= j < k ==> (#[trigger] a[j]).dimensions == b[j].dimensions,
    ensures
        stacked(a, k) == stacked(b, k),
    decreases k,
{
    if k > 0 {
        lemma_stacked_prefix(a, b, k - 1);
        assert(a[k - 1].dimensions == b[k - 1].dimensions);
    }
}

/// `d` with its content height replaced: the containing block of a child,
/// whose height is how far the children above it reach.
pub open spec fn with_height(d: Dimensions, h: int) -> Dimensions {
    Dimensions {
        content: Rect { x: d.content.x, y: d.content.y, width: d.content.width, height: h as i64 },
        padding: d.padding,
        border: d.border,
        margin: d.margin,
    }
}

/// An explicit pixel `height`, else the height of the children.
pub open spec fn resolved_height(style: StyledNode, children_height: int) -> int {
    match style.spec_value("height"@) {
        Some(Value::Length(h, _)) => 2 * h,
        _ => children_height,
    }
}

/// `new` is `old` laid out in containing block `cb`. Block boxes get their
/// width, then their position, then their children are laid out one below
/// the other, then their height is fixed; other boxes are left as they are.
pub open spec fn laid_out(old: LayoutBox, new: LayoutBox, cb: Dimensions) -> bool
    decreases old,
{
    match old.box_type {
        BoxType::BlockNode(s) => {
            &&& new.box_type == old.box_type
            &&& new.children@.len() == old.children@.len()
            &&& width_resolved(new.dimensions, *s, cb.content.width as int)
            &&& position_resolved(new.dimensions, *s, cb)
            &&& forall|k: int|
                0 <= k < old.children@.len() ==> laid_out(
                    #[trigger] old.children@[k],
                    new.children@[k],
                    with_height(new.dimensions, stacked(new.children@, k)),
                )
            &&& new.dimensions.content.height == resolved_height(
                *s,
                stacked(new.children@, new.children@.len() as int),
            )
        },
        _ => new == old,
    }
}

/// Every box of the tree has all-zero dimensions.
pub open spec fn zeroed(b: LayoutBox) -> bool
    decreases b,
{
    &&& b.dimensions == Dimensions::zero()
    &&& forall|k: int| 0 <= k < b.children@.len() ==> zeroed(#[trigger] b.children@[k])
}

/// Every box of the tree has dimensions within `[-bound, bound]`.
pub open spec fn all_bounded(b: LayoutBox, bound: int) -> bool
    decreases b,
{
    &&& b.dimensions.bounded(bound)
    &&& forall|k: int| 0 <= k < b.children@.len() ==> all_bounded(#[trigger] b.children@[k], bound)
}

proof fn lemma_zeroed_bounded(b: LayoutBox, bound: int)
    requires
        zeroed(b),
        bound >= 0,
    ensures
        all_bounded(b, bound),
    decreases b,
{
    assert forall|k: int| 0 <= k < b.children@.len() implies all_bounded(
        #[trigger] b.children@[k],
        bound,
    ) by {
        lemma_zeroed_bounded(b.children@[k], bound);
    }
}

/// What layout asks of a containing block for a tree of `n` boxes, so
/// that every length it computes fits.
pub open spec fn fits(cb: Dimensions, n: int) -> bool {
    &&& 0 <= cb.content.width <= max_width()
    &&& cb.content.width % 2 == 0
    &&& -coordinate_limit() + n * x_step() <= cb.content.x <= coordinate_limit() - n * x_step()
    &&& 0 <= cb.content.height
    &&& -coordinate_limit() <= cb.content.y
    &&& cb.content.y + cb.content.height + n * height_step() <= coordinate_limit()
    &&& n * height_step() <= coordinate_limit()
}

/// The fields that width resolution leaves alone are equal.
pub open spec fn same_vertical(a: Dimensions, b: Dimensions) -> bool {
    &&& a.content.x == b.content.x
    &&& a.content.y == b.content.y
    &&& a.content.height == b.content.height
    &&& a.padding.top == b.padding.top
    &&& a.padding.bottom == b.padding.bottom
    &&& a.border.top == b.border.top
    &&& a.border.bottom == b.border.bottom
    &&& a.margin.top == b.margin.top
    &&& a.margin.bottom == b.margin.bottom
}

/// The fields that position resolution leaves alone are equal.
pub open spec fn same_horizontal(a: Dimensions, b: Dimensions) -> bool {
    &&& a.content.width == b.content.width
    &&& a.content.height == b.content.height
    &&& a.padding.left == b.padding.left
    &&& a.padding.right == b.padding.right
    &&& a.border.left == b.border.left
    &&& a.border.right == b.border.right
    &&& a.margin.left == b.margin.left
    &&& a.margin.right == b.margin.right
}

/// The containing block that a parent hands its `i`-th child fits that
/// child, while the children before it reach `h` down.
proof fn lemma_child_fits(parent: LayoutBox, d: Dimensions, i: int, h: int)
    requires
        0 <= i < parent.children@.len(),
        fits(d, size(parent) - 1),
        d.content.height == 0,
        0 <= h <= (size_upto(parent, i) - 1) * height_step(),
    ensures
        fits(with_height(d, h), size(parent.children@[i])),
        h + size(parent.children@[i]) * height_step() <= (size_upto(parent, i + 1) - 1) * height_step(),
{
    lemma_child_size(parent, i);
    let c = size(parent.children@[i]);
    assert(c * height_step() <= (size(parent) - 1) * height_step());
    assert(c * x_step() <= (size(parent) - 1) * x_step());
}

impl<'a> LayoutBox<'a> {
    /// A box with zero dimensions and no children.
    pub fn new(box_type: BoxType<'a>) -> (r: LayoutBox<'a>)
        ensures
            r.box_type == box_type,
            r.dimensions == Dimensions::zero(),
            r.children@.len() == 0,
    {
        LayoutBox { box_type, dimensions: Dimensions::default(), children: Vec::new() }
    }

    /// The styled node of a block or inline box.
    pub fn get_style_node(&self) -> (r: &'a StyledNode<'a>)
        requires
            !(self.box_type is AnonymousBlock),
        ensures
            *r == style_of(*self),
    {
        match self.box_type {
            BoxType::BlockNode(node) => node,
            BoxType::InlineNode(node) => node,
            BoxType::AnonymousBlock => unreached(),
        }
    }

    /// Lay out a box and its descendants.
    pub fn layout(&mut self, containing_block: &Dimensions)
        requires
            zeroed(*old(self)),
            fits(*containing_block, size(*old(self))),
        ensures
            laid_out(*old(self), *final(self), *containing_block),
            size(*final(self)) == size(*old(self)),
            0 <= final(self).dimensions.margin_box_height() <= size(*old(self)) * height_step(),
            all_bounded(*final(self), coordinate_limit()),
        decreases size(*old(self)), 2int,
    {
        match self.box_type {
            BoxType::BlockNode(_) => self.layout_block(containing_block),
            BoxType::InlineNode(_) => {
                proof {
                    lemma_zeroed_bounded(*self, coordinate_limit());
                    lemma_size_upto_positive(*self, self.children@.len() as int);
                }
            },
            BoxType::AnonymousBlock => {
                proof {
                    lemma_zeroed_bounded(*self, coordinate_limit());
                    lemma_size_upto_positive(*self, self.children@.len() as int);
                }
            },
        }
    }

    /// Lay out a block-level element and its descendants.
    fn layout_block(&mut self, containing_block: &Dimensions)
        requires
            old(self).box_type is BlockNode,
            zeroed(*old(self)),
            fits(*containing_block, size(*old(self))),
        ensures
            laid_out(*old(self), *final(self), *containing_block),
            size(*final(self)) == size(*old(self)),
            0 <= final(self).dimensions.margin_box_height() <= size(*old(self)) * height_step(),
            all_bounded(*final(self), coordinate_limit()),
        decreases size(*old(self)), 1int,
    {
        proof {
            lemma_size_upto_positive(*self, self.children@.len() as int);
        }
        // Child width can depend on parent width, so this box's width comes
        // before its children are laid out.
        self.calculate_block_width(containing_block);

        // Determine where the box is located within its container.
        self.calculate_block_position(containing_block);

        proof {
            let ghost st = style_of(*old(self));
            lemma_width_bounds(st, containing_block.content.width as int);
            lemma_size_upto_same(*self, *old(self), self.children@.len() as int);
            assert(self.dimensions.content.height == 0);
            assert(0 <= edge_px(st, "padding-left"@, "padding"@) < length_limit());
            assert(0 <= edge_px(st, "border-left"@, "border"@) < length_limit());
            assert(0 <= edge_px(st, "padding-top"@, "padding"@) < length_limit());
            assert(0 <= edge_px(st, "border-top"@, "border"@) < length_limit());
            assert(0 <= edge_px(st, "margin-top"@, "margin"@) < length_limit());
        }
        // Recursively lay out the children of this box.
        self.layout_block_children();

        // Parent height can depend on child height, so the height comes
        // after the children are laid out.
        let ghost laid = *self;
        self.calculate_block_height();
        proof {
            lemma_size_upto_same(*self, laid, self.children@.len() as int);
        }
    }

    fn calculate_block_width(&mut self, containing_block: &Dimensions)
        requires
            !(old(self).box_type is AnonymousBlock),
            0 <= containing_block.content.width <= max_width(),
            containing_block.content.width % 2 == 0,
        ensures
            final(self).box_type == old(self).box_type,
            final(self).children == old(self).children,
            width_resolved(
                final(self).dimensions,
                style_of(*old(self)),
                containing_block.content.width as int,
            ),
            same_vertical(final(self).dimensions, old(self).dimensions),
    {
        let style = self.get_style_node();
        let ghost st = style_of(*self);

        // `width` has initial value `auto`.
        let width = style.value("width");
        let width_auto = match &width {
            Some(v) => v.is_auto_keyword(),
            None => true,
        };
        let width_px = match &width {
            Some(v) => v.to_px(),
            None => 0,
        };

        // Side margins have initial value `auto`, which counts as 0 in the
        // sum below; border and padding have initial value 0.
        let zero = Value::Length(0, Unit::Px);
        let margin_left = style.lookup("margin-left", "margin", &zero);
        let margin_right = style.lookup("margin-right", "margin", &zero);
        let border_left = style.lookup("border-left", "border", &zero);
        let border_right = style.lookup("border-right", "border", &zero);
        let padding_left = style.lookup("padding-left", "padding", &zero);
        let padding_right = style.lookup("padding-right", "padding", &zero);

        let margin_left_px = margin_left.to_px();
        let margin_right_px = margin_right.to_px();
        let border_left_px = border_left.to_px();
        let border_right_px = border_right.to_px();
        let padding_left_px = padding_left.to_px();
        let padding_right_px = padding_right.to_px();

        let total: i64 = width_px + margin_left_px + margin_right_px + border_left_px
            + border_right_px + padding_left_px + padding_right_px;

        // If width is not auto and the total is wider than the container,
        // treat auto margins as 0.
        let mut margin_left_auto = margin_auto(style, "margin-left");
        let mut margin_right_auto = margin_auto(style, "margin-right");
        if !width_auto && total > containing_block.content.width {
            margin_left_auto = false;
            margin_right_auto = false;
        }

        // Adjust used values so that the above sum equals the containing
        // block's width. Each arm increases the total by exactly `underflow`.
        let underflow = containing_block.content.width - total;

        let (used_width, used_margin_left, used_margin_right): (i64, i64, i64) = if !width_auto {
            if !margin_left_auto && !margin_right_auto {
                // Over-constrained: margin-right takes up the difference.
                (width_px, margin_left_px, margin_right_px + underflow)
            } else if !margin_left_auto && margin_right_auto {
                (width_px, margin_left_px, underflow)
            } else if margin_left_auto && !margin_right_auto {
                (width_px, underflow, margin_right_px)
            } else {
                // Both margins auto: they share the free space.
                (width_px, underflow / 2, underflow / 2)
            }
        } else if underflow >= 0 {
            // Expand width to fill the underflow; auto margins are 0.
            (underflow, margin_left_px, margin_right_px)
        } else {
            // Width can't be negative. Adjust the right margin instead.
            (0, margin_left_px, margin_right_px + underflow)
        };

        let d = &mut self.dimensions;
        d.content.width = used_width;
        d.padding.left = padding_left_px;
        d.padding.right = padding_right_px;
        d.border.left = border_left_px;
        d.border.right = border_right_px;
        d.margin.left = used_margin_left;
        d.margin.right = used_margin_right;
    }

    fn calculate_block_position(&mut self, containing_block: &Dimensions)
        requires
            !(old(self).box_type is AnonymousBlock),
            fits(*containing_block, 1),
            width_resolved(
                old(self).dimensions,
                style_of(*old(self)),
                containing_block.content.width as int,
            ),
        ensures
            final(self).box_type == old(self).box_type,
            final(self).children == old(self).children,
            position_resolved(final(self).dimensions, style_of(*old(self)), *containing_block),
            same_horizontal(final(self).dimensions, old(self).dimensions),
    {
        let style = self.get_style_node();
        proof {
            lemma_width_bounds(*style, containing_block.content.width as int);
        }
        let zero = Value::Length(0, Unit::Px);
        let padding_top = style.lookup("padding-top", "padding", &zero).to_px();
        let padding_bottom = style.lookup("padding-bottom", "padding", &zero).to_px();
        let border_top = style.lookup("border-top", "border", &zero).to_px();
        let border_bottom = style.lookup("border-bottom", "border", &zero).to_px();
        let margin_top = style.lookup("margin-top", "margin", &zero).to_px();
        let margin_bottom = style.lookup("margin-bottom", "margin", &zero).to_px();

        let d = &mut self.dimensions;
        d.padding.top = padding_top;
        d.padding.bottom = padding_bottom;
        d.border.top = border_top;
        d.border.bottom = border_bottom;
        d.margin.top = margin_top;
        d.margin.bottom = margin_bottom;

        d.content.x = containing_block.content.x + d.margin.left + d.border.left + d.padding.left;
        // Position the box below all the previous boxes in the container.
        d.content.y = containing_block.content.y + containing_block.content.height + d.margin.top
            + d.border.top + d.padding.top;
    }

    fn layout_block_children(&mut self)
        requires
            old(self).box_type is BlockNode,
            old(self).dimensions.content.height == 0,
            forall|k: int| 0 <= k < old(self).children@.len() ==> zeroed(#[trigger] old(self).children@[k]),
            fits(old(self).dimensions, size(*old(self)) - 1),
        ensures
            final(self).box_type == old(self).box_type,
            final(self).children@.len() == old(self).children@.len(),
            final(self).dimensions == with_height(
                old(self).dimensions,
                stacked(final(self).children@, final(self).children@.len() as int),
            ),
            forall|k: int|
                0 <= k < old(self).children@.len() ==> laid_out(
                    #[trigger] old(self).children@[k],
                    final(self).children@[k],
                    with_height(old(self).dimensions, stacked(final(self).children@, k)),
                ),
            forall|k: int|
                0 <= k < old(self).children@.len() ==> all_bounded(
                    #[trigger] final(self).children@[k],
                    coordinate_limit(),
                ),
            size(*final(self)) == size(*old(self)),
            0 <= stacked(final(self).children@, final(self).children@.len() as int) <= (size(
                *old(self),
            ) - 1) * height_step(),
        decreases size(*old(self)), 0int,
    {
        let ghost old_self = *self;
        let ghost d0 = self.dimensions;
        let n = self.children.len();
        let mut i: usize = 0;
        while i < n
            invariant
                n == old_self.children@.len(),
                old_self == *old(self),
                self.children@.len() == n,
                self.box_type == old_self.box_type,
                i <= n,
                self.dimensions == with_height(d0, stacked(self.children@, i as int)),
                d0 == old_self.dimensions,
                d0.content.height == 0,
                fits(d0, size(old_self) - 1),
                forall|k: int| i <= k < n ==> #[trigger] self.children@[k] == old_self.children@[k],
                forall|k: int| 0 <= k < n ==> zeroed(#[trigger] old_self.children@[k]),
                forall|k: int|
                    0 <= k < i ==> laid_out(
                        #[trigger] old_self.children@[k],
                        self.children@[k],
                        with_height(d0, stacked(self.children@, k)),
                    ),
                forall|k: int| 0 <= k < i ==> all_bounded(#[trigger] self.children@[k], coordinate_limit()),
                forall|k: int| 0 <= k < i ==> size(#[trigger] self.children@[k]) == size(old_self.children@[k]),
                0 <= stacked(self.children@, i as int) <= (size_upto(old_self, i as int) - 1) * height_step(),
            decreases n - i,
        {
            proof {
                lemma_child_size(old_self, i as int);
                lemma_child_fits(old_self, d0, i as int, stacked(self.children@, i as int));
            }
            let containing_block = self.dimensions;
            let ghost before = self.children@;
            assert(size(self.children@[i as int]) < size(*old(self)));
            self.children[i].layout(&containing_block);
            let ghost after = self.children@;
            proof {
                assert(after == before.update(i as int, after[i as int]));
                assert forall|k: int| 0 <= k <= i implies stacked(after, k) == stacked(before, k) by {
                    assert forall|j: int| 0 <= j < k implies (#[trigger] after[j]).dimensions
                        == before[j].dimensions by {
                        assert(after[j] == before[j]);
                    }
                    lemma_stacked_prefix(after, before, k);
                }
                assert(after[i as int].dimensions.bounded(0x1000_0000_0000_0000));
            }
            let h = self.dimensions.content.height + self.children[i].dimensions.margin_box().height;
            self.dimensions.content.height = h;
            proof {
                assert(stacked(after, i + 1) == stacked(after, i as int) + after[i as int].dimensions.margin_box_height());
                assert forall|k: int| 0 <= k < i + 1 implies laid_out(
                    #[trigger] old_self.children@[k],
                    after[k],
                    with_height(d0, stacked(after, k)),
                ) by {
                    if k < i {
                        assert(after[k] == before[k]);
                    }
                }
                assert forall|k: int| 0 <= k < i + 1 implies size(#[trigger] after[k]) == size(old_self.children@[k]) by {
                    if k < i {
                        assert(after[k] == before[k]);
                    }
                }
                assert forall|k: int| 0 <= k < i + 1 implies all_bounded(#[trigger] after[k], coordinate_limit()) by {
                    if k < i {
                        assert(after[k] == before[k]);
                    }
                }
            }
            i = i + 1;
        }
        proof {
            lemma_size_upto_same(*self, old_self, n as int);
        }
    }

    fn calculate_block_height(&mut self)
        requires
            !(old(self).box_type is AnonymousBlock),
        ensures
            final(self).box_type == old(self).box_type,
            final(self).children == old(self).children,
            final(self).dimensions == with_height(
                old(self).dimensions,
                resolved_height(style_of(*old(self)), old(self).dimensions.content.height as int),
            ),
    {
        // An explicit length wins; otherwise keep the height of the children.
        match self.get_style_node().value("height") {
            Some(Value::Length(h, Unit::Px)) => {
                self.dimensions.content.height = 2 * (h as i64);
            },
            _ => {},
        }
    }
}


/// One plus the sizes of the first `k` children of a styled node.
pub open spec fn styled_size_upto(s: StyledNode, k: int) -> int
    decreases s, k,
{
    if k <= 0 || k > s.children@.len() {
        1
    } else {
        styled_size_upto(s, k - 1) + styled_size_upto(
            s.children@[k - 1],
            s.children@[k - 1].children@.len() as int,
        )
    }
}

/// The number of nodes in the styled tree rooted at `s`.
pub open spec fn styled_size(s: StyledNode) -> int {
    styled_size_upto(s, s.children@.len() as int)
}

proof fn lemma_styled_size_positive(s: StyledNode, k: int)
    ensures
        styled_size_upto(s, k) >= 1,
    decreases s, k,
{
    if 0 < k <= s.children@.len() {
        lemma_styled_size_positive(s, k - 1);
        lemma_styled_size_positive(s.children@[k - 1], s.children@[k - 1].children@.len() as int);
    }
}

/// How the children of a styled node are placed under its box: a list of
/// slots, each a flag telling whether it is an anonymous box and the
/// indices of the styled children that it holds. In a block, a run of
/// inline children shares one anonymous box; nodes with `display: none`
/// are left out.
pub open spec fn group(children: Seq<StyledNode>, in_block: bool) -> Seq<(bool, Seq<int>)>
    decreases children.len(),
{
    if children.len() == 0 {
        Seq::empty()
    } else {
        let g = group(children.drop_last(), in_block);
        let i = children.len() - 1;
        match children.last().spec_display() {
            Display::Block => g.push((false, seq![i])),
            Display::Hidden => g,
            Display::Inline => if !in_block {
                g.push((false, seq![i]))
            } else if g.len() > 0 && g.last().0 {
                g.update(g.len() - 1, (true, g.last().1.push(i)))
            } else {
                g.push((true, seq![i]))
            },
        }
    }
}

/// Box `c` holds what `slot` says of the children of `s`.
pub open spec fn slot_built(c: LayoutBox, slot: (bool, Seq<int>), s: StyledNode) -> bool
    decreases s, 0int,
{
    if !slot.0 {
        &&& slot.1.len() == 1
        &&& 0 <= slot.1[0] < s.children@.len()
        &&& built(c, s.children@[slot.1[0]])
    } else {
        &&& c.box_type is AnonymousBlock
        &&& c.dimensions == Dimensions::zero()
        &&& c.children@.len() == slot.1.len()
        &&& forall|k: int|
            0 <= k < slot.1.len() ==> 0 <= slot.1[k] < s.children@.len() && built(
                #[trigger] c.children@[k],
                s.children@[slot.1[k]],
            )
    }
}

/// `b` is the unpositioned box tree of styled node `s`.
pub open spec fn built(b: LayoutBox, s: StyledNode) -> bool
    decreases s, 1int,
{
    let g = group(s.children@, s.spec_display() == Display::Block);
    &&& match b.box_type {
        BoxType::BlockNode(r) => *r == s && s.spec_display() == Display::Block,
        BoxType::InlineNode(r) => *r == s && s.spec_display() == Display::Inline,
        BoxType::AnonymousBlock => false,
    }
    &&& b.dimensions == Dimensions::zero()
    &&& b.children@.len() == g.len()
    &&& forall|j: int| 0 <= j < g.len() ==> slot_built(#[trigger] b.children@[j], g[j], s)
}

impl<'a> LayoutBox<'a> {
    /// Where a new inline child should go: the box itself unless it is a
    /// block, else its last child if that is anonymous, else a new anonymous
    /// child appended for it.
    fn get_inline_container(&mut self) -> (r: &mut LayoutBox<'a>)
        ensures
            match old(self).box_type {
                BoxType::BlockNode(_) => {
                    let n = old(self).children@.len();
                    if n > 0 && old(self).children@[n - 1].box_type is AnonymousBlock {
                        &&& *r == old(self).children@[n - 1]
                        &&& final(self).dimensions == old(self).dimensions
                        &&& final(self).box_type == old(self).box_type
                        &&& final(self).children@ == old(self).children@.update(n - 1, *final(r))
                    } else {
                        &&& r.box_type is AnonymousBlock
                        &&& r.dimensions == Dimensions::zero()
                        &&& r.children@.len() == 0
                        &&& final(self).dimensions == old(self).dimensions
                        &&& final(self).box_type == old(self).box_type
                        &&& final(self).children@ == old(self).children@.push(*final(r))
                    }
                },
                _ => *r == *old(self) && *final(self) == *final(r),
            },
    {
        match self.box_type {
            BoxType::InlineNode(_) => self,
            BoxType::AnonymousBlock => self,
            BoxType::BlockNode(_) => {
                // If we've just generated an anonymous block box, keep using it.
                // Otherwise, create a new one.
                let n = self.children.len();
                if n == 0 || !matches!(self.children[n - 1].box_type, BoxType::AnonymousBlock) {
                    self.children.push(LayoutBox::new(BoxType::AnonymousBlock));
                }
                let last = self.children.len() - 1;
                &mut self.children[last]
            },
        }
    }
}


/// An anonymous box that gains a child still matches its slot, extended.
proof fn lemma_slot_extend(
    c0: LayoutBox,
    a: LayoutBox,
    b: LayoutBox,
    slot: (bool, Seq<int>),
    s: StyledNode,
    i: int,
)
    requires
        slot.0,
        slot_built(c0, slot, s),
        a.box_type is AnonymousBlock,
        a.dimensions == Dimensions::zero(),
        a.children@ == c0.children@.push(b),
        0 <= i < s.children@.len(),
        built(b, s.children@[i]),
    ensures
        slot_built(a, (true, slot.1.push(i)), s),
{
    let idx = slot.1.push(i);
    assert forall|k: int| 0 <= k < idx.len() implies (0 <= idx[k] < s.children@.len() && built(
        #[trigger] a.children@[k],
        s.children@[idx[k]],
    )) by {
        if k < c0.children@.len() {
            assert(a.children@[k] == c0.children@[k]);
            assert(idx[k] == slot.1[k]);
        } else {
            assert(a.children@[k] == b);
            assert(idx[k] == i);
        }
    }
    assert(c0.children@.len() == slot.1.len());
    assert(a.children@.len() == idx.len());
    assert forall|k: int| 0 <= k < idx.len() implies 0 <= #[trigger] idx[k] < s.children@.len() by {
        if k < c0.children@.len() {
            let t = c0.children@[k];
            assert(a.children@[k] == t);
            assert(idx[k] == slot.1[k]);
        }
    }
}

/// Sizes after appending a child box.
proof fn lemma_size_push(a: LayoutBox, b: LayoutBox, c: LayoutBox)
    requires
        b.children@ == a.children@.push(c),
    ensures
        size(b) == size(a) + size(c),
{
    let n = a.children@.len() as int;
    lemma_child_size(b, n);
    assert forall|j: int| 0 <= j < n implies size(#[trigger] b.children@[j]) == size(a.children@[j]) by {
        assert(b.children@[j] == a.children@[j]);
    }
    lemma_size_upto_same(b, a, n);
}

/// Sizes after replacing the last child box.
proof fn lemma_size_replace_last(a: LayoutBox, b: LayoutBox, c: LayoutBox)
    requires
        a.children@.len() > 0,
        b.children@ == a.children@.update(a.children@.len() - 1, c),
    ensures
        size(b) == size(a) - size(a.children@.last()) + size(c),
{
    let n = a.children@.len() - 1;
    lemma_child_size(b, n);
    lemma_child_size(a, n);
    assert forall|j: int| 0 <= j < n implies size(#[trigger] b.children@[j]) == size(a.children@[j]) by {
        assert(b.children@[j] == a.children@[j]);
    }
    lemma_size_upto_same(b, a, n);
}

/// Build the tree of LayoutBoxes, but don't perform any layout calculations yet.
pub fn build_layout_tree<'a>(style_node: &'a StyledNode<'a>) -> (r: LayoutBox<'a>)
    requires
        style_node.spec_display() != Display::Hidden,
    ensures
        built(r, *style_node),
        zeroed(r),
        size(r) <= 2 * styled_size(*style_node) - 1,
    decreases style_node,
{
    let display = style_node.display();
    let mut root = LayoutBox::new(
        match display {
            Display::Block => BoxType::BlockNode(style_node),
            Display::Inline => BoxType::InlineNode(style_node),
            Display::Hidden => unreached(),
        },
    );
    let ghost s = *style_node;
    let ghost in_block = display == Display::Block;
    let ghost root_type = root.box_type;
    let n = style_node.children.len();
    let mut i: usize = 0;
    proof {
        assert(s.children@.take(0) =~= Seq::<StyledNode>::empty());
    }
    while i < n
        invariant
            n == s.children@.len(),
            s == *style_node,
            i <= n,
            in_block == (s.spec_display() == Display::Block),
            root.box_type == root_type,
            match root_type {
                BoxType::BlockNode(r) => *r == s && in_block,
                BoxType::InlineNode(r) => *r == s && s.spec_display() == Display::Inline,
                BoxType::AnonymousBlock => false,
            },
            root.dimensions == Dimensions::zero(),
            root.children@.len() == group(s.children@.take(i as int), in_block).len(),
            forall|j: int|
                0 <= j < root.children@.len() ==> slot_built(
                    #[trigger] root.children@[j],
                    group(s.children@.take(i as int), in_block)[j],
                    s,
                ),
            forall|j: int| 0 <= j < root.children@.len() ==> zeroed(#[trigger] root.children@[j]),
            size(root) <= 2 * styled_size_upto(s, i as int) - 1,
        decreases n - i,
    {
        let child = &style_node.children[i];
        let ghost g = group(s.children@.take(i as int), in_block);
        proof {
            assert(s.children@.take(i + 1).drop_last() =~= s.children@.take(i as int));
            assert(s.children@.take(i + 1).last() == s.children@[i as int]);
            lemma_styled_size_positive(*child, child.children@.len() as int);
            if root.children@.len() > 0 {
                let last = root.children@.len() - 1;
                assert(slot_built(root.children@[last], g[last], s));
                if !g[last].0 {
                    assert(built(root.children@[last], s.children@[g[last].1[0]]));
                }
            }
        }
        let ghost before = root;
        match child.display() {
            Display::Block => {
                let b = build_layout_tree(child);
                root.children.push(b);
                proof {
                    lemma_size_push(before, root, b);
                    let g2 = group(s.children@.take(i + 1), in_block);
                    assert(g2 == g.push((false, seq![i as int])));
                    assert forall|j: int| 0 <= j < root.children@.len() implies slot_built(
                        #[trigger] root.children@[j],
                        g2[j],
                        s,
                    ) by {
                        if j < before.children@.len() {
                            assert(root.children@[j] == before.children@[j]);
                        }
                    }
                    assert forall|j: int| 0 <= j < root.children@.len() implies zeroed(
                        #[trigger] root.children@[j],
                    ) by {
                        if j < before.children@.len() {
                            assert(root.children@[j] == before.children@[j]);
                        }
                    }
                }
            },
            Display::Inline => {
                // Inline boxes go into an anonymous block box.
                let b = build_layout_tree(child);
                let container = root.get_inline_container();
                let ghost c0 = *container;
                container.children.push(b);
                proof {
                    let g2 = group(s.children@.take(i + 1), in_block);
                    if !in_block {
                        lemma_size_push(before, root, b);
                        assert(g2 == g.push((false, seq![i as int])));
                        assert forall|j: int| 0 <= j < root.children@.len() implies slot_built(
                            #[trigger] root.children@[j],
                            g2[j],
                            s,
                        ) by {
                            if j < before.children@.len() {
                                assert(root.children@[j] == before.children@[j]);
                            }
                        }
                        assert forall|j: int| 0 <= j < root.children@.len() implies zeroed(
                            #[trigger] root.children@[j],
                        ) by {
                            if j < before.children@.len() {
                                assert(root.children@[j] == before.children@[j]);
                            }
                        }
                    } else {
                        let a = root.children@.last();
                        lemma_size_push(c0, a, b);
                        let m = before.children@.len() as int;
                        if m > 0 && before.children@[m - 1].box_type is AnonymousBlock {
                            lemma_size_replace_last(before, root, a);
                            assert(g2 == g.update(g.len() - 1, (true, g.last().1.push(i as int))));
                            assert(slot_built(before.children@[m - 1], g[m - 1], s));
                            lemma_slot_extend(c0, a, b, g[m - 1], s, i as int);
                            assert(slot_built(a, g2[m - 1], s));
                            assert forall|j: int| 0 <= j < root.children@.len() implies slot_built(
                                #[trigger] root.children@[j],
                                g2[j],
                                s,
                            ) by {
                                if j < m - 1 {
                                    assert(root.children@[j] == before.children@[j]);
                                }
                            }
                            assert(zeroed(a)) by {
                                assert forall|k: int| 0 <= k < a.children@.len() implies zeroed(
                                    #[trigger] a.children@[k],
                                ) by {
                                    if k < c0.children@.len() {
                                        assert(a.children@[k] == c0.children@[k]);
                                    }
                                }
                            }
                            assert forall|j: int| 0 <= j < root.children@.len() implies zeroed(
                                #[trigger] root.children@[j],
                            ) by {
                                if j < m - 1 {
                                    assert(root.children@[j] == before.children@[j]);
                                }
                            }
                        } else {
                            lemma_size_push(before, root, a);
                            lemma_size_upto_positive(c0, 0);
                            assert(g2 == g.push((true, seq![i as int])));
                            assert(slot_built(a, g2[m], s)) by {
                                assert(a.children@[0] == b);
                            }
                            assert forall|j: int| 0 <= j < root.children@.len() implies slot_built(
                                #[trigger] root.children@[j],
                                g2[j],
                                s,
                            ) by {
                                if j < m {
                                    assert(root.children@[j] == before.children@[j]);
                                }
                            }
                            assert(zeroed(a)) by {
                                assert(a.children@[0] == b);
                            }
                            assert forall|j: int| 0 <= j < root.children@.len() implies zeroed(
                                #[trigger] root.children@[j],
                            ) by {
                                if j < m {
                                    assert(root.children@[j] == before.children@[j]);
                                }
                            }
                        }
                    }
                }
            },
            Display::Hidden => {
                // Skip nodes with `display: none`.
            },
        }
        i = i + 1;
    }
    proof {
        assert(s.children@.take(n as int) =~= s.children@);
        assert(zeroed(root));
    }
    root
}


/// Transform a style tree into a layout tree, laid out in `containing_block`
/// (whose height is first reset: it counts how far the boxes reach down).
///
/// Lengths are in half-pixels. The containing block is a whole number of
/// pixels wide (an even count of half-pixels). The styled tree may hold up
/// to 2^18 nodes and the containing block may lie up to 2^40 half-pixels
/// from the origin and be up to 2^33 half-pixels wide:
/// within those bounds every length that layout computes fits in an `i64`.
pub fn layout_tree<'a>(node: &'a StyledNode<'a>, containing_block: &mut Dimensions) -> (r: LayoutBox<'a>)
    requires
        node.spec_display() != Display::Hidden,
        styled_size(*node) <= 0x4_0000,
        0 <= old(containing_block).content.width <= max_width(),
        old(containing_block).content.width % 2 == 0,
        -0x100_0000_0000 <= old(containing_block).content.x <= 0x100_0000_0000,
        -0x100_0000_0000 <= old(containing_block).content.y <= 0x100_0000_0000,
    ensures
        *final(containing_block) == with_height(*old(containing_block), 0),
        exists|t: LayoutBox<'a>| #[trigger] built(t, *node) && laid_out(t, r, *final(containing_block))
            && blocks_fill(t, r, *final(containing_block)) && empty_blocks_flat(
            t,
            r,
            *final(containing_block),
        ),
        all_bounded(r, coordinate_limit()),
{
    // The layout algorithm expects the container height to start at 0.
    containing_block.content.height = 0;
    let mut root = build_layout_tree(node);
    let ghost t = root;
    root.layout(&*containing_block);
    proof {
        lemma_tree_fills_width(t, root, *containing_block);
        lemma_tree_empty_blocks_flat(t, root, *containing_block);
        assert(built(t, *node) && laid_out(t, root, *containing_block) && blocks_fill(
            t,
            root,
            *containing_block,
        ) && empty_blocks_flat(t, root, *containing_block));
    }
    root
}

/// A laid-out block box fills its containing block exactly: its margins,
/// borders, paddings and width add up to the containing block's width.
pub proof fn lemma_block_fills_width(old: LayoutBox, new: LayoutBox, cb: Dimensions)
    requires
        old.box_type is BlockNode,
        laid_out(old, new, cb),
        cb.content.width % 2 == 0,
    ensures
        new.dimensions.margin.left + new.dimensions.border.left + new.dimensions.padding.left
            + new.dimensions.content.width + new.dimensions.padding.right
            + new.dimensions.border.right + new.dimensions.margin.right == cb.content.width,
{
    lemma_width_fills_containing_block(style_of(old), cb.content.width as int);
}

/// A block box with no children and no explicit height has no height.
pub proof fn lemma_empty_block_height(old: LayoutBox, new: LayoutBox, cb: Dimensions)
    requires
        old.box_type is BlockNode,
        laid_out(old, new, cb),
        old.children@.len() == 0,
        !(style_of(old).spec_value("height"@) matches Some(Value::Length(_, _))),
    ensures
        new.dimensions.content.height == 0,
{
}

/// `t` is reached from `s` through nodes none of which has `display: none`
/// (`s` and `t` included).
pub open spec fn visible_from(s: StyledNode, t: StyledNode) -> bool
    decreases s,
{
    &&& s.spec_display() != Display::Hidden
    &&& (s == t || exists|i: int|
        0 <= i < s.children@.len() && visible_from(#[trigger] s.children@[i], t))
}

/// Some block or inline box of the tree rooted at `b` has styled node `t`.
pub open spec fn shows(b: LayoutBox, t: StyledNode) -> bool
    decreases b,
{
    ||| (!(b.box_type is AnonymousBlock) && style_of(b) == t)
    ||| exists|k: int| 0 <= k < b.children@.len() && shows(#[trigger] b.children@[k], t)
}

/// Every node that a box tree shows is reached from the root without
/// passing a node with `display: none`: such a node and everything below it
/// are absent from the tree.
pub proof fn lemma_hidden_nodes_absent(b: LayoutBox, s: StyledNode, t: StyledNode)
    requires
        built(b, s),
        shows(b, t),
    ensures
        visible_from(s, t),
        t.spec_display() != Display::Hidden,
    decreases s,
{
    if !(b.box_type is AnonymousBlock) && style_of(b) == t {
        assert(style_of(b) == s);
    } else {
        let k = choose|k: int| 0 <= k < b.children@.len() && shows(#[trigger] b.children@[k], t);
        let g = group(s.children@, s.spec_display() == Display::Block);
        let c = b.children@[k];
        assert(slot_built(c, g[k], s));
        if !g[k].0 {
            let i = g[k].1[0];
            lemma_hidden_nodes_absent(c, s.children@[i], t);
            assert(visible_from(s.children@[i], t));
        } else {
            let k2 = choose|k2: int| 0 <= k2 < c.children@.len() && shows(#[trigger] c.children@[k2], t);
            let i = g[k].1[k2];
            assert(0 <= i < s.children@.len() && built(c.children@[k2], s.children@[i]));
            lemma_hidden_nodes_absent(c.children@[k2], s.children@[i], t);
            assert(visible_from(s.children@[i], t));
        }
    }
}

/// Layout changes dimensions only: a laid-out tree shows what it showed.
pub proof fn lemma_layout_shows_same(old: LayoutBox, new: LayoutBox, cb: Dimensions, t: StyledNode)
    requires
        laid_out(old, new, cb),
        shows(new, t),
    ensures
        shows(old, t),
    decreases old,
{
    if old.box_type is BlockNode {
        if !(new.box_type is AnonymousBlock) && style_of(new) == t {
        } else {
            let k = choose|k: int| 0 <= k < new.children@.len() && shows(#[trigger] new.children@[k], t);
            assert(laid_out(
                old.children@[k],
                new.children@[k],
                with_height(new.dimensions, stacked(new.children@, k)),
            ));
            lemma_layout_shows_same(
                old.children@[k],
                new.children@[k],
                with_height(new.dimensions, stacked(new.children@, k)),
                t,
            );
        }
    }
}

/// The children before `n` and the `n`-th one: grouping takes one more step.
proof fn lemma_group_take(children: Seq<StyledNode>, n: int)
    requires
        0 <= n < children.len(),
    ensures
        children.take(n + 1).drop_last() == children.take(n),
        children.take(n + 1).last() == children[n],
        children.take(n + 1).len() == n + 1,
{
    assert(children.take(n + 1).drop_last() =~= children.take(n));
}

/// The indices in `[lo, m)` of the children with inline display, in order.
pub open spec fn inline_indices(children: Seq<StyledNode>, lo: int, m: int) -> Seq<int>
    decreases m - lo,
{
    if m <= lo {
        Seq::empty()
    } else {
        let r = inline_indices(children, lo, m - 1);
        if children[m - 1].spec_display() == Display::Inline {
            r.push(m - 1)
        } else {
            r
        }
    }
}

proof fn lemma_run_part(children: Seq<StyledNode>, lo: int, m: int)
    requires
        0 <= lo <= m <= children.len(),
        forall|i: int|
            lo <= i < m ==> (#[trigger] children[i]).spec_display() != Display::Block,
        lo > 0 ==> children[lo - 1].spec_display() == Display::Block,
    ensures
        inline_indices(children, lo, m).len() == 0 ==> group(children.take(m), true) == group(
            children.take(lo),
            true,
        ),
        inline_indices(children, lo, m).len() > 0 ==> group(children.take(m), true) == group(
            children.take(lo),
            true,
        ).push((true, inline_indices(children, lo, m))),
        group(children.take(lo), true).len() == 0 || !group(children.take(lo), true).last().0,
    decreases m,
{
    if lo > 0 {
        lemma_group_take(children, lo - 1);
    } else {
        assert(children.take(0) =~= Seq::<StyledNode>::empty());
    }
    if m > lo {
        lemma_run_part(children, lo, m - 1);
        lemma_group_take(children, m - 1);
        let prev = group(children.take(m - 1), true);
        let base = group(children.take(lo), true);
        let idx = inline_indices(children, lo, m - 1);
        if children[m - 1].spec_display() == Display::Inline {
            assert(inline_indices(children, lo, m) == idx.push(m - 1));
            if idx.len() == 0 {
                assert(prev == base);
                assert(idx.push(m - 1) =~= seq![m - 1]);
            } else {
                assert(prev == base.push((true, idx)));
                assert(prev.last() == (true, idx));
                assert(prev.update(prev.len() - 1, (true, idx.push(m - 1))) =~= base.push(
                    (true, idx.push(m - 1)),
                ));
            }
        }
    }
}

proof fn lemma_after_run(children: Seq<StyledNode>, lo: int, hi: int, n: int)
    requires
        0 <= lo < hi <= n <= children.len(),
        forall|i: int|
            lo <= i < hi ==> (#[trigger] children[i]).spec_display() != Display::Block,
        inline_indices(children, lo, hi).len() > 0,
        lo > 0 ==> children[lo - 1].spec_display() == Display::Block,
        hi < children.len() ==> children[hi].spec_display() == Display::Block,
    ensures
        ({
            let p = group(children.take(lo), true).len() as int;
            let g = group(children.take(n), true);
            &&& p < g.len()
            &&& g[p] == (true, inline_indices(children, lo, hi))
            &&& n > hi ==> p + 1 < g.len()
        }),
    decreases n,
{
    if n == hi {
        lemma_run_part(children, lo, hi);
    } else {
        lemma_after_run(children, lo, hi, n - 1);
        lemma_group_take(children, n - 1);
    }
}

/// A run of children of a block that have inline display or none, with a
/// block sibling or the end of the list on each side, and at least one
/// inline child, is held by one anonymous box, which holds exactly the
/// boxes of its inline children, in their order and nothing else; the
/// children with display none are left out. A block between two runs thus
/// gives each run an anonymous box of its own.
pub proof fn lemma_inline_run_grouped(b: LayoutBox, s: StyledNode, lo: int, hi: int)
    requires
        built(b, s),
        s.spec_display() == Display::Block,
        0 <= lo < hi <= s.children@.len(),
        forall|i: int|
            lo <= i < hi ==> (#[trigger] s.children@[i]).spec_display() != Display::Block,
        inline_indices(s.children@, lo, hi).len() > 0,
        lo > 0 ==> s.children@[lo - 1].spec_display() == Display::Block,
        hi < s.children@.len() ==> s.children@[hi].spec_display() == Display::Block,
    ensures
        ({
            let p = group(s.children@.take(lo), true).len() as int;
            let idx = inline_indices(s.children@, lo, hi);
            let a = b.children@[p];
            &&& p < b.children@.len()
            &&& a.box_type is AnonymousBlock
            &&& a.children@.len() == idx.len()
            &&& forall|k: int| 0 <= k < idx.len() ==> built(#[trigger] a.children@[k], s.children@[idx[k]])
        }),
{
    let n = s.children@.len() as int;
    lemma_after_run(s.children@, lo, hi, n);
    assert(s.children@.take(n) =~= s.children@);
    let p = group(s.children@.take(lo), true).len() as int;
    let g = group(s.children@, true);
    let a = b.children@[p];
    assert(slot_built(a, g[p], s));
    let idx = inline_indices(s.children@, lo, hi);
    assert(g[p].0 && g[p].1 == idx);
    assert(a.children@.len() == idx.len());
    assert forall|k: int| 0 <= k < idx.len() implies built(#[trigger] a.children@[k], s.children@[idx[k]]) by {
        let c = a.children@[k];
        assert(built(c, s.children@[g[p].1[k]]));
    }
}

/// The number of nodes in the styled tree rooted at `node`, or `cap` if
/// there are more.
pub fn styled_node_count(node: &StyledNode, cap: usize) -> (r: usize)
    requires
        cap >= 1,
    ensures
        r == if styled_size(*node) < cap {
            styled_size(*node)
        } else {
            cap as int
        },
    decreases node,
{
    let mut total: usize = 1;
    let mut i: usize = 0;
    proof {
        lemma_styled_size_positive(*node, 0);
    }
    while i < node.children.len()
        invariant
            i <= node.children@.len(),
            cap >= 1,
            total as int == if styled_size_upto(*node, i as int) < cap {
                styled_size_upto(*node, i as int)
            } else {
                cap as int
            },
        decreases node.children@.len() - i,
    {
        let c = styled_node_count(&node.children[i], cap);
        proof {
            lemma_styled_size_positive(node.children@[i as int], node.children@[i as int].children@.len() as int);
            lemma_styled_size_positive(*node, i as int);
        }
        total = if c >= cap - total {
            cap
        } else {
            total + c
        };
        i = i + 1;
    }
    total
}

/// The sum of a box's horizontal quantities.
pub open spec fn horizontal_sum(d: Dimensions) -> int {
    d.margin.left + d.border.left + d.padding.left + d.content.width + d.padding.right
        + d.border.right + d.margin.right
}

/// Every block box reached from `new` through block boxes fills the width
/// of its containing block exactly.
pub open spec fn blocks_fill(old: LayoutBox, new: LayoutBox, cb: Dimensions) -> bool
    decreases old,
{
    match old.box_type {
        BoxType::BlockNode(_) => {
            &&& horizontal_sum(new.dimensions) == cb.content.width
            &&& forall|k: int|
                0 <= k < old.children@.len() ==> blocks_fill(
                    #[trigger] old.children@[k],
                    new.children@[k],
                    with_height(new.dimensions, stacked(new.children@, k)),
                )
        },
        _ => true,
    }
}

/// Throughout a laid-out tree, each block box fills its containing block:
/// margins, borders, paddings and width add up to the width of the box it
/// is laid out in.
pub proof fn lemma_tree_fills_width(old: LayoutBox, new: LayoutBox, cb: Dimensions)
    requires
        laid_out(old, new, cb),
        0 <= cb.content.width <= max_width(),
        cb.content.width % 2 == 0,
    ensures
        blocks_fill(old, new, cb),
    decreases old,
{
    if old.box_type is BlockNode {
        lemma_block_fills_width(old, new, cb);
        lemma_width_bounds(style_of(old), cb.content.width as int);
        assert forall|k: int| 0 <= k < old.children@.len() implies blocks_fill(
            #[trigger] old.children@[k],
            new.children@[k],
            with_height(new.dimensions, stacked(new.children@, k)),
        ) by {
            lemma_tree_fills_width(
                old.children@[k],
                new.children@[k],
                with_height(new.dimensions, stacked(new.children@, k)),
            );
        }
    }
}

/// Every block box reached from `new` through block boxes that has no
/// children and no explicit pixel height has no height.
pub open spec fn empty_blocks_flat(old: LayoutBox, new: LayoutBox, cb: Dimensions) -> bool
    decreases old,
{
    match old.box_type {
        BoxType::BlockNode(s) => {
            &&& (old.children@.len() == 0 && !(s.spec_value("height"@) matches Some(
                Value::Length(_, _),
            )) ==> new.dimensions.content.height == 0)
            &&& forall|k: int|
                0 <= k < old.children@.len() ==> empty_blocks_flat(
                    #[trigger] old.children@[k],
                    new.children@[k],
                    with_height(new.dimensions, stacked(new.children@, k)),
                )
        },
        _ => true,
    }
}

/// Throughout a laid-out tree, a block box with no children and no
/// explicit height has height zero.
pub proof fn lemma_tree_empty_blocks_flat(old: LayoutBox, new: LayoutBox, cb: Dimensions)
    requires
        laid_out(old, new, cb),
    ensures
        empty_blocks_flat(old, new, cb),
    decreases old,
{
    if old.box_type is BlockNode {
        if old.children@.len() == 0 && !(style_of(old).spec_value("height"@) matches Some(
            Value::Length(_, _),
        )) {
            lemma_empty_block_height(old, new, cb);
        }
        assert forall|k: int| 0 <= k < old.children@.len() implies empty_blocks_flat(
            #[trigger] old.children@[k],
            new.children@[k],
            with_height(new.dimensions, stacked(new.children@, k)),
        ) by {
            lemma_tree_empty_blocks_flat(
                old.children@[k],
                new.children@[k],
                with_height(new.dimensions, stacked(new.children@, k)),
            );
        }
    }
}

} // verus!
