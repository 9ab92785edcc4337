//! Painting: a display list of solid rectangles drawn from the layout tree,
//! and a canvas that the list is drawn into. Display commands keep layout's
//! half-pixels; the canvas counts whole pixels.
use vstd::prelude::*;

use crate::css_parser::{Color, Value};
use crate::layout::{all_bounded, coordinate_limit, BoxType, Dimensions, LayoutBox, Rect};

verus! {

/// A grid of pixels, row after row.
pub struct Canvas {
    pub pixels: Vec<Color>,
    pub width: usize,
    pub height: usize,
}

/// A display command.
#[derive(Debug, PartialEq, Eq, Clone, Copy)]
pub enum DisplayCommand {
    /// Paint a solid-color rectangle.
    SolidColor(Color, Rect),
}

pub open spec fn white() -> Color {
    Color { r: 255, g: 255, b: 255 }
}

/// The color that a box specifies for property `name`; anonymous boxes have none.
pub open spec fn box_color(b: LayoutBox, name: Seq<char>) -> Option<Color> {
    match b.box_type {
        BoxType::BlockNode(s) => match s.spec_value(name) {
            Some(Value::Colorvalue(c)) => Some(c),
            _ => None,
        },
        BoxType::InlineNode(s) => match s.spec_value(name) {
            Some(Value::Colorvalue(c)) => Some(c),
            _ => None,
        },
        BoxType::AnonymousBlock => None,
    }
}

/// The border box of `d`.
pub open spec fn border_rect(d: Dimensions) -> Rect {
    Rect {
        x: (d.content.x - d.padding.left - d.border.left) as i64,
        y: (d.content.y - d.padding.top - d.border.top) as i64,
        width: (d.content.width + d.padding.left + d.padding.right + d.border.left
            + d.border.right) as i64,
        height: (d.content.height + d.padding.top + d.padding.bottom + d.border.top
            + d.border.bottom) as i64,
    }
}

/// The background of a box: its border box, if it has a `background` color.
pub open spec fn background_commands(b: LayoutBox) -> Seq<DisplayCommand> {
    match box_color(b, "background"@) {
        Some(c) => seq![DisplayCommand::SolidColor(c, border_rect(b.dimensions))],
        None => Seq::empty(),
    }
}

/// The four borders of a box (left, right, top, bottom), if it has a
/// `border-color`.
pub open spec fn border_commands(b: LayoutBox) -> Seq<DisplayCommand> {
    let d = b.dimensions;
    let bb = border_rect(d);
    match box_color(b, "border-color"@) {
        Some(c) => seq![
            DisplayCommand::SolidColor(c, Rect { x: bb.x, y: bb.y, width: d.border.left, height: bb.height }),
            DisplayCommand::SolidColor(
                c,
                Rect {
                    x: (bb.x + bb.width - d.border.right) as i64,
                    y: bb.y,
                    width: d.border.right,
                    height: bb.height,
                },
            ),
            DisplayCommand::SolidColor(c, Rect { x: bb.x, y: bb.y, width: bb.width, height: d.border.top }),
            DisplayCommand::SolidColor(
                c,
                Rect {
                    x: bb.x,
                    y: (bb.y + bb.height - d.border.bottom) as i64,
                    width: bb.width,
                    height: d.border.bottom,
                },
            ),
        ],
        None => Seq::empty(),
    }
}

/// The commands of the first `k` children of `b`, then of `b` itself when
/// `k` is past its children: each box before its descendants, in tree order.
pub open spec fn commands_upto(b: LayoutBox, k: int) -> Seq<DisplayCommand>
    decreases b, k,
{
    if k <= 0 || k > b.children@.len() {
        background_commands(b) + border_commands(b)
    } else {
        commands_upto(b, k - 1) + commands_upto(
            b.children@[k - 1],
            b.children@[k - 1].children@.len() as int,
        )
    }
}

/// The display list of the tree rooted at `b`.
pub open spec fn commands(b: LayoutBox) -> Seq<DisplayCommand> {
    commands_upto(b, b.children@.len() as int)
}

/// Return the specified color for CSS property `name`, or None if no color was
/// specified.
fn get_color(layout_box: &LayoutBox, name: &str) -> (r: Option<Color>)
    ensures
        r == box_color(*layout_box, name@),
{
    match layout_box.box_type {
        BoxType::BlockNode(style) => match style.value(name) {
            Some(Value::Colorvalue(color)) => Some(color),
            _ => None,
        },
        BoxType::InlineNode(style) => match style.value(name) {
            Some(Value::Colorvalue(color)) => Some(color),
            _ => None,
        },
        BoxType::AnonymousBlock => None,
    }
}

fn render_background(list: &mut Vec<DisplayCommand>, layout_box: &LayoutBox)
    requires
        layout_box.dimensions.bounded(coordinate_limit()),
    ensures
        final(list)@ == old(list)@ + background_commands(*layout_box),
{
    match get_color(layout_box, "background") {
        Some(color) => {
            list.push(DisplayCommand::SolidColor(color, layout_box.dimensions.border_box()));
        },
        None => {},
    }
}

fn render_borders(list: &mut Vec<DisplayCommand>, layout_box: &LayoutBox)
    requires
        layout_box.dimensions.bounded(coordinate_limit()),
    ensures
        final(list)@ == old(list)@ + border_commands(*layout_box),
{
    let color = match get_color(layout_box, "border-color") {
        Some(color) => color,
        // Bail out if no border-color is specified.
        None => {
            assert(list@ =~= list@ + border_commands(*layout_box));
            return;
        },
    };

    let d = &layout_box.dimensions;
    let border_box = d.border_box();

    // Left border
    list.push(
        DisplayCommand::SolidColor(
            color,
            Rect { x: border_box.x, y: border_box.y, width: d.border.left, height: border_box.height },
        ),
    );

    // Right border
    list.push(
        DisplayCommand::SolidColor(
            color,
            Rect {
                x: border_box.x + border_box.width - d.border.right,
                y: border_box.y,
                width: d.border.right,
                height: border_box.height,
            },
        ),
    );

    // Top border
    list.push(
        DisplayCommand::SolidColor(
            color,
            Rect { x: border_box.x, y: border_box.y, width: border_box.width, height: d.border.top },
        ),
    );

    // Bottom border
    list.push(
        DisplayCommand::SolidColor(
            color,
            Rect {
                x: border_box.x,
                y: border_box.y + border_box.height - d.border.bottom,
                width: border_box.width,
                height: d.border.bottom,
            },
        ),
    );
    assert(list@ =~= old(list)@ + border_commands(*layout_box));
}

fn render_layout_box(list: &mut Vec<DisplayCommand>, layout_box: &LayoutBox)
    requires
        all_bounded(*layout_box, coordinate_limit()),
    ensures
        final(list)@ == old(list)@ + commands(*layout_box),
    decreases layout_box,
{
    render_background(list, layout_box);
    render_borders(list, layout_box);
    proof {
        assert(list@ =~= old(list)@ + commands_upto(*layout_box, 0));
    }
    let mut i: usize = 0;
    while i < layout_box.children.len()
        invariant
            i <= layout_box.children@.len(),
            all_bounded(*layout_box, coordinate_limit()),
            list@ == old(list)@ + commands_upto(*layout_box, i as int),
        decreases layout_box.children@.len() - i,
    {
        render_layout_box(list, &layout_box.children[i]);
        proof {
            assert(list@ =~= old(list)@ + commands_upto(*layout_box, i + 1));
        }
        i = i + 1;
    }
}

/// The display list of a laid-out tree.
pub fn build_display_list(layout_root: &LayoutBox) -> (r: Vec<DisplayCommand>)
    requires
        all_bounded(*layout_root, coordinate_limit()),
    ensures
        r@ == commands(*layout_root),
{
    let mut list = Vec::new();
    render_layout_box(&mut list, layout_root);
    assert(list@ =~= commands(*layout_root));
    list
}

/// `v` clamped to `[0, limit]`.
pub open spec fn clip(v: int, limit: int) -> int {
    if v <= 0 {
        0
    } else if v >= limit {
        limit
    } else {
        v
    }
}

/// The columns `[x0, x1)` that a rectangle covers on a canvas `width`
/// pixels wide. The rectangle is in half-pixels: its left edge, rounded
/// down to a whole pixel, or 0, whichever is further right, is where it
/// starts; its width, rounded down to whole pixels (if positive), is how
/// far it runs from there; it stops at the edge.
pub open spec fn span(start: int, extent: int, limit: int) -> (int, int) {
    let s0 = if start < 0 {
        0
    } else {
        start / 2
    };
    let e = if extent < 0 {
        0
    } else {
        extent / 2
    };
    (clip(s0, limit), clip(s0 + e, limit))
}

/// Whether the pixel at column `x`, row `y` is covered by `rect`.
pub open spec fn covers(rect: Rect, x: int, y: int, width: int, height: int) -> bool {
    let (x0, x1) = span(rect.x as int, rect.width as int, width);
    let (y0, y1) = span(rect.y as int, rect.height as int, height);
    x0 <= x < x1 && y0 <= y < y1
}

fn clip_span(start: i64, extent: i64, limit: usize) -> (r: (usize, usize))
    ensures
        r.0 as int == span(start as int, extent as int, limit as int).0,
        r.1 as int == span(start as int, extent as int, limit as int).1,
        r.0 <= r.1 <= limit,
{
    let s0: i128 = if start < 0 {
        0
    } else {
        start as i128 / 2
    };
    let e: i128 = if extent < 0 {
        0
    } else {
        extent as i128 / 2
    };
    let lim = limit as i128;
    let a: i128 = if s0 >= lim {
        lim
    } else {
        s0
    };
    let b0: i128 = s0 + e;
    let b: i128 = if b0 >= lim {
        lim
    } else {
        b0
    };
    (a as usize, b as usize)
}

proof fn lemma_index(w: int, h: int, x: int, y: int)
    requires
        0 <= x < w,
        0 <= y < h,
    ensures
        0 <= y * w + x < w * h,
        0 <= y * w <= y * w + x,
{
    assert(y * w + x < w * h) by (nonlinear_arith)
        requires
            0 <= x < w,
            0 <= y < h,
    ;
    assert(0 <= y * w) by (nonlinear_arith)
        requires
            0 <= x < w,
            0 <= y < h,
    ;
}

proof fn lemma_index_unique(w: int, x1: int, y1: int, x2: int, y2: int)
    requires
        0 <= x1 < w,
        0 <= x2 < w,
        0 <= y1,
        0 <= y2,
        y1 * w + x1 == y2 * w + x2,
    ensures
        x1 == x2 && y1 == y2,
{
    assert(y1 == y2) by (nonlinear_arith)
        requires
            0 <= x1 < w,
            0 <= x2 < w,
            0 <= y1,
            0 <= y2,
            y1 * w + x1 == y2 * w + x2,
    ;
}

impl Canvas {
    /// The pixel array holds one color per pixel.
    pub open spec fn wf(&self) -> bool {
        self.pixels@.len() == self.width * self.height
    }

    /// The color at column `x`, row `y`.
    pub open spec fn pixel(&self, x: int, y: int) -> Color {
        self.pixels@[y * self.width + x]
    }

    /// Create a new blank canvas.
    pub fn new(width: usize, height: usize) -> (r: Canvas)
        requires
            width * height <= usize::MAX,
        ensures
            r.wf(),
            r.width == width,
            r.height == height,
            forall|i: int| 0 <= i < r.pixels@.len() ==> r.pixels@[i] == white(),
    {
        let white = Color { r: 255, g: 255, b: 255 };
        let n = width * height;
        let mut pixels: Vec<Color> = Vec::new();
        let mut i: usize = 0;
        while i < n
            invariant
                i <= n,
                pixels@.len() == i,
                forall|j: int| 0 <= j < i ==> pixels@[j] == white,
            decreases n - i,
        {
            pixels.push(white);
            i = i + 1;
        }
        Canvas { pixels, width, height }
    }

    /// Execute a display command and paint into the canvas.
    pub fn paint_item(&mut self, item: &DisplayCommand)
        requires
            old(self).wf(),
        ensures
            final(self).wf(),
            final(self).width == old(self).width,
            final(self).height == old(self).height,
            forall|x: int, y: int|
                0 <= x < old(self).width && 0 <= y < old(self).height ==> #[trigger] final(self).pixel(x, y)
                    == match *item {
                    DisplayCommand::SolidColor(color, rect) => if covers(
                        rect,
                        x,
                        y,
                        old(self).width as int,
                        old(self).height as int,
                    ) {
                        color
                    } else {
                        old(self).pixel(x, y)
                    },
                },
    {
        match item {
            DisplayCommand::SolidColor(color, rect) => {
                let w = self.width;
                let h = self.height;
                let (x0, x1) = clip_span(rect.x, rect.width, w);
                let (y0, y1) = clip_span(rect.y, rect.height, h);
                let ghost old_canvas = *self;
                let mut y = y0;
                while y < y1
                    invariant
                        self.wf(),
                        self.width == w,
                        self.height == h,
                        old_canvas.wf(),
                        old_canvas.width == w,
                        old_canvas.height == h,
                        y0 <= y <= y1 <= h,
                        x0 <= x1 <= w,
                        forall|px: int, py: int|
                            0 <= px < w && 0 <= py < h ==> #[trigger] self.pixel(px, py) == if x0 <= px
                                < x1 && y0 <= py < y {
                                *color
                            } else {
                                old_canvas.pixel(px, py)
                            },
                    decreases y1 - y,
                {
                    let mut x = x0;
                    while x < x1
                        invariant
                            self.wf(),
                            self.width == w,
                            self.height == h,
                            old_canvas.wf(),
                            old_canvas.width == w,
                            old_canvas.height == h,
                            y0 <= y < y1 <= h,
                            x0 <= x <= x1 <= w,
                            forall|px: int, py: int|
                                0 <= px < w && 0 <= py < h ==> #[trigger] self.pixel(px, py) == if (x0
                                    <= px < x1 && y0 <= py < y) || (x0 <= px < x && py == y) {
                                    *color
                                } else {
                                    old_canvas.pixel(px, py)
                                },
                        decreases x1 - x,
                    {
                        proof {
                            lemma_index(w as int, h as int, x as int, y as int);
                        }
                        let _n = self.pixels.len();
                        let idx = x + y * w;
                        let ghost before = *self;
                        self.pixels[idx] = *color;
                        proof {
                            assert forall|px: int, py: int|
                                0 <= px < w && 0 <= py < h implies #[trigger] self.pixel(px, py) == if (x0
                                    <= px < x1 && y0 <= py < y) || (x0 <= px < x + 1 && py == y) {
                                    *color
                                } else {
                                    old_canvas.pixel(px, py)
                                } by {
                                lemma_index(w as int, h as int, px, py);
                                if py * w + px == idx {
                                    lemma_index_unique(w as int, px, py, x as int, y as int);
                                } else {
                                    assert(self.pixel(px, py) == before.pixel(px, py));
                                }
                            }
                        }
                        x = x + 1;
                    }
                    y = y + 1;
                }
            },
        }
    }
}

/// The color of the pixel at column `x`, row `y` after `cmds` are painted
/// in order onto a white canvas: that of the last command covering it.
pub open spec fn painted_color(cmds: Seq<DisplayCommand>, x: int, y: int, width: int, height: int) -> Color
    decreases cmds.len(),
{
    if cmds.len() == 0 {
        white()
    } else {
        match cmds.last() {
            DisplayCommand::SolidColor(color, rect) => if covers(rect, x, y, width, height) {
                color
            } else {
                painted_color(cmds.drop_last(), x, y, width, height)
            },
        }
    }
}

/// Paint a laid-out tree onto a new white canvas.
pub fn paint(layout_box: &LayoutBox, width: usize, height: usize) -> (r: Canvas)
    requires
        all_bounded(*layout_box, coordinate_limit()),
        width * height <= usize::MAX,
    ensures
        r.wf(),
        r.width == width,
        r.height == height,
        forall|x: int, y: int|
            0 <= x < width && 0 <= y < height ==> #[trigger] r.pixel(x, y) == painted_color(
                commands(*layout_box),
                x,
                y,
                width as int,
                height as int,
            ),
{
    let display_list = build_display_list(layout_box);
    let mut canvas = Canvas::new(width, height);
    proof {
        assert forall|x: int, y: int| 0 <= x < width && 0 <= y < height implies #[trigger] canvas.pixel(x, y)
            == painted_color(display_list@.take(0), x, y, width as int, height as int) by {
            lemma_index(width as int, height as int, x, y);
        }
    }
    let mut i: usize = 0;
    while i < display_list.len()
        invariant
            canvas.wf(),
            canvas.width == width,
            canvas.height == height,
            i <= display_list@.len(),
            forall|x: int, y: int|
                0 <= x < width && 0 <= y < height ==> #[trigger] canvas.pixel(x, y) == painted_color(
                    display_list@.take(i as int),
                    x,
                    y,
                    width as int,
                    height as int,
                ),
        decreases display_list@.len() - i,
    {
        canvas.paint_item(&display_list[i]);
        proof {
            assert(display_list@.take(i + 1).drop_last() =~= display_list@.take(i as int));
            assert(display_list@.take(i + 1).last() == display_list@[i as int]);
        }
        i = i + 1;
    }
    proof {
        assert(display_list@.take(i as int) =~= display_list@);
    }
    canvas
}

} // verus!
