use minibrowser::css_parser::{self, Color};
use minibrowser::html_parser;
use minibrowser::layout::{layout_tree, Dimensions, Rect};
use minibrowser::painting::{build_display_list, paint, Canvas, DisplayCommand};
use minibrowser::style::style_tree;

#[test]
fn new() {
    let canvas = Canvas::new(8, 8);

    assert_eq!(canvas.width, 8);
    assert_eq!(canvas.height, 8);

    let pixels = canvas.pixels;
    let white = Color { r: 255, g: 255, b: 255 };
    assert_eq!(pixels.len(), 64);
    assert!(pixels.iter().all(|p| *p == white));
}

#[test]
fn paint_item() {
    let mut canvas = Canvas::new(4, 4);

    let black = Color { r: 0, g: 0, b: 0 };
    // Columns 2 and 3, rows 1 to 3, in half-pixels.
    let rect = Rect { x: 4, y: 2, width: 4, height: 6 };
    let item = DisplayCommand::SolidColor(black, rect);

    canvas.paint_item(&item);

    assert_eq!(canvas.width, 4);
    assert_eq!(canvas.height, 4);

    let pixels = canvas.pixels;
    let white = Color { r: 255, g: 255, b: 255 };
    assert_eq!(pixels.len(), 16);
    assert_eq!(pixels[0..4], vec![white; 4]);
    assert_eq!(pixels[4..8], vec![white, white, black, black]);
    assert_eq!(pixels[8..12], vec![white, white, black, black]);
    assert_eq!(pixels[12..16], vec![white, white, black, black]);
}

#[test]
fn paint_item_clips_to_the_canvas() {
    let mut canvas = Canvas::new(3, 2);
    let red = Color { r: 255, g: 0, b: 0 };
    canvas.paint_item(&DisplayCommand::SolidColor(red, Rect { x: 2, y: -10, width: 20, height: 12 }));
    let white = Color { r: 255, g: 255, b: 255 };
    // The rectangle starts at row 0 and is 6 rows tall; columns 1.. are red.
    assert_eq!(canvas.pixels, vec![white, red, red, white, red, red]);
}

#[test]
fn display_list_paints_backgrounds_then_borders_then_children() {
    let css = css_parser::parse(
        "html, div { display: block; } html { background: #ff0000; }
         div { height: 4px; border: 1px; border-color: #0000ff; background: #00ff00; }"
            .to_string(),
    );
    let dom = html_parser::parse("<div></div>".to_string());
    let styled = style_tree(&dom, &css);
    let mut vp = Dimensions::default();
    // Eight pixels, in half-pixels.
    vp.content.width = 16;
    let root = layout_tree(&styled, &mut vp);
    let list = build_display_list(&root);
    assert_eq!(list.len(), 6);
    let red = Color { r: 255, g: 0, b: 0 };
    let green = Color { r: 0, g: 255, b: 0 };
    let blue = Color { r: 0, g: 0, b: 255 };
    assert_eq!(list[0], DisplayCommand::SolidColor(red, Rect { x: 0, y: 0, width: 16, height: 12 }));
    assert_eq!(list[1], DisplayCommand::SolidColor(green, Rect { x: 0, y: 0, width: 16, height: 12 }));
    assert_eq!(list[2], DisplayCommand::SolidColor(blue, Rect { x: 0, y: 0, width: 2, height: 12 }));
    assert_eq!(list[3], DisplayCommand::SolidColor(blue, Rect { x: 14, y: 0, width: 2, height: 12 }));
    assert_eq!(list[4], DisplayCommand::SolidColor(blue, Rect { x: 0, y: 0, width: 16, height: 2 }));
    assert_eq!(list[5], DisplayCommand::SolidColor(blue, Rect { x: 0, y: 10, width: 16, height: 2 }));

    let canvas = paint(&root, 8, 8);
    assert_eq!(canvas.pixels[0], blue);
    assert_eq!(canvas.pixels[8 + 3], green);
    assert_eq!(canvas.pixels[7 * 8], Color { r: 255, g: 255, b: 255 });
}
