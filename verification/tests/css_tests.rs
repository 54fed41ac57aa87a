use image_to_pure_css::{
    assemble_css, dominant_from_counts, find_dominant_color, render_css, ImageData, Rgb,
};

const K: Rgb = Rgb { r: 0, g: 0, b: 0 };
const W: Rgb = Rgb { r: 255, g: 255, b: 255 };
const R: Rgb = Rgb { r: 255, g: 0, b: 0 };
const G: Rgb = Rgb { r: 0, g: 0x80, b: 0 };

fn image(width: u32, height: u32, pixels: Vec<Rgb>) -> ImageData {
    ImageData { width, height, pixels }
}

fn never(_: usize, _: usize, _: usize) -> bool {
    false
}

fn text(bytes: Vec<u8>) -> String {
    String::from_utf8(bytes).unwrap()
}

#[test]
fn dominant_counts_pick_first_highest() {
    assert_eq!(dominant_from_counts(&vec![(5, 1), (7, 3), (9, 3)]), 7);
    assert_eq!(dominant_from_counts(&vec![(5, 0), (7, 0)]), 0);
    assert_eq!(dominant_from_counts(&vec![]), 0);
    assert_eq!(dominant_from_counts(&vec![(5, 0), (0x123456, 2)]), 0x123456);
}

#[test]
fn dominant_color_samples_every_eighth_pixel() {
    let mut pixels = vec![W; 17];
    pixels[0] = R;
    pixels[8] = R;
    pixels[16] = G;
    assert_eq!(find_dominant_color(&image(17, 1, pixels)), R);
}

#[test]
fn dominant_color_of_no_pixels_is_black() {
    assert_eq!(find_dominant_color(&image(0, 0, vec![])), K);
}

#[test]
fn dominant_color_of_uniform_image() {
    assert_eq!(find_dominant_color(&image(3, 3, vec![G; 9])), G);
}

#[test]
fn uniform_image_has_no_gradients() {
    let css = text(assemble_css(&image(2, 2, vec![R; 4]), true, never));
    assert_eq!(
        css,
        "<div style=\"width:2px;height:2px;background-color:#f00;background-image:;\
         background-size:100% 1px;background-position:;background-repeat:no-repeat;\"></div>"
    );
}

#[test]
fn exact_row_with_three_runs() {
    let css = text(render_css(&image(3, 1, vec![K, W, K]), K, true, never));
    assert_eq!(
        css,
        "<div style=\"width:3px;height:1px;background-color:#000;background-image:\
         linear-gradient(90deg,#000 1px,#fff 0 2px,#000 0);background-size:100% 1px;\
         background-position:0 0;background-repeat:no-repeat;\"></div>"
    );
}

#[test]
fn background_rows_are_skipped_and_flat_rows_drawn() {
    let pixels = vec![K, K, R, R, K, K, G, G];
    let css = text(render_css(&image(2, 4, pixels), K, true, never));
    assert_eq!(
        css,
        "<div style=\"width:2px;height:4px;background-color:#000;background-image:\
         linear-gradient(#f00,#f00),linear-gradient(#008000,#008000);background-size:100% 1px;\
         background-position:0 1px,0 3px;background-repeat:no-repeat;\"></div>"
    );
}

#[test]
fn exact_rows_carry_earlier_color_stops() {
    let pixels = vec![K, W, K, W, K, W];
    let css = text(render_css(&image(3, 2, pixels), K, true, never));
    assert_eq!(
        css,
        "<div style=\"width:3px;height:2px;background-color:#000;background-image:\
         linear-gradient(90deg,#000 1px,#fff 0 2px,#000 0),\
         linear-gradient(90deg,#000 1px,#fff 0 2px,#000 0,#fff 1px,#000 0 2px,#fff 0);\
         background-size:100% 1px;background-position:0 0,0 1px;background-repeat:no-repeat;\"></div>"
    );
}

#[test]
fn smooth_rows_use_their_stops() {
    let pixels = vec![K, W, R, K, W, K];
    let css = text(render_css(&image(3, 2, pixels), W, false, |_: usize, _: usize, _: usize| true));
    assert_eq!(
        css,
        "<div style=\"width:3px;height:2px;background-color:#fff;background-image:\
         linear-gradient(90deg,#000,#f00),linear-gradient(#000,#000);\
         background-size:100% 1px;background-position:0 0,0 1px;background-repeat:no-repeat;\"></div>"
    );
}

#[test]
fn smooth_row_of_background_color_is_skipped() {
    let pixels = vec![K, W, K];
    let css = text(render_css(&image(3, 1, pixels), K, false, |_: usize, _: usize, _: usize| true));
    assert_eq!(
        css,
        "<div style=\"width:3px;height:1px;background-color:#000;background-image:;\
         background-size:100% 1px;background-position:;background-repeat:no-repeat;\"></div>"
    );
}

#[test]
fn smooth_row_with_interior_stops() {
    let pixels = vec![K, W, R, G];
    let css = text(render_css(&image(4, 1, pixels), W, false, |_: usize, s: usize, e: usize| e - s <= 1));
    assert_eq!(
        css,
        "<div style=\"width:4px;height:1px;background-color:#fff;background-image:\
         linear-gradient(90deg,#000,#fff 1px,#f00 2px,#008000);background-size:100% 1px;\
         background-position:0 0;background-repeat:no-repeat;\"></div>"
    );
}

#[test]
fn leftover_pixels_form_no_row_and_positions_count_rows() {
    let mut pixels = vec![K; 2 * 12];
    pixels[2 * 11] = W;
    pixels.push(R);
    let css = text(render_css(&image(2, 12, pixels), K, true, never));
    assert_eq!(
        css,
        "<div style=\"width:2px;height:12px;background-color:#000;background-image:\
         linear-gradient(90deg,#fff 1px,#000 0);background-size:100% 1px;\
         background-position:0 11px;background-repeat:no-repeat;\"></div>"
    );
}

#[test]
fn one_pixel_wide_smooth_image() {
    let css = text(render_css(&image(1, 2, vec![K, W]), K, false, never));
    assert_eq!(
        css,
        "<div style=\"width:1px;height:2px;background-color:#000;background-image:\
         linear-gradient(#fff,#fff);background-size:100% 1px;background-position:0 1px;\
         background-repeat:no-repeat;\"></div>"
    );
}

#[test]
fn assemble_picks_background_then_renders() {
    let pixels = vec![W, W, W, W, K, R];
    let css = text(assemble_css(&image(2, 3, pixels), false, |_: usize, _: usize, _: usize| true));
    assert_eq!(
        css,
        "<div style=\"width:2px;height:3px;background-color:#fff;background-image:\
         linear-gradient(90deg,#000,#f00);background-size:100% 1px;\
         background-position:0 2px;background-repeat:no-repeat;\"></div>"
    );
}

#[test]
fn document_is_ascii_text() {
    let pixels = vec![K, W, R, G, W, W, Rgb { r: 0x12, g: 0x34, b: 0x56 }, K, K];
    for exact in [true, false] {
        let css = assemble_css(&image(3, 3, pixels.clone()), exact, |_: usize, s: usize, e: usize| e - s <= 1);
        assert!(css.iter().all(|b| b.is_ascii()));
        assert!(String::from_utf8(css).is_ok());
    }
}
