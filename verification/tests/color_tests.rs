use image_to_pure_css::{rgb_to_compressed_color, rgba_to_pixels, Rgb};

fn rgb(r: u8, g: u8, b: u8) -> Rgb {
    Rgb { r, g, b }
}

fn text(res: (usize, [u8; 7])) -> String {
    String::from_utf8(res.1[..res.0].to_vec()).unwrap()
}

#[test]
fn compressed_color_short_form() {
    let res = rgb_to_compressed_color(rgb(0x11, 0x22, 0x33));
    assert_eq!(res.0, 4);
    assert_eq!(text(res), "#123");
    assert_eq!(&res.1[4..], &[0, 0, 0]);
}

#[test]
fn compressed_color_long_form() {
    let res = rgb_to_compressed_color(rgb(0x12, 0x34, 0x56));
    assert_eq!(res.0, 7);
    assert_eq!(text(res), "#123456");
}

#[test]
fn compressed_color_hex_letters() {
    assert_eq!(text(rgb_to_compressed_color(rgb(0xff, 0xaa, 0x00))), "#fa0");
    assert_eq!(text(rgb_to_compressed_color(rgb(0xfe, 0xab, 0x0c))), "#feab0c");
    assert_eq!(text(rgb_to_compressed_color(rgb(0, 0, 0))), "#000");
    assert_eq!(text(rgb_to_compressed_color(rgb(255, 255, 255))), "#fff");
}

#[test]
fn compressed_color_one_channel_breaks_short_form() {
    assert_eq!(text(rgb_to_compressed_color(rgb(0x11, 0x22, 0x34))), "#112234");
}

#[test]
fn compressed_color_names_the_color() {
    for &(r, g, b) in &[(0x11u8, 0x22u8, 0x33u8), (0x12, 0x9a, 0xff), (0, 0, 0), (0xfe, 1, 0x80)] {
        let t = text(rgb_to_compressed_color(rgb(r, g, b)));
        let hex = &t[1..];
        let expanded: String = if hex.len() == 3 {
            hex.chars().flat_map(|c| [c, c]).collect()
        } else {
            hex.to_string()
        };
        let v = u32::from_str_radix(&expanded, 16).unwrap();
        assert_eq!(((v >> 16) as u8, (v >> 8) as u8, v as u8), (r, g, b));
    }
}

#[test]
fn rgba_length_not_multiple_of_four_is_refused() {
    assert!(rgba_to_pixels(&[1, 2, 3, 4, 5]).is_none());
    assert!(rgba_to_pixels(&[1, 2, 3]).is_none());
}

#[test]
fn rgba_drops_alpha() {
    let px = rgba_to_pixels(&[1, 2, 3, 4, 5, 6, 7, 8]).unwrap();
    assert_eq!(px, vec![rgb(1, 2, 3), rgb(5, 6, 7)]);
    assert_eq!(rgba_to_pixels(&[]).unwrap(), vec![]);
}
