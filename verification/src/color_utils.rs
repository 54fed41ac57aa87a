use vstd::prelude::*;

verus! {

/// An 8-bit RGB color.
#[derive(Clone, Copy, Debug, PartialEq, Eq, Structural)]
pub struct Rgb {
    pub r: u8,
    pub g: u8,
    pub b: u8,
}

/// ASCII code of `#`.
pub const HASH: u8 = 35;

/// The lowercase hexadecimal digit for a value below 16.
pub open spec fn hex_digit(v: u8) -> u8
    recommends
        0 <= v < 16,
{
    if v < 10 {
        (48 + v) as u8
    } else {
        (87 + v) as u8
    }
}

/// Whether each channel of `c` has equal high and low nibbles, so that the
/// three-digit form `#rgb` names it.
pub open spec fn has_short_form(c: Rgb) -> bool {
    &&& c.r / 16 == c.r % 16
    &&& c.g / 16 == c.g % 16
    &&& c.b / 16 == c.b % 16
}

/// The shortest CSS hex notation of a color: `#rgb` when every channel
/// repeats its nibble, `#rrggbb` otherwise.
pub open spec fn compressed_color(c: Rgb) -> Seq<u8> {
    if has_short_form(c) {
        seq![HASH, hex_digit(c.r / 16), hex_digit(c.g / 16), hex_digit(c.b / 16)]
    } else {
        seq![
            HASH,
            hex_digit(c.r / 16),
            hex_digit(c.r % 16),
            hex_digit(c.g / 16),
            hex_digit(c.g % 16),
            hex_digit(c.b / 16),
            hex_digit(c.b % 16),
        ]
    }
}

/// The lowercase hexadecimal digit of `v`.
fn hex(v: u8) -> (d: u8)
    requires
        v < 16,
    ensures
        d == hex_digit(v),
{
    if v < 10 {
        48 + v
    } else {
        97 + (v - 10)
    }
}

/// Writes the shortest hex notation of `color` into a seven-byte buffer and
/// returns how many of its bytes are used; the unused tail is zero.
pub fn rgb_to_compressed_color(color: Rgb) -> (res: (usize, [u8; 7]))
    ensures
        res.0 == compressed_color(color).len(),
        res.1@.subrange(0, res.0 as int) == compressed_color(color),
        res.0 == 4 ==> res.1@.subrange(4, 7) == seq![0u8, 0u8, 0u8],
{
    let r = color.r;
    let g = color.g;
    let b = color.b;
    let rh = (r >> 4) & 0x0F;
    let rl = r & 0x0f;
    let gh = (g >> 4) & 0x0F;
    let gl = g & 0x0f;
    let bh = (b >> 4) & 0x0F;
    let bl = b & 0x0f;
    assert(rh == r / 16 && rl == r % 16) by (bit_vector)
        requires
            rh == (r >> 4) & 0x0F,
            rl == r & 0x0f,
    ;
    assert(gh == g / 16 && gl == g % 16) by (bit_vector)
        requires
            gh == (g >> 4) & 0x0F,
            gl == g & 0x0f,
    ;
    assert(bh == b / 16 && bl == b % 16) by (bit_vector)
        requires
            bh == (b >> 4) & 0x0F,
            bl == b & 0x0f,
    ;
    if (rh == rl) && (gh == gl) && (bh == bl) {
        let out: [u8; 7] = [HASH, hex(rh), hex(gh), hex(bh), 0, 0, 0];
        assert(out@.subrange(0, 4) =~= compressed_color(color));
        assert(out@.subrange(4, 7) =~= seq![0u8, 0u8, 0u8]);
        (4, out)
    } else {
        let out: [u8; 7] = [HASH, hex(rh), hex(rl), hex(gh), hex(gl), hex(bh), hex(bl)];
        assert(out@.subrange(0, 7) =~= compressed_color(color));
        (7, out)
    }
}


/// The value of a lowercase hexadecimal digit.
pub open spec fn hex_value(d: u8) -> int {
    if d <= 57 {
        d - 48
    } else {
        d - 87
    }
}

/// The color that a CSS hex notation `#rgb` or `#rrggbb` names; a digit of
/// the short form stands for itself twice.
pub open spec fn css_hex_color(text: Seq<u8>) -> Rgb
    recommends
        text.len() == 4 || text.len() == 7,
{
    if text.len() == 4 {
        Rgb {
            r: (hex_value(text[1]) * 17) as u8,
            g: (hex_value(text[2]) * 17) as u8,
            b: (hex_value(text[3]) * 17) as u8,
        }
    } else {
        Rgb {
            r: (hex_value(text[1]) * 16 + hex_value(text[2])) as u8,
            g: (hex_value(text[3]) * 16 + hex_value(text[4])) as u8,
            b: (hex_value(text[5]) * 16 + hex_value(text[6])) as u8,
        }
    }
}

proof fn lemma_hex_digit_value(v: u8)
    requires
        v < 16,
    ensures
        hex_value(hex_digit(v)) == v,
{
}

/// The notation written for a color names that very color.
pub proof fn lemma_compressed_color_names_color(c: Rgb)
    ensures
        css_hex_color(compressed_color(c)) == c,
{
    lemma_hex_digit_value(c.r / 16);
    lemma_hex_digit_value(c.r % 16);
    lemma_hex_digit_value(c.g / 16);
    lemma_hex_digit_value(c.g % 16);
    lemma_hex_digit_value(c.b / 16);
    lemma_hex_digit_value(c.b % 16);
}

/// The color of the `i`-th RGBA pixel, its alpha byte ignored.
pub open spec fn rgba_pixel(rgba: Seq<u8>, i: int) -> Rgb {
    Rgb { r: rgba[4 * i], g: rgba[4 * i + 1], b: rgba[4 * i + 2] }
}

/// The alpha byte plays no part: two RGBA inputs that agree on a pixel's
/// red, green and blue bytes give that pixel the same color, and its
/// channels are those three bytes in order.
pub proof fn lemma_rgba_pixel_ignores_alpha(a: Seq<u8>, b: Seq<u8>, i: int)
    requires
        0 <= i,
        4 * i + 3 < a.len(),
        4 * i + 3 < b.len(),
        a[4 * i] == b[4 * i],
        a[4 * i + 1] == b[4 * i + 1],
        a[4 * i + 2] == b[4 * i + 2],
    ensures
        rgba_pixel(a, i) == rgba_pixel(b, i),
        rgba_pixel(a, i).r == a[4 * i],
        rgba_pixel(a, i).g == a[4 * i + 1],
        rgba_pixel(a, i).b == a[4 * i + 2],
{
}

/// Reads RGBA bytes as pixels, dropping the alpha byte of each; refused
/// when the byte count is not a multiple of four.
pub fn rgba_to_pixels(rgba: &[u8]) -> (pixels: Option<Vec<Rgb>>)
    ensures
        pixels is None <==> rgba@.len() % 4 != 0,
        pixels matches Some(p) ==> {
            &&& p@.len() == rgba@.len() / 4
            &&& forall|i: int|
                0 <= i < p@.len() ==> #[trigger] p@[i] == rgba_pixel(rgba@, i)
            &&& forall|i: int|
                0 <= i < p@.len() ==> {
                    &&& #[trigger] p@[i].r == rgba@[4 * i]
                    &&& p@[i].g == rgba@[4 * i + 1]
                    &&& p@[i].b == rgba@[4 * i + 2]
                }
        },
{
    let len = rgba.len();
    if len % 4 != 0 {
        return None;
    }
    let n = len / 4;
    assert(len == 4 * n);
    let mut pixels: Vec<Rgb> = Vec::new();
    let mut k: usize = 0;
    while k < n
        invariant
            len == rgba@.len(),
            len == 4 * n,
            k <= n,
            k == pixels@.len(),
            forall|j: int| 0 <= j < k ==> #[trigger] pixels@[j] == rgba_pixel(rgba@, j),
        decreases n - k,
    {
        let i = 4 * k;
        pixels.push(Rgb { r: rgba[i], g: rgba[i + 1], b: rgba[i + 2] });
        k += 1;
    }
    Some(pixels)
}

} // verus!
