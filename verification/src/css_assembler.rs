use vstd::prelude::*;
use vstd::string::StringSliceAdditionalSpecFns;

use crate::color_utils::{compressed_color, rgb_to_compressed_color, Rgb};
use crate::gradient_builder::{
    build_row_gradient_tolerancezero, build_row_gradient_with, exact_gradient, hard_parts,
    lemma_optimal_stops_follow, lemma_stops_gradient_flat_iff, lemma_stops_partition_row,
    optimal_stops, row_runs, smooth_parts, stops_follow, stops_gradient, ColorRun, Gradient,
    GradientLinearData,
    Part,
};
use crate::number_text::{decimal, decimal_bytes, lemma_decimal_is_digits};
use crate::ImageData;

verus! {

/// How many times each packed color has been seen, kept in an
/// `fxhash::FxHashMap`.
#[verifier::external_body]
pub struct ColorCounts {
    map: fxhash::FxHashMap<u32, u32>,
}

/// The counts that a `ColorCounts` holds.
pub uninterp spec fn color_counts(counts: ColorCounts) -> Map<u32, u32>;

impl ColorCounts {
    /// `FxHashMap::with_capacity_and_hasher` with the default `FxBuildHasher`:
    /// an empty map; the capacity only reserves room.
    #[verifier::external_body]
    fn with_capacity(capacity: usize) -> (fresh: ColorCounts)
        ensures
            color_counts(fresh) =~= Map::empty(),
    {
        ColorCounts { map: fxhash::FxHashMap::with_capacity_and_hasher(capacity, Default::default()) }
    }

    /// `HashMap::get`, copied out: the count stored for `key`, if any.
    #[verifier::external_body]
    fn get(&self, key: u32) -> (count: Option<u32>)
        ensures
            count == (if color_counts(*self).contains_key(key) {
                Some(color_counts(*self)[key])
            } else {
                None
            }),
    {
        self.map.get(&key).copied()
    }

    /// `HashMap::insert`: stores `count` for `key`, replacing any earlier one.
    #[verifier::external_body]
    fn insert(&mut self, key: u32, count: u32)
        ensures
            color_counts(*final(self)) == color_counts(*old(self)).insert(key, count),
    {
        self.map.insert(key, count);
    }

    /// `HashMap::into_iter`, collected: every stored key with its count, each
    /// key once, in the map's own order.
    #[verifier::external_body]
    fn into_entries(self) -> (entries: Vec<(u32, u32)>)
        ensures
            forall|i: int|
                0 <= i < entries@.len() ==> color_counts(self).contains_key(
                    #[trigger] entries@[i].0,
                ) && color_counts(self)[entries@[i].0] == entries@[i].1,
            forall|k: u32|
                #[trigger] color_counts(self).contains_key(k) ==> exists|i: int|
                    0 <= i < entries@.len() && #[trigger] entries@[i].0 == k,
            forall|i: int, j: int|
                0 <= i < j < entries@.len() ==> #[trigger] entries@[i].0 != #[trigger] entries@[j].0,
    {
        self.map.into_iter().collect()
    }
}

/// A color packed into one integer as `0xRRGGBB`.
pub open spec fn color_key(c: Rgb) -> u32 {
    ((c.r as u32) << 16u32) | ((c.g as u32) << 8u32) | (c.b as u32)
}

/// The color whose channels are the low three bytes of `key`.
pub open spec fn key_color(key: u32) -> Rgb {
    Rgb {
        r: ((key >> 16u32) & 0xffu32) as u8,
        g: ((key >> 8u32) & 0xffu32) as u8,
        b: (key & 0xffu32) as u8,
    }
}

/// Unpacking a packed color gives it back.
pub proof fn lemma_key_color_roundtrip(c: Rgb)
    ensures
        key_color(color_key(c)) == c,
{
    let r = c.r;
    let g = c.g;
    let b = c.b;
    let k = color_key(c);
    assert(((((r as u32) << 16u32) | ((g as u32) << 8u32) | (b as u32)) >> 16u32) & 0xffu32 == r
        as u32) by (bit_vector);
    assert(((((r as u32) << 16u32) | ((g as u32) << 8u32) | (b as u32)) >> 8u32) & 0xffu32 == g
        as u32) by (bit_vector);
    assert((((r as u32) << 16u32) | ((g as u32) << 8u32) | (b as u32)) & 0xffu32 == b as u32)
        by (bit_vector);
}

/// Packs a color as `0xRRGGBB`.
fn pack_color(c: Rgb) -> (key: u32)
    ensures
        key == color_key(c),
{
    (c.r as u32) << 16 | (c.g as u32) << 8 | (c.b as u32)
}

/// Reads a color back from its packed form.
fn unpack_color(key: u32) -> (c: Rgb)
    ensures
        c == key_color(key),
{
    let r = ((key >> 16) & 0xFF) as u8;
    let g = ((key >> 8) & 0xFF) as u8;
    let b = (key & 0xFF) as u8;
    Rgb { r, g, b }
}

/// How often `c` occurs in `s`.
pub open spec fn count_of(s: Seq<Rgb>, c: Rgb) -> nat
    decreases s.len(),
{
    if s.len() == 0 {
        0
    } else {
        count_of(s.drop_last(), c) + if s.last() == c {
            1nat
        } else {
            0nat
        }
    }
}

proof fn lemma_count_first_positive(s: Seq<Rgb>)
    requires
        s.len() > 0,
    ensures
        count_of(s, s[0]) > 0,
    decreases s.len(),
{
    if s.len() > 1 {
        lemma_count_first_positive(s.drop_last());
        assert(s.drop_last()[0] == s[0]);
    }
}

proof fn lemma_count_of_prefix(s: Seq<Rgb>, c: Rgb, k: int)
    requires
        0 <= k < s.len(),
        s[k] == c,
    ensures
        count_of(s.take(k), c) < count_of(s, c),
    decreases s.len(),
{
    if k < s.len() - 1 {
        lemma_count_of_prefix(s.drop_last(), c, k);
        assert(s.drop_last().take(k) =~= s.take(k));
    } else {
        assert(s.drop_last() =~= s.take(k));
    }
}

/// No color is sampled more than `u32::MAX` times.
pub open spec fn counts_fit(pixels: Seq<Rgb>) -> bool {
    forall|c: Rgb| #[trigger] count_of(sampled_pixels(pixels), c) <= u32::MAX
}

/// The pixels looked at when guessing the background: every eighth one,
/// starting with the first.
pub open spec fn sampled_pixels(pixels: Seq<Rgb>) -> Seq<Rgb> {
    Seq::new(((pixels.len() + 7) / 8) as nat, |j: int| pixels[8 * j])
}

/// `c` is a most frequent color among the sampled pixels, or black when no
/// pixel is sampled.
pub open spec fn is_dominant_color(pixels: Seq<Rgb>, c: Rgb) -> bool {
    let s = sampled_pixels(pixels);
    if s.len() == 0 {
        c == Rgb { r: 0, g: 0, b: 0 }
    } else {
        &&& count_of(s, c) > 0
        &&& forall|d: Rgb| #[trigger] count_of(s, d) <= count_of(s, c)
    }
}

/// The key of the first entry with the highest count, or 0 when no count is
/// above zero.
#[verifier::spinoff_prover]
#[verifier::rlimit(30)]
pub fn dominant_from_counts(entries: &Vec<(u32, u32)>) -> (key: u32)
    ensures
        (forall|i: int| 0 <= i < entries@.len() ==> #[trigger] entries@[i].1 == 0) ==> key == 0,
        (exists|i: int| 0 <= i < entries@.len() && #[trigger] entries@[i].1 > 0) ==> exists|i: int|
            {
                &&& 0 <= i < entries@.len()
                &&& key == entries@[i].0
                &&& forall|j: int| 0 <= j < i ==> #[trigger] entries@[j].1 < entries@[i].1
                &&& forall|j: int| 0 <= j < entries@.len() ==> #[trigger] entries@[j].1 <= entries@[i].1
            },
{
    let mut max_count: u32 = 0;
    let mut dominant: u32 = 0;
    let ghost mut best: int = -1;
    let mut i: usize = 0;
    while i < entries.len()
        invariant
            i <= entries@.len(),
            -1 <= best < i,
            best == -1 ==> max_count == 0 && dominant == 0,
            best >= 0 ==> max_count == entries@[best].1 && dominant == entries@[best].0
                && max_count > 0,
            best >= 0 ==> forall|j: int| 0 <= j < best ==> #[trigger] entries@[j].1 < max_count,
            forall|j: int| 0 <= j < i ==> #[trigger] entries@[j].1 <= max_count,
        decreases entries@.len() - i,
    {
        let (color, count) = entries[i];
        if count > max_count {
            max_count = count;
            dominant = color;
            proof {
                best = i as int;
            }
        }
        i += 1;
    }
    proof {
        if exists|i: int| 0 <= i < entries@.len() && #[trigger] entries@[i].1 > 0 {
            let w = choose|i: int| 0 <= i < entries@.len() && #[trigger] entries@[i].1 > 0;
            assert(entries@[w].1 <= max_count);
            assert(best >= 0);
        }
    }
    dominant
}


/// The counts of the packed colors among the first samples `s`: exactly the
/// colors seen, each with how often it was seen.
pub open spec fn counts_match(counts: Map<u32, u32>, s: Seq<Rgb>) -> bool {
    &&& forall|k: u32| #[trigger]
        counts.contains_key(k) ==> k == color_key(key_color(k)) && counts[k] == count_of(
            s,
            key_color(k),
        ) && counts[k] > 0
    &&& forall|c: Rgb| #[trigger] count_of(s, c) > 0 ==> counts.contains_key(color_key(c))
}

#[verifier::spinoff_prover]
#[verifier::rlimit(30)]
proof fn lemma_counts_step(counts: Map<u32, u32>, s: Seq<Rgb>, c0: Rgb, new_count: u32)
    requires
        counts_match(counts, s),
        new_count == count_of(s, c0) + 1,
    ensures
        counts_match(counts.insert(color_key(c0), new_count), s.push(c0)),
{
    let t = s.push(c0);
    let m = counts.insert(color_key(c0), new_count);
    assert(t.drop_last() =~= s);
    lemma_key_color_roundtrip(c0);
    assert forall|k: u32| #[trigger] m.contains_key(k) implies k == color_key(key_color(k))
        && m[k] == count_of(t, key_color(k)) && m[k] > 0 by {
        if k != color_key(c0) {
            assert(counts.contains_key(k));
            if key_color(k) == c0 {
                assert(k == color_key(c0));
            }
        }
    }
    assert forall|c: Rgb| #[trigger] count_of(t, c) > 0 implies m.contains_key(color_key(c)) by {
        if c != c0 {
            assert(count_of(s, c) > 0);
        }
    }
}

/// Guesses the background color: the most frequent color among every eighth
/// pixel (black when there is no pixel).
#[verifier::spinoff_prover]
#[verifier::rlimit(30)]
pub fn find_dominant_color(image_data: &ImageData) -> (color: Rgb)
    requires
        counts_fit(image_data.pixels@),
    ensures
        is_dominant_color(image_data.pixels@, color),
{
    let w = image_data.width as u64;
    let h = image_data.height as u64;
    assert(w * h <= u64::MAX) by (nonlinear_arith)
        requires
            w <= u32::MAX,
            h <= u32::MAX,
    ;
    let cells = w * h;
    let capacity: usize = if cells < 65536 {
        cells as usize
    } else {
        65536
    };
    let mut color_count = ColorCounts::with_capacity(capacity);
    let pixels = &image_data.pixels;
    let len = pixels.len();
    let ghost samples = sampled_pixels(pixels@);
    let mut i: usize = 0;
    let ghost mut j: int = 0;
    while i < len
        invariant
            len == pixels@.len(),
            samples == sampled_pixels(pixels@),
            counts_fit(pixels@),
            i == 8 * j || i == len,
            0 <= j <= samples.len(),
            i < len ==> j < samples.len(),
            i == len ==> j == samples.len(),
            counts_match(color_counts(color_count), samples.take(j)),
        decreases len - i,
    {
        let c = pixels[i];
        let key = pack_color(c);
        proof {
            lemma_key_color_roundtrip(c);
        }
        let next = match color_count.get(key) {
            Some(n) => {
                proof {
                    lemma_count_of_prefix(samples, c, j);
                    assert(count_of(samples, c) <= u32::MAX);
                    assert(samples[j] == c);
                }
                n + 1
            },
            None => 1,
        };
        proof {
            assert(samples[j] == c);
            assert(samples.take(j + 1) =~= samples.take(j).push(c));
            if !color_counts(color_count).contains_key(key) {
                assert(count_of(samples.take(j), c) == 0);
            }
            lemma_counts_step(color_counts(color_count), samples.take(j), c, next);
        }
        color_count.insert(key, next);
        i = if len - i > 8 {
            i + 8
        } else {
            len
        };
        proof {
            j = j + 1;
        }
    }
    assert(samples.take(j) =~= samples);
    let ghost final_counts = color_counts(color_count);
    let entries = color_count.into_entries();
    let key = dominant_from_counts(&entries);
    let color = unpack_color(key);
    proof {
        if samples.len() == 0 {
            if entries@.len() > 0 {
                assert(final_counts.contains_key(entries@[0].0));
                let k = entries@[0].0;
                assert(count_of(samples, key_color(k)) > 0);
            }
            assert(key == 0);
            assert((0u32 >> 16u32) & 0xffu32 == 0 && (0u32 >> 8u32) & 0xffu32 == 0 && 0u32
                & 0xffu32 == 0) by (bit_vector);
        } else {
            let c0 = samples[0];
            assert(samples.drop_last().push(samples.last()) =~= samples);
            lemma_count_first_positive(samples);
            let w = choose|i: int| 0 <= i < entries@.len() && #[trigger] entries@[i].0 == color_key(c0);
            assert(entries@[w].1 > 0);
            let b = choose|b: int|
                {
                    &&& 0 <= b < entries@.len()
                    &&& key == entries@[b].0
                    &&& forall|j: int| 0 <= j < b ==> #[trigger] entries@[j].1 < entries@[b].1
                    &&& forall|j: int| 0 <= j < entries@.len() ==> #[trigger] entries@[j].1 <= entries@[b].1
                };
            assert(final_counts.contains_key(key));
            assert forall|d: Rgb| #[trigger] count_of(samples, d) <= count_of(samples, color) by {
                if count_of(samples, d) > 0 {
                    let kd = color_key(d);
                    assert(final_counts.contains_key(kd));
                    let v = choose|i: int| 0 <= i < entries@.len() && #[trigger] entries@[i].0 == kd;
                    lemma_key_color_roundtrip(d);
                    assert(entries@[v].1 <= entries@[b].1);
                }
            }
        }
    }
    color
}


/// Appends `bytes` to `out`.
fn append(out: &mut Vec<u8>, bytes: &[u8])
    ensures
        final(out)@ == old(out)@ + bytes@,
{
    out.extend_from_slice(bytes);
    assert(out@ =~= old(out)@ + bytes@);
}

/// ASCII `,`.
pub const COMMA: u8 = 44;

/// ASCII `)`.
pub const CLOSE: u8 = 41;

/// ASCII `0`.
pub const ZERO: u8 = 48;

/// ASCII ` `.
pub const SPACE: u8 = 32;

/// `px`.
pub open spec fn px() -> Seq<u8> {
    seq![112u8, 120u8]
}

/// The CSS text of where a color stop sits.
pub open spec fn position_css(data: GradientLinearData) -> Seq<u8> {
    match data {
        GradientLinearData::A(p) => seq![SPACE] + decimal(p as nat) + px(),
        GradientLinearData::B(p) => seq![SPACE, ZERO, SPACE] + decimal(p as nat) + px(),
        GradientLinearData::C => seq![],
        GradientLinearData::D => seq![SPACE, ZERO],
    }
}

/// The CSS text of a color stop, with its leading comma.
pub open spec fn part_css(part: Part) -> Seq<u8> {
    seq![COMMA] + compressed_color(part.0) + position_css(part.1)
}

/// The CSS text of a list of color stops.
pub open spec fn parts_css(parts: Seq<Part>) -> Seq<u8>
    decreases parts.len(),
{
    if parts.len() == 0 {
        seq![]
    } else {
        parts_css(parts.drop_last()) + part_css(parts.last())
    }
}

/// The CSS `linear-gradient(..)` image of a row.
pub open spec fn gradient_css(g: Gradient, parts: Seq<Part>) -> Seq<u8> {
    match g {
        Gradient::Solid(c) => "linear-gradient(".spec_bytes() + compressed_color(c) + seq![COMMA]
            + compressed_color(c) + seq![CLOSE],
        Gradient::Smooth => "linear-gradient(90deg".spec_bytes() + parts_css(parts) + seq![CLOSE],
    }
}

/// The CSS `background-position` of the row at index `pos`.
pub open spec fn row_position_css(pos: nat) -> Seq<u8> {
    seq![ZERO, SPACE] + if pos == 0 {
        seq![ZERO]
    } else {
        decimal(pos) + px()
    }
}

/// What painting one row gives: its gradient and the color stops that the
/// gradient uses when it is smooth.
pub type RowOutcome = (Gradient, Seq<Part>);

/// A row is drawn unless it is a flat stretch of the background color.
pub open spec fn shown(bg: Rgb, g: Gradient) -> bool {
    g != Gradient::Solid(bg)
}

/// The images of the drawn rows, separated by commas.
pub open spec fn joined_images(bg: Rgb, outs: Seq<RowOutcome>) -> Seq<u8>
    decreases outs.len(),
{
    if outs.len() == 0 {
        seq![]
    } else {
        let prev = joined_images(bg, outs.drop_last());
        let o = outs.last();
        if !shown(bg, o.0) {
            prev
        } else if prev.len() == 0 {
            gradient_css(o.0, o.1)
        } else {
            prev + seq![COMMA] + gradient_css(o.0, o.1)
        }
    }
}

/// The positions of the drawn rows, separated by commas.
pub open spec fn joined_positions(bg: Rgb, outs: Seq<RowOutcome>) -> Seq<u8>
    decreases outs.len(),
{
    if outs.len() == 0 {
        seq![]
    } else {
        let prev = joined_positions(bg, outs.drop_last());
        let o = outs.last();
        let item = row_position_css((outs.len() - 1) as nat);
        if !shown(bg, o.0) {
            prev
        } else if prev.len() == 0 {
            item
        } else {
            prev + seq![COMMA] + item
        }
    }
}

/// The text before the images: the box size and the background color.
pub open spec fn css_head(width: nat, height: nat, bg: Rgb) -> Seq<u8> {
    "<div style=\"width:".spec_bytes() + decimal(width) + "px;height:".spec_bytes() + decimal(
        height,
    ) + "px;background-color:".spec_bytes() + compressed_color(bg)
        + ";background-image:".spec_bytes()
}

/// The whole `<div>` for an image of the given size, background color and
/// row outcomes.
pub open spec fn css_document(width: nat, height: nat, bg: Rgb, outs: Seq<RowOutcome>) -> Seq<
    u8,
> {
    css_head(width, height, bg) + joined_images(bg, outs)
        + ";background-size:100% 1px;background-position:".spec_bytes() + joined_positions(
        bg,
        outs,
    ) + ";background-repeat:no-repeat;\"></div>".spec_bytes()
}


/// The rows of an image: consecutive stretches of `width` pixels; pixels
/// left over after the last full row are not part of any row.
pub open spec fn image_rows(pixels: Seq<Rgb>, width: int) -> Seq<Seq<Rgb>> {
    Seq::new(
        (pixels.len() as int / width) as nat,
        |k: int| pixels.subrange(k * width, k * width + width),
    )
}

/// The color stops gathered after painting the first `k` rows with exact
/// colors: the stops of every smooth row so far, one row after the other.
pub open spec fn carried_parts(rows: Seq<Seq<Rgb>>, k: int) -> Seq<Part>
    decreases k,
{
    if k <= 0 {
        seq![]
    } else {
        let prev = carried_parts(rows, k - 1);
        let row = rows[k - 1];
        if exact_gradient(row) is Smooth {
            prev + hard_parts(row_runs(row))
        } else {
            prev
        }
    }
}

/// Row outcomes when colors are kept exactly.
pub open spec fn exact_outcomes(rows: Seq<Seq<Rgb>>) -> Seq<RowOutcome> {
    Seq::new(rows.len(), |k: int| (exact_gradient(rows[k]), carried_parts(rows, k + 1)))
}

/// What `answers` says of the segments of row `k`.
pub open spec fn row_pred(answers: spec_fn(int, int, int) -> bool, k: int) -> spec_fn(
    int,
    int,
) -> bool {
    |s: int, e: int| answers(k, s, e)
}

/// The outcome of a row drawn with linear stretches through its optimal stops.
pub open spec fn smooth_outcome(row: Seq<Rgb>, pred: spec_fn(int, int) -> bool) -> RowOutcome {
    let stops = optimal_stops(pred, row.len() as int);
    (stops_gradient(row, stops), smooth_parts(row, stops))
}

/// Row outcomes when rows are drawn with linear stretches.
pub open spec fn smooth_outcomes(
    rows: Seq<Seq<Rgb>>,
    answers: spec_fn(int, int, int) -> bool,
) -> Seq<RowOutcome> {
    Seq::new(rows.len(), |k: int| smooth_outcome(rows[k], row_pred(answers, k)))
}

/// In smooth mode each row is cut by its own answers: row `k` goes through
/// stops from its first to its last pixel where every segment is one step
/// long or accepted by `answers(k, ..)`, and none could be stretched by one
/// pixel without `answers(k, ..)` refusing it; the row is flat exactly when
/// all its stop pixels share the first pixel's color, and its color stops
/// take the colors of the stop pixels.
#[verifier::spinoff_prover]
#[verifier::rlimit(50)]
pub proof fn lemma_smooth_row_uses_own_answers(
    rows: Seq<Seq<Rgb>>,
    answers: spec_fn(int, int, int) -> bool,
    k: int,
)
    requires
        0 <= k < rows.len(),
        1 <= rows[k].len() <= usize::MAX,
    ensures
        exists|st: Seq<usize>|
            #![trigger st.len()]
            {
                let row = rows[k];
                let n = row.len() as int;
                let o = smooth_outcomes(rows, answers)[k];
                &&& st.len() >= 1
                &&& st[0] == 0
                &&& st.last() == n - 1
                &&& forall|j: int|
                    0 <= j < st.len() - 1 ==> {
                        &&& #[trigger] st[j] < st[j + 1]
                        &&& (st[j + 1] - st[j] <= 1 || answers(k, st[j] as int, st[j + 1] as int))
                        &&& (st[j + 1] == n - 1 || !answers(k, st[j] as int, st[j + 1] + 1))
                    }
                &&& (o.0 is Solid <==> forall|j: int|
                    0 <= j < st.len() ==> #[trigger] row[st[j] as int] == row[0])
                &&& (o.0 is Solid ==> o.0 == Gradient::Solid(row[0]))
                &&& o.1.len() == st.len()
                &&& forall|j: int| 0 <= j < st.len() ==> #[trigger] o.1[j].0 == row[st[j] as int]
            },
{
    let row = rows[k];
    let n = row.len() as int;
    let pred = row_pred(answers, k);
    let st = optimal_stops(pred, n);
    lemma_optimal_stops_follow(pred, n);
    lemma_stops_cut_by_answers(answers, k, n, st);
    lemma_stops_gradient_flat_iff(row, st);
    let o = smooth_outcomes(rows, answers)[k];
    assert(o == smooth_outcome(row, pred));
    assert(o.1 == smooth_parts(row, st));
    assert(forall|j: int| 0 <= j < st.len() ==> #[trigger] o.1[j].0 == row[st[j] as int]);
    assert(st.len() >= 1);
}

proof fn lemma_stops_cut_by_answers(
    answers: spec_fn(int, int, int) -> bool,
    k: int,
    n: int,
    st: Seq<usize>,
)
    requires
        n >= 1,
        stops_follow(row_pred(answers, k), n, st),
    ensures
        forall|j: int|
            0 <= j < st.len() - 1 ==> {
                &&& #[trigger] st[j] < st[j + 1]
                &&& (st[j + 1] - st[j] <= 1 || answers(k, st[j] as int, st[j + 1] as int))
                &&& (st[j + 1] == n - 1 || !answers(k, st[j] as int, st[j + 1] + 1))
            },
{
    let pred = row_pred(answers, k);
    lemma_stops_partition_row(pred, n, st);
    assert forall|j: int| 0 <= j < st.len() - 1 implies {
        &&& #[trigger] st[j] < st[j + 1]
        &&& (st[j + 1] - st[j] <= 1 || answers(k, st[j] as int, st[j + 1] as int))
        &&& (st[j + 1] == n - 1 || !answers(k, st[j] as int, st[j + 1] + 1))
    } by {
        assert(pred(st[j] as int, st[j + 1] as int) == answers(k, st[j] as int, st[j + 1] as int));
        assert(pred(st[j] as int, st[j + 1] + 1) == answers(k, st[j] as int, st[j + 1] + 1));
    }
}

/// Row outcomes in either mode.
pub open spec fn css_outcomes(
    rows: Seq<Seq<Rgb>>,
    tolerance_is_zero: bool,
    answers: spec_fn(int, int, int) -> bool,
) -> Seq<RowOutcome> {
    if tolerance_is_zero {
        exact_outcomes(rows)
    } else {
        smooth_outcomes(rows, answers)
    }
}

/// `f` may be called on every segment `[s, e]` of every row `p` of an image
/// with `rows` rows of `width` pixels, and answers each of them one way.
pub open spec fn decides_rows<F: Fn(usize, usize, usize) -> bool>(
    f: F,
    rows: int,
    width: int,
) -> bool {
    &&& forall|p: usize, s: usize, e: usize|
        p < rows && s < e < width ==> #[trigger] call_requires(f, (p, s, e))
    &&& forall|p: usize, s: usize, e: usize, r: bool|
        p < rows && s < e < width && #[trigger] call_ensures(f, (p, s, e), r) ==> r
            == call_ensures(f, (p, s, e), true)
}

/// The answers that `f` can give for segment `[s, e]` of row `p`.
pub open spec fn row_answers<F: Fn(usize, usize, usize) -> bool>(f: F) -> spec_fn(
    int,
    int,
    int,
) -> bool {
    |p: int, s: int, e: int| call_ensures(f, (p as usize, s as usize, e as usize), true)
}

/// Appends the shortest hex notation of `c`.
fn push_color(out: &mut Vec<u8>, c: Rgb)
    ensures
        final(out)@ == old(out)@ + compressed_color(c),
{
    let (l, b) = rgb_to_compressed_color(c);
    let mut i: usize = 0;
    while i < l
        invariant
            i <= l,
            l == compressed_color(c).len(),
            b@.subrange(0, l as int) == compressed_color(c),
            out@ == old(out)@ + compressed_color(c).take(i as int),
        decreases l - i,
    {
        out.push(b[i]);
        i += 1;
        assert(compressed_color(c).take(i as int) =~= compressed_color(c).take(i - 1).push(
            b@[i - 1],
        ));
    }
    assert(compressed_color(c).take(l as int) =~= compressed_color(c));
}

/// Appends where a color stop sits.
fn push_position(out: &mut Vec<u8>, data: GradientLinearData)
    ensures
        final(out)@ == old(out)@ + position_css(data),
{
    match data {
        GradientLinearData::A(p) => {
            out.push(SPACE);
            let digits = decimal_bytes(p);
            append(out, digits.as_slice());
            out.push(112);
            out.push(120);
        },
        GradientLinearData::B(p) => {
            out.push(SPACE);
            out.push(ZERO);
            out.push(SPACE);
            let digits = decimal_bytes(p);
            append(out, digits.as_slice());
            out.push(112);
            out.push(120);
        },
        GradientLinearData::C => {},
        GradientLinearData::D => {
            out.push(SPACE);
            out.push(ZERO);
        },
    }
    assert(out@ =~= old(out)@ + position_css(data));
}

/// Appends the `linear-gradient(..)` image of a row.
fn push_gradient(out: &mut Vec<u8>, g: Gradient, parts: &Vec<Part>)
    ensures
        final(out)@ == old(out)@ + gradient_css(g, parts@),
{
    match g {
        Gradient::Solid(c) => {
            append(out, "linear-gradient(".as_bytes());
            push_color(out, c);
            out.push(COMMA);
            push_color(out, c);
            out.push(CLOSE);
        },
        Gradient::Smooth => {
            append(out, "linear-gradient(90deg".as_bytes());
            let ghost start = out@;
            let mut i: usize = 0;
            while i < parts.len()
                invariant
                    i <= parts@.len(),
                    out@ == start + parts_css(parts@.take(i as int)),
                decreases parts@.len() - i,
            {
                let (color, data) = parts[i];
                out.push(COMMA);
                push_color(out, color);
                push_position(out, data);
                i += 1;
                assert(parts@.take(i as int).drop_last() =~= parts@.take(i - 1));
            }
            assert(parts@.take(i as int) =~= parts@);
            out.push(CLOSE);
        },
    }
    assert(out@ =~= old(out)@ + gradient_css(g, parts@));
}

/// Appends the `background-position` of row `pos`.
fn push_row_position(out: &mut Vec<u8>, pos: usize)
    ensures
        final(out)@ == old(out)@ + row_position_css(pos as nat),
{
    out.push(ZERO);
    out.push(SPACE);
    if pos == 0 {
        out.push(ZERO);
    } else {
        let digits = decimal_bytes(pos);
        append(out, digits.as_slice());
        out.push(112);
        out.push(120);
    }
    assert(out@ =~= old(out)@ + row_position_css(pos as nat));
}


/// Writes the `<div>` for an image whose background is `bg_color`: each row
/// not equal to a flat stretch of the background becomes a one-pixel-high
/// gradient image placed at its row. With `tolerance_is_zero` rows keep
/// their exact colors; otherwise `approx(p, s, e)` says whether pixels
/// `s..=e` of row `p` may be drawn as one linear stretch.
#[verifier::spinoff_prover]
#[verifier::rlimit(30)]
pub fn render_css<F: Fn(usize, usize, usize) -> bool>(
    image_data: &ImageData,
    bg_color: Rgb,
    tolerance_is_zero: bool,
    approx: F,
) -> (css: Vec<u8>)
    requires
        image_data.width >= 1,
        !tolerance_is_zero ==> decides_rows(
            approx,
            image_rows(image_data.pixels@, image_data.width as int).len() as int,
            image_data.width as int,
        ),
    ensures
        css@ == css_document(
            image_data.width as nat,
            image_data.height as nat,
            bg_color,
            css_outcomes(
                image_rows(image_data.pixels@, image_data.width as int),
                tolerance_is_zero,
                row_answers(approx),
            ),
        ),
        is_ascii_text(css@),
{
    let width = image_data.width;
    let height = image_data.height;
    let mut out: Vec<u8> = Vec::new();
    append(&mut out, "<div style=\"width:".as_bytes());
    let digits = decimal_bytes(width as usize);
    append(&mut out, digits.as_slice());
    append(&mut out, "px;height:".as_bytes());
    let digits = decimal_bytes(height as usize);
    append(&mut out, digits.as_slice());
    append(&mut out, "px;background-color:".as_bytes());
    push_color(&mut out, bg_color);
    append(&mut out, ";background-image:".as_bytes());
    let ghost head = out@;
    assert(head =~= css_head(width as nat, height as nat, bg_color));

    let mut first = true;
    let mut positions_vec: Vec<u8> = Vec::new();
    let mut build_stops: Vec<usize> = Vec::new();
    let mut build_runs: Vec<ColorRun> = Vec::new();
    let mut build_parts: Vec<Part> = Vec::new();

    let w = width as usize;
    let pixels = image_data.pixels.as_slice();
    let len = pixels.len();
    let ghost rows = image_rows(pixels@, w as int);
    let ghost answers = row_answers(approx);
    let ghost outs = css_outcomes(rows, tolerance_is_zero, answers);
    let mut start: usize = 0;
    let mut pos: usize = 0;
    assert(outs.take(0) =~= seq![]);
    while len - start >= w
        invariant
            w >= 1,
            w == width,
            len == pixels@.len(),
            pixels@ == image_data.pixels@,
            rows == image_rows(pixels@, w as int),
            answers == row_answers(approx),
            outs == css_outcomes(rows, tolerance_is_zero, answers),
            !tolerance_is_zero ==> decides_rows(approx, rows.len() as int, w as int),
            start == pos * w,
            start <= len,
            pos <= rows.len(),
            out@ == head + joined_images(bg_color, outs.take(pos as int)),
            positions_vec@ == joined_positions(bg_color, outs.take(pos as int)),
            first == (joined_images(bg_color, outs.take(pos as int)).len() == 0),
            first == (joined_positions(bg_color, outs.take(pos as int)).len() == 0),
            tolerance_is_zero ==> build_parts@ == carried_parts(rows, pos as int),
        decreases len - start,
    {
        assert(pos < rows.len()) by (nonlinear_arith)
            requires
                start == pos * w,
                len - start >= w,
                w >= 1,
                rows.len() == len as int / w as int,
        ;
        assert(start + w == (pos + 1) * w) by (nonlinear_arith)
            requires
                start == pos * w,
        ;
        let row = &pixels[start..start + w];
        assert(row@ == rows[pos as int]);
        let g = if tolerance_is_zero {
            build_row_gradient_tolerancezero(&mut build_runs, &mut build_parts, row)
        } else {
            let p = pos;
            let f = &approx;
            let row_approx = move |s: usize, e: usize| -> (r: bool)
                requires
                    call_requires(f, (p, s, e)),
                ensures
                    call_ensures(f, (p, s, e), r),
                { f(p, s, e) };
            let ghost pred = row_pred(answers, pos as int);
            assert forall|s: usize, e: usize| s < e < w implies #[trigger] call_requires(
                row_approx,
                (s, e),
            ) by {
                assert(call_requires(approx, (p, s, e)));
            }
            assert forall|s: usize, e: usize, r: bool|
                s < e < w && #[trigger] call_ensures(row_approx, (s, e), r) implies r == pred(
                s as int,
                e as int,
            ) by {
                assert(call_ensures(approx, (p, s, e), r));
            }
            build_row_gradient_with(&mut build_stops, &mut build_parts, row, &row_approx, Ghost(pred))
        };
        let ghost o = outs[pos as int];
        assert(g == o.0);
        assert(g is Smooth ==> build_parts@ == o.1);
        assert(outs.take(pos + 1).drop_last() =~= outs.take(pos as int));
        assert(outs.take(pos + 1).last() == o);
        let skip = match g {
            Gradient::Solid(c) => c == bg_color,
            Gradient::Smooth => false,
        };
        if !skip {
            if first {
                first = false;
            } else {
                positions_vec.push(COMMA);
                out.push(COMMA);
            }
            push_gradient(&mut out, g, &build_parts);
            push_row_position(&mut positions_vec, pos);
        }
        start = start + w;
        pos = pos + 1;
    }
    assert(pos == rows.len()) by (nonlinear_arith)
        requires
            start == pos * w,
            len - start < w,
            start <= len,
            w >= 1,
            rows.len() == len as int / w as int,
    ;
    assert(outs.take(pos as int) =~= outs);
    append(&mut out, ";background-size:100% 1px;background-position:".as_bytes());
    append(&mut out, positions_vec.as_slice());
    append(&mut out, ";background-repeat:no-repeat;\"></div>".as_bytes());
    proof {
        lemma_css_document_ascii(width as nat, height as nat, bg_color, outs);
    }
    out
}

/// Writes the `<div>` for an image, taking as background a most frequent
/// color among every eighth pixel (see `render_css`).
pub fn assemble_css<F: Fn(usize, usize, usize) -> bool>(
    image_data: &ImageData,
    tolerance_is_zero: bool,
    approx: F,
) -> (css: Vec<u8>)
    requires
        image_data.width >= 1,
        counts_fit(image_data.pixels@),
        !tolerance_is_zero ==> decides_rows(
            approx,
            image_rows(image_data.pixels@, image_data.width as int).len() as int,
            image_data.width as int,
        ),
    ensures
        exists|bg: Rgb|
            #[trigger] is_dominant_color(image_data.pixels@, bg) && css@ == css_document(
                image_data.width as nat,
                image_data.height as nat,
                bg,
                css_outcomes(
                    image_rows(image_data.pixels@, image_data.width as int),
                    tolerance_is_zero,
                    row_answers(approx),
                ),
            ),
        is_ascii_text(css@),
{
    let bg_color = find_dominant_color(image_data);
    let css = render_css(image_data, bg_color, tolerance_is_zero, approx);
    assert(is_dominant_color(image_data.pixels@, bg_color));
    css
}


/// Every byte of `s` is ASCII.
pub open spec fn is_ascii_text(s: Seq<u8>) -> bool {
    forall|i: int| 0 <= i < s.len() ==> #[trigger] s[i] < 128
}

/// Joining ASCII texts gives ASCII text.
pub broadcast proof fn lemma_ascii_concat(a: Seq<u8>, b: Seq<u8>)
    requires
        is_ascii_text(a),
        is_ascii_text(b),
    ensures
        #[trigger] is_ascii_text(a + b),
{
    assert forall|i: int| 0 <= i < (a + b).len() implies #[trigger] (a + b)[i] < 128 by {
        if i < a.len() {
            assert((a + b)[i] == a[i]);
        } else {
            assert((a + b)[i] == b[i - a.len()]);
        }
    }
}

proof fn lemma_literals_ascii()
    ensures
        is_ascii_text("<div style=\"width:".spec_bytes()),
        is_ascii_text("px;height:".spec_bytes()),
        is_ascii_text("px;background-color:".spec_bytes()),
        is_ascii_text(";background-image:".spec_bytes()),
        is_ascii_text("linear-gradient(".spec_bytes()),
        is_ascii_text("linear-gradient(90deg".spec_bytes()),
        is_ascii_text(";background-size:100% 1px;background-position:".spec_bytes()),
        is_ascii_text(";background-repeat:no-repeat;\"></div>".spec_bytes()),
{
    reveal_strlit("<div style=\"width:");
    assert(vstd::string::is_ascii("<div style=\"width:"));
    assert(is_ascii_text("<div style=\"width:".spec_bytes()));
    reveal_strlit("px;height:");
    assert(vstd::string::is_ascii("px;height:"));
    assert(is_ascii_text("px;height:".spec_bytes()));
    reveal_strlit("px;background-color:");
    assert(vstd::string::is_ascii("px;background-color:"));
    assert(is_ascii_text("px;background-color:".spec_bytes()));
    reveal_strlit(";background-image:");
    assert(vstd::string::is_ascii(";background-image:"));
    assert(is_ascii_text(";background-image:".spec_bytes()));
    reveal_strlit("linear-gradient(");
    assert(vstd::string::is_ascii("linear-gradient("));
    assert(is_ascii_text("linear-gradient(".spec_bytes()));
    reveal_strlit("linear-gradient(90deg");
    assert(vstd::string::is_ascii("linear-gradient(90deg"));
    assert(is_ascii_text("linear-gradient(90deg".spec_bytes()));
    reveal_strlit(";background-size:100% 1px;background-position:");
    assert(vstd::string::is_ascii(";background-size:100% 1px;background-position:"));
    assert(is_ascii_text(";background-size:100% 1px;background-position:".spec_bytes()));
    reveal_strlit(";background-repeat:no-repeat;\"></div>");
    assert(vstd::string::is_ascii(";background-repeat:no-repeat;\"></div>"));
    assert(is_ascii_text(";background-repeat:no-repeat;\"></div>".spec_bytes()));
}

proof fn lemma_decimal_ascii(n: nat)
    ensures
        is_ascii_text(decimal(n)),
{
    lemma_decimal_is_digits(n);
}

proof fn lemma_color_ascii(c: Rgb)
    ensures
        is_ascii_text(compressed_color(c)),
{
}

proof fn lemma_position_ascii(data: GradientLinearData)
    ensures
        is_ascii_text(position_css(data)),
{
    broadcast use lemma_ascii_concat;

    match data {
        GradientLinearData::A(p) => {
            lemma_decimal_ascii(p as nat);
        },
        GradientLinearData::B(p) => {
            lemma_decimal_ascii(p as nat);
        },
        _ => {},
    }
}

proof fn lemma_parts_ascii(parts: Seq<Part>)
    ensures
        is_ascii_text(parts_css(parts)),
    decreases parts.len(),
{
    broadcast use lemma_ascii_concat;

    if parts.len() > 0 {
        lemma_parts_ascii(parts.drop_last());
        lemma_color_ascii(parts.last().0);
        lemma_position_ascii(parts.last().1);
    }
}

proof fn lemma_gradient_ascii(g: Gradient, parts: Seq<Part>)
    ensures
        is_ascii_text(gradient_css(g, parts)),
{
    broadcast use lemma_ascii_concat;

    lemma_literals_ascii();
    match g {
        Gradient::Solid(c) => {
            lemma_color_ascii(c);
        },
        Gradient::Smooth => {
            lemma_parts_ascii(parts);
        },
    }
}

proof fn lemma_joined_ascii(bg: Rgb, outs: Seq<RowOutcome>)
    ensures
        is_ascii_text(joined_images(bg, outs)),
        is_ascii_text(joined_positions(bg, outs)),
    decreases outs.len(),
{
    broadcast use lemma_ascii_concat;

    if outs.len() > 0 {
        lemma_joined_ascii(bg, outs.drop_last());
        let o = outs.last();
        lemma_gradient_ascii(o.0, o.1);
        let pos = (outs.len() - 1) as nat;
        if pos > 0 {
            lemma_decimal_ascii(pos);
        }
    }
}

/// The whole document is ASCII text, so it is valid UTF-8 as it stands.
pub proof fn lemma_css_document_ascii(width: nat, height: nat, bg: Rgb, outs: Seq<RowOutcome>)
    ensures
        is_ascii_text(css_document(width, height, bg, outs)),
{
    broadcast use lemma_ascii_concat;

    lemma_literals_ascii();
    lemma_decimal_ascii(width);
    lemma_decimal_ascii(height);
    lemma_color_ascii(bg);
    lemma_joined_ascii(bg, outs);
}

} // verus!
