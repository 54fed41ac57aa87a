use vstd::prelude::*;

use crate::color_utils::Rgb;

verus! {

/// A stretch of equal pixels in a row, ending (exclusively) at `end`.
#[derive(Clone, Copy, Debug, PartialEq, Eq, Structural)]
pub struct ColorRun {
    pub color: Rgb,
    pub end: usize,
}

/// How a row is painted: one flat color, or a left-to-right gradient whose
/// color stops are kept apart.
#[derive(Clone, Copy, Debug, PartialEq, Eq, Structural)]
pub enum Gradient {
    Solid(Rgb),
    Smooth,
}

/// The position part of a gradient color stop:
/// `A(p)` is ` {p}px`, `B(p)` is ` 0 {p}px`, `C` is nothing and `D` is ` 0`.
#[derive(Clone, Copy, Debug, PartialEq, Eq, Structural)]
pub enum GradientLinearData {
    A(usize),
    B(usize),
    C,
    D,
}

/// Index where the `k`-th run begins.
pub open spec fn run_start(runs: Seq<ColorRun>, k: int) -> int {
    if k == 0 {
        0
    } else {
        runs[k - 1].end as int
    }
}

/// `runs` splits `row` into consecutive non-empty stretches of one color each,
/// with neighbouring stretches of different colors.
pub open spec fn is_run_encoding(row: Seq<Rgb>, runs: Seq<ColorRun>) -> bool {
    &&& (runs.len() == 0 <==> row.len() == 0)
    &&& runs.len() > 0 ==> runs.last().end == row.len()
    &&& forall|k: int|
        0 <= k < runs.len() ==> run_start(runs, k) < #[trigger] runs[k].end <= row.len()
    &&& forall|k: int, i: int|
        #![trigger runs[k], row[i]]
        0 <= k < runs.len() && run_start(runs, k) <= i < runs[k].end ==> row[i] == runs[k].color
    &&& forall|k: int| 0 < k < runs.len() ==> #[trigger] runs[k].color != runs[k - 1].color
}

/// The run-length encoding of a row, built pixel by pixel.
pub open spec fn row_runs(row: Seq<Rgb>) -> Seq<ColorRun>
    decreases row.len(),
{
    if row.len() == 0 {
        seq![]
    } else {
        let prev = row_runs(row.drop_last());
        let run = ColorRun { color: row.last(), end: row.len() as usize };
        if row.len() > 1 && row[row.len() - 1] == row[row.len() - 2] {
            prev.update(prev.len() - 1, run)
        } else {
            prev.push(run)
        }
    }
}

/// Whether every pixel of the row has the color of its first pixel.
pub open spec fn is_uniform(row: Seq<Rgb>) -> bool {
    forall|i: int| 0 <= i < row.len() ==> #[trigger] row[i] == row[0]
}

#[verifier::spinoff_prover]
#[verifier::rlimit(50)]
proof fn lemma_encoding_extend_last(row: Seq<Rgb>)
    requires
        row.len() > 1,
        row.len() <= usize::MAX,
        row[row.len() - 1] == row[row.len() - 2],
        is_run_encoding(row.drop_last(), row_runs(row.drop_last())),
    ensures
        is_run_encoding(row, row_runs(row)),
{
    let p = row.drop_last();
    let prev = row_runs(p);
    let runs = row_runs(row);
    let n = row.len() as int;
    assert(prev.len() > 0);
    assert(runs.len() == prev.len());
    assert forall|k: int, i: int|
        #![trigger runs[k], row[i]]
        0 <= k < runs.len() && run_start(runs, k) <= i < runs[k].end implies row[i]
        == runs[k].color by {
        if k < runs.len() - 1 {
            assert(prev[k] == runs[k]);
            assert(p[i] == row[i]);
        } else if i < n - 1 {
            assert(p[i] == row[i]);
            assert(prev[k].color == p[i]);
        }
    }
    assert forall|k: int| 0 <= k < runs.len() implies run_start(runs, k) < #[trigger] runs[k].end
        <= row.len() by {
        if k < runs.len() - 1 {
            assert(prev[k] == runs[k]);
        }
        if k > 0 {
            assert(prev[k - 1] == runs[k - 1]);
        }
    }
    assert forall|k: int| 0 < k < runs.len() implies #[trigger] runs[k].color
        != runs[k - 1].color by {
        assert(prev[k - 1] == runs[k - 1]);
        if k < runs.len() - 1 {
            assert(prev[k] == runs[k]);
        } else {
            assert(prev[k].color == p[n - 2]);
        }
    }
}

#[verifier::spinoff_prover]
#[verifier::rlimit(50)]
proof fn lemma_encoding_new_run(row: Seq<Rgb>)
    requires
        row.len() > 0,
        row.len() <= usize::MAX,
        row.len() == 1 || row[row.len() - 1] != row[row.len() - 2],
        is_run_encoding(row.drop_last(), row_runs(row.drop_last())),
    ensures
        is_run_encoding(row, row_runs(row)),
{
    let p = row.drop_last();
    let prev = row_runs(p);
    let runs = row_runs(row);
    let n = row.len() as int;
    assert(runs.len() == prev.len() + 1);
    assert forall|k: int, i: int|
        #![trigger runs[k], row[i]]
        0 <= k < runs.len() && run_start(runs, k) <= i < runs[k].end implies row[i]
        == runs[k].color by {
        if k < runs.len() - 1 {
            assert(prev[k] == runs[k]);
            assert(p[i] == row[i]);
        } else {
            assert(i == n - 1);
        }
    }
    assert forall|k: int| 0 <= k < runs.len() implies run_start(runs, k) < #[trigger] runs[k].end
        <= row.len() by {
        if k < runs.len() - 1 {
            assert(prev[k] == runs[k]);
        }
        if k > 0 {
            assert(prev[k - 1] == runs[k - 1]);
        }
    }
    assert forall|k: int| 0 < k < runs.len() implies #[trigger] runs[k].color
        != runs[k - 1].color by {
        assert(prev[k - 1] == runs[k - 1]);
        if k < runs.len() - 1 {
            assert(prev[k] == runs[k]);
        } else {
            assert(prev[k - 1].color == p[n - 2]);
        }
    }
}

/// The run-length encoding of a row is a valid encoding of it.
pub proof fn lemma_row_runs_is_encoding(row: Seq<Rgb>)
    requires
        row.len() <= usize::MAX,
    ensures
        is_run_encoding(row, row_runs(row)),
    decreases row.len(),
{
    if row.len() > 0 {
        lemma_row_runs_is_encoding(row.drop_last());
        if row.len() > 1 && row[row.len() - 1] == row[row.len() - 2] {
            lemma_encoding_extend_last(row);
        } else {
            lemma_encoding_new_run(row);
        }
    }
}

#[verifier::spinoff_prover]
#[verifier::rlimit(50)]
proof fn lemma_encoding_shorten_last(row: Seq<Rgb>, runs: Seq<ColorRun>)
    requires
        row.len() > 1,
        is_run_encoding(row, runs),
        run_start(runs, runs.len() - 1) < row.len() - 1,
    ensures
        is_run_encoding(
            row.drop_last(),
            runs.update(runs.len() - 1, ColorRun { color: runs.last().color, end: (row.len() - 1) as usize }),
        ),
        row[row.len() - 1] == row[row.len() - 2],
        row.last() == runs.last().color,
{
    let p = row.drop_last();
    let n = row.len() as int;
    let l = runs.len() - 1;
    let shorter = runs.update(l, ColorRun { color: runs.last().color, end: (n - 1) as usize });
    assert(runs[l].end == n);
    assert(row[n - 1] == runs[l].color);
    assert(row[n - 2] == runs[l].color);
    assert forall|k: int| 0 <= k < shorter.len() implies run_start(shorter, k)
        < #[trigger] shorter[k].end <= p.len() by {
        assert(run_start(runs, k) < runs[k].end <= row.len());
        if k > 0 {
            assert(shorter[k - 1] == runs[k - 1] || k - 1 == l);
        }
        if k < l {
            assert(runs[k].end <= run_start(runs, k + 1));
            assert(run_start(runs, k + 1) < runs[k + 1].end);
            if k + 1 < l {
                assert(runs[k + 1].end <= run_start(runs, l)) by {
                    lemma_run_ends_below(runs, k + 1, l);
                }
            }
        }
    }
    assert forall|k: int, i: int|
        #![trigger shorter[k], p[i]]
        0 <= k < shorter.len() && run_start(shorter, k) <= i < shorter[k].end implies p[i]
        == shorter[k].color by {
        assert(row[i] == runs[k].color);
    }
    assert forall|k: int| 0 < k < shorter.len() implies #[trigger] shorter[k].color
        != shorter[k - 1].color by {
        assert(runs[k].color != runs[k - 1].color);
    }
}

proof fn lemma_run_ends_below(runs: Seq<ColorRun>, k: int, j: int)
    requires
        forall|m: int| 0 <= m < runs.len() ==> run_start(runs, m) < #[trigger] runs[m].end,
        0 <= k < j < runs.len(),
    ensures
        runs[k].end <= run_start(runs, j),
    decreases j - k,
{
    if k + 1 < j {
        lemma_run_ends_below(runs, k + 1, j);
        assert(run_start(runs, k + 1) < runs[k + 1].end);
    }
}

#[verifier::spinoff_prover]
#[verifier::rlimit(50)]
proof fn lemma_encoding_drop_last_run(row: Seq<Rgb>, runs: Seq<ColorRun>)
    requires
        row.len() > 1,
        runs.len() > 1,
        is_run_encoding(row, runs),
        run_start(runs, runs.len() - 1) == row.len() - 1,
    ensures
        is_run_encoding(row.drop_last(), runs.drop_last()),
        row[row.len() - 1] != row[row.len() - 2],
        row.last() == runs.last().color,
{
    let p = row.drop_last();
    let n = row.len() as int;
    let l = runs.len() - 1;
    let shorter = runs.drop_last();
    assert(row[n - 1] == runs[l].color);
    assert(run_start(runs, l - 1) < runs[l - 1].end);
    assert(row[n - 2] == runs[l - 1].color);
    assert(runs[l].color != runs[l - 1].color);
    assert forall|k: int| 0 <= k < shorter.len() implies run_start(shorter, k)
        < #[trigger] shorter[k].end <= p.len() by {
        assert(run_start(runs, k) < runs[k].end);
        if k < l - 1 {
            lemma_run_ends_below(runs, k, l - 1);
            assert(run_start(runs, l - 1) < runs[l - 1].end);
        }
    }
    assert forall|k: int, i: int|
        #![trigger shorter[k], p[i]]
        0 <= k < shorter.len() && run_start(shorter, k) <= i < shorter[k].end implies p[i]
        == shorter[k].color by {
        assert(row[i] == runs[k].color);
    }
    assert forall|k: int| 0 < k < shorter.len() implies #[trigger] shorter[k].color
        != shorter[k - 1].color by {
        assert(runs[k].color != runs[k - 1].color);
    }
}

/// A row has only one run-length encoding: `row_runs`.
#[verifier::spinoff_prover]
#[verifier::rlimit(30)]
pub proof fn lemma_run_encoding_unique(row: Seq<Rgb>, runs: Seq<ColorRun>)
    requires
        row.len() <= usize::MAX,
        is_run_encoding(row, runs),
    ensures
        runs == row_runs(row),
    decreases row.len(),
{
    let n = row.len() as int;
    if n == 0 {
        assert(runs =~= row_runs(row));
    } else {
        let l = runs.len() - 1;
        assert(run_start(runs, l) < runs[l].end);
        if n == 1 {
            if l > 0 {
                assert(run_start(runs, l - 1) < runs[l - 1].end);
                lemma_run_ends_below(runs, l - 1, l);
                assert(false);
            }
            assert(row_runs(row.drop_last()) =~= seq![]);
            assert(runs[0].color == row[0]);
            assert(runs =~= row_runs(row));
        } else if run_start(runs, l) < n - 1 {
            lemma_encoding_shorten_last(row, runs);
            let shorter = runs.update(l, ColorRun { color: runs.last().color, end: (n - 1) as usize });
            lemma_run_encoding_unique(row.drop_last(), shorter);
            assert(runs =~= row_runs(row));
        } else {
            if l == 0 {
                assert(run_start(runs, 0) == 0);
                assert(false);
            }
            lemma_encoding_drop_last_run(row, runs);
            lemma_run_encoding_unique(row.drop_last(), runs.drop_last());
            assert(runs =~= row_runs(row));
        }
    }
}

/// Fills `runs` with the run-length encoding of `row`.
#[verifier::spinoff_prover]
#[verifier::rlimit(30)]
pub fn build_row_runs(runs: &mut Vec<ColorRun>, row: &[Rgb])
    ensures
        final(runs)@ == row_runs(row@),
        is_run_encoding(row@, final(runs)@),
{
    let n = row.len();
    runs.clear();
    if n == 0 {
        assert(row@ =~= seq![]);
        proof {
            lemma_row_runs_is_encoding(row@);
        }
        return ;
    }
    let mut run_color = row[0];
    let mut i: usize = 1;
    assert(row@.take(1) =~= seq![row@[0]]);
    assert(row@.take(1).drop_last() =~= seq![]);
    assert(row_runs(row@.take(1).drop_last()) =~= seq![]);
    assert(row_runs(row@.take(1)) =~= seq![ColorRun { color: row@[0], end: 1 }]);
    assert(runs@ =~= seq![]);
    while i < row.len()
        invariant
            1 <= i <= row.len(),
            run_color == row@[i - 1],
            runs@.push(ColorRun { color: run_color, end: i }) == row_runs(row@.take(i as int)),
        decreases row.len() - i,
    {
        let color = row[i];
        assert(row@.take(i + 1).drop_last() =~= row@.take(i as int));
        if color != run_color {
            runs.push(ColorRun { color: run_color, end: i });
            run_color = color;
        }
        i += 1;
        assert(runs@.push(ColorRun { color: run_color, end: i }) =~= row_runs(
            row@.take(i as int),
        ));
    }
    assert(row@.take(row.len() as int) =~= row@);
    runs.push(ColorRun { color: run_color, end: row.len() });
    proof {
        lemma_row_runs_is_encoding(row@);
    }
}

/// A color stop: its color and where it sits.
pub type Part = (Rgb, GradientLinearData);

/// The color stop for the `i`-th run of a hard-edged gradient: the first run
/// ends at `A(end)`, the last starts at `D` (right after its predecessor),
/// the ones between span `B(end)`.
pub open spec fn hard_part(runs: Seq<ColorRun>, i: int) -> Part {
    (
        runs[i].color,
        if i == 0 {
            GradientLinearData::A(runs[i].end)
        } else if i == runs.len() - 1 {
            GradientLinearData::D
        } else {
            GradientLinearData::B(runs[i].end)
        },
    )
}

/// The color stops of a hard-edged gradient, one per run.
pub open spec fn hard_parts(runs: Seq<ColorRun>) -> Seq<Part> {
    Seq::new(runs.len(), |i: int| hard_part(runs, i))
}

/// Appends to `parts` one hard-edged color stop per run.
pub fn runs_to_hard_gradient(parts: &mut Vec<Part>, runs: &[ColorRun])
    requires
        runs@.len() >= 1,
    ensures
        final(parts)@ == old(parts)@ + hard_parts(runs@),
        final(parts)@.len() == old(parts)@.len() + runs@.len(),
        final(parts)@.subrange(0, old(parts)@.len() as int) == old(parts)@,
        forall|i: int|
            0 <= i < runs@.len() ==> #[trigger] final(parts)@[old(parts)@.len() + i].0
                == runs@[i].color,
        final(parts)@[old(parts)@.len() as int].1 == GradientLinearData::A(runs@[0].end),
        forall|i: int|
            0 < i < runs@.len() - 1 ==> #[trigger] final(parts)@[old(parts)@.len() + i].1
                == GradientLinearData::B(runs@[i].end),
        runs@.len() > 1 ==> final(parts)@.last().1 == GradientLinearData::D,
{
    let last = runs.len() - 1;
    let mut i: usize = 0;
    while i < runs.len()
        invariant
            i <= runs@.len(),
            last == runs@.len() - 1,
            parts@ == old(parts)@ + hard_parts(runs@).take(i as int),
        decreases runs@.len() - i,
    {
        let run = runs[i];
        let data = if i == 0 {
            GradientLinearData::A(run.end)
        } else if i == last {
            GradientLinearData::D
        } else {
            GradientLinearData::B(run.end)
        };
        parts.push((run.color, data));
        i += 1;
        assert(hard_parts(runs@).take(i as int) =~= hard_parts(runs@).take(i - 1).push(
            hard_part(runs@, i - 1),
        ));
    }
    assert(hard_parts(runs@).take(i as int) =~= hard_parts(runs@));
    assert(parts@.subrange(0, old(parts)@.len() as int) =~= old(parts)@);
}

/// A row has a single run exactly when all its pixels are equal.
pub proof fn lemma_single_run_iff_uniform(row: Seq<Rgb>, runs: Seq<ColorRun>)
    requires
        row.len() > 0,
        is_run_encoding(row, runs),
    ensures
        runs.len() == 1 <==> is_uniform(row),
        runs[0].color == row[0],
{
    assert(row[0] == runs[0].color);
    if runs.len() == 1 {
        assert forall|i: int| 0 <= i < row.len() implies #[trigger] row[i] == row[0] by {
            assert(row[i] == runs[0].color);
        }
    } else {
        let j = run_start(runs, 1);
        assert(run_start(runs, 1) < runs[1].end <= row.len());
        assert(row[j] == runs[1].color);
        if is_uniform(row) {
            assert(row[j] == row[0]);
        }
    }
}

/// Where the stretch painted solidly by color stop `i` of a row of `n`
/// pixels ends (exclusively): at its last position, or at the row's end when
/// it has none.
pub open spec fn part_end(parts: Seq<Part>, i: int, n: int) -> int {
    match parts[i].1 {
        GradientLinearData::A(e) => e as int,
        GradientLinearData::B(e) => e as int,
        GradientLinearData::C => n,
        GradientLinearData::D => n,
    }
}

/// Where the stretch painted solidly by color stop `i` begins. The first
/// stop is solid from the row's start. A later stop with one position
/// (`A(p)`) is reached only at `p`, the pixels before it blending in from the
/// previous color, so its solid stretch starts at `p`; a later stop with an
/// explicit start of `0` (`B`, `D`) starts where the previous one ends.
pub open spec fn part_begin(parts: Seq<Part>, i: int, n: int) -> int {
    if i == 0 {
        0
    } else {
        match parts[i].1 {
            GradientLinearData::A(p) => p as int,
            _ => part_end(parts, i - 1, n),
        }
    }
}

/// Pixel `x` of a row of `n` pixels is painted `c` by the stop `i` of a
/// hard-edged gradient.
pub open spec fn paints(parts: Seq<Part>, n: int, i: int, x: int, c: Rgb) -> bool {
    &&& 0 <= i < parts.len()
    &&& part_begin(parts, i, n) <= x < part_end(parts, i, n)
    &&& parts[i].0 == c
}

/// The color stops split a row into consecutive non-empty stretches and
/// paint each pixel with its own color.
pub open spec fn paints_row(parts: Seq<Part>, row: Seq<Rgb>) -> bool {
    let n = row.len() as int;
    &&& parts.len() >= 1
    &&& forall|i: int|
        0 <= i < parts.len() ==> part_begin(parts, i, n) < #[trigger] part_end(parts, i, n)
    &&& part_end(parts, parts.len() - 1, n) == n
    &&& forall|x: int| 0 <= x < n ==> #[trigger] painted(parts, n, x, row[x])
}

/// Some color stop paints pixel `x` with `c`.
pub open spec fn painted(parts: Seq<Part>, n: int, x: int, c: Rgb) -> bool {
    exists|i: int| #[trigger] paints(parts, n, i, x, c)
}

proof fn lemma_run_covers(row: Seq<Rgb>, runs: Seq<ColorRun>, x: int, k: int) -> (found: int)
    requires
        is_run_encoding(row, runs),
        0 <= k < runs.len(),
        run_start(runs, k) <= x < row.len(),
    ensures
        k <= found < runs.len(),
        run_start(runs, found) <= x < runs[found].end,
    decreases runs.len() - k,
{
    if x < runs[k].end {
        k
    } else {
        if k == runs.len() - 1 {
            assert(runs.last().end == row.len());
        }
        lemma_run_covers(row, runs, x, k + 1)
    }
}

proof fn lemma_hard_part_bounds(runs: Seq<ColorRun>, n: int, i: int)
    requires
        runs.len() >= 2,
        runs.last().end == n,
        0 <= i < runs.len(),
    ensures
        part_end(hard_parts(runs), i, n) == runs[i].end,
        part_begin(hard_parts(runs), i, n) == run_start(runs, i),
{
    let parts = hard_parts(runs);
    assert(parts[i] == hard_part(runs, i));
    if i > 0 {
        assert(parts[i - 1] == hard_part(runs, i - 1));
    }
}

#[verifier::spinoff_prover]
#[verifier::rlimit(30)]
proof fn lemma_hard_parts_paint(row: Seq<Rgb>, runs: Seq<ColorRun>)
    requires
        is_run_encoding(row, runs),
        runs.len() >= 2,
    ensures
        paints_row(hard_parts(runs), row),
{
    let parts = hard_parts(runs);
    let n = row.len() as int;
    assert forall|i: int| 0 <= i < parts.len() implies part_begin(parts, i, n)
        < #[trigger] part_end(parts, i, n) by {
        lemma_hard_part_bounds(runs, n, i);
        assert(run_start(runs, i) < runs[i].end);
    }
    lemma_hard_part_bounds(runs, n, parts.len() - 1);
    assert forall|x: int| 0 <= x < n implies #[trigger] painted(parts, n, x, row[x]) by {
        let k = lemma_run_covers(row, runs, x, 0);
        lemma_hard_part_bounds(runs, n, k);
        assert(row[x] == runs[k].color);
        assert(parts[k] == hard_part(runs, k));
        assert(paints(parts, n, k, x, row[x]));
    }
    assert(paints_row(parts, row));
}

/// The hard-edged gradient of a row with several colors paints every pixel
/// with its own color: its stops split the row into consecutive non-empty
/// stretches, and each pixel lies in a stretch of its color.
pub proof fn lemma_hard_gradient_paints_row(row: Seq<Rgb>)
    requires
        row.len() <= usize::MAX,
        !is_uniform(row),
    ensures
        paints_row(hard_parts(row_runs(row)), row),
{
    let runs = row_runs(row);
    lemma_row_runs_is_encoding(row);
    if row.len() > 0 {
        lemma_single_run_iff_uniform(row, runs);
    } else {
        assert(is_uniform(row));
    }
    lemma_hard_parts_paint(row, runs);
}

/// In a hard-edged gradient the first stop ends at its run's end, and every
/// later stop starts exactly where the previous one ends (a two-position
/// stop `B(end)` for a middle run, `D` for the last), so no two runs blend.
pub proof fn lemma_hard_stops_start_sharp(runs: Seq<ColorRun>)
    requires
        runs.len() >= 1,
    ensures
        hard_parts(runs).len() == runs.len(),
        hard_parts(runs)[0].1 == GradientLinearData::A(runs[0].end),
        forall|i: int|
            0 < i < runs.len() ==> (#[trigger] hard_parts(runs)[i].1 is B || hard_parts(runs)[i].1 is D),
        forall|i: int|
            0 < i < runs.len() - 1 ==> #[trigger] hard_parts(runs)[i].1 == GradientLinearData::B(
                runs[i].end,
            ),
        forall|i: int| 0 <= i < runs.len() ==> #[trigger] hard_parts(runs)[i].0 == runs[i].color,
{
}

/// The gradient of a row when colors must be kept exactly: flat when the
/// row has one color.
pub open spec fn exact_gradient(row: Seq<Rgb>) -> Gradient {
    if is_uniform(row) {
        Gradient::Solid(row[0])
    } else {
        Gradient::Smooth
    }
}

/// Paints a row with its exact colors: flat when it has one color, otherwise
/// a hard-edged gradient whose stops are appended to `parts`.
pub fn build_row_gradient_tolerancezero(
    runs: &mut Vec<ColorRun>,
    parts: &mut Vec<Part>,
    row: &[Rgb],
) -> (g: Gradient)
    requires
        row@.len() >= 1,
    ensures
        final(runs)@ == row_runs(row@),
        g == exact_gradient(row@),
        g is Solid ==> final(parts)@ == old(parts)@,
        g is Smooth ==> final(parts)@ == old(parts)@ + hard_parts(final(runs)@),
{
    build_row_runs(runs, row);
    proof {
        lemma_single_run_iff_uniform(row@, runs@);
    }
    if runs.len() == 1 {
        Gradient::Solid(runs[0].color)
    } else {
        runs_to_hard_gradient(parts, runs.as_slice());
        Gradient::Smooth
    }
}

/// A segment `[s, e]` may be drawn as one linear stretch: it is at most one
/// step long, or `pred` accepts it.
pub open spec fn segment_ok(pred: spec_fn(int, int) -> bool, s: int, e: int) -> bool {
    e - s <= 1 || pred(s, e)
}

/// The end that a binary search over `[lo, hi]` settles on for a segment
/// starting at `s`, having accepted `best` so far.
pub open spec fn search_furthest(
    pred: spec_fn(int, int) -> bool,
    s: int,
    lo: int,
    hi: int,
    best: int,
) -> int
    decreases hi - lo + 1,
{
    if lo > hi {
        best
    } else {
        let mid = lo + (hi - lo) / 2;
        if segment_ok(pred, s, mid) {
            search_furthest(pred, s, mid + 1, hi, mid)
        } else {
            search_furthest(pred, s, lo, mid - 1, best)
        }
    }
}

/// Where the segment starting at stop `s` of a row of `n` pixels ends.
pub open spec fn next_stop(pred: spec_fn(int, int) -> bool, n: int, s: int) -> int {
    search_furthest(pred, s, s + 1, n - 1, s + 1)
}

/// `stops` starts at the first pixel, ends at the last one, and each stop
/// after the first is where the segment from the previous one ends.
pub open spec fn stops_follow(pred: spec_fn(int, int) -> bool, n: int, stops: Seq<usize>) -> bool {
    &&& stops.len() >= 1
    &&& stops[0] == 0
    &&& stops.last() == n - 1
    &&& forall|k: int|
        0 <= k < stops.len() - 1 ==> #[trigger] stops[k + 1] == next_stop(pred, n, stops[k] as int)
}

/// `f` may be called on every segment of a row of `n` pixels, and what it
/// answers there is `pred`.
pub open spec fn decides<F: Fn(usize, usize) -> bool>(
    f: F,
    pred: spec_fn(int, int) -> bool,
    n: int,
) -> bool {
    &&& forall|s: usize, e: usize| s < e < n ==> #[trigger] call_requires(f, (s, e))
    &&& forall|s: usize, e: usize, r: bool|
        s < e < n && #[trigger] call_ensures(f, (s, e), r) ==> r == pred(s as int, e as int)
}

/// The answers that `f` can give.
pub open spec fn answers<F: Fn(usize, usize) -> bool>(f: F) -> spec_fn(int, int) -> bool {
    |s: int, e: int| call_ensures(f, (s as usize, e as usize), true)
}

/// The search settles on an accepted end beyond which the next end is
/// refused (or the row ends).
proof fn lemma_search_furthest(
    pred: spec_fn(int, int) -> bool,
    n: int,
    s: int,
    lo: int,
    hi: int,
    best: int,
)
    requires
        0 <= s < n - 1,
        s + 1 <= lo <= hi + 1,
        hi <= n - 1,
        segment_ok(pred, s, best),
        s + 1 <= best <= n - 1,
        best == lo - 1 || (best == s + 1 && lo == s + 1 && hi >= s + 1),
        hi == n - 1 || !segment_ok(pred, s, hi + 1),
    ensures
        ({
            let r = search_furthest(pred, s, lo, hi, best);
            &&& s + 1 <= r <= n - 1
            &&& segment_ok(pred, s, r)
            &&& (r == n - 1 || !segment_ok(pred, s, r + 1))
        }),
    decreases hi - lo + 1,
{
    if lo <= hi {
        let mid = lo + (hi - lo) / 2;
        if segment_ok(pred, s, mid) {
            lemma_search_furthest(pred, n, s, mid + 1, hi, mid);
        } else {
            lemma_search_furthest(pred, n, s, lo, mid - 1, best);
        }
    }
}

/// Where a segment starting at `s` ends: after `s`, within the row, accepted,
/// and not extendable by one pixel.
pub proof fn lemma_next_stop(pred: spec_fn(int, int) -> bool, n: int, s: int)
    requires
        0 <= s < n - 1,
    ensures
        s + 1 <= next_stop(pred, n, s) <= n - 1,
        segment_ok(pred, s, next_stop(pred, n, s)),
        next_stop(pred, n, s) == n - 1 || !segment_ok(pred, s, next_stop(pred, n, s) + 1),
{
    lemma_search_furthest(pred, n, s, s + 1, n - 1, s + 1);
}

/// `find_optimal_stops` for an `approx` whose answers are `pred`.
#[verifier::spinoff_prover]
#[verifier::rlimit(30)]
fn optimal_stops_with<F: Fn(usize, usize) -> bool>(
    stops: &mut Vec<usize>,
    n: usize,
    approx: &F,
    Ghost(pred): Ghost<spec_fn(int, int) -> bool>,
)
    requires
        n >= 1,
        decides(*approx, pred, n as int),
    ensures
        stops_follow(pred, n as int, final(stops)@),
        final(stops)@ == optimal_stops(pred, n as int),
{
    stops.clear();
    if n <= 2 {
        if n == 1 {
            stops.push(0);
        } else {
            stops.push(0);
            stops.push(n - 1);
            assert(search_furthest(pred, 0, 2, 1, 1) == 1);
            assert(next_stop(pred, 2, 0) == 1);
            assert(stops@[1] == next_stop(pred, n as int, stops@[0] as int));
        }
        proof {
            lemma_stops_follow_unique(pred, n as int, stops@);
        }
        return ;
    }
    stops.push(0);
    let mut seg_start: usize = 0;
    while seg_start < n - 1
        invariant_except_break
            seg_start < n,
            stops@.last() == seg_start,
        invariant
            n >= 3,
            decides(*approx, pred, n as int),
            stops@.len() >= 1,
            stops@[0] == 0,
            forall|k: int|
                0 <= k < stops@.len() - 1 ==> #[trigger] stops@[k + 1] == next_stop(
                    pred,
                    n as int,
                    stops@[k] as int,
                ),
        ensures
            stops_follow(pred, n as int, stops@),
        decreases n - seg_start,
    {
        let mut lo = seg_start + 1;
        let mut hi = n - 1;
        let mut best = seg_start + 1;
        while lo <= hi
            invariant
                seg_start < n - 1,
                decides(*approx, pred, n as int),
                seg_start + 1 <= lo <= hi + 1,
                hi <= n - 1,
                best >= seg_start + 1,
                search_furthest(pred, seg_start as int, lo as int, hi as int, best as int)
                    == next_stop(pred, n as int, seg_start as int),
            decreases hi + 1 - lo,
        {
            let mid = lo + (hi - lo) / 2;
            let ok = mid - seg_start <= 1 || approx(seg_start, mid);
            if ok {
                best = mid;
                lo = mid + 1;
            } else {
                hi = mid.saturating_sub(1);
            }
        }
        proof {
            lemma_next_stop(pred, n as int, seg_start as int);
        }
        if best == n - 1 {
            if stops[stops.len() - 1] != n - 1 {
                stops.push(n - 1);
            }
            break;
        }
        stops.push(best);
        seg_start = best;
    }
    proof {
        lemma_stops_follow_unique(pred, n as int, stops@);
    }
}

/// Splits a row into segments that `approx` accepts as linear: from each stop
/// a binary search looks for the furthest end that `approx` accepts.
pub fn find_optimal_stops<F: Fn(usize, usize) -> bool>(
    stops: &mut Vec<usize>,
    row: &[Rgb],
    approx: F,
)
    requires
        row@.len() >= 1,
        decides(approx, answers(approx), row@.len() as int),
    ensures
        stops_follow(answers(approx), row@.len() as int, final(stops)@),
        final(stops)@ == optimal_stops(answers(approx), row@.len() as int),
{
    optimal_stops_with(stops, row.len(), &approx, Ghost(answers(approx)));
}


/// The stops from `s` on: `s`, then where its segment ends, and so on up to
/// the last pixel of a row of `n` pixels.
pub open spec fn stops_from(pred: spec_fn(int, int) -> bool, n: int, s: int) -> Seq<usize>
    decreases n - s,
    via stops_from_decreases
{
    if s < 0 || s >= n - 1 {
        seq![s as usize]
    } else {
        seq![s as usize] + stops_from(pred, n, next_stop(pred, n, s))
    }
}

#[via_fn]
proof fn stops_from_decreases(pred: spec_fn(int, int) -> bool, n: int, s: int) {
    if 0 <= s < n - 1 {
        lemma_next_stop(pred, n, s);
    }
}

/// The stops of a row of `n` pixels, from its first pixel on.
pub open spec fn optimal_stops(pred: spec_fn(int, int) -> bool, n: int) -> Seq<usize> {
    stops_from(pred, n, 0)
}

proof fn lemma_next_stop_advances(pred: spec_fn(int, int) -> bool, n: int, s: int)
    requires
        0 <= s,
    ensures
        next_stop(pred, n, s) > s,
{
    if s < n - 1 {
        lemma_next_stop(pred, n, s);
    }
}

proof fn lemma_stop_below_last(stops: Seq<usize>, k: int)
    requires
        0 <= k < stops.len(),
        forall|j: int| 0 <= j < stops.len() - 1 ==> #[trigger] stops[j] < stops[j + 1],
    ensures
        stops[k] <= stops.last(),
        k < stops.len() - 1 ==> stops[k] < stops.last(),
    decreases stops.len() - k,
{
    if k < stops.len() - 1 {
        lemma_stop_below_last(stops, k + 1);
        assert(stops[k] < stops[k + 1]);
    }
}

/// The stops cut the row into segments: they increase strictly, stay inside
/// the row, each segment is accepted, and none could be stretched by one
/// pixel without being refused.
pub proof fn lemma_stops_partition_row(pred: spec_fn(int, int) -> bool, n: int, stops: Seq<usize>)
    requires
        n >= 1,
        stops_follow(pred, n, stops),
    ensures
        forall|k: int| 0 <= k < stops.len() ==> #[trigger] stops[k] < n,
        forall|k: int|
            0 <= k < stops.len() - 1 ==> {
                &&& #[trigger] stops[k] < stops[k + 1]
                &&& segment_ok(pred, stops[k] as int, stops[k + 1] as int)
                &&& (stops[k + 1] == n - 1 || !segment_ok(
                    pred,
                    stops[k] as int,
                    stops[k + 1] + 1,
                ))
            },
{
    assert forall|j: int| 0 <= j < stops.len() - 1 implies #[trigger] stops[j] < stops[j + 1] by {
        lemma_next_stop_advances(pred, n, stops[j] as int);
    }
    assert forall|k: int| 0 <= k < stops.len() implies #[trigger] stops[k] < n by {
        lemma_stop_below_last(stops, k);
    }
    assert forall|k: int| 0 <= k < stops.len() - 1 implies {
        &&& #[trigger] stops[k] < stops[k + 1]
        &&& segment_ok(pred, stops[k] as int, stops[k + 1] as int)
        &&& (stops[k + 1] == n - 1 || !segment_ok(pred, stops[k] as int, stops[k + 1] + 1))
    } by {
        lemma_stop_below_last(stops, k);
        lemma_next_stop(pred, n, stops[k] as int);
    }
}

proof fn lemma_stops_increase(pred: spec_fn(int, int) -> bool, n: int, stops: Seq<usize>)
    requires
        stops_follow(pred, n, stops),
    ensures
        forall|j: int| 0 <= j < stops.len() - 1 ==> #[trigger] stops[j] < stops[j + 1],
{
    assert forall|j: int| 0 <= j < stops.len() - 1 implies #[trigger] stops[j] < stops[j + 1] by {
        lemma_next_stop_advances(pred, n, stops[j] as int);
    }
}

#[verifier::spinoff_prover]
#[verifier::rlimit(30)]
proof fn lemma_suffix_is_stops_from(
    pred: spec_fn(int, int) -> bool,
    n: int,
    stops: Seq<usize>,
    k: int,
)
    requires
        n >= 1,
        stops_follow(pred, n, stops),
        forall|j: int| 0 <= j < stops.len() - 1 ==> #[trigger] stops[j] < stops[j + 1],
        0 <= k < stops.len(),
    ensures
        stops.subrange(k, stops.len() as int) == stops_from(pred, n, stops[k] as int),
    decreases stops.len() - k,
{
    if k == stops.len() - 1 {
        assert(stops.subrange(k, stops.len() as int) =~= seq![stops[k]]);
    } else {
        lemma_suffix_is_stops_from(pred, n, stops, k + 1);
        lemma_stop_below_last(stops, k);
        assert(stops[k + 1] == next_stop(pred, n, stops[k] as int));
        assert(stops.subrange(k, stops.len() as int) =~= seq![stops[k]] + stops.subrange(
            k + 1,
            stops.len() as int,
        ));
    }
}

/// Only one list of stops follows the segments of a row: the optimal stops.
pub proof fn lemma_stops_follow_unique(pred: spec_fn(int, int) -> bool, n: int, stops: Seq<usize>)
    requires
        n >= 1,
        stops_follow(pred, n, stops),
    ensures
        stops == optimal_stops(pred, n),
{
    lemma_stops_increase(pred, n, stops);
    lemma_suffix_is_stops_from(pred, n, stops, 0);
    assert(stops.subrange(0, stops.len() as int) =~= stops);
}

/// Whether accepting a segment from `s` to `e` implies accepting every
/// shorter segment from `s`.
pub open spec fn shorter_segments_accepted(pred: spec_fn(int, int) -> bool, n: int) -> bool {
    forall|s: int, e: int, e2: int|
        0 <= s < e2 < e < n && #[trigger] pred(s, e) ==> #[trigger] pred(s, e2)
}

/// When shorter segments of an accepted segment are accepted too, the binary
/// search finds the furthest accepted end.
pub proof fn lemma_next_stop_is_furthest(pred: spec_fn(int, int) -> bool, n: int, s: int, m: int)
    requires
        shorter_segments_accepted(pred, n),
        0 <= s < m <= n - 1,
        segment_ok(pred, s, m),
    ensures
        m <= next_stop(pred, n, s),
{
    lemma_next_stop(pred, n, s);
    let r = next_stop(pred, n, s);
    if m > r {
        if m > r + 1 {
            assert(pred(s, m));
            assert(pred(s, r + 1));
        }
    }
}

/// The color stop for the `i`-th stop of a smooth gradient: the row's ends
/// need no position, other stops sit at their pixel.
pub open spec fn smooth_part(row: Seq<Rgb>, stops: Seq<usize>, i: int) -> Part {
    let pos = stops[i];
    (
        row[pos as int],
        if (i == 0 && pos == 0) || (i == stops.len() - 1 && pos == row.len() - 1) {
            GradientLinearData::C
        } else {
            GradientLinearData::A(pos)
        },
    )
}

/// The color stops of a smooth gradient through `stops`.
pub open spec fn smooth_parts(row: Seq<Rgb>, stops: Seq<usize>) -> Seq<Part> {
    Seq::new(stops.len(), |i: int| smooth_part(row, stops, i))
}

/// Replaces `parts` with one color stop per stop, colored by its pixel.
pub fn stops_to_smooth_gradient(parts: &mut Vec<Part>, row: &[Rgb], stops: &[usize])
    requires
        row@.len() >= 1,
        forall|k: int| 0 <= k < stops@.len() ==> #[trigger] stops@[k] < row@.len(),
    ensures
        final(parts)@ == smooth_parts(row@, stops@),
{
    parts.clear();
    let last_idx = row.len() - 1;
    let mut i: usize = 0;
    while i < stops.len()
        invariant
            i <= stops@.len(),
            last_idx == row@.len() - 1,
            forall|k: int| 0 <= k < stops@.len() ==> #[trigger] stops@[k] < row@.len(),
            parts@ == smooth_parts(row@, stops@).take(i as int),
        decreases stops@.len() - i,
    {
        let pos = stops[i];
        let data = if (i == 0 && pos == 0) || (i == stops.len() - 1 && pos == last_idx) {
            GradientLinearData::C
        } else {
            GradientLinearData::A(pos)
        };
        parts.push((row[pos], data));
        i += 1;
        assert(smooth_parts(row@, stops@).take(i as int) =~= smooth_parts(row@, stops@).take(
            i - 1,
        ).push(smooth_part(row@, stops@, i - 1)));
    }
    assert(smooth_parts(row@, stops@).take(i as int) =~= smooth_parts(row@, stops@));
}

/// Whether every stop has the color of the first stop.
pub open spec fn stops_uniform(row: Seq<Rgb>, stops: Seq<usize>) -> bool {
    forall|k: int| 0 <= k < stops.len() ==> #[trigger] row[stops[k] as int] == row[stops[0] as int]
}

/// The gradient of a row through `stops`: flat when all stops share a color.
pub open spec fn stops_gradient(row: Seq<Rgb>, stops: Seq<usize>) -> Gradient {
    if stops_uniform(row, stops) {
        Gradient::Solid(row[stops[0] as int])
    } else {
        Gradient::Smooth
    }
}

/// A row drawn through its stops is flat exactly when the pixel at every
/// stop, not only at the ends, has the color of the first stop's pixel; it
/// is then flat in that color.
pub proof fn lemma_stops_gradient_flat_iff(row: Seq<Rgb>, stops: Seq<usize>)
    requires
        stops.len() >= 1,
    ensures
        (stops_gradient(row, stops) is Solid) <==> (forall|k: int|
            0 <= k < stops.len() ==> #[trigger] row[stops[k] as int] == row[stops[0] as int]),
        stops_gradient(row, stops) is Solid ==> stops_gradient(row, stops) == Gradient::Solid(
            row[stops[0] as int],
        ),
{
}

/// The stops from a stop `s` follow the segments of the row.
proof fn lemma_stops_from_follow(pred: spec_fn(int, int) -> bool, n: int, s: int)
    requires
        0 <= s <= n - 1,
        n - 1 <= usize::MAX,
    ensures
        ({
            let st = stops_from(pred, n, s);
            &&& st.len() >= 1
            &&& st[0] == s
            &&& st.last() == n - 1
            &&& forall|k: int|
                0 <= k < st.len() - 1 ==> #[trigger] st[k + 1] == next_stop(pred, n, st[k] as int)
        }),
    decreases n - s,
{
    if s < n - 1 {
        lemma_next_stop(pred, n, s);
        let next = next_stop(pred, n, s);
        lemma_stops_from_follow(pred, n, next);
        let rest = stops_from(pred, n, next);
        let st = stops_from(pred, n, s);
        assert(st == seq![s as usize] + rest);
        assert forall|k: int| 0 <= k < st.len() - 1 implies #[trigger] st[k + 1] == next_stop(
            pred,
            n,
            st[k] as int,
        ) by {
            if k > 0 {
                let k2 = k - 1;
                assert(0 <= k2 < rest.len() - 1);
                assert(rest[k2 + 1] == next_stop(pred, n, rest[k2] as int));
                assert(st[k + 1] == rest[k2 + 1]);
                assert(st[k] == rest[k2]);
            } else {
                assert(st[1] == rest[0]);
                assert(st[0] as int == s);
            }
        }
    }
}

/// The optimal stops of a row follow its segments.
pub proof fn lemma_optimal_stops_follow(pred: spec_fn(int, int) -> bool, n: int)
    requires
        1 <= n <= usize::MAX,
    ensures
        stops_follow(pred, n, optimal_stops(pred, n)),
{
    lemma_stops_from_follow(pred, n, 0);
}

/// `build_row_gradient` for an `approx` whose answers are `pred`.
#[verifier::spinoff_prover]
#[verifier::rlimit(30)]
pub(crate) fn build_row_gradient_with<F: Fn(usize, usize) -> bool>(
    stops: &mut Vec<usize>,
    parts: &mut Vec<Part>,
    row: &[Rgb],
    approx: &F,
    Ghost(pred): Ghost<spec_fn(int, int) -> bool>,
) -> (g: Gradient)
    requires
        row@.len() >= 1,
        decides(*approx, pred, row@.len() as int),
    ensures
        stops_follow(pred, row@.len() as int, final(stops)@),
        final(stops)@ == optimal_stops(pred, row@.len() as int),
        g == stops_gradient(row@, final(stops)@),
        (g is Solid) <==> (forall|k: int|
            0 <= k < final(stops)@.len() ==> #[trigger] row@[final(stops)@[k] as int] == row@[0]),
        g is Solid ==> g == Gradient::Solid(row@[0]),
        g is Solid ==> final(parts)@ == old(parts)@,
        g is Smooth ==> final(parts)@ == smooth_parts(row@, final(stops)@),
{
    optimal_stops_with(stops, row.len(), approx, Ghost(pred));
    proof {
        lemma_stops_partition_row(pred, row@.len() as int, stops@);
    }
    let first_color = row[stops[0]];
    let mut all_same = true;
    let mut k: usize = 0;
    while k < stops.len()
        invariant
            k <= stops@.len(),
            forall|j: int| 0 <= j < stops@.len() ==> #[trigger] stops@[j] < row@.len(),
            first_color == row@[stops@[0] as int],
            all_same == forall|j: int|
                0 <= j < k ==> #[trigger] row@[stops@[j] as int] == first_color,
        decreases stops@.len() - k,
    {
        if row[stops[k]] != first_color {
            all_same = false;
        }
        k += 1;
    }
    if all_same {
        Gradient::Solid(first_color)
    } else {
        stops_to_smooth_gradient(parts, row, stops.as_slice());
        Gradient::Smooth
    }
}

/// Paints a row with linear stretches: flat when all stops found by
/// `find_optimal_stops` share a color, otherwise a smooth gradient whose
/// stops replace `parts`.
pub fn build_row_gradient<F: Fn(usize, usize) -> bool>(
    stops: &mut Vec<usize>,
    parts: &mut Vec<Part>,
    row: &[Rgb],
    approx: F,
) -> (g: Gradient)
    requires
        row@.len() >= 1,
        decides(approx, answers(approx), row@.len() as int),
    ensures
        stops_follow(answers(approx), row@.len() as int, final(stops)@),
        final(stops)@ == optimal_stops(answers(approx), row@.len() as int),
        g == stops_gradient(row@, final(stops)@),
        (g is Solid) <==> (forall|k: int|
            0 <= k < final(stops)@.len() ==> #[trigger] row@[final(stops)@[k] as int] == row@[0]),
        g is Solid ==> g == Gradient::Solid(row@[0]),
        g is Solid ==> final(parts)@ == old(parts)@,
        g is Smooth ==> final(parts)@ == smooth_parts(row@, final(stops)@),
{
    build_row_gradient_with(stops, parts, row, &approx, Ghost(answers(approx)))
}

} // verus!
