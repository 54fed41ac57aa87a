use image_to_pure_css::{
    build_row_gradient, build_row_gradient_tolerancezero, build_row_runs, find_optimal_stops,
    runs_to_hard_gradient, stops_to_smooth_gradient, ColorRun, Gradient, GradientLinearData, Rgb,
};

const K: Rgb = Rgb { r: 0, g: 0, b: 0 };
const W: Rgb = Rgb { r: 255, g: 255, b: 255 };
const R: Rgb = Rgb { r: 255, g: 0, b: 0 };

#[test]
fn runs_of_a_row() {
    let mut runs = vec![ColorRun { color: R, end: 99 }];
    build_row_runs(&mut runs, &[K, K, W, R, R]);
    assert_eq!(
        runs,
        vec![
            ColorRun { color: K, end: 2 },
            ColorRun { color: W, end: 3 },
            ColorRun { color: R, end: 5 },
        ]
    );
}

#[test]
fn runs_of_empty_and_single_rows() {
    let mut runs = vec![ColorRun { color: R, end: 1 }];
    build_row_runs(&mut runs, &[]);
    assert!(runs.is_empty());
    build_row_runs(&mut runs, &[W]);
    assert_eq!(runs, vec![ColorRun { color: W, end: 1 }]);
}

#[test]
fn runs_expand_back_to_the_row() {
    let row = [K, W, W, W, K, R, R, K];
    let mut runs = vec![];
    build_row_runs(&mut runs, &row);
    let mut expanded = vec![];
    for run in &runs {
        while expanded.len() < run.end {
            expanded.push(run.color);
        }
    }
    assert_eq!(expanded, row.to_vec());
    for pair in runs.windows(2) {
        assert_ne!(pair[0].color, pair[1].color);
    }
}

#[test]
fn hard_gradient_parts() {
    let mut parts = vec![(R, GradientLinearData::C)];
    let runs = [
        ColorRun { color: K, end: 2 },
        ColorRun { color: W, end: 3 },
        ColorRun { color: R, end: 5 },
    ];
    runs_to_hard_gradient(&mut parts, &runs);
    assert_eq!(
        parts,
        vec![
            (R, GradientLinearData::C),
            (K, GradientLinearData::A(2)),
            (W, GradientLinearData::B(3)),
            (R, GradientLinearData::D),
        ]
    );
}

#[test]
fn exact_uniform_row_is_solid() {
    let mut runs = vec![];
    let mut parts = vec![];
    let g = build_row_gradient_tolerancezero(&mut runs, &mut parts, &[W, W, W]);
    assert_eq!(g, Gradient::Solid(W));
    assert!(parts.is_empty());
}

#[test]
fn exact_row_keeps_gathering_parts() {
    let mut runs = vec![];
    let mut parts = vec![];
    let g = build_row_gradient_tolerancezero(&mut runs, &mut parts, &[K, W]);
    assert_eq!(g, Gradient::Smooth);
    assert_eq!(parts, vec![(K, GradientLinearData::A(1)), (W, GradientLinearData::D)]);
    let g = build_row_gradient_tolerancezero(&mut runs, &mut parts, &[W, W, K]);
    assert_eq!(g, Gradient::Smooth);
    assert_eq!(
        parts,
        vec![
            (K, GradientLinearData::A(1)),
            (W, GradientLinearData::D),
            (W, GradientLinearData::A(2)),
            (K, GradientLinearData::D),
        ]
    );
}

#[test]
fn stops_with_short_segments() {
    let mut stops = vec![7];
    find_optimal_stops(&mut stops, &[K; 10], |s: usize, e: usize| e - s <= 3);
    assert_eq!(stops, vec![0, 3, 6, 9]);
}

#[test]
fn stops_of_tiny_rows() {
    let mut stops = vec![];
    find_optimal_stops(&mut stops, &[K], |_: usize, _: usize| false);
    assert_eq!(stops, vec![0]);
    find_optimal_stops(&mut stops, &[K, W], |_: usize, _: usize| false);
    assert_eq!(stops, vec![0, 1]);
}

#[test]
fn stops_when_nothing_is_accepted() {
    let mut stops = vec![];
    find_optimal_stops(&mut stops, &[K; 5], |_: usize, _: usize| false);
    assert_eq!(stops, vec![0, 1, 2, 3, 4]);
}

#[test]
fn stops_when_everything_is_accepted() {
    let mut stops = vec![];
    find_optimal_stops(&mut stops, &[K; 6], |_: usize, _: usize| true);
    assert_eq!(stops, vec![0, 5]);
}

#[test]
fn stops_are_furthest_for_prefix_closed_acceptance() {
    for limit in 1..8usize {
        for n in 1..20usize {
            let row = vec![K; n];
            let mut stops = vec![];
            find_optimal_stops(&mut stops, &row, |s: usize, e: usize| e - s <= limit);
            let mut expected = vec![0];
            while *expected.last().unwrap() < n - 1 {
                let s = *expected.last().unwrap();
                expected.push((s + limit).min(n - 1));
            }
            assert_eq!(stops, expected);
        }
    }
}

#[test]
fn smooth_parts_skip_positions_at_row_ends() {
    let row = [K, W, R, K];
    let mut parts = vec![(R, GradientLinearData::D)];
    stops_to_smooth_gradient(&mut parts, &row, &[0, 2, 3]);
    assert_eq!(
        parts,
        vec![
            (K, GradientLinearData::C),
            (R, GradientLinearData::A(2)),
            (K, GradientLinearData::C),
        ]
    );
    stops_to_smooth_gradient(&mut parts, &row, &[1, 2]);
    assert_eq!(parts, vec![(W, GradientLinearData::A(1)), (R, GradientLinearData::A(2))]);
}

#[test]
fn smooth_row_with_equal_stop_colors_is_solid() {
    let mut stops = vec![];
    let mut parts = vec![(R, GradientLinearData::C)];
    let g = build_row_gradient(&mut stops, &mut parts, &[K, W, K], |_: usize, _: usize| true);
    assert_eq!(g, Gradient::Solid(K));
    assert_eq!(stops, vec![0, 2]);
    assert_eq!(parts, vec![(R, GradientLinearData::C)]);
}

#[test]
fn smooth_row_with_different_stop_colors() {
    let mut stops = vec![];
    let mut parts = vec![];
    let g = build_row_gradient(&mut stops, &mut parts, &[K, W, R], |_: usize, _: usize| true);
    assert_eq!(g, Gradient::Smooth);
    assert_eq!(parts, vec![(K, GradientLinearData::C), (R, GradientLinearData::C)]);
    let g = build_row_gradient(&mut stops, &mut parts, &[K, W, R, R], |s: usize, e: usize| e - s <= 1);
    assert_eq!(g, Gradient::Smooth);
    assert_eq!(stops, vec![0, 1, 2, 3]);
    assert_eq!(
        parts,
        vec![
            (K, GradientLinearData::C),
            (W, GradientLinearData::A(1)),
            (R, GradientLinearData::A(2)),
            (R, GradientLinearData::C),
        ]
    );
}
