use pixelsort::exclude::{concat_runs, hsl_exclude, random_exclude, segment_runs,
    threshold_excludes};
use pixelsort::ratio::Ratio;
use pixelsort::sort::{sort_run, Metric};
use pixelsort::Pixel;

fn gray(v: u8) -> Pixel {
    Pixel::new(v, v, v)
}

fn sorted_channels(pixels: &[Pixel]) -> Vec<(u8, u8, u8)> {
    let mut v: Vec<(u8, u8, u8)> = pixels.iter().map(|p| (p.r, p.g, p.b)).collect();
    v.sort();
    v
}

#[test]
fn threshold_boundary_is_strict() {
    // gray(64) has lightness exactly 128/510
    let p = gray(64);
    let exact = Ratio { num: 128, den: 510 };
    let above = Ratio { num: 129, den: 510 };
    let upper = Ratio { num: 80, den: 100 };
    // metric value equal to `lower` is NOT excluded
    assert!(!threshold_excludes(Metric::Lightness, exact, upper, p));
    // the same value written with a different denominator is still equal
    let exact_other = Ratio { num: 64, den: 255 };
    assert!(!threshold_excludes(Metric::Lightness, exact_other, upper, p));
    // one step below `lower` IS excluded
    assert!(threshold_excludes(Metric::Lightness, above, upper, p));

    // gray(200) has lightness exactly 400/510
    let q = gray(200);
    let lower = Ratio { num: 25, den: 100 };
    let up_exact = Ratio { num: 400, den: 510 };
    let up_below = Ratio { num: 399, den: 510 };
    // metric value equal to `upper` is NOT excluded
    assert!(!threshold_excludes(Metric::Lightness, lower, up_exact, q));
    // one step above `upper` IS excluded
    assert!(threshold_excludes(Metric::Lightness, lower, up_below, q));
}

#[test]
fn empty_column_yields_no_runs() {
    let lower = Ratio { num: 25, den: 100 };
    let upper = Ratio { num: 80, den: 100 };
    let runs = hsl_exclude(Vec::new(), Metric::Lightness, Metric::Lightness, lower, upper);
    assert_eq!(runs.len(), 0);
    let runs = random_exclude(Vec::new(), Metric::Hue, 0, 5);
    assert_eq!(runs.len(), 0);
}

#[test]
fn singleton_column_yields_one_unchanged_run() {
    let lower = Ratio { num: 25, den: 100 };
    let upper = Ratio { num: 80, den: 100 };
    // excluded pixel (dark)
    let runs = hsl_exclude(vec![gray(5)], Metric::Lightness, Metric::Lightness, lower, upper);
    assert_eq!(runs, vec![vec![gray(5)]]);
    // kept pixel (mid lightness)
    let runs = hsl_exclude(vec![gray(128)], Metric::Lightness, Metric::Lightness, lower, upper);
    assert_eq!(runs, vec![vec![gray(128)]]);
    let runs = random_exclude(vec![gray(77)], Metric::Saturation, 0, 5);
    assert_eq!(runs, vec![vec![gray(77)]]);
}

#[test]
fn lightness_scenario_five_pixels() {
    // lightness values about 0.1, 0.5, 0.9, 0.3, 0.6
    let p0 = gray(26);
    let p1 = gray(128);
    let p2 = gray(230);
    let p3 = gray(77);
    let p4 = gray(153);
    let lower = Ratio { num: 25, den: 100 };
    let upper = Ratio { num: 80, den: 100 };
    let runs = hsl_exclude(
        vec![p0, p1, p2, p3, p4],
        Metric::Lightness,
        Metric::Lightness,
        lower,
        upper,
    );
    // p0 is excluded at once; p2 terminates the run holding p1; the trailing
    // group [p3, p4] is sorted and emitted, not dropped
    assert_eq!(runs, vec![vec![p0], vec![p1, p2], vec![p3, p4]]);
    let flat = concat_runs(&runs);
    assert_eq!(flat, vec![p0, p1, p2, p3, p4]);
}

#[test]
fn runs_are_sorted_ascending_by_the_sort_metric() {
    // descending lightness, no boundary pixel: one trailing run, sorted
    let col = vec![gray(220), gray(40), gray(180), gray(90)];
    let lower = Ratio { num: 0, den: 1 };
    let upper = Ratio { num: 1, den: 1 };
    let runs = hsl_exclude(col, Metric::Lightness, Metric::Lightness, lower, upper);
    assert_eq!(runs, vec![vec![gray(40), gray(90), gray(180), gray(220)]]);
}

#[test]
fn sort_is_stable_under_coarsened_keys() {
    // 100*200/510 = 39 and 100*202/510 = 39: equal keys, order kept
    let a = gray(101);
    let b = gray(100);
    let out = sort_run(&vec![a, b], Metric::Lightness);
    assert_eq!(out, vec![a, b]);
    // a strictly smaller key still moves ahead
    let c = gray(10);
    let out = sort_run(&vec![a, b, c], Metric::Lightness);
    assert_eq!(out, vec![c, a, b]);
}

#[test]
fn segment_runs_splits_at_given_boundaries() {
    let p = [gray(200), gray(50), gray(120), gray(80)];
    let ends = vec![false, true, false, false];
    let runs = segment_runs(&p.to_vec(), &ends, Metric::Lightness);
    // pending [p0] is sorted, then the boundary pixel p1 is appended after it;
    // the trailing [p2, p3] is sorted ascending
    assert_eq!(runs, vec![vec![p[0], p[1]], vec![p[3], p[2]]]);
}

#[test]
fn permutation_invariant_on_concatenation() {
    let col = vec![
        Pixel::new(3, 250, 7),
        gray(5),
        Pixel::new(200, 10, 150),
        gray(240),
        Pixel::new(66, 66, 67),
        gray(128),
        gray(128),
    ];
    let lower = Ratio { num: 25, den: 100 };
    let upper = Ratio { num: 80, den: 100 };
    for exclude_metric in [Metric::Lightness, Metric::Saturation, Metric::Hue] {
        for sort_metric in [Metric::Lightness, Metric::Saturation, Metric::Hue] {
            let runs = hsl_exclude(col.clone(), sort_metric, exclude_metric, lower, upper);
            let flat = concat_runs(&runs);
            assert_eq!(flat.len(), col.len());
            assert_eq!(sorted_channels(&flat), sorted_channels(&col));
        }
    }
    let runs = random_exclude(col.clone(), Metric::Lightness, 0, 5);
    let flat = concat_runs(&runs);
    assert_eq!(flat.len(), col.len());
    assert_eq!(sorted_channels(&flat), sorted_channels(&col));
}

#[test]
fn random_range_without_zero_never_splits() {
    // every draw from [1, 5) is nonzero, so the column is one sorted run
    let col = vec![gray(220), gray(40), gray(180)];
    let runs = random_exclude(col, Metric::Lightness, 1, 5);
    assert_eq!(runs, vec![vec![gray(40), gray(180), gray(220)]]);
}

#[test]
fn random_range_of_only_zero_splits_everywhere() {
    // every draw from [0, 1) is 0, so every pixel ends its own run
    let col = vec![gray(220), gray(40), gray(180)];
    let runs = random_exclude(col, Metric::Lightness, 0, 1);
    assert_eq!(runs, vec![vec![gray(220)], vec![gray(40)], vec![gray(180)]]);
}

#[test]
fn exclusion_metric_is_independent_of_sort_metric() {
    // saturated red is excluded by the saturation threshold; the remaining
    // run is sorted by lightness
    let red = Pixel::new(255, 0, 0);
    let col = vec![gray(200), gray(100), red];
    let lower = Ratio { num: 0, den: 1 };
    let upper = Ratio { num: 60, den: 100 };
    let runs = hsl_exclude(col, Metric::Lightness, Metric::Saturation, lower, upper);
    assert_eq!(runs, vec![vec![gray(100), gray(200), red]]);
}
