use pixelsort::config::{default_random_bounds, default_threshold_bounds, Config, ConfigError,
    Exclusion, Rotation};
use pixelsort::grid::column_of;
use pixelsort::grid::pixel_sort;
use pixelsort::grid::rotate180;
use pixelsort::grid::rotate270;
use pixelsort::grid::rotate90;
use pixelsort::grid::ImageGrid;
use pixelsort::ratio::Ratio;
use pixelsort::sort::Metric;
use pixelsort::Pixel;

fn gray(v: u8) -> Pixel {
    Pixel::new(v, v, v)
}

fn grid_2x3() -> ImageGrid {
    // row-major, width 2, height 3
    let pixels = vec![gray(0), gray(1), gray(2), gray(3), gray(4), gray(5)];
    ImageGrid::new(2, 3, pixels).unwrap()
}

#[test]
fn grid_construction_checks_dimensions() {
    assert!(ImageGrid::new(2, 3, vec![gray(0); 6]).is_some());
    assert!(ImageGrid::new(2, 3, vec![gray(0); 5]).is_none());
    assert!(ImageGrid::new(0, 0, Vec::new()).is_some());
}

#[test]
fn column_extraction() {
    let g = grid_2x3();
    assert_eq!(column_of(&g, 0), vec![gray(0), gray(2), gray(4)]);
    assert_eq!(column_of(&g, 1), vec![gray(1), gray(3), gray(5)]);
}

#[test]
fn rotate90_moves_left_column_to_top_row() {
    let g = grid_2x3();
    let r = rotate90(&g);
    assert_eq!(r.width, 3);
    assert_eq!(r.height, 2);
    // clockwise: new top row is the old left column read bottom-up
    assert_eq!(r.pixels, vec![gray(4), gray(2), gray(0), gray(5), gray(3), gray(1)]);
}

#[test]
fn rotation_round_trips_restore_the_image() {
    let g = grid_2x3();
    let a = rotate270(&rotate90(&g));
    assert_eq!(a.width, g.width);
    assert_eq!(a.height, g.height);
    assert_eq!(a.pixels, g.pixels);
    let b = rotate90(&rotate270(&g));
    assert_eq!(b.pixels, g.pixels);
    let c = rotate180(&rotate180(&g));
    assert_eq!(c.pixels, g.pixels);
}

#[test]
fn config_validation() {
    let ok = Config::new(
        Metric::Lightness,
        Exclusion::Threshold {
            metric: Metric::Lightness,
            lower: Ratio { num: 25, den: 100 },
            upper: Ratio { num: 80, den: 100 },
        },
        Rotation::Rot0,
    );
    assert!(ok.is_ok());

    // a bound above 1 is rejected
    let bad = Config::new(
        Metric::Hue,
        Exclusion::Threshold {
            metric: Metric::Hue,
            lower: Ratio { num: 5, den: 4 },
            upper: Ratio { num: 80, den: 100 },
        },
        Rotation::Rot90,
    );
    assert_eq!(bad.unwrap_err(), ConfigError::BoundOutOfRange);

    // a zero denominator is rejected
    let bad = Config::new(
        Metric::Hue,
        Exclusion::Threshold {
            metric: Metric::Saturation,
            lower: Ratio { num: 0, den: 0 },
            upper: Ratio { num: 80, den: 100 },
        },
        Rotation::Rot0,
    );
    assert_eq!(bad.unwrap_err(), ConfigError::BoundOutOfRange);

    // an empty random range is rejected
    let bad = Config::new(
        Metric::Lightness,
        Exclusion::Random { lower: 5, upper: 5 },
        Rotation::Rot180,
    );
    assert_eq!(bad.unwrap_err(), ConfigError::EmptyRandomRange);

    let ok = Config::new(Metric::Lightness, Exclusion::Random { lower: 0, upper: 5 },
        Rotation::Rot270);
    assert!(ok.is_ok());
}

#[test]
fn default_bounds_follow_the_sort_metric() {
    let (lo, hi) = default_threshold_bounds(Metric::Lightness);
    assert_eq!(lo, Ratio { num: 25, den: 100 });
    assert_eq!(hi, Ratio { num: 80, den: 100 });
    let (_, hi) = default_threshold_bounds(Metric::Saturation);
    assert_eq!(hi, Ratio { num: 60, den: 100 });
    assert_eq!(default_random_bounds(), (0, 5));
}

#[test]
fn pixel_sort_single_column_scenario() {
    // the five-pixel lightness scenario as a whole 1x5 image
    let col = vec![gray(26), gray(128), gray(230), gray(77), gray(153)];
    let g = ImageGrid::new(1, 5, col.clone()).unwrap();
    let cfg = Config::new(
        Metric::Lightness,
        Exclusion::Threshold {
            metric: Metric::Lightness,
            lower: Ratio { num: 25, den: 100 },
            upper: Ratio { num: 80, den: 100 },
        },
        Rotation::Rot0,
    )
    .unwrap();
    let out = pixel_sort(&g, &cfg);
    assert_eq!(out.width, 1);
    assert_eq!(out.height, 5);
    // already in run order here, so the image is unchanged
    assert_eq!(out.pixels, col);
}

#[test]
fn pixel_sort_sorts_down_each_column() {
    // one column of descending lightness and permissive bounds: ascending out
    let g = ImageGrid::new(1, 4, vec![gray(200), gray(150), gray(100), gray(50)]).unwrap();
    let cfg = Config::new(
        Metric::Lightness,
        Exclusion::Threshold {
            metric: Metric::Lightness,
            lower: Ratio { num: 0, den: 1 },
            upper: Ratio { num: 1, den: 1 },
        },
        Rotation::Rot0,
    )
    .unwrap();
    let out = pixel_sort(&g, &cfg);
    assert_eq!(out.pixels, vec![gray(50), gray(100), gray(150), gray(200)]);
}

#[test]
fn pixel_sort_rotation_chooses_the_axis() {
    // a single row: with no rotation each column is one pixel, nothing moves
    let row = vec![gray(200), gray(50), gray(150), gray(100)];
    let g = ImageGrid::new(4, 1, row.clone()).unwrap();
    let threshold = Exclusion::Threshold {
        metric: Metric::Lightness,
        lower: Ratio { num: 0, den: 1 },
        upper: Ratio { num: 1, den: 1 },
    };
    let cfg = Config::new(Metric::Lightness, threshold, Rotation::Rot0).unwrap();
    let out = pixel_sort(&g, &cfg);
    assert_eq!(out.pixels, row);

    // rotating by 90 degrees sorts along the row and restores the orientation
    let cfg = Config::new(Metric::Lightness, threshold, Rotation::Rot90).unwrap();
    let out = pixel_sort(&g, &cfg);
    assert_eq!(out.width, 4);
    assert_eq!(out.height, 1);
    let mut expect = row.clone();
    expect.sort_by_key(|p| p.r);
    assert_eq!(out.pixels, expect);

    // rotating by 270 sorts along the row in the other direction
    let cfg = Config::new(Metric::Lightness, threshold, Rotation::Rot270).unwrap();
    let out = pixel_sort(&g, &cfg);
    assert_eq!(out.width, 4);
    assert_eq!(out.height, 1);
    let mut expect = row.clone();
    expect.sort_by_key(|p| std::cmp::Reverse(p.r));
    assert_eq!(out.pixels, expect);
}

#[test]
fn pixel_sort_preserves_dimensions_and_pixels() {
    let pixels: Vec<Pixel> = (0u32..24)
        .map(|i| Pixel::new((i * 11 % 256) as u8, (i * 53 % 256) as u8, (i * 97 % 256) as u8))
        .collect();
    let g = ImageGrid::new(4, 6, pixels.clone()).unwrap();
    for rotation in [Rotation::Rot0, Rotation::Rot90, Rotation::Rot180, Rotation::Rot270] {
        let cfg = Config::new(
            Metric::Hue,
            Exclusion::Threshold {
                metric: Metric::Saturation,
                lower: Ratio { num: 25, den: 100 },
                upper: Ratio { num: 60, den: 100 },
            },
            rotation,
        )
        .unwrap();
        let out = pixel_sort(&g, &cfg);
        assert_eq!(out.width, 4);
        assert_eq!(out.height, 6);
        let mut got: Vec<(u8, u8, u8)> = out.pixels.iter().map(|p| (p.r, p.g, p.b)).collect();
        let mut want: Vec<(u8, u8, u8)> = pixels.iter().map(|p| (p.r, p.g, p.b)).collect();
        got.sort();
        want.sort();
        assert_eq!(got, want);
    }
}
