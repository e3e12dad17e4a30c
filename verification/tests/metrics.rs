use pixelsort::Pixel;
use pixelsort::ratio::{ratio_lt_exec, Ratio};
use pixelsort::sort::{hue, luminance, saturation, sort_key, Metric};

fn gray(v: u8) -> Pixel {
    Pixel::new(v, v, v)
}

#[test]
fn luminance_exact_values() {
    // (max + min) / 510
    assert_eq!(luminance(Pixel::new(255, 0, 0)), Ratio { num: 255, den: 510 });
    assert_eq!(luminance(gray(128)), Ratio { num: 256, den: 510 });
    assert_eq!(luminance(gray(0)), Ratio { num: 0, den: 510 });
    assert_eq!(luminance(gray(255)), Ratio { num: 510, den: 510 });
    assert_eq!(luminance(Pixel::new(10, 200, 60)), Ratio { num: 210, den: 510 });
}

#[test]
fn saturation_exact_values() {
    // dark red: max+min = 255, not above 255, so (max-min)/(510-max-min)
    assert_eq!(saturation(Pixel::new(255, 0, 0)), Ratio { num: 255, den: 255 });
    // light chromatic pixel: max+min = 300 > 255, so (max-min)/(max+min)
    assert_eq!(saturation(Pixel::new(200, 100, 100)), Ratio { num: 100, den: 300 });
    // dark chromatic pixel: max+min = 150 <= 255
    assert_eq!(saturation(Pixel::new(100, 50, 50)), Ratio { num: 50, den: 360 });
}

#[test]
fn hue_exact_values() {
    // primary colors at 0, 1/3 and 2/3 of a turn
    assert_eq!(hue(Pixel::new(255, 0, 0)), Ratio { num: 0, den: 1530 });
    assert_eq!(hue(Pixel::new(0, 255, 0)), Ratio { num: 510, den: 1530 });
    assert_eq!(hue(Pixel::new(0, 0, 255)), Ratio { num: 1020, den: 1530 });
    // magenta sits at 300 degrees = 5/6 of a turn: the negative raw offset
    // is rotated up by a full turn
    assert_eq!(hue(Pixel::new(255, 0, 255)), Ratio { num: 1275, den: 1530 });
}

#[test]
fn degenerate_gray_pixels() {
    // R == G == B: saturation and hue are both exactly 0
    for v in [0u8, 1, 77, 128, 254, 255] {
        assert_eq!(saturation(gray(v)).num, 0);
        assert_eq!(hue(gray(v)).num, 0);
    }
}

#[test]
fn metric_functions_are_pure() {
    let p = Pixel::new(13, 200, 91);
    assert_eq!(luminance(p), luminance(p));
    assert_eq!(saturation(p), saturation(p));
    assert_eq!(hue(p), hue(p));
}

#[test]
fn sort_keys_scale_and_truncate() {
    // 100 * 256 / 510 = 50 (truncated from 50.19..)
    assert_eq!(sort_key(Metric::Lightness, gray(128)), 50);
    // fully saturated red
    assert_eq!(sort_key(Metric::Saturation, Pixel::new(255, 0, 0)), 100);
    // green hue: 100 * 510 / 1530 = 33 (truncated from 33.33..)
    assert_eq!(sort_key(Metric::Hue, Pixel::new(0, 255, 0)), 33);
    // achromatic pixels have key 0 under saturation and hue
    assert_eq!(sort_key(Metric::Saturation, gray(99)), 0);
    assert_eq!(sort_key(Metric::Hue, gray(99)), 0);
}

#[test]
fn ratio_comparison_is_exact() {
    let third = Ratio { num: 1, den: 3 };
    let half = Ratio { num: 1, den: 2 };
    assert!(ratio_lt_exec(third, half));
    assert!(!ratio_lt_exec(half, third));
    // equal values in different representations are not less than each other
    let a = Ratio { num: 128, den: 510 };
    let b = Ratio { num: 64, den: 255 };
    assert!(!ratio_lt_exec(a, b));
    assert!(!ratio_lt_exec(b, a));
}
