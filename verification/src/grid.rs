//! The raster image as the engine sees it: a row-major grid of pixels.
//!
//! Rotation in steps of 90° is pure coordinate arithmetic on the grid, so it
//! is implemented and verified here; decoding and encoding image files is
//! left to the surrounding program.

use vstd::prelude::*;

use crate::Pixel;
use crate::config::{Config, Exclusion, Rotation};
use crate::exclude::{concat_all, concat_runs, excl_ends, hsl_exclude, lemma_runs_permutation,
    random_exclude, runs_of};
use crate::sort::Metric;

verus! {

/// A raster image: `width * height` pixels, row-major (index `y*width + x`).
pub struct ImageGrid {
    pub width: usize,
    pub height: usize,
    pub pixels: Vec<Pixel>,
}

impl ImageGrid {
    /// Well-formed: the pixel buffer holds exactly one pixel per coordinate.
    pub open spec fn wf(self) -> bool {
        self.pixels@.len() == self.width * self.height
    }

    /// The pixel at column `x`, row `y`.
    pub open spec fn pixel_at(self, x: int, y: int) -> Pixel {
        self.pixels@[y * self.width + x]
    }

    /// Builds a grid from a row-major buffer; succeeds exactly when the
    /// buffer length matches the dimensions.
    pub fn new(width: usize, height: usize, pixels: Vec<Pixel>) -> (r: Option<ImageGrid>)
        ensures
            r is Some <==> pixels@.len() == width * height,
            r matches Some(g) ==> g.width == width && g.height == height && g.pixels == pixels
                && g.wf(),
    {
        proof {
            assert((width as int) * (height as int) <= u128::MAX) by (nonlinear_arith)
                requires
                    0 <= width <= u64::MAX,
                    0 <= height <= u64::MAX,
            ;
        }
        if (pixels.len() as u128) == (width as u128) * (height as u128) {
            Some(ImageGrid { width, height, pixels })
        } else {
            None
        }
    }
}

/// A row-major index is in range and names the expected coordinate.
pub proof fn lemma_grid_index(w: int, h: int, x: int, y: int)
    requires
        0 <= x < w,
        0 <= y < h,
    ensures
        0 <= y * w + x < w * h,
{
    assert(0 <= y * w + x < w * h) by (nonlinear_arith)
        requires
            0 <= x < w,
            0 <= y < h,
    ;
}

/// The pixels of column `x`, top to bottom.
pub open spec fn col_spec(g: ImageGrid, x: int) -> Seq<Pixel> {
    Seq::new(g.height as nat, |y: int| g.pixel_at(x, y))
}

/// Extracts one column of the grid.
pub fn column_of(g: &ImageGrid, x: usize) -> (r: Vec<Pixel>)
    requires
        g.wf(),
        x < g.width,
    ensures
        r@ == col_spec(*g, x as int),
{
    let n = g.pixels.len();
    let mut out: Vec<Pixel> = Vec::new();
    let mut y: usize = 0;
    while y < g.height
        invariant
            g.wf(),
            x < g.width,
            0 <= y <= g.height,
            n == g.pixels@.len(),
            out@ =~= col_spec(*g, x as int).subrange(0, y as int),
        decreases g.height - y,
    {
        proof {
            lemma_grid_index(g.width as int, g.height as int, x as int, y as int);
            assert(y * g.width <= y * g.width + x < g.pixels@.len());
        }
        out.push(g.pixels[y * g.width + x]);
        proof {
            assert(out@ =~= col_spec(*g, x as int).subrange(0, y + 1));
        }
        y = y + 1;
    }
    proof {
        assert(col_spec(*g, x as int).subrange(0, g.height as int) =~= col_spec(*g, x as int));
    }
    out
}

/// `b` is `a` rotated 90° clockwise.
pub open spec fn is_rot90(a: ImageGrid, b: ImageGrid) -> bool {
    &&& b.width == a.height
    &&& b.height == a.width
    &&& b.wf()
    &&& forall|x: int, y: int|
        0 <= x < b.width && 0 <= y < b.height ==> #[trigger] b.pixel_at(x, y) == a.pixel_at(
            y,
            a.height - 1 - x,
        )
}

/// `b` is `a` rotated 90° counterclockwise (that is, 270° clockwise).
pub open spec fn is_rot270(a: ImageGrid, b: ImageGrid) -> bool {
    &&& b.width == a.height
    &&& b.height == a.width
    &&& b.wf()
    &&& forall|x: int, y: int|
        0 <= x < b.width && 0 <= y < b.height ==> #[trigger] b.pixel_at(x, y) == a.pixel_at(
            a.width - 1 - y,
            x,
        )
}

/// `b` is `a` rotated 180°.
pub open spec fn is_rot180(a: ImageGrid, b: ImageGrid) -> bool {
    &&& b.width == a.width
    &&& b.height == a.height
    &&& b.wf()
    &&& forall|x: int, y: int|
        0 <= x < b.width && 0 <= y < b.height ==> #[trigger] b.pixel_at(x, y) == a.pixel_at(
            a.width - 1 - x,
            a.height - 1 - y,
        )
}

/// Builds the rotated grid row-major, reading each pixel from its source
/// coordinate (`quarter` counts clockwise quarter turns).
fn build_rotated(g: &ImageGrid, w: usize, h: usize, quarter: u8) -> (r: ImageGrid)
    requires
        g.wf(),
        quarter == 1 || quarter == 2 || quarter == 3,
        quarter == 1 ==> w == g.height && h == g.width,
        quarter == 2 ==> w == g.width && h == g.height,
        quarter == 3 ==> w == g.height && h == g.width,
    ensures
        quarter == 1 ==> is_rot90(*g, r),
        quarter == 2 ==> is_rot180(*g, r),
        quarter == 3 ==> is_rot270(*g, r),
        r.width == w,
        r.height == h,
        r.wf(),
{
    let n = g.pixels.len();
    let mut out: Vec<Pixel> = Vec::new();
    let mut y: usize = 0;
    while y < h
        invariant
            g.wf(),
            quarter == 1 || quarter == 2 || quarter == 3,
            quarter == 1 ==> w == g.height && h == g.width,
            quarter == 2 ==> w == g.width && h == g.height,
            quarter == 3 ==> w == g.height && h == g.width,
            0 <= y <= h,
            n == g.pixels@.len(),
            out@.len() == y * w,
            forall|xx: int, yy: int|
                0 <= xx < w && 0 <= yy < y ==> #[trigger] out@[yy * w + xx] == src_pixel(
                    *g,
                    w,
                    h,
                    quarter,
                    xx,
                    yy,
                ),
        decreases h - y,
    {
        let mut x: usize = 0;
        while x < w
            invariant
                g.wf(),
                quarter == 1 || quarter == 2 || quarter == 3,
                quarter == 1 ==> w == g.height && h == g.width,
                quarter == 2 ==> w == g.width && h == g.height,
                quarter == 3 ==> w == g.height && h == g.width,
                0 <= y < h,
                0 <= x <= w,
                n == g.pixels@.len(),
                out@.len() == y * w + x,
                forall|xx: int, yy: int|
                    0 <= xx < w && 0 <= yy < y ==> #[trigger] out@[yy * w + xx] == src_pixel(
                        *g,
                        w,
                        h,
                        quarter,
                        xx,
                        yy,
                    ),
                forall|xx: int|
                    0 <= xx < x ==> #[trigger] out@[y * w + xx] == src_pixel(
                        *g,
                        w,
                        h,
                        quarter,
                        xx,
                        y as int,
                    ),
            decreases w - x,
        {
            let (sx, sy) = if quarter == 1 {
                (y, g.height - 1 - x)
            } else if quarter == 2 {
                (g.width - 1 - x, g.height - 1 - y)
            } else {
                (g.width - 1 - y, x)
            };
            proof {
                lemma_grid_index(g.width as int, g.height as int, sx as int, sy as int);
                lemma_grid_index(w as int, h as int, x as int, y as int);
                assert(sy * g.width <= sy * g.width + sx < g.pixels@.len());
            }
            out.push(g.pixels[sy * g.width + sx]);
            proof {
                assert forall|xx: int, yy: int|
                    0 <= xx < w && 0 <= yy < y implies #[trigger] out@[yy * w + xx] == src_pixel(
                    *g,
                    w,
                    h,
                    quarter,
                    xx,
                    yy,
                ) by {
                    lemma_grid_index(w as int, h as int, xx, yy);
                    assert(yy * w + xx < y * w + x) by (nonlinear_arith)
                        requires
                            0 <= xx < w,
                            0 <= yy < y,
                            0 <= x,
                    ;
                }
            }
            x = x + 1;
        }
        proof {
            assert((y as int + 1) * (w as int) == y as int * w as int + w as int)
                by (nonlinear_arith);
        }
        y = y + 1;
    }
    proof {
        assert(out@.len() == h * w);
        assert(h * w == w * h) by (nonlinear_arith);
    }
    let r = ImageGrid { width: w, height: h, pixels: out };
    proof {
        assert forall|xx: int, yy: int| 0 <= xx < w && 0 <= yy < h implies #[trigger] r.pixel_at(
            xx,
            yy,
        ) == src_pixel(*g, w, h, quarter, xx, yy) by {}
    }
    r
}

/// Where a rotated grid's pixel at `(x, y)` comes from in the source.
pub open spec fn src_pixel(g: ImageGrid, w: usize, h: usize, quarter: u8, x: int, y: int) -> Pixel {
    if quarter == 1 {
        g.pixel_at(y, g.height - 1 - x)
    } else if quarter == 2 {
        g.pixel_at(g.width - 1 - x, g.height - 1 - y)
    } else {
        g.pixel_at(g.width - 1 - y, x)
    }
}

/// Rotates the grid 90° clockwise.
pub fn rotate90(g: &ImageGrid) -> (r: ImageGrid)
    requires
        g.wf(),
    ensures
        is_rot90(*g, r),
{
    build_rotated(g, g.height, g.width, 1)
}

/// Rotates the grid 180°.
pub fn rotate180(g: &ImageGrid) -> (r: ImageGrid)
    requires
        g.wf(),
    ensures
        is_rot180(*g, r),
{
    build_rotated(g, g.width, g.height, 2)
}

/// Rotates the grid 90° counterclockwise.
pub fn rotate270(g: &ImageGrid) -> (r: ImageGrid)
    requires
        g.wf(),
    ensures
        is_rot270(*g, r),
{
    build_rotated(g, g.height, g.width, 3)
}

/// What one processed column must look like. Under threshold exclusion the
/// output column is pinned exactly; under probabilistic exclusion it is the
/// segmentation under some sequence of boundary draws — and under a range
/// that cannot draw 0, the whole column is one sorted run.
pub open spec fn col_result_ok(
    excl: Exclusion,
    m: Metric,
    orig: Seq<Pixel>,
    out: Seq<Pixel>,
) -> bool {
    match excl {
        Exclusion::Threshold { metric, lower, upper } => out == concat_all(
            runs_of(orig, excl_ends(orig, metric, lower, upper), m),
        ),
        Exclusion::Random { lower, upper } => {
            &&& exists|ends: Seq<bool>|
                ends.len() == orig.len() && out == concat_all(runs_of(orig, ends, m))
            &&& (lower > 0 ==> out == concat_all(
                runs_of(orig, Seq::new(orig.len(), |i: int| false), m),
            ))
        },
    }
}

/// `b` is `a` with every column segmented and sorted under the configuration.
pub open spec fn is_sorted_grid(excl: Exclusion, m: Metric, a: ImageGrid, b: ImageGrid) -> bool {
    &&& b.width == a.width
    &&& b.height == a.height
    &&& b.wf()
    &&& forall|x: int|
        0 <= x < a.width ==> col_result_ok(excl, m, col_spec(a, x), #[trigger] col_spec(b, x))
}

/// Processes every column of the grid independently: each is segmented into
/// runs by the exclusion rule and each run is sorted by the sort metric.
/// Dimensions are preserved, and each output column is exactly the
/// reassembled runs of its input column.
pub fn sort_columns(g: &ImageGrid, sort_metric: Metric, excl: &Exclusion) -> (r: ImageGrid)
    requires
        g.wf(),
        excl.wf(),
    ensures
        is_sorted_grid(*excl, sort_metric, *g, r),
{
    let w = g.width;
    let h = g.height;
    let mut cols: Vec<Vec<Pixel>> = Vec::new();
    let mut x: usize = 0;
    while x < w
        invariant
            g.wf(),
            excl.wf(),
            w == g.width,
            h == g.height,
            0 <= x <= w,
            cols@.len() == x,
            forall|xx: int|
                0 <= xx < x ==> col_result_ok(
                    *excl,
                    sort_metric,
                    col_spec(*g, xx),
                    (#[trigger] cols@[xx])@,
                ),
            forall|xx: int| 0 <= xx < x ==> (#[trigger] cols@[xx])@.len() == h,
        decreases w - x,
    {
        let col = column_of(g, x);
        let ghost orig = col@;
        let runs = match excl {
            Exclusion::Threshold { metric, lower, upper } => hsl_exclude(
                col,
                sort_metric,
                *metric,
                *lower,
                *upper,
            ),
            Exclusion::Random { lower, upper } => random_exclude(col, sort_metric, *lower, *upper),
        };
        let flat = concat_runs(&runs);
        proof {
            match *excl {
                Exclusion::Threshold { metric, lower, upper } => {
                    lemma_runs_permutation(orig, excl_ends(orig, metric, lower, upper), sort_metric);
                },
                Exclusion::Random { lower, upper } => {
                    let ends = choose|ends: Seq<bool>|
                        ends.len() == orig.len() && crate::exclude::views_of(runs@) == runs_of(
                            orig,
                            ends,
                            sort_metric,
                        );
                    lemma_runs_permutation(orig, ends, sort_metric);
                    if lower > 0 {
                        lemma_runs_permutation(
                            orig,
                            Seq::new(orig.len(), |i: int| false),
                            sort_metric,
                        );
                    }
                },
            }
        }
        cols.push(flat);
        x = x + 1;
    }

    let mut out: Vec<Pixel> = Vec::new();
    let mut y: usize = 0;
    while y < h
        invariant
            0 <= y <= h,
            cols@.len() == w,
            forall|xx: int| 0 <= xx < w ==> (#[trigger] cols@[xx])@.len() == h,
            out@.len() == y * w,
            forall|xx: int, yy: int|
                0 <= xx < w && 0 <= yy < y ==> #[trigger] out@[yy * w + xx] == cols@[xx]@[yy],
        decreases h - y,
    {
        let mut x: usize = 0;
        while x < w
            invariant
                0 <= y < h,
                0 <= x <= w,
                cols@.len() == w,
                forall|xx: int| 0 <= xx < w ==> (#[trigger] cols@[xx])@.len() == h,
                out@.len() == y * w + x,
                forall|xx: int, yy: int|
                    0 <= xx < w && 0 <= yy < y ==> #[trigger] out@[yy * w + xx] == cols@[xx]@[yy],
                forall|xx: int| 0 <= xx < x ==> #[trigger] out@[y * w + xx] == cols@[xx]@[y as int],
            decreases w - x,
        {
            proof {
                lemma_grid_index(w as int, h as int, x as int, y as int);
            }
            let p = cols[x][y];
            out.push(p);
            proof {
                assert forall|xx: int, yy: int|
                    0 <= xx < w && 0 <= yy < y implies #[trigger] out@[yy * w + xx]
                    == cols@[xx]@[yy] by {
                    lemma_grid_index(w as int, h as int, xx, yy);
                    assert(yy * w + xx < y * w + x) by (nonlinear_arith)
                        requires
                            0 <= xx < w,
                            0 <= yy < y,
                            0 <= x,
                    ;
                }
            }
            x = x + 1;
        }
        proof {
            assert((y as int + 1) * (w as int) == y as int * w as int + w as int)
                by (nonlinear_arith);
        }
        y = y + 1;
    }
    proof {
        assert(out@.len() == h * w);
        assert(h * w == w * h) by (nonlinear_arith);
    }
    let r = ImageGrid { width: w, height: h, pixels: out };
    proof {
        assert forall|x: int| 0 <= x < w implies col_result_ok(
            *excl,
            sort_metric,
            col_spec(*g, x),
            #[trigger] col_spec(r, x),
        ) by {
            assert(col_spec(r, x) =~= cols@[x]@);
        }
    }
    r
}

/// `b` is `a` turned by the given rotation.
pub open spec fn is_rotated(rot: Rotation, a: ImageGrid, b: ImageGrid) -> bool {
    match rot {
        Rotation::Rot0 => b.width == a.width && b.height == a.height && b.pixels@ == a.pixels@
            && b.wf(),
        Rotation::Rot90 => is_rot90(a, b),
        Rotation::Rot180 => is_rot180(a, b),
        Rotation::Rot270 => is_rot270(a, b),
    }
}

/// The rotation that undoes the given one.
pub open spec fn inverse_rotation(rot: Rotation) -> Rotation {
    match rot {
        Rotation::Rot0 => Rotation::Rot0,
        Rotation::Rot90 => Rotation::Rot270,
        Rotation::Rot180 => Rotation::Rot180,
        Rotation::Rot270 => Rotation::Rot90,
    }
}

fn copy_grid(g: &ImageGrid) -> (r: ImageGrid)
    ensures
        r.width == g.width,
        r.height == g.height,
        r.pixels@ == g.pixels@,
{
    let mut pixels: Vec<Pixel> = Vec::new();
    let mut i: usize = 0;
    while i < g.pixels.len()
        invariant
            0 <= i <= g.pixels@.len(),
            pixels@ =~= g.pixels@.subrange(0, i as int),
        decreases g.pixels@.len() - i,
    {
        pixels.push(g.pixels[i]);
        proof {
            assert(pixels@ =~= g.pixels@.subrange(0, i + 1));
        }
        i = i + 1;
    }
    proof {
        assert(g.pixels@.subrange(0, g.pixels@.len() as int) =~= g.pixels@);
    }
    ImageGrid { width: g.width, height: g.height, pixels }
}

/// The whole effect: rotate the grid as configured (choosing the processing
/// axis), segment and sort every column, and rotate back. The result has the
/// original dimensions, and there are a rotated grid `t` and a processed grid
/// `s` that witness exactly this composition.
pub fn pixel_sort(g: &ImageGrid, cfg: &Config) -> (r: ImageGrid)
    requires
        g.wf(),
        cfg.wf(),
    ensures
        r.wf(),
        r.width == g.width,
        r.height == g.height,
        exists|t: ImageGrid, s: ImageGrid|
            is_rotated(cfg.rotation, *g, t) && #[trigger] is_sorted_grid(
                cfg.exclusion,
                cfg.sort_metric,
                t,
                s,
            ) && is_rotated(inverse_rotation(cfg.rotation), s, r),
{
    match cfg.rotation {
        Rotation::Rot0 => {
            let t = copy_grid(g);
            let s = sort_columns(&t, cfg.sort_metric, &cfg.exclusion);
            let r = copy_grid(&s);
            proof {
                assert(is_rotated(cfg.rotation, *g, t) && is_sorted_grid(
                    cfg.exclusion,
                    cfg.sort_metric,
                    t,
                    s,
                ) && is_rotated(inverse_rotation(cfg.rotation), s, r));
            }
            r
        },
        Rotation::Rot90 => {
            let t = rotate90(g);
            let s = sort_columns(&t, cfg.sort_metric, &cfg.exclusion);
            let r = rotate270(&s);
            proof {
                assert(is_rotated(cfg.rotation, *g, t) && is_sorted_grid(
                    cfg.exclusion,
                    cfg.sort_metric,
                    t,
                    s,
                ) && is_rotated(inverse_rotation(cfg.rotation), s, r));
            }
            r
        },
        Rotation::Rot180 => {
            let t = rotate180(g);
            let s = sort_columns(&t, cfg.sort_metric, &cfg.exclusion);
            let r = rotate180(&s);
            proof {
                assert(is_rotated(cfg.rotation, *g, t) && is_sorted_grid(
                    cfg.exclusion,
                    cfg.sort_metric,
                    t,
                    s,
                ) && is_rotated(inverse_rotation(cfg.rotation), s, r));
            }
            r
        },
        Rotation::Rot270 => {
            let t = rotate270(g);
            let s = sort_columns(&t, cfg.sort_metric, &cfg.exclusion);
            let r = rotate90(&s);
            proof {
                assert(is_rotated(cfg.rotation, *g, t) && is_sorted_grid(
                    cfg.exclusion,
                    cfg.sort_metric,
                    t,
                    s,
                ) && is_rotated(inverse_rotation(cfg.rotation), s, r));
            }
            r
        },
    }
}

/// Rotation round-trip law: turning a grid a quarter turn one way and then a
/// quarter turn the other way (in either order) restores it exactly — same
/// dimensions, same pixel at every coordinate, same buffer.
pub proof fn lemma_rotation_round_trip(a: ImageGrid, b: ImageGrid, c: ImageGrid)
    requires
        a.wf(),
        (is_rot90(a, b) && is_rot270(b, c)) || (is_rot270(a, b) && is_rot90(b, c)),
    ensures
        c.width == a.width,
        c.height == a.height,
        forall|x: int, y: int|
            0 <= x < a.width && 0 <= y < a.height ==> #[trigger] c.pixel_at(x, y) == a.pixel_at(
                x,
                y,
            ),
        c.pixels@ == a.pixels@,
{
    assert forall|x: int, y: int|
        0 <= x < a.width && 0 <= y < a.height implies #[trigger] c.pixel_at(x, y) == a.pixel_at(
        x,
        y,
    ) by {
        if is_rot90(a, b) && is_rot270(b, c) {
            assert(c.pixel_at(x, y) == b.pixel_at(b.width - 1 - y, x));
            assert(b.pixel_at(a.height - 1 - y, x) == a.pixel_at(x, y));
        } else {
            assert(c.pixel_at(x, y) == b.pixel_at(y, b.height - 1 - x));
            assert(b.pixel_at(y, a.width - 1 - x) == a.pixel_at(x, y));
        }
    }
    assert(c.pixels@.len() == a.pixels@.len()) by {
        assert(c.width * c.height == a.width * a.height);
    }
    assert forall|i: int| 0 <= i < a.pixels@.len() implies c.pixels@[i] == a.pixels@[i] by {
        let w = a.width as int;
        let h = a.height as int;
        assert(w * h == a.pixels@.len());
        if w > 0 {
            vstd::arithmetic::div_mod::lemma_fundamental_div_mod(i, w);
            vstd::arithmetic::div_mod::lemma_mod_bound(i, w);
            let y = i / w;
            let x = i % w;
            assert(0 <= y && y < h) by (nonlinear_arith)
                requires
                    i == w * y + x,
                    0 <= x < w,
                    0 <= i,
                    i < w * h,
                    w > 0,
            ;
            assert(c.pixel_at(x, y) == a.pixel_at(x, y));
            assert(y * w + x == i) by (nonlinear_arith)
                requires
                    i == w * y + x,
            ;
        } else {
            assert(w * h == 0) by (nonlinear_arith)
                requires
                    w == 0,
            ;
        }
    }
    assert(c.pixels@ =~= a.pixels@);
}

} // verus!
