//! Run segmentation: walking a column, deciding where runs end, sorting each
//! run, and reassembling the column.
//!
//! A pixel that the exclusion rule marks as a boundary ends the pending run:
//! the pending pixels are sorted stably by the sort metric and the boundary
//! pixel is appended after them, unsorted. Pixels still pending when the
//! column ends form a final run that is sorted and emitted: dropping a
//! trailing, non-terminated group would break the permutation invariant, so
//! it never happens here.

use vstd::prelude::*;

use vstd::multiset::Multiset;

use rand::Rng;

use crate::Pixel;
use crate::ratio::{Ratio, ratio_lt, ratio_eq, ratio_leq, lemma_ratio_eq_compat};
use crate::sort::{Metric, metric_spec, metric_value, run_sorted_spec, sort_run,
    lemma_run_sorted_multiset};

verus! {

/// Threshold exclusion: a pixel ends the run exactly when its metric value
/// falls strictly below `lower` or strictly above `upper`.
pub open spec fn excluded(e: Metric, lower: Ratio, upper: Ratio, p: Pixel) -> bool {
    ratio_lt(metric_spec(e, p), lower) || ratio_lt(upper, metric_spec(e, p))
}

/// Decides threshold exclusion for one pixel.
pub fn threshold_excludes(e: Metric, lower: Ratio, upper: Ratio, p: Pixel) -> (r: bool)
    ensures
        r == excluded(e, lower, upper, p),
{
    let v = metric_value(e, p);
    crate::ratio::ratio_lt_exec(v, lower) || crate::ratio::ratio_lt_exec(upper, v)
}

/// Threshold boundary law: a pixel whose metric value equals `lower` or
/// `upper` exactly (as a rational, whatever its representation) is not
/// excluded; one strictly below `lower` or strictly above `upper` is.
pub proof fn lemma_threshold_boundary(e: Metric, lower: Ratio, upper: Ratio, p: Pixel)
    requires
        lower.wf(),
        upper.wf(),
        ratio_leq(lower, upper),
    ensures
        ratio_eq(metric_spec(e, p), lower) ==> !excluded(e, lower, upper, p),
        ratio_eq(metric_spec(e, p), upper) ==> !excluded(e, lower, upper, p),
        ratio_lt(metric_spec(e, p), lower) ==> excluded(e, lower, upper, p),
        ratio_lt(upper, metric_spec(e, p)) ==> excluded(e, lower, upper, p),
{
    let v = metric_spec(e, p);
    crate::sort::lemma_metric_wf(e, p);
    if ratio_eq(v, lower) {
        lemma_ratio_eq_compat(v, lower, lower);
        lemma_ratio_eq_compat(v, lower, upper);
        crate::ratio::lemma_ratio_leq_not_lt(lower, upper);
    }
    if ratio_eq(v, upper) {
        lemma_ratio_eq_compat(v, upper, upper);
        lemma_ratio_eq_compat(v, upper, lower);
        crate::ratio::lemma_ratio_leq_not_lt(lower, upper);
    }
}

/// The boundary decisions that threshold exclusion takes on a column.
pub open spec fn excl_ends(s: Seq<Pixel>, e: Metric, lower: Ratio, upper: Ratio) -> Seq<bool> {
    Seq::new(s.len(), |i: int| excluded(e, lower, upper, s[i]))
}

/// State of the segmentation walk after the first `n` pixels: the completed
/// runs, and the pixels still pending. A `true` in `ends` marks the pixel as
/// a run boundary: the pending group is sorted, the boundary pixel appended
/// after it, and the run emitted.
pub open spec fn seg_steps(s: Seq<Pixel>, ends: Seq<bool>, m: Metric, n: int) -> (Seq<Seq<Pixel>>,
    Seq<Pixel>)
    decreases n,
{
    if n <= 0 {
        (Seq::<Seq<Pixel>>::empty(), Seq::<Pixel>::empty())
    } else {
        let prev = seg_steps(s, ends, m, n - 1);
        if ends[n - 1] {
            (prev.0.push(run_sorted_spec(prev.1, m).push(s[n - 1])), Seq::<Pixel>::empty())
        } else {
            (prev.0, prev.1.push(s[n - 1]))
        }
    }
}

/// The runs a column maps to under given boundary decisions: the completed
/// runs of the walk, followed by the sorted trailing group if one remains.
pub open spec fn runs_of(s: Seq<Pixel>, ends: Seq<bool>, m: Metric) -> Seq<Seq<Pixel>> {
    let fin = seg_steps(s, ends, m, s.len() as int);
    if fin.1.len() == 0 {
        fin.0
    } else {
        fin.0.push(run_sorted_spec(fin.1, m))
    }
}

/// The abstract contents of a vector of runs.
pub open spec fn views_of(rs: Seq<Vec<Pixel>>) -> Seq<Seq<Pixel>> {
    rs.map_values(|v: Vec<Pixel>| v@)
}

/// All runs, concatenated back into one column.
pub open spec fn concat_all(rs: Seq<Seq<Pixel>>) -> Seq<Pixel>
    decreases rs.len(),
{
    if rs.len() == 0 {
        Seq::<Pixel>::empty()
    } else {
        concat_all(rs.drop_last()) + rs.last()
    }
}

/// Splits a column into runs at the given boundary decisions and sorts each
/// run stably by the sort metric.
pub fn segment_runs(pixels: &Vec<Pixel>, ends: &Vec<bool>, m: Metric) -> (r: Vec<Vec<Pixel>>)
    requires
        pixels@.len() == ends@.len(),
    ensures
        views_of(r@) == runs_of(pixels@, ends@, m),
{
    let ghost s = pixels@;
    let ghost e = ends@;
    let mut done: Vec<Vec<Pixel>> = Vec::new();
    let mut pend: Vec<Pixel> = Vec::new();
    let mut i: usize = 0;
    while i < pixels.len()
        invariant
            0 <= i <= s.len(),
            pixels@ == s,
            ends@ == e,
            s.len() == e.len(),
            views_of(done@) == seg_steps(s, e, m, i as int).0,
            pend@ == seg_steps(s, e, m, i as int).1,
        decreases s.len() - i,
    {
        if ends[i] {
            let mut run = sort_run(&pend, m);
            run.push(pixels[i]);
            let ghost run_view = run@;
            done.push(run);
            pend = Vec::new();
            proof {
                assert(views_of(done@) =~= seg_steps(s, e, m, i as int).0.push(run_view));
            }
        } else {
            pend.push(pixels[i]);
        }
        i = i + 1;
    }
    if pend.len() > 0 {
        let run = sort_run(&pend, m);
        let ghost run_view = run@;
        done.push(run);
        proof {
            assert(views_of(done@) =~= seg_steps(s, e, m, s.len() as int).0.push(run_view));
        }
    }
    done
}

/// Threshold segmentation of one column: runs break exactly at the pixels the
/// exclusion metric places strictly outside `[lower, upper]`, and each run is
/// sorted stably, ascending, by the independently chosen sort metric.
pub fn hsl_exclude(
    pixels: Vec<Pixel>,
    sort_metric: Metric,
    exclude_metric: Metric,
    lower: Ratio,
    upper: Ratio,
) -> (r: Vec<Vec<Pixel>>)
    ensures
        views_of(r@) == runs_of(
            pixels@,
            excl_ends(pixels@, exclude_metric, lower, upper),
            sort_metric,
        ),
{
    let ghost s = pixels@;
    let mut ends: Vec<bool> = Vec::new();
    let mut i: usize = 0;
    while i < pixels.len()
        invariant
            0 <= i <= s.len(),
            pixels@ == s,
            ends@ =~= excl_ends(s, exclude_metric, lower, upper).subrange(0, i as int),
        decreases s.len() - i,
    {
        ends.push(threshold_excludes(exclude_metric, lower, upper, pixels[i]));
        proof {
            assert(ends@ =~= excl_ends(s, exclude_metric, lower, upper).subrange(0, i + 1));
        }
        i = i + 1;
    }
    proof {
        assert(ends@ =~= excl_ends(s, exclude_metric, lower, upper));
    }
    segment_runs(&pixels, &ends, sort_metric)
}

/// Relies on `rand::thread_rng` and `rand::Rng::gen_range`: one uniformly
/// random integer drawn from the half-open range `[lower, upper)`, which must
/// be non-empty (`gen_range` panics on an empty range).
#[verifier::external_body]
fn draw_in_range(lower: u32, upper: u32) -> (r: u32)
    requires
        lower < upper,
    ensures
        lower <= r < upper,
{
    rand::thread_rng().gen_range((lower as usize)..(upper as usize)) as u32
}

/// Probabilistic segmentation of one column: each pixel draws an integer from
/// `[lower, upper)` and ends the run exactly when the draw is 0. Whatever the
/// draws, the result is the segmentation of the column under some sequence of
/// boundary decisions; when `lower > 0` a draw can never be 0, so no pixel is
/// a boundary and the whole column is one sorted run.
pub fn random_exclude(pixels: Vec<Pixel>, sort_metric: Metric, lower: u32, upper: u32) -> (r: Vec<
    Vec<Pixel>,
>)
    requires
        lower < upper,
    ensures
        exists|ends: Seq<bool>|
            ends.len() == pixels@.len() && views_of(r@) == runs_of(pixels@, ends, sort_metric),
        lower > 0 ==> views_of(r@) == runs_of(
            pixels@,
            Seq::new(pixels@.len(), |i: int| false),
            sort_metric,
        ),
{
    let ghost s = pixels@;
    let mut ends: Vec<bool> = Vec::new();
    let mut i: usize = 0;
    while i < pixels.len()
        invariant
            0 <= i <= s.len(),
            pixels@ == s,
            ends@.len() == i,
            lower < upper,
            lower > 0 ==> forall|j: int| 0 <= j < i ==> !ends@[j],
        decreases s.len() - i,
    {
        let d = draw_in_range(lower, upper);
        ends.push(d == 0);
        i = i + 1;
    }
    let r = segment_runs(&pixels, &ends, sort_metric);
    proof {
        let w = ends@;
        assert(w.len() == s.len() && views_of(r@) == runs_of(s, w, sort_metric));
        if lower > 0 {
            assert(w =~= Seq::new(s.len(), |i: int| false));
        }
    }
    r
}

/// Concatenates the runs of a column back into one sequence of pixels.
pub fn concat_runs(runs: &Vec<Vec<Pixel>>) -> (r: Vec<Pixel>)
    ensures
        r@ == concat_all(views_of(runs@)),
{
    let mut out: Vec<Pixel> = Vec::new();
    let mut i: usize = 0;
    while i < runs.len()
        invariant
            0 <= i <= runs@.len(),
            out@ == concat_all(views_of(runs@).subrange(0, i as int)),
        decreases runs@.len() - i,
    {
        let mut j: usize = 0;
        let ghost out0 = out@;
        while j < runs[i].len()
            invariant
                0 <= i < runs@.len(),
                0 <= j <= runs@[i as int]@.len(),
                out@ == out0 + runs@[i as int]@.subrange(0, j as int),
            decreases runs@[i as int]@.len() - j,
        {
            let p = runs[i][j];
            out.push(p);
            proof {
                assert(out@ =~= out0 + runs@[i as int]@.subrange(0, j + 1));
            }
            j = j + 1;
        }
        proof {
            let pre = views_of(runs@).subrange(0, i + 1);
            assert(pre.drop_last() =~= views_of(runs@).subrange(0, i as int));
            assert(pre.last() == runs@[i as int]@);
            assert(runs@[i as int]@.subrange(0, runs@[i as int]@.len() as int) =~= runs@[i as int]@);
            assert(out@ == concat_all(pre));
        }
        i = i + 1;
    }
    proof {
        assert(views_of(runs@).subrange(0, runs@.len() as int) =~= views_of(runs@));
    }
    out
}

/// Through the first `n` steps of the walk, the completed runs and the
/// pending group together hold exactly the pixels seen so far.
proof fn lemma_seg_steps_multiset(s: Seq<Pixel>, ends: Seq<bool>, m: Metric, n: int)
    requires
        0 <= n <= s.len(),
        ends.len() == s.len(),
    ensures
        concat_all(seg_steps(s, ends, m, n).0).to_multiset().add(
            seg_steps(s, ends, m, n).1.to_multiset(),
        ) == s.subrange(0, n).to_multiset(),
    decreases n,
{
    broadcast use vstd::seq_lib::group_to_multiset_ensures;

    if n == 0 {
        assert(Seq::<Pixel>::empty().to_multiset() =~= Multiset::<Pixel>::empty());
        assert(s.subrange(0, 0) =~= Seq::<Pixel>::empty());
        assert(Multiset::<Pixel>::empty().add(Multiset::<Pixel>::empty())
            =~= Multiset::<Pixel>::empty());
    } else {
        lemma_seg_steps_multiset(s, ends, m, n - 1);
        let prev = seg_steps(s, ends, m, n - 1);
        let p = s[n - 1];
        assert(s.subrange(0, n) =~= s.subrange(0, n - 1).push(p));
        assert(s.subrange(0, n).to_multiset() == s.subrange(0, n - 1).to_multiset().insert(p));
        if ends[n - 1] {
            let run = run_sorted_spec(prev.1, m).push(p);
            let cur = seg_steps(s, ends, m, n);
            assert(cur.0 == prev.0.push(run));
            assert(cur.0.drop_last() =~= prev.0);
            assert(concat_all(cur.0) == concat_all(prev.0) + run);
            vstd::seq_lib::lemma_multiset_commutative(concat_all(prev.0), run);
            lemma_run_sorted_multiset(prev.1, m);
            assert(run.to_multiset() == prev.1.to_multiset().insert(p));
            assert(Seq::<Pixel>::empty().to_multiset() =~= Multiset::<Pixel>::empty());
            assert(concat_all(prev.0).to_multiset().add(prev.1.to_multiset().insert(p)).add(
                Multiset::<Pixel>::empty(),
            ) =~= concat_all(prev.0).to_multiset().add(prev.1.to_multiset()).insert(p));
        } else {
            assert(prev.1.push(p).to_multiset() == prev.1.to_multiset().insert(p));
            assert(concat_all(prev.0).to_multiset().add(prev.1.to_multiset().insert(p))
                =~= concat_all(prev.0).to_multiset().add(prev.1.to_multiset()).insert(p));
        }
    }
}

/// Permutation invariant: for any column, any sequence of boundary decisions
/// (threshold or probabilistic) and any sort metric, concatenating the output
/// runs yields exactly the original pixels as a multiset — none is created,
/// dropped or duplicated — and the total length is preserved.
pub proof fn lemma_runs_permutation(s: Seq<Pixel>, ends: Seq<bool>, m: Metric)
    requires
        ends.len() == s.len(),
    ensures
        concat_all(runs_of(s, ends, m)).to_multiset() == s.to_multiset(),
        concat_all(runs_of(s, ends, m)).len() == s.len(),
    decreases s.len(),
{
    broadcast use vstd::seq_lib::group_to_multiset_ensures;

    lemma_seg_steps_multiset(s, ends, m, s.len() as int);
    let fin = seg_steps(s, ends, m, s.len() as int);
    assert(s.subrange(0, s.len() as int) =~= s);
    if fin.1.len() == 0 {
        assert(fin.1.to_multiset() =~= Multiset::<Pixel>::empty());
        assert(concat_all(fin.0).to_multiset().add(Multiset::<Pixel>::empty()) =~= concat_all(
            fin.0,
        ).to_multiset());
    } else {
        let rs = fin.0.push(run_sorted_spec(fin.1, m));
        assert(rs.drop_last() =~= fin.0);
        assert(concat_all(rs) == concat_all(fin.0) + run_sorted_spec(fin.1, m));
        vstd::seq_lib::lemma_multiset_commutative(concat_all(fin.0), run_sorted_spec(fin.1, m));
        lemma_run_sorted_multiset(fin.1, m);
    }
    assert(concat_all(runs_of(s, ends, m)).to_multiset().len() == concat_all(
        runs_of(s, ends, m),
    ).len());
    assert(s.to_multiset().len() == s.len());
}

/// Every run in the walk's completed output is non-empty.
proof fn lemma_seg_steps_nonempty(s: Seq<Pixel>, ends: Seq<bool>, m: Metric, n: int)
    requires
        0 <= n <= s.len(),
        ends.len() == s.len(),
    ensures
        forall|i: int|
            0 <= i < seg_steps(s, ends, m, n).0.len() ==> (#[trigger] seg_steps(
                s,
                ends,
                m,
                n,
            ).0[i]).len() > 0,
    decreases n,
{
    if n > 0 {
        lemma_seg_steps_nonempty(s, ends, m, n - 1);
        let prev = seg_steps(s, ends, m, n - 1);
        if ends[n - 1] {
            assert(forall|i: int|
                0 <= i < prev.0.len() ==> seg_steps(s, ends, m, n).0[i] == prev.0[i]);
        }
    }
}

/// A run is never empty: every run a column maps to holds at least one pixel.
pub proof fn lemma_runs_nonempty(s: Seq<Pixel>, ends: Seq<bool>, m: Metric)
    requires
        ends.len() == s.len(),
    ensures
        forall|i: int|
            0 <= i < runs_of(s, ends, m).len() ==> (#[trigger] runs_of(s, ends, m)[i]).len() > 0,
{
    lemma_seg_steps_nonempty(s, ends, m, s.len() as int);
    let fin = seg_steps(s, ends, m, s.len() as int);
    if fin.1.len() > 0 {
        lemma_run_sorted_multiset(fin.1, m);
        assert(forall|i: int|
            0 <= i < fin.0.len() ==> runs_of(s, ends, m)[i] == fin.0[i]);
    }
}

/// Degenerate columns: an empty column yields no runs at all, and a
/// one-pixel column yields exactly one run holding that pixel unchanged,
/// whatever the boundary decision and sort metric.
pub proof fn lemma_runs_degenerate(s: Seq<Pixel>, ends: Seq<bool>, m: Metric)
    requires
        ends.len() == s.len(),
    ensures
        s.len() == 0 ==> runs_of(s, ends, m) =~= Seq::<Seq<Pixel>>::empty(),
        s.len() == 1 ==> runs_of(s, ends, m) =~= seq![seq![s[0]]],
{
    if s.len() == 1 {
        let prev = seg_steps(s, ends, m, 0);
        assert(run_sorted_spec(Seq::<Pixel>::empty(), m) =~= Seq::<Pixel>::empty());
        if ends[0] {
            assert(runs_of(s, ends, m) =~= seq![seq![s[0]]]);
        } else {
            let one = seg_steps(s, ends, m, 1).1;
            assert(one =~= seq![s[0]]);
            lemma_run_sorted_singleton(s[0], m);
        }
    }
}

/// Sorting a one-pixel run returns that pixel unchanged.
proof fn lemma_run_sorted_singleton(p: Pixel, m: Metric)
    ensures
        run_sorted_spec(seq![p], m) =~= seq![p],
{
    let ks = crate::sort::keyed_seq(seq![p], m);
    assert(ks.len() == 1);
    assert(ks.drop_last() =~= Seq::<crate::sort::Keyed>::empty());
    assert(crate::sort::sort_keyed(ks.drop_last()) == Seq::<crate::sort::Keyed>::empty());
    assert(crate::sort::sort_keyed(ks) == crate::sort::insert_keyed(
        Seq::<crate::sort::Keyed>::empty(),
        ks.last(),
    ));
    assert(crate::sort::sort_keyed(ks) == seq![ks.last()]);
    assert(ks.last() == ks[0]);
    assert(crate::sort::px_of(seq![ks[0]]) =~= seq![p]);
}

} // verus!
