//! Visual metrics on pixels and the stable run sort.
//!
//! Each metric maps a pixel to an exact rational in [0, 1]. Channel values are
//! normalized by 255, so every metric is a ratio of small integer expressions
//! and is computed exactly — no floating point is involved.
//!
//! Sort keys coarsen the metric: the value is scaled by 100 and truncated to an
//! integer, so pixels within 1/100 of metric value compare equal and keep their
//! original relative order under the stable sort.

use vstd::prelude::*;

use vstd::multiset::Multiset;

use crate::Pixel;
use crate::ratio::Ratio;

verus! {

/// The closed set of visual metrics a run can be sorted (or excluded) by.
#[derive(Clone, Copy, PartialEq, Eq, Structural, Debug)]
pub enum Metric {
    Lightness,
    Saturation,
    Hue,
}

/// Largest channel of a pixel.
pub open spec fn pix_max(p: Pixel) -> int {
    if p.r >= p.g && p.r >= p.b {
        p.r as int
    } else if p.g >= p.b {
        p.g as int
    } else {
        p.b as int
    }
}

/// Smallest channel of a pixel.
pub open spec fn pix_min(p: Pixel) -> int {
    if p.r <= p.g && p.r <= p.b {
        p.r as int
    } else if p.g <= p.b {
        p.g as int
    } else {
        p.b as int
    }
}

/// HSL lightness `(max + min) / 2` of channels normalized by 255,
/// so exactly `(max + min) / 510`.
pub open spec fn lightness_spec(p: Pixel) -> Ratio {
    Ratio { num: (pix_max(p) + pix_min(p)) as u32, den: 510 }
}

/// HSL saturation: 0 when the pixel is achromatic; otherwise
/// `(max - min) / (max + min)` when normalized lightness exceeds 1/2,
/// else `(max - min) / (2 - max - min)`, channels normalized by 255.
pub open spec fn saturation_spec(p: Pixel) -> Ratio {
    let mx = pix_max(p);
    let mn = pix_min(p);
    if mx == mn {
        Ratio { num: 0, den: 1 }
    } else if mx + mn > 255 {
        Ratio { num: (mx - mn) as u32, den: (mx + mn) as u32 }
    } else {
        Ratio { num: (mx - mn) as u32, den: (510 - mx - mn) as u32 }
    }
}

/// HSL hue as an angle fraction in [0, 1): 0 when achromatic; otherwise the
/// standard sector formula `(g-b)/d`, `2+(b-r)/d` or `4+(r-g)/d` (for the
/// maximal channel, with `d = max - min`), scaled by 60° and normalized by
/// 360°, with a negative result rotated up by one turn. The whole expression
/// is the exact rational `num / (6 d)`.
pub open spec fn hue_spec(p: Pixel) -> Ratio {
    let mx = pix_max(p);
    let mn = pix_min(p);
    let d = mx - mn;
    if d == 0 {
        Ratio { num: 0, den: 1 }
    } else {
        let raw = if p.r as int == mx {
            p.g - p.b
        } else if p.g as int == mx {
            2 * d + (p.b - p.r)
        } else {
            4 * d + (p.r - p.g)
        };
        let num = if raw < 0 {
            raw + 6 * d
        } else {
            raw
        };
        Ratio { num: num as u32, den: (6 * d) as u32 }
    }
}

/// The metric value of a pixel: a pure function of the pixel alone.
pub open spec fn metric_spec(m: Metric, p: Pixel) -> Ratio {
    match m {
        Metric::Lightness => lightness_spec(p),
        Metric::Saturation => saturation_spec(p),
        Metric::Hue => hue_spec(p),
    }
}

fn max3(a: u8, b: u8, c: u8) -> (r: u8)
    ensures
        r as int == if a >= b && a >= c { a as int } else if b >= c { b as int } else { c as int },
{
    if a >= b && a >= c {
        a
    } else if b >= c {
        b
    } else {
        c
    }
}

fn min3(a: u8, b: u8, c: u8) -> (r: u8)
    ensures
        r as int == if a <= b && a <= c { a as int } else if b <= c { b as int } else { c as int },
{
    if a <= b && a <= c {
        a
    } else if b <= c {
        b
    } else {
        c
    }
}

/// Lightness of a pixel, exactly `(max + min) / 510`.
pub fn luminance(p: Pixel) -> (r: Ratio)
    ensures
        r == lightness_spec(p),
        r.wf(),
{
    let mx = max3(p.r, p.g, p.b) as u32;
    let mn = min3(p.r, p.g, p.b) as u32;
    Ratio { num: mx + mn, den: 510 }
}

/// Saturation of a pixel; 0 exactly when all channels are equal.
pub fn saturation(p: Pixel) -> (r: Ratio)
    ensures
        r == saturation_spec(p),
        r.wf(),
        r.is_zero() <==> pix_max(p) == pix_min(p),
{
    let mx = max3(p.r, p.g, p.b) as u32;
    let mn = min3(p.r, p.g, p.b) as u32;
    if mx == mn {
        Ratio { num: 0, den: 1 }
    } else if mx + mn > 255 {
        Ratio { num: mx - mn, den: mx + mn }
    } else {
        Ratio { num: mx - mn, den: 510 - mx - mn }
    }
}

/// Hue of a pixel as an exact fraction of a full turn; 0 when achromatic.
///
/// This follows the standard HSL sector formula, kept exact: the whole
/// channel difference is divided by `d` (dividing the lone blue channel
/// first would be wrong), and the final scaling by 1/360 stays rational —
/// truncating it to an integer would collapse almost every hue to 0.
pub fn hue(p: Pixel) -> (r: Ratio)
    ensures
        r == hue_spec(p),
        r.wf(),
        pix_max(p) == pix_min(p) ==> r.is_zero(),
{
    let mx = max3(p.r, p.g, p.b);
    let mn = min3(p.r, p.g, p.b);
    if mx == mn {
        return Ratio { num: 0, den: 1 };
    }
    let d = mx as i32 - mn as i32;
    let raw: i32 = if p.r == mx {
        p.g as i32 - p.b as i32
    } else if p.g == mx {
        2 * d + (p.b as i32 - p.r as i32)
    } else {
        4 * d + (p.r as i32 - p.g as i32)
    };
    let num: i32 = if raw < 0 {
        raw + 6 * d
    } else {
        raw
    };
    Ratio { num: num as u32, den: (6 * d) as u32 }
}

/// The metric value of a pixel, dispatched over the metric selector.
pub fn metric_value(m: Metric, p: Pixel) -> (r: Ratio)
    ensures
        r == metric_spec(m, p),
        r.wf(),
{
    match m {
        Metric::Lightness => luminance(p),
        Metric::Saturation => saturation(p),
        Metric::Hue => hue(p),
    }
}

/// Every metric value is a well-formed ratio in [0, 1].
pub proof fn lemma_metric_wf(m: Metric, p: Pixel)
    ensures
        metric_spec(m, p).wf(),
{
}

/// Each metric is pure: its value is a function of the pixel alone, so two
/// evaluations on the same pixel always agree.
pub proof fn lemma_metric_pure(m: Metric, p: Pixel, q: Pixel)
    requires
        p == q,
    ensures
        metric_spec(m, p) == metric_spec(m, q),
{
}

/// A pixel with equal channels is degenerate: its saturation and hue are 0.
pub proof fn lemma_degenerate_gray(p: Pixel)
    requires
        p.r == p.g,
        p.g == p.b,
    ensures
        saturation_spec(p).is_zero(),
        hue_spec(p).is_zero(),
{
}

/// The coarsened sort key: the metric value scaled by 100 and truncated.
pub open spec fn key_of(m: Metric, p: Pixel) -> int {
    100 * metric_spec(m, p).num / metric_spec(m, p).den as int
}

/// Computes the coarsened sort key of a pixel.
pub fn sort_key(m: Metric, p: Pixel) -> (k: u32)
    ensures
        k as int == key_of(m, p),
        k <= 100,
{
    let v = metric_value(m, p);
    let k64: u64 = 100 * (v.num as u64) / (v.den as u64);
    proof {
        assert(100 * (v.num as int) / (v.den as int) <= 100 && 100 * (v.num as int) / (v.den
            as int) >= 0) by (nonlinear_arith)
            requires
                v.num <= v.den,
                0 < v.den,
        ;
    }
    k64 as u32
}

/// A pixel tagged with its coarsened sort key and its original position in
/// the run. Sorting strictly by `(key, idx)` makes the sort stable: among
/// equal keys, the original order decides.
#[derive(Clone, Copy, PartialEq, Eq, Structural, Debug)]
pub struct Keyed {
    pub key: u32,
    pub idx: usize,
    pub px: Pixel,
}

/// Non-strict lexicographic order on `(key, idx)`.
pub open spec fn lex_leq(a: Keyed, b: Keyed) -> bool {
    a.key < b.key || (a.key == b.key && a.idx <= b.idx)
}

/// Strict lexicographic order on `(key, idx)`.
pub open spec fn lex_lt(a: Keyed, b: Keyed) -> bool {
    a.key < b.key || (a.key == b.key && a.idx < b.idx)
}

/// Strictly sorted by `(key, idx)`.
pub open spec fn strict_sorted(t: Seq<Keyed>) -> bool {
    forall|i: int, j: int| 0 <= i < j < t.len() ==> lex_lt(#[trigger] t[i], #[trigger] t[j])
}

/// Every element's original position lies below `n`.
pub open spec fn idx_below(t: Seq<Keyed>, n: int) -> bool {
    forall|i: int| 0 <= i < t.len() ==> (#[trigger] t[i]).idx < n
}

/// Insertion into a sorted sequence, from the right, placing the new element
/// after any element that does not exceed it.
pub open spec fn insert_keyed(t: Seq<Keyed>, x: Keyed) -> Seq<Keyed>
    decreases t.len(),
{
    if t.len() == 0 {
        seq![x]
    } else if lex_leq(t.last(), x) {
        t.push(x)
    } else {
        insert_keyed(t.drop_last(), x).push(t.last())
    }
}

/// Insertion sort of a keyed run, strictly ordered by `(key, idx)`.
pub open spec fn sort_keyed(s: Seq<Keyed>) -> Seq<Keyed>
    decreases s.len(),
{
    if s.len() == 0 {
        Seq::<Keyed>::empty()
    } else {
        insert_keyed(sort_keyed(s.drop_last()), s.last())
    }
}

/// Inserting adds one element, adds exactly `x` to the multiset, and — when
/// the new element's position tag exceeds every existing one — keeps the
/// sequence strictly sorted.
pub proof fn lemma_insert_keyed(t: Seq<Keyed>, x: Keyed)
    ensures
        insert_keyed(t, x).len() == t.len() + 1,
        insert_keyed(t, x).to_multiset() == t.to_multiset().insert(x),
        strict_sorted(t) && idx_below(t, x.idx as int) ==> strict_sorted(insert_keyed(t, x))
            && idx_below(insert_keyed(t, x), x.idx + 1),
    decreases t.len(),
{
    broadcast use vstd::seq_lib::group_to_multiset_ensures;

    if t.len() == 0 {
        assert(seq![x] =~= Seq::<Keyed>::empty().push(x));
        assert(Seq::<Keyed>::empty().to_multiset() =~= Multiset::<Keyed>::empty());
    } else if lex_leq(t.last(), x) {
        if strict_sorted(t) && idx_below(t, x.idx as int) {
            assert forall|i: int, j: int|
                0 <= i < j < t.push(x).len() implies lex_lt(
                #[trigger] t.push(x)[i],
                #[trigger] t.push(x)[j],
            ) by {
                if j < t.len() {
                } else {
                    assert(t.push(x)[i] == t[i]);
                    if i < t.len() - 1 {
                        assert(lex_lt(t[i], t.last()));
                    }
                }
            }
        }
    } else {
        let d = t.drop_last();
        let l = t.last();
        lemma_insert_keyed(d, x);
        assert(t =~= d.push(l));
        assert(t.to_multiset() == d.to_multiset().insert(l));
        assert(insert_keyed(t, x).to_multiset() == d.to_multiset().insert(x).insert(l));
        assert(d.to_multiset().insert(x).insert(l) =~= d.to_multiset().insert(l).insert(x));
        if strict_sorted(t) && idx_below(t, x.idx as int) {
            assert(strict_sorted(d)) by {
                assert(forall|i: int| 0 <= i < d.len() ==> d[i] == t[i]);
            }
            assert(idx_below(d, x.idx as int)) by {
                assert(forall|i: int| 0 <= i < d.len() ==> d[i] == t[i]);
            }
            let ins = insert_keyed(d, x);
            // every element of the recursive insertion precedes the saved last
            assert forall|i: int| 0 <= i < ins.len() implies lex_lt(#[trigger] ins[i], l) by {
                assert(ins.to_multiset().count(ins[i]) > 0);
                assert(ins.contains(ins[i]));
                assert(d.to_multiset().insert(x).count(ins[i]) > 0);
                if ins[i] == x {
                    assert(lex_lt(x, l));
                } else {
                    assert(d.to_multiset().count(ins[i]) > 0);
                    assert(d.contains(ins[i]));
                    let j = choose|j: int| 0 <= j < d.len() && d[j] == ins[i];
                    assert(lex_lt(t[j], t.last()));
                }
            }
            let res = ins.push(l);
            assert forall|i: int, j: int| 0 <= i < j < res.len() implies lex_lt(
                #[trigger] res[i],
                #[trigger] res[j],
            ) by {
                if j < ins.len() {
                    assert(res[i] == ins[i] && res[j] == ins[j]);
                } else {
                    assert(res[j] == l);
                    assert(res[i] == ins[i]);
                }
            }
            assert forall|i: int| 0 <= i < res.len() implies (#[trigger] res[i]).idx < x.idx
                + 1 by {
                if i < ins.len() {
                } else {
                    assert(res[i] == l);
                }
            }
        }
    }
}

/// Positions strictly increase along a keyed run taken from a column.
pub open spec fn idx_increasing(s: Seq<Keyed>) -> bool {
    forall|i: int, j: int| 0 <= i < j < s.len() ==> (#[trigger] s[i]).idx < (#[trigger] s[j]).idx
}

/// Sorting a keyed run with strictly increasing position tags keeps its
/// length and multiset and yields a strictly `(key, idx)`-sorted sequence.
pub proof fn lemma_sort_keyed(s: Seq<Keyed>)
    requires
        idx_increasing(s),
    ensures
        sort_keyed(s).len() == s.len(),
        sort_keyed(s).to_multiset() == s.to_multiset(),
        strict_sorted(sort_keyed(s)),
    decreases s.len(),
{
    broadcast use vstd::seq_lib::group_to_multiset_ensures;

    if s.len() == 0 {
        assert(Seq::<Keyed>::empty().to_multiset() =~= Multiset::<Keyed>::empty());
    } else {
        let d = s.drop_last();
        let l = s.last();
        assert(idx_increasing(d)) by {
            assert(forall|i: int| 0 <= i < d.len() ==> d[i] == s[i]);
        }
        lemma_sort_keyed(d);
        let sd = sort_keyed(d);
        assert(idx_below(sd, l.idx as int)) by {
            assert forall|i: int| 0 <= i < sd.len() implies (#[trigger] sd[i]).idx < l.idx by {
                assert(sd.to_multiset().count(sd[i]) > 0);
                assert(sd.contains(sd[i]));
                assert(d.to_multiset().count(sd[i]) > 0);
                assert(d.contains(sd[i]));
                let j = choose|j: int| 0 <= j < d.len() && d[j] == sd[i];
                assert(s[j].idx < s[s.len() - 1].idx);
            }
        }
        lemma_insert_keyed(sd, l);
        assert(s =~= d.push(l));
        assert(s.to_multiset() == d.to_multiset().insert(l));
    }
}

/// The pixels of a run, each tagged with its coarsened key and position.
pub open spec fn keyed_seq(s: Seq<Pixel>, m: Metric) -> Seq<Keyed> {
    Seq::new(
        s.len(),
        |i: int| Keyed { key: key_of(m, s[i]) as u32, idx: i as usize, px: s[i] },
    )
}

/// The pixels carried by a keyed sequence, in order.
pub open spec fn px_of(t: Seq<Keyed>) -> Seq<Pixel> {
    t.map_values(|k: Keyed| k.px)
}

/// What sorting one run means: tag each pixel with `(key, position)`, sort
/// strictly by that pair, and read the pixels back off.
pub open spec fn run_sorted_spec(s: Seq<Pixel>, m: Metric) -> Seq<Pixel> {
    px_of(sort_keyed(keyed_seq(s, m)))
}

/// Reading pixels off an insertion adds exactly the inserted pixel.
proof fn lemma_px_insert_multiset(t: Seq<Keyed>, x: Keyed)
    ensures
        px_of(insert_keyed(t, x)).to_multiset() == px_of(t).to_multiset().insert(x.px),
    decreases t.len(),
{
    broadcast use vstd::seq_lib::group_to_multiset_ensures;

    if t.len() == 0 {
        assert(px_of(seq![x]) =~= px_of(Seq::<Keyed>::empty()).push(x.px));
        assert(px_of(Seq::<Keyed>::empty()).to_multiset() =~= Multiset::<Pixel>::empty());
    } else if lex_leq(t.last(), x) {
        assert(px_of(t.push(x)) =~= px_of(t).push(x.px));
    } else {
        let d = t.drop_last();
        let l = t.last();
        lemma_px_insert_multiset(d, x);
        assert(px_of(insert_keyed(t, x)) =~= px_of(insert_keyed(d, x)).push(l.px));
        assert(px_of(t) =~= px_of(d).push(l.px));
        assert(px_of(d).to_multiset().insert(x.px).insert(l.px) =~= px_of(d).to_multiset().insert(
            l.px,
        ).insert(x.px));
    }
}

/// Permutation invariant of one run: sorting a run neither adds nor drops a
/// pixel — the multiset of pixels is unchanged, and so is the length.
pub proof fn lemma_run_sorted_multiset(s: Seq<Pixel>, m: Metric)
    ensures
        run_sorted_spec(s, m).to_multiset() == s.to_multiset(),
        run_sorted_spec(s, m).len() == s.len(),
    decreases s.len(),
{
    broadcast use vstd::seq_lib::group_to_multiset_ensures;

    let ks = keyed_seq(s, m);
    if s.len() == 0 {
        assert(px_of(Seq::<Keyed>::empty()) =~= Seq::<Pixel>::empty());
        assert(Seq::<Pixel>::empty().to_multiset() =~= Multiset::<Pixel>::empty());
        assert(s.to_multiset() =~= Multiset::<Pixel>::empty());
    } else {
        let d = s.drop_last();
        lemma_run_sorted_multiset(d, m);
        assert(ks.drop_last() =~= keyed_seq(d, m));
        assert(sort_keyed(ks) == insert_keyed(sort_keyed(keyed_seq(d, m)), ks.last()));
        lemma_px_insert_multiset(sort_keyed(keyed_seq(d, m)), ks.last());
        assert(s =~= d.push(s.last()));
        assert(s.to_multiset() == d.to_multiset().insert(s.last()));
        lemma_insert_keyed(sort_keyed(keyed_seq(d, m)), ks.last());
        lemma_sort_keyed_len_helper(keyed_seq(d, m));
    }
}

/// Sorting keeps the length of a keyed run.
proof fn lemma_sort_keyed_len_helper(s: Seq<Keyed>)
    ensures
        sort_keyed(s).len() == s.len(),
    decreases s.len(),
{
    if s.len() > 0 {
        lemma_sort_keyed_len_helper(s.drop_last());
        lemma_insert_keyed(sort_keyed(s.drop_last()), s.last());
    }
}

/// Stable sort law. Writing `t` for the sorted keyed run of a column run `s`:
/// every slot of `t` carries the pixel of its recorded source position, keys
/// are non-decreasing along `t`, and two slots with equal (coarsened) keys
/// keep their original relative order — the sort is stable.
pub proof fn lemma_stable_sort_order(s: Seq<Pixel>, m: Metric)
    requires
        s.len() <= usize::MAX,
    ensures
        sort_keyed(keyed_seq(s, m)).len() == s.len(),
        forall|k: int|
            0 <= k < s.len() ==> {
                let e = #[trigger] sort_keyed(keyed_seq(s, m))[k];
                0 <= e.idx < s.len() && e.px == s[e.idx as int] && e.key == key_of(
                    m,
                    s[e.idx as int],
                )
            },
        forall|i: int, j: int|
            0 <= i < j < s.len() ==> (#[trigger] sort_keyed(keyed_seq(s, m))[i]).key <= (
            #[trigger] sort_keyed(keyed_seq(s, m))[j]).key,
        forall|i: int, j: int|
            0 <= i < j < s.len() && (#[trigger] sort_keyed(keyed_seq(s, m))[i]).key == (
            #[trigger] sort_keyed(keyed_seq(s, m))[j]).key ==> sort_keyed(keyed_seq(s, m))[i].idx
                < sort_keyed(keyed_seq(s, m))[j].idx,
{
    broadcast use vstd::seq_lib::group_to_multiset_ensures;

    let ks = keyed_seq(s, m);
    let t = sort_keyed(ks);
    assert(forall|i: int| 0 <= i < ks.len() ==> (#[trigger] ks[i]).idx == i);
    lemma_sort_keyed(ks);
    assert forall|k: int| 0 <= k < s.len() implies {
        let e = #[trigger] t[k];
        0 <= e.idx < s.len() && e.px == s[e.idx as int] && e.key == key_of(m, s[e.idx as int])
    } by {
        assert(t.to_multiset().count(t[k]) > 0);
        assert(t.contains(t[k]));
        assert(ks.to_multiset().count(t[k]) > 0);
        assert(ks.contains(t[k]));
        let j = choose|j: int| 0 <= j < ks.len() && ks[j] == t[k];
        assert(ks[j].idx == j);
    }
}

fn lex_leq_exec(a: &Keyed, b: &Keyed) -> (r: bool)
    ensures
        r == lex_leq(*a, *b),
{
    a.key < b.key || (a.key == b.key && a.idx <= b.idx)
}

/// Skipping a suffix of elements that all exceed `x` commutes with insertion.
proof fn lemma_insert_skip(t: Seq<Keyed>, x: Keyed, k: int)
    requires
        0 <= k <= t.len(),
        forall|j: int| k <= j < t.len() ==> !lex_leq(#[trigger] t[j], x),
    ensures
        insert_keyed(t, x) == insert_keyed(t.subrange(0, k), x) + t.subrange(k, t.len() as int),
    decreases t.len() - k,
{
    if k == t.len() {
        assert(t.subrange(0, k) =~= t);
        assert(insert_keyed(t, x) + t.subrange(k, t.len() as int) =~= insert_keyed(t, x));
    } else {
        let d = t.drop_last();
        let l = t.last();
        assert(!lex_leq(l, x));
        assert(d =~= t.subrange(0, t.len() - 1));
        lemma_insert_skip(d, x, k);
        assert(d.subrange(0, k) =~= t.subrange(0, k));
        assert(insert_keyed(t, x) == insert_keyed(d, x).push(l));
        assert((insert_keyed(t.subrange(0, k), x) + d.subrange(k, d.len() as int)).push(l)
            =~= insert_keyed(t.subrange(0, k), x) + t.subrange(k, t.len() as int));
    }
}

/// Inserts `x` into an already sorted vector, shifting greater elements right.
fn insert_exec(v: &mut Vec<Keyed>, x: Keyed)
    ensures
        final(v)@ == insert_keyed(old(v)@, x),
{
    let ghost t0 = v@;
    let mut i: usize = v.len();
    v.push(x);
    while i > 0 && !lex_leq_exec(&v[i - 1], &x)
        invariant
            0 <= i <= t0.len(),
            v@.len() == t0.len() + 1,
            v@ == t0.subrange(0, i as int) + seq![x] + t0.subrange(i as int, t0.len() as int),
            forall|j: int| i <= j < t0.len() ==> !lex_leq(#[trigger] t0[j], x),
        decreases i,
    {
        proof {
            assert(v@[i - 1] == t0[i - 1]);
        }
        let prev = v[i - 1];
        v.set(i - 1, x);
        v.set(i, prev);
        i = i - 1;
        proof {
            assert(v@ =~= t0.subrange(0, i as int) + seq![x] + t0.subrange(
                i as int,
                t0.len() as int,
            ));
        }
    }
    proof {
        lemma_insert_skip(t0, x, i as int);
        if i > 0 {
            assert(v@[i - 1] == t0[i - 1]);
            let p = t0.subrange(0, i as int);
            assert(p.last() == t0[i - 1]);
            assert(lex_leq(p.last(), x));
            assert(insert_keyed(p, x) == p.push(x));
            assert(p.push(x) =~= p + seq![x]);
        } else {
            assert(t0.subrange(0, 0) =~= Seq::<Keyed>::empty());
            assert(insert_keyed(t0.subrange(0, 0), x) =~= Seq::<Keyed>::empty() + seq![x]);
        }
        assert(v@ =~= insert_keyed(t0.subrange(0, i as int), x) + t0.subrange(
            i as int,
            t0.len() as int,
        ));
    }
}

/// Sorts one run of pixels, stably, ascending by the coarsened metric key.
pub fn sort_run(pixels: &Vec<Pixel>, m: Metric) -> (r: Vec<Pixel>)
    ensures
        r@ == run_sorted_spec(pixels@, m),
        r@.to_multiset() == pixels@.to_multiset(),
        r@.len() == pixels@.len(),
{
    let ghost s = pixels@;
    let mut keyed: Vec<Keyed> = Vec::new();
    let mut i: usize = 0;
    while i < pixels.len()
        invariant
            0 <= i <= pixels@.len(),
            pixels@ == s,
            keyed@ =~= keyed_seq(s, m).subrange(0, i as int),
        decreases pixels@.len() - i,
    {
        let p = pixels[i];
        let k = sort_key(m, p);
        keyed.push(Keyed { key: k, idx: i, px: p });
        proof {
            assert(keyed@ =~= keyed_seq(s, m).subrange(0, i + 1));
        }
        i = i + 1;
    }
    proof {
        assert(keyed@ =~= keyed_seq(s, m));
    }

    let ghost full = keyed@;
    let mut sorted: Vec<Keyed> = Vec::new();
    let mut i: usize = 0;
    while i < keyed.len()
        invariant
            0 <= i <= full.len(),
            keyed@ == full,
            sorted@ == sort_keyed(full.subrange(0, i as int)),
        decreases full.len() - i,
    {
        proof {
            let pre = full.subrange(0, i + 1);
            assert(pre.drop_last() =~= full.subrange(0, i as int));
            assert(pre.last() == full[i as int]);
        }
        insert_exec(&mut sorted, keyed[i]);
        i = i + 1;
    }
    proof {
        assert(full.subrange(0, full.len() as int) =~= full);
    }

    let mut out: Vec<Pixel> = Vec::new();
    let mut i: usize = 0;
    while i < sorted.len()
        invariant
            0 <= i <= sorted@.len(),
            sorted@ == sort_keyed(keyed_seq(s, m)),
            out@ =~= px_of(sorted@.subrange(0, i as int)),
        decreases sorted@.len() - i,
    {
        out.push(sorted[i].px);
        proof {
            assert(out@ =~= px_of(sorted@.subrange(0, i + 1)));
        }
        i = i + 1;
    }
    proof {
        assert(sorted@.subrange(0, sorted@.len() as int) =~= sorted@);
        lemma_run_sorted_multiset(s, m);
    }
    out
}

} // verus!
