//! Series of points and what is derived from them for drawing.

use crate::number::Number;
use crate::rounding;
use crate::rounding::multiple_of;
use vstd::prelude::*;
use vstd::slice::{slice_subrange, slice_to_vec};

verus! {

/// The bits of positive infinity.
pub const POSITIVE_INFINITY: u64 = 0x7FF0_0000_0000_0000;

/// The bits of negative infinity.
pub const NEGATIVE_INFINITY: u64 = 0xFFF0_0000_0000_0000;

/// A point: when, and what was read.
#[derive(Clone, Copy, Debug, PartialEq, Eq, Structural)]
pub struct Point {
    pub x: Number,
    pub y: Number,
}

/// No reading is other than a number.
pub open spec fn are_numbers(pts: Seq<Point>) -> bool {
    forall|i: int| 0 <= i < pts.len() ==> !(#[trigger] pts[i]).y.is_nan() && !pts[i].x.is_nan()
}

/// The points stand in the order of their times.
pub open spec fn in_order(pts: Seq<Point>) -> bool {
    forall|i: int, j: int| 0 <= i < j < pts.len() ==> pts[i].x.at_most(pts[j].x)
}

// == Decimation ===============================================================

/// The first of the lowest points.
pub open spec fn lowest(pts: Seq<Point>) -> Point
    decreases pts.len(),
{
    if pts.len() <= 1 {
        pts[0]
    } else {
        let before = lowest(pts.drop_last());
        if pts.last().y.less(before.y) {
            pts.last()
        } else {
            before
        }
    }
}

/// The first of the highest points.
pub open spec fn highest(pts: Seq<Point>) -> Point
    decreases pts.len(),
{
    if pts.len() <= 1 {
        pts[0]
    } else {
        let before = highest(pts.drop_last());
        if before.y.less(pts.last().y) {
            pts.last()
        } else {
            before
        }
    }
}

/// The lowest and the highest point of a bucket, in the order of their times.
pub open spec fn extremes(pts: Seq<Point>) -> Seq<Point> {
    let lo = lowest(pts);
    let hi = highest(pts);
    if lo.x.at_most(hi.x) {
        seq![lo, hi]
    } else {
        seq![hi, lo]
    }
}

/// The extremes of each bucket of `bucket` points; the last bucket may be shorter.
pub open spec fn bucketed(pts: Seq<Point>, bucket: nat) -> Seq<Point>
    decreases pts.len(),
{
    if pts.len() == 0 || bucket == 0 {
        Seq::empty()
    } else if pts.len() <= bucket {
        extremes(pts)
    } else {
        extremes(pts.take(bucket as int)) + bucketed(pts.skip(bucket as int), bucket)
    }
}

/// How many points share a bucket where `len` points are to become about `target`: twice as
/// many points as buckets, rounded up.
pub open spec fn bucket_size(len: nat, target: nat) -> nat {
    (2 * len + target - 1) as nat / target
}

/// Points reduced to about `target`, with the extremes of each bucket kept. Few enough points
/// stay as they are.
pub open spec fn decimated(pts: Seq<Point>, target: nat) -> Seq<Point> {
    if pts.len() <= target || target < 4 {
        pts
    } else {
        bucketed(pts, bucket_size(pts.len(), target))
    }
}

/// The lowest and the highest point of a bucket, in the order of their times.
fn extremes_of(pts: &[Point]) -> (out: (Point, Point))
    requires
        pts@.len() > 0,
    ensures
        seq![out.0, out.1] == extremes(pts@),
{
    let mut lo = pts[0];
    let mut hi = pts[0];
    let mut i: usize = 1;
    assert(pts@.take(1).len() == 1);
    while i < pts.len()
        invariant
            1 <= i <= pts.len(),
            lo == lowest(pts@.take(i as int)),
            hi == highest(pts@.take(i as int)),
        decreases pts.len() - i,
    {
        assert(pts@.take(i + 1).drop_last() =~= pts@.take(i as int));
        if pts[i].y.lt(lo.y) {
            lo = pts[i];
        }
        if hi.y.lt(pts[i].y) {
            hi = pts[i];
        }
        i += 1;
    }
    assert(pts@.take(i as int) =~= pts@);
    if lo.x.le(hi.x) {
        (lo, hi)
    } else {
        (hi, lo)
    }
}

/// Twice a length over a target, rounded up.
fn bucket_of(len: usize, target: usize) -> (n: usize)
    requires
        4 <= target < len,
    ensures
        n == bucket_size(len as nat, target as nat),
        1 <= n <= len,
{
    let twice: u128 = 2 * len as u128;
    let n: u128 = (twice + target as u128 - 1) / target as u128;
    proof {
        lemma_bucket_bounds(len as nat, target as nat);
    }
    n as usize
}

proof fn lemma_bucket_bounds(len: nat, target: nat)
    requires
        4 <= target < len,
    ensures
        1 <= bucket_size(len, target) <= len,
{
    let a = (2 * len + target - 1) as int;
    vstd::arithmetic::div_mod::lemma_fundamental_div_mod(a, target as int);
    let q = bucket_size(len, target) as int;
    let r = a % (target as int);
    assert(a == target * q + r);
    assert(q >= 1) by (nonlinear_arith)
        requires
            a == target * q + r,
            r < target,
            a >= target,
            target > 0,
    ;
    assert(q <= len) by (nonlinear_arith)
        requires
            a == target * q + r,
            0 <= r,
            target >= 4,
            a == 2 * len + target - 1,
            target < len,
    ;
}

/// Reduces points to about `target`, keeping the lowest and the highest of each bucket so
/// that short peaks survive.
pub fn decimate_minmax(pts: &[Point], target: usize) -> (out: Vec<Point>)
    ensures
        out@ == decimated(pts@, target as nat),
{
    if pts.len() <= target || target < 4 {
        return slice_to_vec(pts);
    }
    let bucket: usize = bucket_of(pts.len(), target);
    let mut out: Vec<Point> = Vec::new();
    let mut from: usize = 0;
    assert(pts@.skip(0) =~= pts@);
    assert(out@ + bucketed(pts@, bucket as nat) =~= bucketed(pts@, bucket as nat));
    while from < pts.len()
        invariant
            from <= pts.len(),
            1 <= bucket <= pts.len(),
            out@ + bucketed(pts@.skip(from as int), bucket as nat) == bucketed(
                pts@,
                bucket as nat,
            ),
        decreases pts.len() - from,
    {
        let left: usize = pts.len() - from;
        let n: usize = if left < bucket {
            left
        } else {
            bucket
        };
        let chunk = slice_subrange(pts, from, from + n);
        let ghost rest = pts@.skip(from as int);
        assert(chunk@ =~= rest.take(n as int));
        let (a, b) = extremes_of(chunk);
        let ghost before = out@;
        out.push(a);
        out.push(b);
        proof {
            let after = pts@.skip(from + n);
            assert(rest.skip(n as int) =~= after);
            if rest.len() <= bucket {
                assert(chunk@ =~= rest);
                assert(bucketed(after, bucket as nat) =~= Seq::empty());
            }
            assert(out@ =~= before + extremes(chunk@));
            assert(out@ + bucketed(after, bucket as nat) =~= before + bucketed(
                rest,
                bucket as nat,
            ));
        }
        from = from + n;
    }
    assert(out@ + bucketed(pts@.skip(from as int), bucket as nat) =~= out@);
    out
}

// == Laws of decimation =======================================================

/// The lowest and the highest point are points of the bucket, and none is beyond them.
proof fn lemma_extremes(pts: Seq<Point>)
    requires
        pts.len() > 0,
    ensures
        pts.contains(lowest(pts)),
        pts.contains(highest(pts)),
        are_numbers(pts) ==> forall|i: int|
            0 <= i < pts.len() ==> lowest(pts).y.at_most((#[trigger] pts[i]).y)
                && pts[i].y.at_most(highest(pts).y),
    decreases pts.len(),
{
    if pts.len() == 1 {
        assert(pts.contains(pts[0]));
    } else {
        let most = pts.drop_last();
        lemma_extremes(most);
        let k = choose|k: int| 0 <= k < most.len() && most[k] == lowest(most);
        let m = choose|m: int| 0 <= m < most.len() && most[m] == highest(most);
        assert(pts[k] == lowest(most));
        assert(pts[m] == highest(most));
        assert(pts[pts.len() - 1] == pts.last());
        if are_numbers(pts) {
            assert forall|i: int| 0 <= i < most.len() implies !(#[trigger] most[i]).y.is_nan()
                && !most[i].x.is_nan() by {
                assert(most[i] == pts[i]);
            }
            assert forall|i: int| 0 <= i < pts.len() implies lowest(pts).y.at_most(
                (#[trigger] pts[i]).y,
            ) && pts[i].y.at_most(highest(pts).y) by {
                if i < most.len() {
                    assert(most[i] == pts[i]);
                }
            }
        }
    }
}

/// Every bucket keeps points of its own only.
proof fn lemma_extremes_are_points(pts: Seq<Point>, i: int)
    requires
        pts.len() > 0,
        0 <= i < 2,
    ensures
        extremes(pts).len() == 2,
        pts.contains(extremes(pts)[i]),
{
    lemma_extremes(pts);
}

/// Part of a series of numbers is one.
proof fn lemma_parts_are_numbers(pts: Seq<Point>, at: nat)
    requires
        are_numbers(pts),
        at <= pts.len(),
    ensures
        are_numbers(pts.take(at as int)),
        are_numbers(pts.skip(at as int)),
{
    let head = pts.take(at as int);
    let tail = pts.skip(at as int);
    assert forall|i: int| 0 <= i < head.len() implies !(#[trigger] head[i]).y.is_nan()
        && !head[i].x.is_nan() by {
        assert(head[i] == pts[i]);
    }
    assert forall|i: int| 0 <= i < tail.len() implies !(#[trigger] tail[i]).y.is_nan()
        && !tail[i].x.is_nan() by {
        assert(tail[i] == pts[i + at]);
    }
}

/// What is kept of the buckets are points of the series.
proof fn lemma_bucketed_are_points(pts: Seq<Point>, bucket: nat, k: int)
    requires
        bucket > 0,
        0 <= k < bucketed(pts, bucket).len(),
    ensures
        pts.contains(bucketed(pts, bucket)[k]),
    decreases pts.len(),
{
    let out = bucketed(pts, bucket);
    if pts.len() <= bucket {
        lemma_extremes_are_points(pts, k);
    } else {
        let head = pts.take(bucket as int);
        let tail = pts.skip(bucket as int);
        if k < 2 {
            lemma_extremes_are_points(head, k);
            let m = choose|m: int| 0 <= m < head.len() && head[m] == out[k];
            assert(pts[m] == out[k]);
        } else {
            lemma_bucketed_are_points(tail, bucket, k - 2);
            let m = choose|m: int| 0 <= m < tail.len() && tail[m] == out[k];
            assert(pts[m + bucket] == out[k]);
        }
    }
}

/// Beside each point of the series a kept one is at most as high and one at least as high.
proof fn lemma_bucketed_spans(pts: Seq<Point>, bucket: nat, i: int)
    requires
        bucket > 0,
        are_numbers(pts),
        0 <= i < pts.len(),
    ensures
        spanned(bucketed(pts, bucket), pts[i]),
    decreases pts.len(),
{
    if pts.len() <= bucket {
        lemma_extremes_span(pts, i);
    } else {
        let head = pts.take(bucket as int);
        let tail = pts.skip(bucket as int);
        lemma_parts_are_numbers(pts, bucket);
        if i < bucket {
            lemma_extremes_span(head, i);
        } else {
            lemma_bucketed_spans(tail, bucket, i - bucket);
        }
        lemma_spanned_in_sum(extremes(head), bucketed(tail, bucket), pts[i]);
    }
}

/// Among the points kept there is one at most as high as `p`, and one at least as high.
pub open spec fn spanned(kept: Seq<Point>, p: Point) -> bool {
    &&& exists|k: int| 0 <= k < kept.len() && (#[trigger] kept[k]).y.at_most(p.y)
    &&& exists|k: int| 0 <= k < kept.len() && p.y.at_most((#[trigger] kept[k]).y)
}

proof fn lemma_extremes_span(pts: Seq<Point>, i: int)
    requires
        are_numbers(pts),
        0 <= i < pts.len(),
    ensures
        spanned(extremes(pts), pts[i]),
{
    lemma_extremes(pts);
    let e = extremes(pts);
    if lowest(pts).x.at_most(highest(pts).x) {
        assert(e[0].y.at_most(pts[i].y));
        assert(pts[i].y.at_most(e[1].y));
    } else {
        assert(e[1].y.at_most(pts[i].y));
        assert(pts[i].y.at_most(e[0].y));
    }
}

proof fn lemma_spanned_in_sum(a: Seq<Point>, b: Seq<Point>, p: Point)
    requires
        spanned(a, p) || spanned(b, p),
    ensures
        spanned(a + b, p),
{
    let all = a + b;
    if spanned(a, p) {
        let k = choose|k: int| 0 <= k < a.len() && (#[trigger] a[k]).y.at_most(p.y);
        let m = choose|m: int| 0 <= m < a.len() && p.y.at_most((#[trigger] a[m]).y);
        assert(all[k] == a[k]);
        assert(all[m] == a[m]);
    } else {
        let k = choose|k: int| 0 <= k < b.len() && (#[trigger] b[k]).y.at_most(p.y);
        let m = choose|m: int| 0 <= m < b.len() && p.y.at_most((#[trigger] b[m]).y);
        assert(all[a.len() + k] == b[k]);
        assert(all[a.len() + m] == b[m]);
    }
}

/// Decimation keeps points of the series only, and no peak or trough is lost: beside each
/// point of the series a kept one is at least as high and a kept one at most as high.
pub proof fn law_decimation_keeps_peaks(pts: Seq<Point>, target: nat)
    requires
        are_numbers(pts),
    ensures
        forall|k: int|
            0 <= k < decimated(pts, target).len() ==> pts.contains(
                #[trigger] decimated(pts, target)[k],
            ),
        forall|i: int|
            0 <= i < pts.len() ==> spanned(decimated(pts, target), #[trigger] pts[i]),
{
    if pts.len() <= target || target < 4 {
        assert forall|i: int| 0 <= i < pts.len() implies spanned(pts, #[trigger] pts[i]) by {
            assert(pts[i].y.at_most(pts[i].y));
        }
    } else {
        let bucket = bucket_size(pts.len(), target);
        lemma_bucket_bounds(pts.len(), target);
        assert forall|k: int| 0 <= k < decimated(pts, target).len() implies pts.contains(
            #[trigger] decimated(pts, target)[k],
        ) by {
            lemma_bucketed_are_points(pts, bucket, k);
        }
        assert forall|i: int| 0 <= i < pts.len() implies spanned(
            decimated(pts, target),
            #[trigger] pts[i],
        ) by {
            lemma_bucketed_spans(pts, bucket, i);
        }
    }
}

/// The points kept of the buckets stand in the order of their times where the series does.
proof fn lemma_bucketed_in_order(pts: Seq<Point>, bucket: nat, i: int, j: int)
    requires
        bucket > 0,
        are_numbers(pts),
        in_order(pts),
        0 <= i < j < bucketed(pts, bucket).len(),
    ensures
        bucketed(pts, bucket)[i].x.at_most(bucketed(pts, bucket)[j].x),
    decreases pts.len(),
{
    let out = bucketed(pts, bucket);
    if pts.len() <= bucket {
        lemma_extremes_in_order(pts);
    } else {
        let head = pts.take(bucket as int);
        let tail = pts.skip(bucket as int);
        let rest = bucketed(tail, bucket);
        lemma_parts_are_numbers(pts, bucket);
        if j < 2 {
            lemma_extremes_in_order(head);
        } else if i < 2 {
            lemma_extremes_are_points(head, i);
            let a = choose|a: int| 0 <= a < head.len() && head[a] == out[i];
            lemma_bucketed_are_points(tail, bucket, j - 2);
            let b = choose|b: int| 0 <= b < tail.len() && tail[b] == rest[j - 2];
            assert(pts[a].x.at_most(pts[b + bucket].x));
        } else {
            assert(in_order(tail)) by {
                assert forall|m: int, n: int| 0 <= m < n < tail.len() implies tail[m].x.at_most(
                    tail[n].x,
                ) by {
                    assert(pts[m + bucket].x.at_most(pts[n + bucket].x));
                }
            }
            lemma_bucketed_in_order(tail, bucket, i - 2, j - 2);
        }
    }
}

proof fn lemma_extremes_in_order(pts: Seq<Point>)
    requires
        pts.len() > 0,
        are_numbers(pts),
    ensures
        in_order(extremes(pts)),
{
    lemma_extremes(pts);
    let k = choose|k: int| 0 <= k < pts.len() && pts[k] == lowest(pts);
    let m = choose|m: int| 0 <= m < pts.len() && pts[m] == highest(pts);
    assert(!pts[k].x.is_nan());
    assert(!pts[m].x.is_nan());
}

/// Decimation keeps the order of the times, so that a line never runs backwards.
pub proof fn law_decimation_keeps_order(pts: Seq<Point>, target: nat)
    requires
        are_numbers(pts),
        in_order(pts),
    ensures
        in_order(decimated(pts, target)),
{
    if pts.len() > target && target >= 4 {
        let bucket = bucket_size(pts.len(), target);
        let out = decimated(pts, target);
        lemma_bucket_bounds(pts.len(), target);
        assert forall|i: int, j: int| 0 <= i < j < out.len() implies out[i].x.at_most(
            out[j].x,
        ) by {
            lemma_bucketed_in_order(pts, bucket, i, j);
        }
    }
}

/// Two points come out of each bucket.
proof fn lemma_bucketed_len(pts: Seq<Point>, bucket: nat, limit: nat)
    requires
        bucket > 0,
        pts.len() <= limit * bucket,
    ensures
        bucketed(pts, bucket).len() <= 2 * limit,
    decreases limit,
{
    if limit == 0 {
        assert(pts.len() == 0) by (nonlinear_arith)
            requires
                pts.len() <= limit * bucket,
                limit == 0,
        ;
    } else if pts.len() > bucket {
        let rest = pts.skip(bucket as int);
        assert(rest.len() <= (limit - 1) * bucket) by (nonlinear_arith)
            requires
                pts.len() <= limit * bucket,
                rest.len() == pts.len() - bucket,
        ;
        lemma_bucketed_len(rest, bucket, (limit - 1) as nat);
    }
}

/// Decimation leaves at most one point more than was asked for.
pub proof fn law_decimation_is_within_target(pts: Seq<Point>, target: nat)
    requires
        target >= 4,
    ensures
        decimated(pts, target).len() <= target + 1,
{
    if pts.len() > target {
        let len = pts.len();
        let bucket = bucket_size(len, target);
        lemma_bucket_bounds(len, target);
        let a = (2 * len + target - 1) as int;
        vstd::arithmetic::div_mod::lemma_fundamental_div_mod(a, target as int);
        let r = a % (target as int);
        let limit = ((target + 1) / 2) as nat;
        assert(target * bucket >= 2 * len) by (nonlinear_arith)
            requires
                a == target * bucket + r,
                r < target,
                a == 2 * len + target - 1,
        ;
        assert(len <= limit * bucket) by (nonlinear_arith)
            requires
                target * bucket >= 2 * len,
                2 * limit >= target,
        ;
        lemma_bucketed_len(pts, bucket, limit);
    }
}

// == Stride ===================================================================

/// Whether every place of a stride lies within the series.
pub open spec fn stride_fits(len: nat, target: nat) -> bool {
    forall|i: nat| i < target < len ==> #[trigger] rounding::multiple(i, len, target) < len
}

/// As many points as wanted, evenly spaced from the first on; all of them, where there are no
/// more or none is wanted.
pub open spec fn strided(pts: Seq<Point>, target: nat) -> Seq<Point> {
    if pts.len() <= target || target == 0 {
        pts
    } else {
        Seq::new(target, |i: int| pts[rounding::multiple(i as nat, pts.len(), target) as int])
    }
}

/// Uniform-stride reduction, which keeps pairs together.
pub fn stride_decimate(pts: Vec<Point>, target: usize) -> (out: Vec<Point>)
    requires
        stride_fits(pts@.len(), target as nat),
    ensures
        out@ == strided(pts@, target as nat),
{
    if pts.len() <= target || target == 0 {
        return pts;
    }
    let mut out: Vec<Point> = Vec::new();
    let mut i: usize = 0;
    while i < target
        invariant
            0 < target < pts.len(),
            i <= target,
            stride_fits(pts@.len(), target as nat),
            out@ == strided(pts@, target as nat).take(i as int),
        decreases target - i,
    {
        assert(rounding::multiple(i as nat, pts@.len(), target as nat) < pts@.len());
        let at: usize = multiple_of(i as u64, pts.len() as u64, target as u64) as usize;
        out.push(pts[at]);
        assert(out@ =~= strided(pts@, target as nat).take(i + 1));
        i += 1;
    }
    assert(strided(pts@, target as nat).take(i as int) =~= strided(pts@, target as nat));
    out
}

/// A stride stays within its series, for targets up to two to the power of 50.
pub proof fn law_stride_fits(len: nat, target: nat)
    requires
        target <= 0x4_0000_0000_0000,
    ensures
        stride_fits(len, target),
{
    assert forall|i: nat| i < target < len implies #[trigger] rounding::multiple(i, len, target)
        < len by {
        rounding::law_multiples_stay_within(i, len, target);
    }
}

/// A stride keeps as many points as wanted, the first among them, and each of them is a point
/// of the series.
pub proof fn law_stride_keeps_the_first(pts: Seq<Point>, target: nat)
    requires
        0 < target,
        stride_fits(pts.len(), target),
    ensures
        strided(pts, target).len() == if pts.len() <= target {
            pts.len()
        } else {
            target
        },
        pts.len() > 0 ==> strided(pts, target)[0] == pts[0],
        forall|i: int|
            0 <= i < strided(pts, target).len() ==> pts.contains(#[trigger] strided(pts, target)[i]),
{
    let out = strided(pts, target);
    if pts.len() > target {
        rounding::lemma_first_multiple(pts.len(), target);
    }
    assert forall|i: int| 0 <= i < out.len() implies pts.contains(#[trigger] out[i]) by {
        if pts.len() > target {
            assert(rounding::multiple(i as nat, pts.len(), target) < pts.len());
        }
    }
}

// == Histogram ================================================================

/// A list of bins, in ascending order, with one more value counted in a bin.
pub open spec fn counted(bins: Seq<(i64, nat)>, bin: i64) -> Seq<(i64, nat)>
    decreases bins.len(),
{
    if bins.len() == 0 || bins.last().0 < bin {
        bins.push((bin, 1nat))
    } else if bins.last().0 == bin {
        bins.drop_last().push((bin, bins.last().1 + 1))
    } else {
        counted(bins.drop_last(), bin).push(bins.last())
    }
}

/// The readings of a series, counted by their integer parts.
pub open spec fn binned(pts: Seq<Point>) -> Seq<(i64, nat)>
    decreases pts.len(),
{
    if pts.len() == 0 {
        Seq::empty()
    } else {
        counted(binned(pts.drop_last()), pts.last().y.truncated() as i64)
    }
}

/// How many readings of a series have an integer part.
pub open spec fn tally(pts: Seq<Point>, bin: i64) -> nat
    decreases pts.len(),
{
    if pts.len() == 0 {
        0
    } else {
        tally(pts.drop_last(), bin) + if pts.last().y.truncated() == bin {
            1nat
        } else {
            0
        }
    }
}

/// Bins, with mathematical counts.
pub open spec fn shown_bins(bins: Seq<(i64, usize)>) -> Seq<(i64, nat)> {
    bins.map_values(|b: (i64, usize)| (b.0, b.1 as nat))
}

/// Where a value is counted, when the bins from `at` on are greater and those before are not.
proof fn lemma_counted(bins: Seq<(i64, nat)>, bin: i64, at: int)
    requires
        0 <= at <= bins.len(),
        forall|k: int| at <= k < bins.len() ==> (#[trigger] bins[k]).0 > bin,
        at > 0 ==> bins[at - 1].0 <= bin,
    ensures
        counted(bins, bin) == if at > 0 && bins[at - 1].0 == bin {
            bins.update(at - 1, (bin, bins[at - 1].1 + 1))
        } else {
            bins.insert(at, (bin, 1nat))
        },
    decreases bins.len() - at,
{
    if at == bins.len() {
        if at > 0 && bins[at - 1].0 == bin {
            assert(bins.drop_last().push((bin, bins.last().1 + 1)) =~= bins.update(
                at - 1,
                (bin, bins[at - 1].1 + 1),
            ));
        } else {
            assert(bins.insert(at, (bin, 1nat)) =~= bins.push((bin, 1nat)));
        }
    } else {
        assert(bins[bins.len() - 1].0 > bin);
        lemma_counted(bins.drop_last(), bin, at);
        if at > 0 && bins[at - 1].0 == bin {
            assert(counted(bins, bin) =~= bins.update(at - 1, (bin, bins[at - 1].1 + 1)));
        } else {
            assert(counted(bins, bin) =~= bins.insert(at, (bin, 1nat)));
        }
    }
}

/// What counting one more value does to the counts of the bins.
proof fn lemma_counted_counts(bins: Seq<(i64, nat)>, bin: i64)
    requires
        bins_ascend(bins),
    ensures
        bins_ascend(counted(bins, bin)),
        forall|b: i64| #[trigger]
            count_in(counted(bins, bin), b) == count_in(bins, b) + if b == bin {
                1nat
            } else {
                0
            },
        forall|k: int|
            0 <= k < counted(bins, bin).len() ==> (#[trigger] counted(bins, bin)[k]).0 == bin || (
            exists|m: int| 0 <= m < bins.len() && counted(bins, bin)[k].0 == (#[trigger] bins[m]).0),
    decreases bins.len(),
{
    let out = counted(bins, bin);
    if bins.len() == 0 || bins.last().0 < bin {
        assert(out.drop_last() =~= bins);
        lemma_absent(bins, bin);
        assert forall|k: int| 0 <= k < out.len() implies (#[trigger] out[k]).0 == bin || (exists|
            m: int,
        | 0 <= m < bins.len() && out[k].0 == (#[trigger] bins[m]).0) by {
            if k < bins.len() {
                assert(out[k].0 == bins[k].0);
            }
        }
    } else if bins.last().0 == bin {
        let most = bins.drop_last();
        assert(out.drop_last() =~= most);
        lemma_absent(most, bin);
        assert forall|k: int| 0 <= k < out.len() implies (#[trigger] out[k]).0 == bin || (exists|
            m: int,
        | 0 <= m < bins.len() && out[k].0 == (#[trigger] bins[m]).0) by {
            assert(out[k].0 == bins[k].0);
        }
    } else {
        let most = bins.drop_last();
        lemma_counted_counts(most, bin);
        let inner = counted(most, bin);
        assert(out.drop_last() =~= inner);
        assert forall|k: int| 0 <= k < out.len() implies (#[trigger] out[k]).0 == bin || (exists|
            m: int,
        | 0 <= m < bins.len() && out[k].0 == (#[trigger] bins[m]).0) by {
            if k < inner.len() {
                assert(out[k] == inner[k]);
                if inner[k].0 != bin {
                    let m = choose|m: int|
                        0 <= m < most.len() && inner[k].0 == (#[trigger] most[m]).0;
                    assert(bins[m] == most[m]);
                }
            } else {
                assert(out[k].0 == bins[bins.len() - 1].0);
            }
        }
        assert forall|i: int, j: int| 0 <= i < j < out.len() implies (#[trigger] out[i]).0 < (
        #[trigger] out[j]).0 by {
            if j < inner.len() {
                assert(inner[i].0 < inner[j].0);
            } else {
                assert(out[i] == inner[i]);
                if inner[i].0 != bin {
                    let m = choose|m: int|
                        0 <= m < most.len() && inner[i].0 == (#[trigger] most[m]).0;
                    assert(bins[m].0 < bins[bins.len() - 1].0);
                }
            }
        }
        assert forall|b: i64| #[trigger]
            count_in(out, b) == count_in(bins, b) + if b == bin {
                1nat
            } else {
                0
            } by {
            assert(count_in(inner, b) == count_in(most, b) + if b == bin {
                1nat
            } else {
                0
            });
        }
    }
}

/// The bins stand in ascending order, each once.
pub open spec fn bins_ascend(bins: Seq<(i64, nat)>) -> bool {
    forall|i: int, j: int| 0 <= i < j < bins.len() ==> (#[trigger] bins[i]).0 < (#[trigger] bins[j]).0
}

/// The count of a bin, zero where it is not listed.
pub open spec fn count_in(bins: Seq<(i64, nat)>, bin: i64) -> nat
    decreases bins.len(),
{
    if bins.len() == 0 {
        0
    } else {
        count_in(bins.drop_last(), bin) + if bins.last().0 == bin {
            bins.last().1
        } else {
            0
        }
    }
}

/// A bin above all bins listed has no count.
proof fn lemma_absent(bins: Seq<(i64, nat)>, bin: i64)
    requires
        forall|k: int| 0 <= k < bins.len() ==> (#[trigger] bins[k]).0 < bin,
    ensures
        count_in(bins, bin) == 0,
    decreases bins.len(),
{
    if bins.len() > 0 {
        assert(bins[bins.len() - 1].0 < bin);
        lemma_absent(bins.drop_last(), bin);
    }
}

/// A histogram lists its bins in ascending order and counts in each bin the readings with that
/// integer part.
pub proof fn law_histogram_counts_readings(pts: Seq<Point>, bin: i64)
    ensures
        bins_ascend(binned(pts)),
        count_in(binned(pts), bin) == tally(pts, bin),
    decreases pts.len(),
{
    if pts.len() > 0 {
        let most = pts.drop_last();
        law_histogram_counts_readings(most, bin);
        pts.last().y.lemma_truncated_fits();
        lemma_counted_counts(binned(most), pts.last().y.truncated() as i64);
        assert(count_in(binned(pts), bin) == count_in(binned(most), bin) + if bin
            == pts.last().y.truncated() as i64 {
            1nat
        } else {
            0
        });
    }
}

/// Counts the readings of a series by their integer parts, in ascending order of the parts.
pub fn bin_histogram(pts: &[Point]) -> (bins: Vec<(i64, usize)>)
    ensures
        shown_bins(bins@) == binned(pts@),
{
    let mut bins: Vec<(i64, usize)> = Vec::new();
    let mut i: usize = 0;
    assert(shown_bins(bins@) =~= Seq::empty());
    while i < pts.len()
        invariant
            i <= pts.len(),
            shown_bins(bins@) == binned(pts@.take(i as int)),
            forall|k: int| 0 <= k < bins@.len() ==> (#[trigger] bins@[k]).1 <= i,
        decreases pts.len() - i,
    {
        let bin: i64 = pts[i].y.trunc();
        let ghost before = shown_bins(bins@);
        assert(pts@.take(i + 1).drop_last() =~= pts@.take(i as int));
        let mut at: usize = bins.len();
        while at > 0 && bins[at - 1].0 > bin
            invariant
                at <= bins.len(),
                before == shown_bins(bins@),
                forall|k: int| at <= k < before.len() ==> (#[trigger] before[k]).0 > bin,
            decreases at,
        {
            assert(before[at - 1].0 == bins@[at - 1].0);
            at -= 1;
        }
        proof {
            if at > 0 {
                assert(before[at - 1].0 == bins@[at - 1].0);
            }
            lemma_counted(before, bin, at as int);
        }
        if at > 0 && bins[at - 1].0 == bin {
            let n: usize = bins[at - 1].1;
            bins.set(at - 1, (bin, n + 1));
            assert(shown_bins(bins@) =~= before.update(at - 1, (bin, (n + 1) as nat)));
        } else {
            bins.insert(at, (bin, 1));
            assert(shown_bins(bins@) =~= before.insert(at as int, (bin, 1nat)));
        }
        i += 1;
    }
    assert(pts@.take(i as int) =~= pts@);
    bins
}

// == Window aggregates ========================================================

/// The last reading, the least and the greatest, and the mean of a window.
#[derive(Clone, Copy, Debug, PartialEq, Eq, Structural)]
pub struct SigStats {
    pub last: Number,
    pub min: Number,
    pub max: Number,
    pub mean: Number,
}

/// The least reading of a series, infinity where no reading is a number.
pub open spec fn least(pts: Seq<Point>) -> Number
    decreases pts.len(),
{
    if pts.len() == 0 {
        Number { bits: POSITIVE_INFINITY }
    } else {
        let before = least(pts.drop_last());
        if pts.last().y.less(before) {
            pts.last().y
        } else {
            before
        }
    }
}

/// The greatest reading of a series, negative infinity where no reading is a number.
pub open spec fn greatest(pts: Seq<Point>) -> Number
    decreases pts.len(),
{
    if pts.len() == 0 {
        Number { bits: NEGATIVE_INFINITY }
    } else {
        let before = greatest(pts.drop_last());
        if before.less(pts.last().y) {
            pts.last().y
        } else {
            before
        }
    }
}

/// The aggregates of a window whose mean is known; none where it holds no reading.
pub open spec fn aggregates(pts: Seq<Point>, mean: Number) -> Option<SigStats> {
    if pts.len() == 0 {
        None
    } else {
        Some(SigStats { last: pts.last().y, min: least(pts), max: greatest(pts), mean })
    }
}

/// The aggregates of a window whose mean is known; none where it holds no reading.
pub fn sig_stats(pts: &[Point], mean: Number) -> (stats: Option<SigStats>)
    ensures
        stats == aggregates(pts@, mean),
{
    if pts.len() == 0 {
        return None;
    }
    let mut min = Number { bits: POSITIVE_INFINITY };
    let mut max = Number { bits: NEGATIVE_INFINITY };
    let mut i: usize = 0;
    while i < pts.len()
        invariant
            i <= pts.len(),
            min == least(pts@.take(i as int)),
            max == greatest(pts@.take(i as int)),
        decreases pts.len() - i,
    {
        assert(pts@.take(i + 1).drop_last() =~= pts@.take(i as int));
        if pts[i].y.lt(min) {
            min = pts[i].y;
        }
        if max.lt(pts[i].y) {
            max = pts[i].y;
        }
        i += 1;
    }
    assert(pts@.take(i as int) =~= pts@);
    Some(SigStats { last: pts[pts.len() - 1].y, min, max, mean })
}

/// No reading of a window lies beyond its least and greatest.
pub proof fn law_aggregates_bound_the_window(pts: Seq<Point>, i: int)
    requires
        are_numbers(pts),
        0 <= i < pts.len(),
    ensures
        least(pts).at_most(pts[i].y),
        pts[i].y.at_most(greatest(pts)),
    decreases pts.len(),
{
    lemma_bounds_are_numbers(pts);
    let most = pts.drop_last();
    assert(are_numbers(most)) by {
        assert forall|k: int| 0 <= k < most.len() implies !(#[trigger] most[k]).y.is_nan()
            && !most[k].x.is_nan() by {
            assert(most[k] == pts[k]);
        }
    }
    lemma_bounds_are_numbers(most);
    if i < most.len() {
        law_aggregates_bound_the_window(most, i);
        assert(most[i] == pts[i]);
    }
    assert(!pts[pts.len() - 1].y.is_nan());
}

/// The bounds of a series of numbers are numbers.
proof fn lemma_bounds_are_numbers(pts: Seq<Point>)
    requires
        are_numbers(pts),
    ensures
        !least(pts).is_nan(),
        !greatest(pts).is_nan(),
    decreases pts.len(),
{
    if pts.len() > 0 {
        let most = pts.drop_last();
        assert(are_numbers(most)) by {
            assert forall|k: int| 0 <= k < most.len() implies !(#[trigger] most[k]).y.is_nan()
                && !most[k].x.is_nan() by {
                assert(most[k] == pts[k]);
            }
        }
        lemma_bounds_are_numbers(most);
        assert(!pts[pts.len() - 1].y.is_nan());
    }
}

// == Laws of the aggregates ===================================================

/// The bounds of a window are readings of the window, and the last reading is that of the last
/// point; a window without a point has none of them.
pub proof fn law_aggregates_are_readings(pts: Seq<Point>, mean: Number)
    requires
        are_numbers(pts),
    ensures
        pts.len() == 0 ==> aggregates(pts, mean) is None,
        pts.len() > 0 ==> {
            &&& aggregates(pts, mean) is Some
            &&& (aggregates(pts, mean)->0).last == pts[pts.len() - 1].y
            &&& (aggregates(pts, mean)->0).mean == mean
            &&& forall|i: int|
                0 <= i < pts.len() ==> (aggregates(pts, mean)->0).min.at_most(
                    (#[trigger] pts[i]).y,
                ) && pts[i].y.at_most((aggregates(pts, mean)->0).max)
            &&& exists|i: int|
                0 <= i < pts.len() && (#[trigger] pts[i]).y.rank() == (aggregates(
                    pts,
                    mean,
                )->0).min.rank()
            &&& exists|i: int|
                0 <= i < pts.len() && (#[trigger] pts[i]).y.rank() == (aggregates(
                    pts,
                    mean,
                )->0).max.rank()
        },
{
    if pts.len() > 0 {
        assert forall|i: int| 0 <= i < pts.len() implies least(pts).at_most((#[trigger] pts[i]).y)
            && pts[i].y.at_most(greatest(pts)) by {
            law_aggregates_bound_the_window(pts, i);
        }
        lemma_bounds_are_attained(pts);
    }
}

/// The bounds of a window of numbers are the readings of two of its points.
proof fn lemma_bounds_are_attained(pts: Seq<Point>)
    requires
        are_numbers(pts),
        pts.len() > 0,
    ensures
        exists|i: int| 0 <= i < pts.len() && (#[trigger] pts[i]).y.rank() == least(pts).rank(),
        exists|i: int| 0 <= i < pts.len() && (#[trigger] pts[i]).y.rank() == greatest(pts).rank(),
    decreases pts.len(),
{
    let most = pts.drop_last();
    let end = pts.len() - 1;
    assert(!pts[end].y.is_nan());
    assert(are_numbers(most)) by {
        assert forall|k: int| 0 <= k < most.len() implies !(#[trigger] most[k]).y.is_nan()
            && !most[k].x.is_nan() by {
            assert(most[k] == pts[k]);
        }
    }
    lemma_bounds_are_numbers(most);
    if most.len() > 0 {
        lemma_bounds_are_attained(most);
        let i = choose|i: int|
            0 <= i < most.len() && (#[trigger] most[i]).y.rank() == least(most).rank();
        let j = choose|j: int|
            0 <= j < most.len() && (#[trigger] most[j]).y.rank() == greatest(most).rank();
        assert(pts[i] == most[i]);
        assert(pts[j] == most[j]);
        if pts[end].y.less(least(most)) {
            assert(pts[end].y.rank() == least(pts).rank());
        } else {
            assert(pts[i].y.rank() == least(pts).rank());
        }
        if greatest(most).less(pts[end].y) {
            assert(pts[end].y.rank() == greatest(pts).rank());
        } else {
            assert(pts[j].y.rank() == greatest(pts).rank());
        }
    } else {
        assert(pts[end].y.rank() == least(pts).rank());
        assert(pts[end].y.rank() == greatest(pts).rank());
    }
}

/// A series that fits the target is left as it is, and one is not cut below four points.
pub proof fn law_short_series_are_kept(pts: Seq<Point>, target: nat)
    ensures
        pts.len() <= target ==> decimated(pts, target) == pts && strided(pts, target) == pts,
        target < 4 ==> decimated(pts, target) == pts,
        target == 0 ==> strided(pts, target) == pts,
{
}

/// Decimation thins no more than it has to: each two points kept stand for at most one bucket of
/// twice the ratio of length to target, rounded up.
pub proof fn law_decimation_uses_the_target(pts: Seq<Point>, target: nat)
    requires
        4 <= target < pts.len(),
    ensures
        decimated(pts, target).len() * bucket_size(pts.len(), target) >= 2 * pts.len(),
        2 * pts.len() <= bucket_size(pts.len(), target) * target < 2 * pts.len() + target,
{
    let bucket = bucket_size(pts.len(), target);
    let top = (2 * pts.len() + target - 1) as nat;
    assert(bucket * target <= top < bucket * target + target) by (nonlinear_arith)
        requires
            bucket == top / target,
            target > 0,
    ;
    assert(bucket > 0) by (nonlinear_arith)
        requires
            bucket * target >= 2 * pts.len(),
            pts.len() > 0,
    ;
    lemma_buckets_give_two(pts, bucket);
}

/// Each bucket gives two points.
proof fn lemma_buckets_give_two(pts: Seq<Point>, bucket: nat)
    requires
        bucket > 0,
    ensures
        bucketed(pts, bucket).len() * bucket >= 2 * pts.len(),
    decreases pts.len(),
{
    if pts.len() > bucket {
        let rest = pts.skip(bucket as int);
        lemma_buckets_give_two(rest, bucket);
        let n = bucketed(rest, bucket).len();
        assert(bucketed(pts, bucket).len() == n + 2);
        assert((n + 2) * bucket == n * bucket + 2 * bucket) by (nonlinear_arith);
    }
}

/// A bucket gives its lowest and its highest point: both are points of the bucket, no point lies
/// below the one or above the other, and they come in the order of their times.
pub proof fn law_buckets_give_their_extremes(pts: Seq<Point>, i: int)
    requires
        are_numbers(pts),
        0 <= i < pts.len(),
    ensures
        pts.contains(lowest(pts)),
        pts.contains(highest(pts)),
        lowest(pts).y.at_most(pts[i].y),
        pts[i].y.at_most(highest(pts).y),
        extremes(pts).len() == 2,
        extremes(pts)[0].x.at_most(extremes(pts)[1].x),
        extremes(pts) == seq![lowest(pts), highest(pts)] || extremes(pts) == seq![
            highest(pts),
            lowest(pts),
        ],
    decreases pts.len(),
{
    let most = pts.drop_last();
    let end = pts.len() - 1;
    assert(!pts[end].y.is_nan() && !pts[end].x.is_nan());
    assert(pts.contains(pts[end]));
    if most.len() > 0 {
        assert(are_numbers(most)) by {
            assert forall|k: int| 0 <= k < most.len() implies !(#[trigger] most[k]).y.is_nan()
                && !most[k].x.is_nan() by {
                assert(most[k] == pts[k]);
            }
        }
        law_buckets_give_their_extremes(
            most,
            if i < end {
                i
            } else {
                0
            },
        );
        let a = choose|a: int| 0 <= a < most.len() && most[a] == lowest(most);
        let b = choose|b: int| 0 <= b < most.len() && most[b] == highest(most);
        assert(pts[a] == lowest(most));
        assert(pts[b] == highest(most));
        if i < end {
            assert(most[i] == pts[i]);
        }
    }
    let lo = choose|k: int| 0 <= k < pts.len() && pts[k] == lowest(pts);
    let hi = choose|k: int| 0 <= k < pts.len() && pts[k] == highest(pts);
    assert(!pts[lo].x.is_nan() && !pts[hi].x.is_nan());
}

/// Every reading is counted once, in the bin of its whole part.
pub proof fn law_bins_count_whole_parts(pts: Seq<Point>, p: Point, bin: i64)
    ensures
        tally(Seq::empty(), bin) == 0,
        tally(pts.push(p), bin) == tally(pts, bin) + (if p.y.truncated() == bin {
            1nat
        } else {
            0nat
        }),
        count_in(binned(pts), bin) == tally(pts, bin),
{
    assert(pts.push(p).drop_last() =~= pts);
    law_histogram_counts_readings(pts, bin);
}

} // verus!
