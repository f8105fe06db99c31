//! Contour simplification after Ramer, Douglas and Peucker.
//!
//! A run of points is replaced by its two ends where no point between them
//! lies farther from the chord through the ends than the tolerance allows.
//! Otherwise the run is split at the farthest point, and both halves are
//! simplified in the same way.

use crate::error::Error;
use crate::geometry::{
    distance, is_floor_sqrt, squared_distance, whole_distance, Point, Polygon, MAX_DISTANCE,
};
use vstd::prelude::*;

pub mod tolerance;

pub use tolerance::Tolerance;

verus! {

/// The distance of a point from a chord, as the ratio of two whole numbers.
/// The denominator is the length of the chord, rounded down; it is zero where
/// the two ends of the chord coincide, and the ratio then stands for no
/// distance at all.
#[derive(Clone, Copy, Debug, PartialEq, Eq, Structural)]
pub struct Offset {
    pub numerator: u64,
    pub denominator: u16,
}

/// How far `p` lies off the line through `a` and `b`, times the length of the
/// chord from `a` to `b`: twice the area of the triangle of the three points.
pub open spec fn deviation(p: Point, a: Point, b: Point) -> nat {
    let doubled = (b.y - a.y) * p.x - (b.x - a.x) * p.y + b.x * a.y - b.y * a.x;
    if doubled >= 0 {
        doubled as nat
    } else {
        (-doubled) as nat
    }
}

/// The deviation of the point at index `i` from the chord between the first
/// and the last point of `points`.
pub open spec fn deviation_at(points: Seq<Point>, i: int) -> nat {
    deviation(points[i], points[0], points.last())
}

/// The index of the point that deviates most from the chord, among the
/// indices from 1 to `upto`; of several such points, the first.
pub open spec fn farthest(points: Seq<Point>, upto: int) -> int
    decreases upto,
{
    if upto <= 1 {
        1
    } else {
        let best = farthest(points, upto - 1);
        if deviation_at(points, upto) > deviation_at(points, best) {
            upto
        } else {
            best
        }
    }
}

/// The simplification of `points` within `epsilon`, or `None` where a chord
/// that has to be measured is longer than 65535.
///
/// Two points are kept as they are. A longer run is split at its farthest
/// point where that point is off the chord by more than `epsilon`; the two
/// simplified halves are then joined, with the point they share taken once.
/// Otherwise only the two ends of the run are kept.
pub open spec fn simplified(points: Seq<Point>, epsilon: Tolerance) -> Option<Seq<Point>>
    decreases points.len(),
{
    if points.len() <= 2 {
        Some(points)
    } else if whole_distance(points[0], points.last()) > MAX_DISTANCE {
        None
    } else {
        let split = farthest(points, points.len() - 2);
        if 1 <= split <= points.len() - 2 && epsilon.is_exceeded_by(
            deviation_at(points, split),
            whole_distance(points[0], points.last()),
        ) {
            match (simplified(points.take(split + 1), epsilon), simplified(points.skip(split), epsilon)) {
                (Some(head), Some(tail)) => Some(head.drop_last() + tail),
                _ => None,
            }
        } else {
            Some(seq![points[0], points.last()])
        }
    }
}

/// `p` is one of the first `end` points of `points`.
pub open spec fn occurs_before(points: Seq<Point>, end: int, p: Point) -> bool {
    exists|i: int| 0 <= i < end && #[trigger] points[i] == p
}

/// What `farthest` picks: an index in range whose point deviates at least as
/// much as every other in range, and more than every one before it.
pub proof fn lemma_farthest(points: Seq<Point>, upto: int)
    requires
        1 <= upto,
    ensures
        1 <= farthest(points, upto) <= upto,
        forall|j: int|
            1 <= j <= upto ==> #[trigger] deviation_at(points, j) <= deviation_at(
                points,
                farthest(points, upto),
            ),
        forall|j: int|
            1 <= j < farthest(points, upto) ==> #[trigger] deviation_at(points, j) < deviation_at(
                points,
                farthest(points, upto),
            ),
    decreases upto,
{
    if upto > 1 {
        lemma_farthest(points, upto - 1);
    }
}

/// Only one index is the first among those that deviate most.
pub proof fn lemma_farthest_is(points: Seq<Point>, upto: int, k: int)
    requires
        1 <= k <= upto,
        forall|j: int| 1 <= j <= upto ==> #[trigger] deviation_at(points, j) <= deviation_at(points, k),
        forall|j: int| 1 <= j < k ==> #[trigger] deviation_at(points, j) < deviation_at(points, k),
    ensures
        farthest(points, upto) == k,
{
    lemma_farthest(points, upto);
    let found = farthest(points, upto);
    if found < k {
        assert(deviation_at(points, found) < deviation_at(points, k));
        assert(deviation_at(points, k) <= deviation_at(points, found));
    } else if k < found {
        assert(deviation_at(points, k) < deviation_at(points, found));
        assert(deviation_at(points, found) <= deviation_at(points, k));
    }
}

/// The two ends of a chord lie on it.
pub proof fn lemma_ends_do_not_deviate(a: Point, b: Point)
    ensures
        deviation(a, a, b) == 0,
        deviation(b, a, b) == 0,
{
    let (ax, ay, bx, by) = (a.x as int, a.y as int, b.x as int, b.y as int);
    assert((by - ay) * ax - (bx - ax) * ay + bx * ay - by * ax == 0) by (nonlinear_arith);
    assert((by - ay) * bx - (bx - ax) * by + bx * ay - by * ax == 0) by (nonlinear_arith);
}

/// A point on the chord is not above any tolerance.
pub proof fn lemma_zero_is_within(epsilon: Tolerance, denominator: nat)
    ensures
        !epsilon.is_exceeded_by(0, denominator),
{
    let m = epsilon.mantissa as int;
    let d = denominator as int;
    if epsilon.exponent >= 0 {
        let p = vstd::arithmetic::power2::pow2(epsilon.exponent as nat) as int;
        assert(m * p * d >= 0) by (nonlinear_arith)
            requires
                m >= 0,
                p >= 0,
                d >= 0,
        ;
    } else {
        let p = vstd::arithmetic::power2::pow2((-epsilon.exponent) as nat) as int;
        assert(0 * p == 0 && m * d >= 0) by (nonlinear_arith)
            requires
                m >= 0,
                d >= 0,
        ;
    }
}

/// A simplification keeps the two ends of its input.
pub proof fn lemma_simplified_keeps_ends(points: Seq<Point>, epsilon: Tolerance)
    requires
        points.len() >= 2,
    ensures
        simplified(points, epsilon) matches Some(kept) ==> kept.len() >= 2 && kept[0] == points[0]
            && kept.last() == points.last(),
    decreases points.len(),
{
    if points.len() > 2 && whole_distance(points[0], points.last()) <= MAX_DISTANCE {
        let split = farthest(points, points.len() - 2);
        if 1 <= split <= points.len() - 2 {
            lemma_simplified_keeps_ends(points.take(split + 1), epsilon);
            lemma_simplified_keeps_ends(points.skip(split), epsilon);
        }
    }
}

/// A simplification holds no point that its input does not hold, and none
/// but its last comes from the last place of the input.
pub proof fn lemma_simplified_selects(points: Seq<Point>, epsilon: Tolerance)
    requires
        points.len() >= 2,
    ensures
        simplified(points, epsilon) matches Some(kept) ==> {
            &&& forall|j: int|
                0 <= j < kept.len() ==> occurs_before(points, points.len() as int, #[trigger] kept[j])
            &&& forall|j: int|
                0 <= j < kept.len() - 1 ==> occurs_before(points, points.len() - 1, #[trigger] kept[j])
        },
    decreases points.len(),
{
    let n = points.len() as int;
    if let Some(kept) = simplified(points, epsilon) {
        if n == 2 {
            assert forall|j: int| 0 <= j < kept.len() implies occurs_before(points, n, #[trigger] kept[j]) by {
                assert(points[j] == kept[j]);
            }
            assert(points[0] == kept[0]);
        } else {
            let split = farthest(points, n - 2);
            if 1 <= split <= n - 2 && epsilon.is_exceeded_by(
                deviation_at(points, split),
                whole_distance(points[0], points.last()),
            ) {
                let left = points.take(split + 1);
                let right = points.skip(split);
                let head = simplified(left, epsilon).unwrap();
                let tail = simplified(right, epsilon).unwrap();
                lemma_simplified_selects(left, epsilon);
                lemma_simplified_selects(right, epsilon);
                lemma_simplified_keeps_ends(left, epsilon);
                lemma_simplified_keeps_ends(right, epsilon);
                assert forall|j: int| 0 <= j < kept.len() implies occurs_before(points, n, #[trigger] kept[j])
                    && (j < kept.len() - 1 ==> occurs_before(points, n - 1, kept[j])) by {
                    if j < head.len() - 1 {
                        assert(kept[j] == head[j]);
                        assert(occurs_before(left, split as int, head[j]));
                        let i = choose|i: int| 0 <= i < split && #[trigger] left[i] == head[j];
                        assert(points[i] == kept[j]);
                    } else {
                        let t = j - (head.len() - 1);
                        assert(kept[j] == tail[t]);
                        assert(occurs_before(right, right.len() as int, tail[t]));
                        let i = choose|i: int| 0 <= i < right.len() && #[trigger] right[i] == tail[t];
                        assert(points[split + i] == kept[j]);
                        if j < kept.len() - 1 {
                            assert(occurs_before(right, right.len() - 1, tail[t]));
                            let i2 = choose|i: int| 0 <= i < right.len() - 1 && #[trigger] right[i] == tail[t];
                            assert(points[split + i2] == kept[j]);
                        }
                    }
                }
            } else {
                assert(kept =~= seq![points[0], points.last()]);
                assert(points[0] == kept[0]);
                assert(points[n - 1] == kept[1]);
            }
        }
    }
}

/// A straight run collapses to its two ends: where every point of a run lies
/// on the chord between its ends, the simplification holds the two ends and
/// nothing else, whatever the tolerance, zero included. A chord that is too
/// long to be measured is left out.
pub proof fn lemma_straight_run_collapses(points: Seq<Point>, epsilon: Tolerance)
    requires
        points.len() >= 2,
        forall|i: int| 0 < i < points.len() - 1 ==> #[trigger] deviation_at(points, i) == 0,
        points.len() > 2 ==> whole_distance(points[0], points.last()) <= MAX_DISTANCE,
    ensures
        simplified(points, epsilon) == Some(seq![points[0], points.last()]),
{
    if points.len() == 2 {
        assert(points =~= seq![points[0], points.last()]);
    } else {
        let split = farthest(points, points.len() - 2);
        lemma_farthest(points, points.len() - 2);
        assert(deviation_at(points, split) == 0);
        lemma_zero_is_within(epsilon, whole_distance(points[0], points.last()));
    }
}

/// Simplifying twice changes nothing: the simplification of a simplification,
/// within the same tolerance, is that simplification.
pub proof fn lemma_simplified_is_idempotent(points: Seq<Point>, epsilon: Tolerance)
    requires
        points.len() >= 2,
    ensures
        simplified(points, epsilon) matches Some(kept) ==> simplified(kept, epsilon) == Some(kept),
    decreases points.len(),
{
    let n = points.len() as int;
    if let Some(kept) = simplified(points, epsilon) {
        if n > 2 {
            let a = points[0];
            let b = points.last();
            let split = farthest(points, n - 2);
            lemma_farthest(points, n - 2);
            if epsilon.is_exceeded_by(deviation_at(points, split), whole_distance(a, b)) {
                let left = points.take(split + 1);
                let right = points.skip(split);
                let head = simplified(left, epsilon).unwrap();
                let tail = simplified(right, epsilon).unwrap();
                lemma_simplified_is_idempotent(left, epsilon);
                lemma_simplified_is_idempotent(right, epsilon);
                lemma_simplified_keeps_ends(left, epsilon);
                lemma_simplified_keeps_ends(right, epsilon);
                lemma_simplified_selects(left, epsilon);
                lemma_simplified_selects(right, epsilon);
                lemma_ends_do_not_deviate(a, b);
                lemma_zero_is_within(epsilon, whole_distance(a, b));
                let at = head.len() - 1;
                assert(kept[0] == a && kept.last() == b);
                assert(kept[at] == points[split]);
                assert forall|j: int| 1 <= j <= kept.len() - 2 implies #[trigger] deviation_at(kept, j)
                    <= deviation_at(kept, at) && (j < at ==> deviation_at(kept, j) < deviation_at(kept, at)) by {
                    if j < at {
                        assert(kept[j] == head[j]);
                        assert(occurs_before(left, left.len() - 1, head[j]));
                        let i = choose|i: int| 0 <= i < left.len() - 1 && #[trigger] left[i] == head[j];
                        assert(points[i] == kept[j]);
                        if i > 0 {
                            assert(deviation_at(points, i) < deviation_at(points, split));
                        }
                    } else {
                        let t = j - at;
                        assert(kept[j] == tail[t]);
                        assert(occurs_before(right, right.len() as int, tail[t]));
                        let i = choose|i: int| 0 <= i < right.len() && #[trigger] right[i] == tail[t];
                        assert(points[split + i] == kept[j]);
                        if split + i < n - 1 {
                            assert(deviation_at(points, split + i) <= deviation_at(points, split));
                        }
                    }
                }
                lemma_farthest_is(kept, kept.len() - 2, at);
                assert(kept.take(at + 1) =~= head);
                assert(kept.skip(at) =~= tail);
            } else {
                assert(kept =~= seq![a, b]);
            }
        }
    }
}

/// How far `p` lies off the chord from `a` to `b`, as the ratio of its
/// deviation to the length of the chord. Fails with `CoordinateOverflow` where
/// the chord is longer than 65535.
pub fn perpendicular_distance(p: Point, a: Point, b: Point) -> (offset: Result<Offset, Error>)
    ensures
        match offset {
            Ok(ratio) => {
                &&& ratio.numerator == deviation(p, a, b)
                &&& ratio.denominator == whole_distance(a, b)
                &&& is_floor_sqrt(ratio.denominator as nat, squared_distance(a, b))
            },
            Err(e) => e == Error::CoordinateOverflow && whole_distance(a, b) > MAX_DISTANCE
                && squared_distance(a, b) >= 0x1_0000_0000,
        },
{
    let (ax, ay) = (a.x as i64, a.y as i64);
    let (bx, by) = (b.x as i64, b.y as i64);
    let (px, py) = (p.x as i64, p.y as i64);
    assert(-0xFFFF * 0xFFFF <= (by - ay) * px <= 0xFFFF * 0xFFFF && -0xFFFF * 0xFFFF <= (bx - ax) * py
        <= 0xFFFF * 0xFFFF && 0 <= bx * ay <= 0xFFFF * 0xFFFF && 0 <= by * ax <= 0xFFFF * 0xFFFF)
        by (nonlinear_arith)
        requires
            0 <= ax <= 0xFFFF,
            0 <= ay <= 0xFFFF,
            0 <= bx <= 0xFFFF,
            0 <= by <= 0xFFFF,
            0 <= px <= 0xFFFF,
            0 <= py <= 0xFFFF,
    ;
    let doubled: i64 = (by - ay) * px - (bx - ax) * py + bx * ay - by * ax;
    let numerator: u64 = if doubled >= 0 {
        doubled as u64
    } else {
        (-doubled) as u64
    };
    match distance(a, b) {
        Ok(length) => Ok(Offset { numerator, denominator: length }),
        Err(e) => Err(e),
    }
}

/// Simplifies the points of `points` from index `first` to index `last` and
/// appends the result to `out`, but for its first point.
fn simplify_between(
    points: &Vec<Point>,
    first: usize,
    last: usize,
    epsilon: Tolerance,
    out: &mut Vec<Point>,
) -> (done: Result<(), Error>)
    requires
        first < last < points.len(),
    ensures
        match done {
            Ok(_) => simplified(points@.subrange(first as int, last + 1), epsilon) matches Some(kept)
                && final(out)@ == old(out)@ + kept.drop_first(),
            Err(e) => e == Error::CoordinateOverflow && simplified(
                points@.subrange(first as int, last + 1),
                epsilon,
            ) is None,
        },
    decreases last - first,
{
    let ghost run = points@.subrange(first as int, last + 1);
    let a = points[first];
    let b = points[last];
    assert(run[0] == a && run.last() == b);
    if last - first == 1 {
        out.push(b);
        assert(run.drop_first() =~= seq![b]);
        return Ok(());
    }
    let mut best: usize = first + 1;
    let mut best_offset = match perpendicular_distance(points[best], a, b) {
        Ok(offset) => offset,
        Err(e) => {
            return Err(e);
        },
    };
    assert(run[1] == points[first + 1]);
    let mut i: usize = first + 2;
    while i < last
        invariant
            first + 2 <= i <= last < points.len(),
            run == points@.subrange(first as int, last + 1),
            run[0] == a,
            run.last() == b,
            first < best < i,
            best - first == farthest(run, i - 1 - first),
            best_offset.numerator == deviation_at(run, best - first),
            best_offset.denominator == whole_distance(a, b),
            whole_distance(a, b) <= MAX_DISTANCE,
        decreases last - i,
    {
        assert(run[i - first] == points[i as int]);
        match perpendicular_distance(points[i], a, b) {
            Ok(offset) => {
                if offset.numerator > best_offset.numerator {
                    best = i;
                    best_offset = offset;
                }
            },
            Err(e) => {
                return Err(e);
            },
        }
        i += 1;
    }
    let ghost split = best - first;
    assert(run.take(split + 1) =~= points@.subrange(first as int, best + 1));
    assert(run.skip(split) =~= points@.subrange(best as int, last + 1));
    if epsilon.is_exceeded(best_offset.numerator, best_offset.denominator) {
        let ghost before = out@;
        match simplify_between(points, first, best, epsilon, out) {
            Ok(_) => {},
            Err(e) => {
                return Err(e);
            },
        }
        match simplify_between(points, best, last, epsilon, out) {
            Ok(_) => {},
            Err(e) => {
                return Err(e);
            },
        }
        proof {
            let head = simplified(run.take(split + 1), epsilon).unwrap();
            let tail = simplified(run.skip(split), epsilon).unwrap();
            lemma_simplified_keeps_ends(run.take(split + 1), epsilon);
            lemma_simplified_keeps_ends(run.skip(split), epsilon);
            assert((head.drop_last() + tail).drop_first() =~= head.drop_first() + tail.drop_first());
            assert(out@ =~= before + (head.drop_last() + tail).drop_first());
        }
        Ok(())
    } else {
        out.push(b);
        assert(seq![a, b].drop_first() =~= seq![b]);
        Ok(())
    }
}

/// Simplifies a contour within `epsilon`. The contour is taken as an open run
/// from its first point to its last.
///
/// Fails with `CoordinateOverflow` where a chord that has to be measured is
/// longer than 65535.
pub fn rdp(polygon: &Polygon, epsilon: Tolerance) -> (result: Result<Polygon, Error>)
    requires
        polygon.len() >= 2,
    ensures
        match result {
            Ok(kept) => simplified(polygon@, epsilon) == Some(kept@),
            Err(e) => e == Error::CoordinateOverflow && simplified(polygon@, epsilon) is None,
        },
{
    let mut kept: Polygon = Vec::new();
    kept.push(polygon[0]);
    assert(polygon@.subrange(0, polygon.len() as int) =~= polygon@);
    proof {
        lemma_simplified_keeps_ends(polygon@, epsilon);
    }
    match simplify_between(polygon, 0, polygon.len() - 1, epsilon, &mut kept) {
        Ok(_) => {
            assert(kept@ =~= simplified(polygon@, epsilon).unwrap());
            Ok(kept)
        },
        Err(e) => Err(e),
    }
}

} // verus!
