//! The boundary walk: how a set of points is strung into one contour.
//!
//! A walk starts on a given point and repeatedly steps to a neighbour that
//! belongs to the point set and has not been visited yet. Where several
//! neighbours qualify, the fixed order of [`neighbours`] decides. The walk ends
//! when it is stuck; it never checks that it has come back to its start.

use crate::geometry::{Point, Polygon};
use vstd::prelude::*;

verus! {

/// The eight neighbours of `p`, in the order in which a walk tries them:
/// right, right-up, right-down, up, down, left, left-up, left-down.
/// An entry is `None` where the neighbour would leave the coordinate range.
pub open spec fn neighbours(p: Point) -> Seq<Option<Point>> {
    seq![
        p.spec_right(),
        p.spec_right_up(),
        p.spec_right_down(),
        p.spec_up(),
        p.spec_down(),
        p.spec_left(),
        p.spec_left_up(),
        p.spec_left_down(),
    ]
}

/// Whether a walk over `all_points` that has been on `visited` may step onto
/// `candidate`.
pub open spec fn admits(candidate: Option<Point>, all_points: Seq<Point>, visited: Seq<Point>) -> bool {
    candidate matches Some(q) && all_points.contains(q) && !visited.contains(q)
}

/// The first entry of `candidates`, from index `from` on, that the walk may
/// step onto.
pub open spec fn first_admitted(
    candidates: Seq<Option<Point>>,
    from: int,
    all_points: Seq<Point>,
    visited: Seq<Point>,
) -> Option<Point>
    decreases candidates.len() - from,
{
    if from < 0 || from >= candidates.len() {
        None
    } else if admits(candidates[from], all_points, visited) {
        candidates[from]
    } else {
        first_admitted(candidates, from + 1, all_points, visited)
    }
}

/// The step that a walk takes from `current`, or `None` where it is stuck.
pub open spec fn next_step(current: Point, all_points: Seq<Point>, visited: Seq<Point>) -> Option<Point> {
    first_admitted(neighbours(current), 0, all_points, visited)
}

/// The point at index `i` of `path` is the step taken from the point before
/// it, given what had been visited by then.
pub open spec fn is_step(path: Seq<Point>, all_points: Seq<Point>, i: int) -> bool {
    Some(path[i]) == next_step(path[i - 1], all_points, path.take(i))
}

/// `path` obeys the stepping rule as far as it goes: it starts on `start`, and
/// each later point is the step taken from the point before it.
pub open spec fn is_walk_prefix(path: Seq<Point>, start: Point, all_points: Seq<Point>) -> bool {
    &&& path.len() > 0
    &&& path[0] == start
    &&& forall|i: int| 1 <= i < path.len() ==> #[trigger] is_step(path, all_points, i)
}

/// `path` is the whole walk from `start` over `all_points`: it obeys the
/// stepping rule and is stuck at its end.
pub open spec fn is_walk(path: Seq<Point>, start: Point, all_points: Seq<Point>) -> bool {
    &&& is_walk_prefix(path, start, all_points)
    &&& next_step(path.last(), all_points, path) is None
}

/// What the first admitted candidate is, said without recursion: it is
/// admitted, and nothing before it is; or nothing is admitted at all.
pub proof fn lemma_first_admitted(
    candidates: Seq<Option<Point>>,
    from: int,
    all_points: Seq<Point>,
    visited: Seq<Point>,
)
    requires
        0 <= from <= candidates.len(),
    ensures
        match first_admitted(candidates, from, all_points, visited) {
            Some(q) => exists|k: int|
                {
                    &&& from <= k < candidates.len()
                    &&& #[trigger] candidates[k] == Some(q)
                    &&& admits(candidates[k], all_points, visited)
                    &&& forall|j: int| from <= j < k ==> !admits(#[trigger] candidates[j], all_points, visited)
                },
            None => forall|j: int|
                from <= j < candidates.len() ==> !admits(#[trigger] candidates[j], all_points, visited),
        },
    decreases candidates.len() - from,
{
    if from < candidates.len() {
        if admits(candidates[from], all_points, visited) {
            assert(candidates[from] == Some(candidates[from].unwrap()));
        } else {
            lemma_first_admitted(candidates, from + 1, all_points, visited);
            match first_admitted(candidates, from + 1, all_points, visited) {
                Some(q) => {
                    let k = choose|k: int|
                        {
                            &&& from + 1 <= k < candidates.len()
                            &&& #[trigger] candidates[k] == Some(q)
                            &&& admits(candidates[k], all_points, visited)
                            &&& forall|j: int|
                                from + 1 <= j < k ==> !admits(#[trigger] candidates[j], all_points, visited)
                        };
                    assert forall|j: int| from <= j < k implies !admits(
                        #[trigger] candidates[j],
                        all_points,
                        visited,
                    ) by {}
                },
                None => {},
            }
        }
    }
}

/// A step lands on a point of the set that had not been visited.
pub proof fn lemma_step_is_fresh(current: Point, all_points: Seq<Point>, visited: Seq<Point>)
    ensures
        next_step(current, all_points, visited) matches Some(q) ==> all_points.contains(q)
            && !visited.contains(q),
{
    lemma_first_admitted(neighbours(current), 0, all_points, visited);
}

/// A walk never visits a point twice, and but for its start it stays on the
/// point set. So it cannot be longer than the set, plus one for the start.
pub proof fn lemma_walk_prefix_is_simple(path: Seq<Point>, start: Point, all_points: Seq<Point>)
    requires
        is_walk_prefix(path, start, all_points),
    ensures
        path.no_duplicates(),
        forall|i: int| 1 <= i < path.len() ==> all_points.contains(#[trigger] path[i]),
        path.len() <= all_points.len() + 1,
{
    assert forall|i: int| 1 <= i < path.len() implies all_points.contains(#[trigger] path[i])
        && !path.take(i).contains(path[i]) by {
        assert(is_step(path, all_points, i));
        lemma_step_is_fresh(path[i - 1], all_points, path.take(i));
    }
    assert forall|i: int, j: int| 0 <= i < j < path.len() implies path[i] != path[j] by {
        assert(all_points.contains(path[j]));
        assert(path.take(j)[i] == path[i]);
    }
    let tail = path.drop_first();
    assert forall|i: int, j: int| 0 <= i < j < tail.len() implies tail[i] != tail[j] by {
        assert(tail[i] == path[i + 1] && tail[j] == path[j + 1]);
    }
    tail.unique_seq_to_set();
    all_points.lemma_cardinality_of_set();
    assert forall|p: Point| tail.to_set().contains(p) implies all_points.to_set().contains(p) by {
        let i = choose|i: int| 0 <= i < tail.len() && tail[i] == p;
        assert(tail[i] == path[i + 1]);
    }
    vstd::seq_lib::seq_to_set_is_finite(all_points);
    vstd::set_lib::lemma_len_subset(tail.to_set(), all_points.to_set());
}

/// There is only one walk from a start over a point set.
pub proof fn lemma_walk_is_unique(a: Seq<Point>, b: Seq<Point>, start: Point, all_points: Seq<Point>)
    requires
        is_walk(a, start, all_points),
        is_walk(b, start, all_points),
    ensures
        a == b,
{
    lemma_walks_agree(a, b, start, all_points, if a.len() <= b.len() {
        a.len() as int
    } else {
        b.len() as int
    });
    let n = if a.len() <= b.len() { a.len() as int } else { b.len() as int };
    if a.len() < b.len() {
        assert(a.take(n) == a);
        assert(b.take(n) == a);
        assert(is_step(b, all_points, n));
    } else if b.len() < a.len() {
        assert(b.take(n) == b);
        assert(a.take(n) == b);
        assert(is_step(a, all_points, n));
    } else {
        assert(a.take(n) == a);
        assert(b.take(n) == b);
    }
}

/// Two paths that obey the stepping rule from the same start agree on their
/// first `n` points.
proof fn lemma_walks_agree(a: Seq<Point>, b: Seq<Point>, start: Point, all_points: Seq<Point>, n: int)
    requires
        is_walk_prefix(a, start, all_points),
        is_walk_prefix(b, start, all_points),
        1 <= n <= a.len(),
        n <= b.len(),
    ensures
        a.take(n) == b.take(n),
    decreases n,
{
    if n == 1 {
        assert(a.take(1) =~= b.take(1));
    } else {
        lemma_walks_agree(a, b, start, all_points, n - 1);
        assert(a[n - 2] == a.take(n - 1)[n - 2]);
        assert(b[n - 2] == b.take(n - 1)[n - 2]);
        assert(is_step(a, all_points, n - 1));
        assert(is_step(b, all_points, n - 1));
        assert(a.take(n) =~= a.take(n - 1).push(a[n - 1]));
        assert(b.take(n) =~= b.take(n - 1).push(b[n - 1]));
    }
}

/// Whether `p` occurs in `points`.
pub fn contains_point(points: &Vec<Point>, p: Point) -> (found: bool)
    ensures
        found == points@.contains(p),
{
    let mut i: usize = 0;
    while i < points.len()
        invariant
            i <= points.len(),
            forall|j: int| 0 <= j < i ==> points@[j] != p,
        decreases points.len() - i,
    {
        if points[i] == p {
            return true;
        }
        i += 1;
    }
    false
}

/// The step from `current`: tries the eight neighbours in their fixed order and
/// takes the first that is in `all_points` and not yet in `polygon`.
fn step_from(current: Point, all_points: &Vec<Point>, polygon: &Vec<Point>) -> (next: Option<Point>)
    ensures
        next == next_step(current, all_points@, polygon@),
{
    let candidates: [Option<Point>; 8] = [
        current.right(),
        current.right_up(),
        current.right_down(),
        current.up(),
        current.down(),
        current.left(),
        current.left_up(),
        current.left_down(),
    ];
    assert(candidates@ =~= neighbours(current));
    let mut k: usize = 0;
    while k < 8
        invariant
            k <= 8,
            candidates@ == neighbours(current),
            next_step(current, all_points@, polygon@) == first_admitted(
                candidates@,
                k as int,
                all_points@,
                polygon@,
            ),
        decreases 8 - k,
    {
        if let Some(q) = candidates[k] {
            if contains_point(all_points, q) && !contains_point(polygon, q) {
                return Some(q);
            }
        }
        k += 1;
    }
    None
}

/// Walks from `point` over `all_points` until stuck and returns the points in
/// the order visited, `point` first.
///
/// The start is taken as it is: it need not be one of `all_points`.
pub fn get_polygon_from_point(point: Point, all_points: Vec<Point>) -> (polygon: Polygon)
    ensures
        is_walk(polygon@, point, all_points@),
{
    let mut polygon: Polygon = Vec::new();
    polygon.push(point);
    assert(polygon@.take(0) =~= Seq::<Point>::empty());
    loop
        invariant
            is_walk_prefix(polygon@, point, all_points@),
            polygon.len() <= all_points.len() + 1,
        ensures
            is_walk(polygon@, point, all_points@),
        decreases all_points.len() + 1 - polygon.len(),
    {
        let current = polygon[polygon.len() - 1];
        match step_from(current, &all_points, &polygon) {
            Some(q) => {
                let ghost before = polygon@;
                polygon.push(q);
                proof {
                    assert(polygon@.take(before.len() as int) =~= before);
                    assert forall|i: int| 1 <= i < polygon@.len() implies #[trigger] is_step(
                        polygon@,
                        all_points@,
                        i,
                    ) by {
                        if i < before.len() {
                            assert(is_step(before, all_points@, i));
                            assert(polygon@.take(i) =~= before.take(i));
                        }
                    }
                    lemma_walk_prefix_is_simple(polygon@, point, all_points@);
                }
            },
            None => {
                break ;
            },
        }
    }
    polygon
}

} // verus!
