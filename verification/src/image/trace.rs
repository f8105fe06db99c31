//! Splitting the edge points of a grid into an outer contour and holes.
//!
//! The outer contour is the walk from the first opaque cell over all edge
//! points. What it leaves behind is walked in turn: each further contour
//! starts on the first point still left and runs over the points still left.

use crate::error::Error;
use crate::geometry::{views, Point, Polygon};
use crate::image::grid::{
    edge_points, edge_points_of, first_opaque_of, fits_coordinates, is_blank, is_edge,
    is_first_opaque, is_scan_ordered, lemma_edge_points, lemma_first_opaque_is_edge,
    lemma_first_opaque_is_unique, scanned_before, Grid,
};
use crate::image::walk::{
    contains_point, get_polygon_from_point, is_walk, lemma_walk_is_unique,
    lemma_walk_prefix_is_simple,
};
use vstd::prelude::*;

verus! {

/// The points of `points` that do not occur in `taken`, in their order.
pub open spec fn without(points: Seq<Point>, taken: Seq<Point>) -> Seq<Point>
    decreases points.len(),
{
    if points.len() == 0 {
        Seq::empty()
    } else {
        let rest = without(points.drop_last(), taken);
        if taken.contains(points.last()) {
            rest
        } else {
            rest.push(points.last())
        }
    }
}

/// `holes` are the contours walked one after another out of `remaining`, and
/// `left` is what they leave behind. Each contour starts on the first point
/// that the contours before it have left and runs over the points they have
/// left.
pub open spec fn is_hole_chain(holes: Seq<Seq<Point>>, remaining: Seq<Point>, left: Seq<Point>) -> bool
    decreases holes.len(),
{
    if holes.len() == 0 {
        remaining == left
    } else {
        &&& remaining.len() > 0
        &&& is_walk(holes[0], remaining[0], remaining)
        &&& is_hole_chain(holes.drop_first(), without(remaining, holes[0]), left)
    }
}

/// `outer` and `holes` are the contours of the grid: `outer` is the walk from
/// the first opaque cell over the edge points, and `holes` are walked out of
/// the edge points that `outer` has left, until none is left.
pub open spec fn is_trace(cells: Seq<Seq<bool>>, outer: Seq<Point>, holes: Seq<Seq<Point>>) -> bool {
    &&& outer.len() > 0
    &&& is_first_opaque(cells, outer[0])
    &&& is_walk(outer, outer[0], edge_points(cells))
    &&& is_hole_chain(holes, without(edge_points(cells), outer), Seq::empty())
}

/// `p` lies on one of `holes`.
pub open spec fn on_a_hole(holes: Seq<Seq<Point>>, p: Point) -> bool {
    exists|i: int| 0 <= i < holes.len() && (#[trigger] holes[i]).contains(p)
}

/// What `without` keeps: the points that are not taken, no more often than
/// they occurred.
pub proof fn lemma_without(points: Seq<Point>, taken: Seq<Point>)
    ensures
        forall|p: Point| #[trigger]
            without(points, taken).contains(p) <==> points.contains(p) && !taken.contains(p),
        without(points, taken).len() <= points.len(),
        points.no_duplicates() ==> without(points, taken).no_duplicates(),
        (exists|p: Point| points.contains(p) && taken.contains(p)) ==> without(points, taken).len()
            < points.len(),
        (forall|p: Point| points.contains(p) ==> !taken.contains(p)) ==> without(points, taken)
            == points,
    decreases points.len(),
{
    if points.len() > 0 {
        let front = points.drop_last();
        let last = points.last();
        let rest = without(front, taken);
        let kept = without(points, taken);
        lemma_without(front, taken);
        assert forall|p: Point| #[trigger] kept.contains(p) <==> points.contains(p) && !taken.contains(p) by {
            if kept.contains(p) {
                let i = choose|i: int| 0 <= i < kept.len() && kept[i] == p;
                if i < rest.len() {
                    assert(rest[i] == p);
                    assert(rest.contains(p));
                    let j = choose|j: int| 0 <= j < front.len() && front[j] == p;
                    assert(points[j] == p);
                } else {
                    assert(points[points.len() - 1] == p);
                }
            }
            if points.contains(p) && !taken.contains(p) {
                let j = choose|j: int| 0 <= j < points.len() && points[j] == p;
                if j < front.len() {
                    assert(front[j] == p);
                    assert(rest.contains(p));
                    let i = choose|i: int| 0 <= i < rest.len() && rest[i] == p;
                    assert(kept[i] == p);
                } else {
                    assert(kept[kept.len() - 1] == p);
                }
            }
        }
        if points.no_duplicates() {
            assert(front.no_duplicates());
            if !taken.contains(last) {
                assert forall|i: int, j: int| 0 <= i < j < kept.len() implies kept[i] != kept[j] by {
                    if j == rest.len() {
                        assert(rest.contains(rest[i]));
                        let k = choose|k: int| 0 <= k < front.len() && front[k] == rest[i];
                        assert(points[k] != points[points.len() - 1]);
                    }
                }
            }
        }
        if exists|p: Point| points.contains(p) && taken.contains(p) {
            let p = choose|p: Point| points.contains(p) && taken.contains(p);
            let j = choose|j: int| 0 <= j < points.len() && points[j] == p;
            if j < front.len() {
                assert(front[j] == p);
            }
        }
        if forall|p: Point| points.contains(p) ==> !taken.contains(p) {
            assert forall|p: Point| front.contains(p) implies !taken.contains(p) by {
                let j = choose|j: int| 0 <= j < front.len() && front[j] == p;
                assert(points[j] == p);
            }
            assert(points[points.len() - 1] == last);
            assert(kept =~= points);
        }
    }
}

/// What `without` keeps, it keeps in order.
pub proof fn lemma_without_keeps_scan_order(points: Seq<Point>, taken: Seq<Point>)
    requires
        is_scan_ordered(points),
    ensures
        is_scan_ordered(without(points, taken)),
    decreases points.len(),
{
    if points.len() > 0 {
        let front = points.drop_last();
        let rest = without(front, taken);
        let kept = without(points, taken);
        assert(is_scan_ordered(front)) by {
            assert forall|i: int, j: int| 0 <= i < j < front.len() implies scanned_before(
                (#[trigger] front[i]).x as int,
                front[i].y as int,
                (#[trigger] front[j]).x as int,
                front[j].y as int,
            ) by {
                assert(front[i] == points[i] && front[j] == points[j]);
            }
        }
        lemma_without_keeps_scan_order(front, taken);
        lemma_without(front, taken);
        assert forall|i: int, j: int| 0 <= i < j < kept.len() implies scanned_before(
            (#[trigger] kept[i]).x as int,
            kept[i].y as int,
            (#[trigger] kept[j]).x as int,
            kept[j].y as int,
        ) by {
            if j < rest.len() {
                assert(kept[i] == rest[i] && kept[j] == rest[j]);
            } else {
                assert(kept[i] == rest[i]);
                assert(rest.contains(rest[i]));
                let k = choose|k: int| 0 <= k < front.len() && front[k] == rest[i];
                assert(points[k] == kept[i] && points[points.len() - 1] == kept[j]);
            }
        }
    }
}

/// A chain of contours stays a chain when the walk over what it has left is
/// put at its end.
pub proof fn lemma_hole_chain_push(
    holes: Seq<Seq<Point>>,
    remaining: Seq<Point>,
    left: Seq<Point>,
    hole: Seq<Point>,
)
    requires
        is_hole_chain(holes, remaining, left),
        left.len() > 0,
        is_walk(hole, left[0], left),
    ensures
        is_hole_chain(holes.push(hole), remaining, without(left, hole)),
    decreases holes.len(),
{
    let longer = holes.push(hole);
    if holes.len() == 0 {
        assert(longer.drop_first() =~= Seq::<Seq<Point>>::empty());
        assert(is_hole_chain(longer.drop_first(), without(left, hole), without(left, hole)));
    } else {
        lemma_hole_chain_push(holes.drop_first(), without(remaining, holes[0]), left, hole);
        assert(longer.drop_first() =~= holes.drop_first().push(hole));
        assert(longer[0] == holes[0]);
    }
}

/// The contours of a chain share no point, visit no point twice, and between
/// them hold the points that the chain has taken away, and no others.
pub proof fn lemma_hole_chain_partitions(holes: Seq<Seq<Point>>, remaining: Seq<Point>, left: Seq<Point>)
    requires
        is_hole_chain(holes, remaining, left),
    ensures
        forall|p: Point|
            remaining.contains(p) <==> (#[trigger] on_a_hole(holes, p) || left.contains(p)),
        forall|p: Point| !(#[trigger] on_a_hole(holes, p) && left.contains(p)),
        forall|i: int| 0 <= i < holes.len() ==> (#[trigger] holes[i]).no_duplicates(),
        forall|i: int| 0 <= i < holes.len() ==> (#[trigger] holes[i]).len() > 0,
        forall|i: int, j: int, p: Point|
            0 <= i < j < holes.len() ==> !(#[trigger] holes[i].contains(p) && #[trigger] holes[j].contains(p)),
    decreases holes.len(),
{
    if holes.len() == 0 {
        assert forall|p: Point| !#[trigger] on_a_hole(holes, p) by {}
    } else {
        let first = holes[0];
        let tail = holes.drop_first();
        let rest = without(remaining, first);
        lemma_hole_chain_partitions(tail, rest, left);
        lemma_walk_prefix_is_simple(first, remaining[0], remaining);
        lemma_without(remaining, first);
        assert forall|p: Point| first.contains(p) implies remaining.contains(p) by {
            let k = choose|k: int| 0 <= k < first.len() && first[k] == p;
            if k == 0 {
                assert(remaining[0] == p);
            }
        }
        assert forall|p: Point| #[trigger] on_a_hole(holes, p) <==> (first.contains(p) || on_a_hole(tail, p)) by {
            if on_a_hole(holes, p) {
                let i = choose|i: int| 0 <= i < holes.len() && (#[trigger] holes[i]).contains(p);
                if i > 0 {
                    assert(tail[i - 1] == holes[i]);
                }
            }
            if on_a_hole(tail, p) {
                let i = choose|i: int| 0 <= i < tail.len() && (#[trigger] tail[i]).contains(p);
                assert(holes[i + 1] == tail[i]);
            }
            if first.contains(p) {
                assert(holes[0].contains(p));
            }
        }
        assert forall|p: Point| remaining.contains(p) <==> (#[trigger] on_a_hole(holes, p) || left.contains(p)) by {
            assert(rest.contains(p) <==> (on_a_hole(tail, p) || left.contains(p)));
        }
        assert forall|p: Point| !(#[trigger] on_a_hole(holes, p) && left.contains(p)) by {
            assert(!(on_a_hole(tail, p) && left.contains(p)));
            assert(rest.contains(p) <==> (on_a_hole(tail, p) || left.contains(p)));
        }
        assert forall|i: int| 0 <= i < holes.len() implies (#[trigger] holes[i]).no_duplicates() && holes[i].len() > 0 by {
            if i > 0 {
                assert(tail[i - 1] == holes[i]);
            }
        }
        assert forall|i: int, j: int, p: Point| 0 <= i < j < holes.len() implies !(#[trigger] holes[i].contains(p) && #[trigger] holes[j].contains(p)) by {
            assert(tail[j - 1] == holes[j]);
            if i > 0 {
                assert(tail[i - 1] == holes[i]);
            } else if holes[j].contains(p) {
                assert(on_a_hole(tail, p));
                assert(rest.contains(p) <==> (on_a_hole(tail, p) || left.contains(p)));
            }
        }
    }
}

/// A chain is fixed by the points it starts from: two chains out of the same
/// points that leave nothing behind are the same.
pub proof fn lemma_hole_chain_is_unique(a: Seq<Seq<Point>>, b: Seq<Seq<Point>>, remaining: Seq<Point>)
    requires
        is_hole_chain(a, remaining, Seq::empty()),
        is_hole_chain(b, remaining, Seq::empty()),
    ensures
        a == b,
    decreases a.len(),
{
    if a.len() == 0 || b.len() == 0 {
        assert(a.len() == 0 && b.len() == 0);
        assert(a =~= b);
    } else {
        lemma_walk_is_unique(a[0], b[0], remaining[0], remaining);
        lemma_hole_chain_is_unique(a.drop_first(), b.drop_first(), without(remaining, a[0]));
        assert(a =~= seq![a[0]] + a.drop_first());
        assert(b =~= seq![b[0]] + b.drop_first());
    }
}

/// A grid has only one outer contour and only one list of holes.
pub proof fn lemma_trace_is_unique(
    cells: Seq<Seq<bool>>,
    outer1: Seq<Point>,
    holes1: Seq<Seq<Point>>,
    outer2: Seq<Point>,
    holes2: Seq<Seq<Point>>,
)
    requires
        is_trace(cells, outer1, holes1),
        is_trace(cells, outer2, holes2),
    ensures
        outer1 == outer2,
        holes1 == holes2,
{
    lemma_first_opaque_is_unique(cells, outer1[0], outer2[0]);
    lemma_walk_is_unique(outer1, outer2, outer1[0], edge_points(cells));
    lemma_hole_chain_is_unique(holes1, holes2, without(edge_points(cells), outer1));
}

/// The contours of a grid split its edge cells among them: every point of a
/// contour is an edge cell, every edge cell lies on the outer contour or on a
/// hole, no contour visits a point twice, and no two contours share a point.
pub proof fn lemma_trace_partitions_edges(cells: Seq<Seq<bool>>, outer: Seq<Point>, holes: Seq<Seq<Point>>)
    requires
        fits_coordinates(cells),
        is_trace(cells, outer, holes),
    ensures
        forall|p: Point|
            is_edge(cells, p.x as int, p.y as int) <==> (#[trigger] outer.contains(p) || on_a_hole(holes, p)),
        forall|p: Point| !(#[trigger] outer.contains(p) && on_a_hole(holes, p)),
        forall|i: int, j: int, p: Point|
            0 <= i < j < holes.len() ==> !(#[trigger] holes[i].contains(p) && #[trigger] holes[j].contains(p)),
        outer.no_duplicates(),
        forall|i: int| 0 <= i < holes.len() ==> (#[trigger] holes[i]).no_duplicates(),
        forall|i: int| 0 <= i < holes.len() ==> (#[trigger] holes[i]).len() > 0,
{
    let edges = edge_points(cells);
    let remaining = without(edges, outer);
    lemma_edge_points(cells);
    lemma_first_opaque_is_edge(cells, outer[0]);
    lemma_walk_prefix_is_simple(outer, outer[0], edges);
    lemma_without(edges, outer);
    lemma_hole_chain_partitions(holes, remaining, Seq::empty());
    assert forall|p: Point| outer.contains(p) implies edges.contains(p) by {
        let k = choose|k: int| 0 <= k < outer.len() && outer[k] == p;
        if k == 0 {
            assert(edges.contains(outer[0]));
        }
    }
    assert forall|p: Point|
        is_edge(cells, p.x as int, p.y as int) <==> (#[trigger] outer.contains(p) || on_a_hole(holes, p)) by {
        assert(edges.contains(p) <==> is_edge(cells, p.x as int, p.y as int));
        assert(remaining.contains(p) <==> edges.contains(p) && !outer.contains(p));
        assert(remaining.contains(p) <==> (on_a_hole(holes, p) || Seq::<Point>::empty().contains(p)));
    }
    assert forall|p: Point| !(#[trigger] outer.contains(p) && on_a_hole(holes, p)) by {
        assert(remaining.contains(p) <==> edges.contains(p) && !outer.contains(p));
        assert(remaining.contains(p) <==> (on_a_hole(holes, p) || Seq::<Point>::empty().contains(p)));
    }
}

/// The outer contour visits no point twice and is never longer than the list
/// of edge points. Where it visits every edge cell, it is as long as that
/// list and there are no holes; where it misses an edge cell, it is shorter
/// and there is a hole.
pub proof fn lemma_no_holes_iff_outer_visits_all(
    cells: Seq<Seq<bool>>,
    outer: Seq<Point>,
    holes: Seq<Seq<Point>>,
)
    requires
        fits_coordinates(cells),
        is_trace(cells, outer, holes),
    ensures
        outer.no_duplicates(),
        outer.len() <= edge_points(cells).len(),
        holes.len() == 0 <==> outer.len() == edge_points(cells).len(),
        holes.len() == 0 <==> (forall|p: Point|
            is_edge(cells, p.x as int, p.y as int) ==> #[trigger] outer.contains(p)),
{
    let edges = edge_points(cells);
    let remaining = without(edges, outer);
    lemma_trace_partitions_edges(cells, outer, holes);
    lemma_edge_points(cells);
    lemma_without(edges, outer);
    outer.unique_seq_to_set();
    edges.unique_seq_to_set();
    vstd::seq_lib::seq_to_set_is_finite(edges);
    vstd::seq_lib::seq_to_set_is_finite(outer);
    assert forall|p: Point| outer.to_set().contains(p) implies edges.to_set().contains(p) by {
        assert(outer.contains(p));
        assert(edges.contains(p) <==> is_edge(cells, p.x as int, p.y as int));
    }
    vstd::set_lib::lemma_len_subset(outer.to_set(), edges.to_set());
    if holes.len() == 0 {
        assert forall|p: Point| is_edge(cells, p.x as int, p.y as int) implies #[trigger] outer.contains(p) by {
            assert(!on_a_hole(holes, p));
        }
        assert(edges.to_set() =~= outer.to_set()) by {
            assert forall|p: Point| edges.to_set().contains(p) implies outer.to_set().contains(p) by {
                assert(edges.contains(p));
                assert(outer.contains(p));
            }
        }
    } else {
        let p = holes[0][0];
        assert(holes[0].contains(p));
        assert(on_a_hole(holes, p));
        assert(!outer.contains(p));
        assert(edges.contains(p));
        if outer.len() == edges.len() {
            vstd::set_lib::lemma_subset_equality(outer.to_set(), edges.to_set());
            assert(outer.to_set().contains(p));
        }
    }
}

/// Copies the points of `points` that do not occur in `taken`, in their order.
pub fn remove_points(points: &Vec<Point>, taken: &Vec<Point>) -> (kept: Vec<Point>)
    ensures
        kept@ == without(points@, taken@),
{
    let mut kept: Vec<Point> = Vec::new();
    let mut i: usize = 0;
    while i < points.len()
        invariant
            i <= points.len(),
            kept@ == without(points@.take(i as int), taken@),
        decreases points.len() - i,
    {
        if !contains_point(taken, points[i]) {
            kept.push(points[i]);
        }
        i += 1;
        assert(points@.take(i as int).drop_last() =~= points@.take(i - 1));
    }
    assert(points@.take(points.len() as int) =~= points@);
    kept
}

/// Traces the contours of `grid`: the outer contour, then the holes in the
/// order in which they are found. Fails with `EmptyImage` where no cell is
/// opaque.
pub fn trace_contours(grid: &Grid<bool>) -> (traced: Result<(Polygon, Vec<Polygon>), Error>)
    requires
        fits_coordinates(grid.deep_view()),
    ensures
        match traced {
            Ok((outer, holes)) => is_trace(grid.deep_view(), outer@, views(holes@)),
            Err(e) => e == Error::EmptyImage && is_blank(grid.deep_view()),
        },
{
    let edges = edge_points_of(grid);
    let start = match first_opaque_of(grid) {
        Some(p) => p,
        None => {
            return Err(Error::EmptyImage);
        },
    };
    let polygon = get_polygon_from_point(start, edges.clone());
    let mut remaining = remove_points(&edges, &polygon);
    let mut holes: Vec<Polygon> = Vec::new();
    assert(views(holes@) =~= Seq::<Seq<Point>>::empty());
    while remaining.len() > 0
        invariant
            is_hole_chain(views(holes@), without(edges@, polygon@), remaining@),
        decreases remaining.len(),
    {
        let hole = get_polygon_from_point(remaining[0], remaining.clone());
        let left = remove_points(&remaining, &hole);
        proof {
            lemma_hole_chain_push(views(holes@), without(edges@, polygon@), remaining@, hole@);
            assert(views(holes@.push(hole)) =~= views(holes@).push(hole@));
            assert(hole@[0] == remaining@[0]);
            assert(hole@.contains(remaining@[0]) && remaining@.contains(remaining@[0]));
            lemma_without(remaining@, hole@);
        }
        holes.push(hole);
        remaining = left;
    }
    assert(remaining@ =~= Seq::<Point>::empty());
    Ok((polygon, holes))
}

} // verus!
