//! The contours of an image whose opaque pixels form a rectangular ring.
//!
//! A ring is a rectangle of opaque cells round a rectangular gap. Where the
//! ring is at least three cells thick on every side, the walk round its
//! outside never comes next to a cell at the gap: the outer contour is the lap
//! round the outside, and what it leaves is walked as one hole, round the gap.

use crate::geometry::Point;
use crate::image::grid::{
    edge_points, fits_coordinates, is_first_opaque, lemma_edge_points,
    lemma_first_opaque_is_unique, opaque_at, scanned_before,
};
use crate::image::rectangle::{lemma_lap_is_walk, Rectangle};
use crate::image::trace::{
    is_hole_chain, is_trace, lemma_without, lemma_without_keeps_scan_order, without,
};
use crate::image::walk::{
    admits, first_admitted, is_step, is_walk, lemma_walk_is_unique, lemma_walk_prefix_is_simple,
    neighbours, next_step,
};
use vstd::prelude::*;

verus! {

/// A rectangular ring: the cells of `outline` that are not cells of `gap`.
pub struct Ring {
    pub outline: Rectangle,
    pub gap: Rectangle,
}

impl Ring {
    /// The gap has a cell, and the ring is at least three cells thick on every
    /// side of it.
    pub open spec fn is_thick(self) -> bool {
        &&& self.gap.left <= self.gap.right
        &&& self.gap.top <= self.gap.bottom
        &&& self.outline.left + 3 <= self.gap.left
        &&& self.gap.right + 3 <= self.outline.right
        &&& self.outline.top + 3 <= self.gap.top
        &&& self.gap.bottom + 3 <= self.outline.bottom
    }

    /// Whether the cell at column `x` of row `y` is a cell of the ring.
    pub open spec fn holds(self, x: int, y: int) -> bool {
        self.outline.holds(x, y) && !self.gap.holds(x, y)
    }

    /// Whether the cell lies at the gap: above, below, left or right of one of
    /// its cells.
    pub open spec fn on_rim(self, x: int, y: int) -> bool {
        ||| (self.gap.left <= x <= self.gap.right && (y == self.gap.top - 1 || y == self.gap.bottom
            + 1))
        ||| (self.gap.top <= y <= self.gap.bottom && (x == self.gap.left - 1 || x == self.gap.right
            + 1))
    }

    /// The number of cells at the gap.
    pub open spec fn rim_len(self) -> int {
        2 * self.gap.width() + 2 * self.gap.height()
    }

    /// The cell at place `i` of the lap round the gap. The lap starts above
    /// the top left cell of the gap and runs to the right above the gap, down
    /// on its right, to the left below it and up on its left.
    pub open spec fn rim_point(self, i: int) -> Point {
        let across = self.gap.width();
        let down = self.gap.height();
        if i < across {
            Point { x: (self.gap.left + i) as u16, y: (self.gap.top - 1) as u16 }
        } else if i < across + down {
            Point { x: (self.gap.right + 1) as u16, y: (self.gap.top + (i - across)) as u16 }
        } else if i < across + down + across {
            Point { x: (self.gap.right - (i - across - down)) as u16, y: (self.gap.bottom + 1) as u16 }
        } else {
            Point {
                x: (self.gap.left - 1) as u16,
                y: (self.gap.bottom - (i - across - down - across)) as u16,
            }
        }
    }

    /// The place of a cell at the gap in the lap round the gap.
    pub open spec fn rim_index(self, x: int, y: int) -> int {
        let across = self.gap.width();
        let down = self.gap.height();
        if y == self.gap.top - 1 {
            x - self.gap.left
        } else if x == self.gap.right + 1 {
            across + (y - self.gap.top)
        } else if y == self.gap.bottom + 1 {
            across + down + (self.gap.right - x)
        } else {
            across + down + across + (self.gap.bottom - y)
        }
    }

    /// The lap round the gap, as a contour.
    pub open spec fn rim_lap(self) -> Seq<Point> {
        Seq::new(self.rim_len() as nat, |i: int| self.rim_point(i))
    }

    /// Whether the lap round the gap has not come to `candidate` before place
    /// `i`, and will come to it.
    pub open spec fn is_ahead(self, candidate: Option<Point>, i: int) -> bool {
        candidate matches Some(q) && self.on_rim(q.x as int, q.y as int) && self.rim_index(
            q.x as int,
            q.y as int,
        ) >= i
    }
}

/// The lap round the gap and the places of the cells at the gap are each
/// other's inverse.
proof fn lemma_rim_places(ring: Ring)
    requires
        ring.outline.is_valid(),
        ring.is_thick(),
    ensures
        ring.rim_len() >= 4,
        forall|i: int|
            0 <= i < ring.rim_len() ==> {
                let p = #[trigger] ring.rim_point(i);
                ring.on_rim(p.x as int, p.y as int) && ring.rim_index(p.x as int, p.y as int) == i
            },
        forall|p: Point| #[trigger]
            ring.on_rim(p.x as int, p.y as int) ==> 0 <= ring.rim_index(p.x as int, p.y as int)
                < ring.rim_len() && ring.rim_point(ring.rim_index(p.x as int, p.y as int)) == p,
{
}

/// The first `i` places of the lap round the gap hold the cells at the gap
/// whose place is before `i`.
proof fn lemma_rim_visited(ring: Ring, i: int, q: Point)
    requires
        ring.outline.is_valid(),
        ring.is_thick(),
        0 <= i <= ring.rim_len(),
    ensures
        ring.rim_lap().take(i).contains(q) <==> ring.on_rim(q.x as int, q.y as int) && ring.rim_index(
            q.x as int,
            q.y as int,
        ) < i,
{
    lemma_rim_places(ring);
    let visited = ring.rim_lap().take(i);
    if visited.contains(q) {
        let j = choose|j: int| 0 <= j < visited.len() && visited[j] == q;
        assert(q == ring.rim_point(j));
    }
    if ring.on_rim(q.x as int, q.y as int) && ring.rim_index(q.x as int, q.y as int) < i {
        let j = ring.rim_index(q.x as int, q.y as int);
        assert(visited[j] == q);
    }
}

/// A walk over the cells at the gap that has followed their lap for `i` places
/// may step onto a candidate exactly where the lap has not come to it yet.
proof fn lemma_admits_ahead(left_over: Seq<Point>, ring: Ring, i: int, candidate: Option<Point>)
    requires
        ring.outline.is_valid(),
        ring.is_thick(),
        0 <= i <= ring.rim_len(),
        forall|p: Point| #[trigger] left_over.contains(p) <==> ring.on_rim(p.x as int, p.y as int),
    ensures
        admits(candidate, left_over, ring.rim_lap().take(i)) == ring.is_ahead(candidate, i),
{
    if let Some(q) = candidate {
        lemma_rim_visited(ring, i, q);
    }
}

/// After `i` places of the lap round the gap, the step from place `i - 1` is
/// to place `i`, or the walk is stuck where the lap is complete.
proof fn lemma_rim_step(left_over: Seq<Point>, ring: Ring, i: int)
    requires
        ring.outline.is_valid(),
        ring.is_thick(),
        1 <= i <= ring.rim_len(),
        forall|p: Point| #[trigger] left_over.contains(p) <==> ring.on_rim(p.x as int, p.y as int),
    ensures
        next_step(ring.rim_point(i - 1), left_over, ring.rim_lap().take(i)) == if i < ring.rim_len() {
            Some(ring.rim_point(i))
        } else {
            None
        },
{
    let around = neighbours(ring.rim_point(i - 1));
    lemma_rim_places(ring);
    lemma_admits_ahead(left_over, ring, i, around[0]);
    lemma_admits_ahead(left_over, ring, i, around[1]);
    lemma_admits_ahead(left_over, ring, i, around[2]);
    lemma_admits_ahead(left_over, ring, i, around[3]);
    lemma_admits_ahead(left_over, ring, i, around[4]);
    lemma_admits_ahead(left_over, ring, i, around[5]);
    lemma_admits_ahead(left_over, ring, i, around[6]);
    lemma_admits_ahead(left_over, ring, i, around[7]);
    reveal_with_fuel(first_admitted, 9);
}

/// The lap round the gap is the walk over the cells at the gap from the cell
/// above the top left cell of the gap.
proof fn lemma_rim_lap_is_walk(left_over: Seq<Point>, ring: Ring)
    requires
        ring.outline.is_valid(),
        ring.is_thick(),
        forall|p: Point| #[trigger] left_over.contains(p) <==> ring.on_rim(p.x as int, p.y as int),
    ensures
        is_walk(ring.rim_lap(), ring.rim_point(0), left_over),
{
    let lap = ring.rim_lap();
    lemma_rim_places(ring);
    assert forall|i: int| 1 <= i < lap.len() implies #[trigger] is_step(lap, left_over, i) by {
        lemma_rim_step(left_over, ring, i);
    }
    lemma_rim_step(left_over, ring, ring.rim_len());
    assert(lap.take(ring.rim_len()) =~= lap);
}

/// A thick ring has one outer contour and one hole: in an image whose opaque
/// pixels are those of a rectangular ring that is at least three cells thick
/// on every side, the outer contour is the lap round the outside of the ring,
/// and there is exactly one hole, which is the lap round the gap. Between them
/// the two hold every edge point once.
pub proof fn lemma_thick_ring_has_one_hole(
    cells: Seq<Seq<bool>>,
    ring: Ring,
    outer: Seq<Point>,
    holes: Seq<Seq<Point>>,
)
    requires
        fits_coordinates(cells),
        ring.is_thick(),
        forall|x: int, y: int| #[trigger] opaque_at(cells, x, y) <==> ring.holds(x, y),
        is_trace(cells, outer, holes),
    ensures
        outer == ring.outline.lap(),
        holes.len() == 1,
        holes[0] == ring.rim_lap(),
        edge_points(cells).len() == outer.len() + holes[0].len(),
{
    let outline = ring.outline;
    assert(opaque_at(cells, outline.left, outline.top));
    assert(opaque_at(cells, outline.right, outline.bottom));
    assert(outline.is_valid());
    let edges = edge_points(cells);
    lemma_edge_points(cells);
    // The edge points are the cells round the outside and the cells at the gap.
    assert forall|p: Point| #[trigger]
        edges.contains(p) <==> outline.on_perimeter(p.x as int, p.y as int) || ring.on_rim(
            p.x as int,
            p.y as int,
        ) by {
        let (x, y) = (p.x as int, p.y as int);
        assert(opaque_at(cells, x, y) <==> ring.holds(x, y));
        assert(opaque_at(cells, x - 1, y) <==> ring.holds(x - 1, y));
        assert(opaque_at(cells, x + 1, y) <==> ring.holds(x + 1, y));
        assert(opaque_at(cells, x, y - 1) <==> ring.holds(x, y - 1));
        assert(opaque_at(cells, x, y + 1) <==> ring.holds(x, y + 1));
    }
    // The outer contour is the lap round the outside.
    let corner = outline.lap_point(0);
    assert(outline.is_outlined_by(edges));
    lemma_lap_is_walk(edges, outline);
    assert(is_first_opaque(cells, corner)) by {
        assert forall|x: int, y: int| scanned_before(x, y, corner.x as int, corner.y as int) implies !#[trigger] opaque_at(
            cells,
            x,
            y,
        ) by {
            assert(!ring.holds(x, y));
        }
    }
    lemma_first_opaque_is_unique(cells, outer[0], corner);
    lemma_walk_is_unique(outer, outline.lap(), corner, edges);
    // It leaves the cells at the gap, the first of which is where their lap starts.
    let left_over = without(edges, outer);
    lemma_without(edges, outer);
    lemma_without_keeps_scan_order(edges, outer);
    assert forall|p: Point| #[trigger] left_over.contains(p) <==> ring.on_rim(p.x as int, p.y as int) by {
        let (x, y) = (p.x as int, p.y as int);
        assert(edges.contains(p) <==> outline.on_perimeter(x, y) || ring.on_rim(x, y));
        if outline.on_perimeter(x, y) {
            assert(outer[outline.lap_index(x, y)] == p);
        }
        if outer.contains(p) {
            let j = choose|j: int| 0 <= j < outer.len() && outer[j] == p;
            assert(p == outline.lap_point(j));
        }
    }
    lemma_rim_places(ring);
    let start = ring.rim_point(0);
    assert(left_over.contains(start));
    let at = choose|j: int| 0 <= j < left_over.len() && left_over[j] == start;
    assert(left_over.contains(left_over[0]));
    assert(at == 0);
    // The walk over them is their lap, and it leaves nothing.
    lemma_rim_lap_is_walk(left_over, ring);
    lemma_walk_is_unique(holes[0], ring.rim_lap(), start, left_over);
    let rest = without(left_over, holes[0]);
    lemma_without(left_over, holes[0]);
    assert(rest.len() == 0) by {
        if rest.len() > 0 {
            let p = rest[0];
            assert(rest.contains(p));
            assert(holes[0][ring.rim_index(p.x as int, p.y as int)] == p);
        }
    }
    assert(is_hole_chain(holes.drop_first(), rest, Seq::empty()));
    assert(holes.drop_first().len() == 0);
    // Between them the two contours hold every edge point once.
    assert(edges.len() == outer.len() + holes[0].len()) by {
        lemma_walk_prefix_is_simple(outer, corner, edges);
        lemma_walk_prefix_is_simple(holes[0], start, left_over);
        assert forall|p: Point| holes[0].contains(p) <==> left_over.contains(p) by {
            lemma_rim_visited(ring, ring.rim_len(), p);
            assert(ring.rim_lap().take(ring.rim_len()) =~= ring.rim_lap());
        }
        lemma_counts(edges, outer, left_over, holes[0]);
    }
}

/// The points that a contour takes out of a list and the points that it
/// leaves add up to the list, where the contour visits no point twice and
/// only points of the list.
proof fn lemma_counts(edges: Seq<Point>, outer: Seq<Point>, left_over: Seq<Point>, hole: Seq<Point>)
    requires
        edges.no_duplicates(),
        outer.no_duplicates(),
        hole.no_duplicates(),
        forall|p: Point| outer.contains(p) ==> edges.contains(p),
        left_over == without(edges, outer),
        forall|p: Point| hole.contains(p) <==> left_over.contains(p),
    ensures
        edges.len() == outer.len() + hole.len(),
{
    lemma_without(edges, outer);
    edges.unique_seq_to_set();
    outer.unique_seq_to_set();
    hole.unique_seq_to_set();
    vstd::seq_lib::seq_to_set_is_finite(edges);
    vstd::seq_lib::seq_to_set_is_finite(outer);
    vstd::seq_lib::seq_to_set_is_finite(hole);
    assert(edges.to_set() =~= outer.to_set().union(hole.to_set())) by {
        assert forall|p: Point| edges.to_set().contains(p) <==> outer.to_set().union(hole.to_set()).contains(p) by {
            assert(left_over.contains(p) <==> edges.contains(p) && !outer.contains(p));
            assert(hole.contains(p) <==> left_over.contains(p));
        }
    }
    assert(outer.to_set().disjoint(hole.to_set())) by {
        assert forall|p: Point| !(outer.to_set().contains(p) && hole.to_set().contains(p)) by {
            assert(left_over.contains(p) <==> edges.contains(p) && !outer.contains(p));
            assert(hole.contains(p) <==> left_over.contains(p));
        }
    }
    vstd::set_lib::lemma_set_disjoint_lens(outer.to_set(), hole.to_set());
}

} // verus!
