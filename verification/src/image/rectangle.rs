//! The contours of an image whose opaque pixels form one solid rectangle.
//!
//! Such an image is the plainest blob without a hole, and its walk can be told
//! in advance: along the top row to the right, down the right column, back
//! along the bottom row and up the left column. The walk visits every edge
//! point, so no hole is traced.

use crate::geometry::Point;
use crate::image::grid::{
    edge_points, fits_coordinates, is_edge, is_first_opaque, lemma_edge_points,
    lemma_first_opaque_is_unique, opaque_at, scanned_before,
};
use crate::image::trace::{is_trace, lemma_no_holes_iff_outer_visits_all};
use crate::image::walk::{
    admits, first_admitted, is_step, is_walk, lemma_walk_is_unique, neighbours, next_step,
};
use vstd::prelude::*;

verus! {

/// A rectangle of cells, by its first and last column and its first and last
/// row.
pub struct Rectangle {
    pub left: int,
    pub top: int,
    pub right: int,
    pub bottom: int,
}

impl Rectangle {
    /// The rectangle has a cell, and each of its cells has coordinates.
    pub open spec fn is_valid(self) -> bool {
        0 <= self.left <= self.right <= u16::MAX && 0 <= self.top <= self.bottom <= u16::MAX
    }

    /// The number of columns.
    pub open spec fn width(self) -> int {
        self.right - self.left + 1
    }

    /// The number of rows.
    pub open spec fn height(self) -> int {
        self.bottom - self.top + 1
    }

    /// Whether the cell at column `x` of row `y` lies in the rectangle.
    pub open spec fn holds(self, x: int, y: int) -> bool {
        self.left <= x <= self.right && self.top <= y <= self.bottom
    }

    /// Whether the cell lies in the first or last row or column of the
    /// rectangle.
    pub open spec fn on_perimeter(self, x: int, y: int) -> bool {
        self.holds(x, y) && (x == self.left || x == self.right || y == self.top || y == self.bottom)
    }

    /// The number of cells on the perimeter.
    pub open spec fn lap_len(self) -> int {
        if self.height() == 1 {
            self.width()
        } else if self.width() == 1 {
            self.height()
        } else {
            2 * self.width() + 2 * self.height() - 4
        }
    }

    /// The cell at place `i` of the lap round the perimeter. The lap starts in
    /// the top left corner and runs along the top row to the right, down the
    /// right column, along the bottom row to the left and up the left column.
    pub open spec fn lap_point(self, i: int) -> Point {
        let along = self.width() - 1;
        let down = self.height() - 1;
        if i <= along {
            Point { x: (self.left + i) as u16, y: self.top as u16 }
        } else if i <= along + down {
            Point { x: self.right as u16, y: (self.top + (i - along)) as u16 }
        } else if i <= along + down + along {
            Point { x: (self.right - (i - along - down)) as u16, y: self.bottom as u16 }
        } else {
            Point { x: self.left as u16, y: (self.bottom - (i - along - down - along)) as u16 }
        }
    }

    /// The place of a perimeter cell in the lap.
    pub open spec fn lap_index(self, x: int, y: int) -> int {
        let along = self.width() - 1;
        let down = self.height() - 1;
        if y == self.top {
            x - self.left
        } else if x == self.right {
            along + (y - self.top)
        } else if y == self.bottom {
            along + down + (self.right - x)
        } else {
            along + down + along + (self.bottom - y)
        }
    }

    /// The lap round the perimeter, as a contour.
    pub open spec fn lap(self) -> Seq<Point> {
        Seq::new(self.lap_len() as nat, |i: int| self.lap_point(i))
    }

    /// Whether the cell is a perimeter cell or the neighbour of one, in any of
    /// the eight directions.
    pub open spec fn is_near_perimeter(self, x: int, y: int) -> bool {
        &&& self.left - 1 <= x <= self.right + 1
        &&& self.top - 1 <= y <= self.bottom + 1
        &&& (x <= self.left + 1 || x >= self.right - 1 || y <= self.top + 1 || y >= self.bottom - 1)
    }

    /// Near the perimeter of the rectangle, the points of `edges` are the
    /// perimeter cells.
    pub open spec fn is_outlined_by(self, edges: Seq<Point>) -> bool {
        forall|p: Point|
            self.is_near_perimeter(p.x as int, p.y as int) ==> (#[trigger] edges.contains(p)
                <==> self.on_perimeter(p.x as int, p.y as int))
    }

    /// Whether the lap has not come to `candidate` before place `i`, and will
    /// come to it.
    pub open spec fn is_ahead(self, candidate: Option<Point>, i: int) -> bool {
        candidate matches Some(q) && self.on_perimeter(q.x as int, q.y as int) && self.lap_index(
            q.x as int,
            q.y as int,
        ) >= i
    }
}

/// The lap and the places of the perimeter cells are each other's inverse.
proof fn lemma_lap_places(r: Rectangle)
    requires
        r.is_valid(),
    ensures
        r.lap_len() >= 1,
        forall|i: int|
            0 <= i < r.lap_len() ==> {
                let p = #[trigger] r.lap_point(i);
                r.on_perimeter(p.x as int, p.y as int) && r.lap_index(p.x as int, p.y as int) == i
            },
        forall|p: Point| #[trigger]
            r.on_perimeter(p.x as int, p.y as int) ==> 0 <= r.lap_index(p.x as int, p.y as int)
                < r.lap_len() && r.lap_point(r.lap_index(p.x as int, p.y as int)) == p,
{
}

/// The first `i` places of the lap hold the perimeter cells whose place is
/// before `i`.
proof fn lemma_lap_visited(r: Rectangle, i: int, q: Point)
    requires
        r.is_valid(),
        0 <= i <= r.lap_len(),
    ensures
        r.lap().take(i).contains(q) <==> r.on_perimeter(q.x as int, q.y as int) && r.lap_index(
            q.x as int,
            q.y as int,
        ) < i,
{
    lemma_lap_places(r);
    let visited = r.lap().take(i);
    if visited.contains(q) {
        let j = choose|j: int| 0 <= j < visited.len() && visited[j] == q;
        assert(q == r.lap_point(j));
    }
    if r.on_perimeter(q.x as int, q.y as int) && r.lap_index(q.x as int, q.y as int) < i {
        let j = r.lap_index(q.x as int, q.y as int);
        assert(visited[j] == q);
    }
}

/// The edge points of an opaque rectangle are its perimeter: where every cell
/// of a rectangle is opaque and no opaque cell adjoins one of its four sides,
/// the edge points inside the rectangle are the cells in its first and last
/// row and in its first and last column, and no others.
pub proof fn lemma_rectangle_edges_are_perimeter(cells: Seq<Seq<bool>>, r: Rectangle)
    requires
        fits_coordinates(cells),
        r.left <= r.right,
        r.top <= r.bottom,
        forall|x: int, y: int| r.holds(x, y) ==> #[trigger] opaque_at(cells, x, y),
        forall|y: int| r.top <= y <= r.bottom ==> !#[trigger] opaque_at(cells, r.left - 1, y),
        forall|y: int| r.top <= y <= r.bottom ==> !#[trigger] opaque_at(cells, r.right + 1, y),
        forall|x: int| r.left <= x <= r.right ==> !#[trigger] opaque_at(cells, x, r.top - 1),
        forall|x: int| r.left <= x <= r.right ==> !#[trigger] opaque_at(cells, x, r.bottom + 1),
    ensures
        forall|x: int, y: int|
            r.holds(x, y) ==> (#[trigger] is_edge(cells, x, y) <==> r.on_perimeter(x, y)),
        forall|p: Point|
            r.holds(p.x as int, p.y as int) ==> (#[trigger] edge_points(cells).contains(p)
                <==> r.on_perimeter(p.x as int, p.y as int)),
{
    assert forall|x: int, y: int| r.holds(x, y) implies (#[trigger] is_edge(cells, x, y) <==> r.on_perimeter(
        x,
        y,
    )) by {
        assert(opaque_at(cells, x, y));
        assert(opaque_at(cells, x - 1, y) <==> x > r.left);
        assert(opaque_at(cells, x + 1, y) <==> x < r.right);
        assert(opaque_at(cells, x, y - 1) <==> y > r.top);
        assert(opaque_at(cells, x, y + 1) <==> y < r.bottom);
    }
    lemma_edge_points(cells);
}

/// In an image whose opaque cells are those of `r`, the edge points are the
/// perimeter cells of `r`.
proof fn lemma_edges_of_solid_rectangle(cells: Seq<Seq<bool>>, r: Rectangle)
    requires
        fits_coordinates(cells),
        r.is_valid(),
        forall|x: int, y: int| #[trigger] opaque_at(cells, x, y) <==> r.holds(x, y),
    ensures
        forall|p: Point| #[trigger]
            edge_points(cells).contains(p) <==> r.on_perimeter(p.x as int, p.y as int),
{
    lemma_edge_points(cells);
    assert forall|p: Point| #[trigger]
        edge_points(cells).contains(p) <==> r.on_perimeter(p.x as int, p.y as int) by {
        let (x, y) = (p.x as int, p.y as int);
        assert(opaque_at(cells, x, y) <==> r.holds(x, y));
        assert(opaque_at(cells, x - 1, y) <==> r.holds(x - 1, y));
        assert(opaque_at(cells, x + 1, y) <==> r.holds(x + 1, y));
        assert(opaque_at(cells, x, y - 1) <==> r.holds(x, y - 1));
        assert(opaque_at(cells, x, y + 1) <==> r.holds(x, y + 1));
    }
}

/// A walk that has followed the lap for `i` places may step onto a candidate
/// near the perimeter exactly where the lap has not come to it yet.
proof fn lemma_admits_ahead(edges: Seq<Point>, r: Rectangle, i: int, candidate: Option<Point>)
    requires
        r.is_valid(),
        0 <= i <= r.lap_len(),
        r.is_outlined_by(edges),
        candidate matches Some(q) ==> r.is_near_perimeter(q.x as int, q.y as int),
    ensures
        admits(candidate, edges, r.lap().take(i)) == r.is_ahead(candidate, i),
{
    if let Some(q) = candidate {
        lemma_lap_visited(r, i, q);
    }
}

/// After `i` places of the lap, the step from place `i - 1` is to place `i`, or
/// the walk is stuck where the lap is complete.
proof fn lemma_lap_step(edges: Seq<Point>, r: Rectangle, i: int)
    requires
        r.is_valid(),
        1 <= i <= r.lap_len(),
        r.is_outlined_by(edges),
    ensures
        next_step(r.lap_point(i - 1), edges, r.lap().take(i)) == if i < r.lap_len() {
            Some(r.lap_point(i))
        } else {
            None
        },
{
    let current = r.lap_point(i - 1);
    let visited = r.lap().take(i);
    let around = neighbours(current);
    lemma_lap_places(r);
    lemma_admits_ahead(edges, r, i, around[0]);
    lemma_admits_ahead(edges, r, i, around[1]);
    lemma_admits_ahead(edges, r, i, around[2]);
    lemma_admits_ahead(edges, r, i, around[3]);
    lemma_admits_ahead(edges, r, i, around[4]);
    lemma_admits_ahead(edges, r, i, around[5]);
    lemma_admits_ahead(edges, r, i, around[6]);
    lemma_admits_ahead(edges, r, i, around[7]);
    reveal_with_fuel(first_admitted, 9);
}

/// Where `edges` outline a rectangle, the walk from its top left corner over
/// `edges` is the lap round its perimeter.
pub proof fn lemma_lap_is_walk(edges: Seq<Point>, r: Rectangle)
    requires
        r.is_valid(),
        r.is_outlined_by(edges),
    ensures
        is_walk(r.lap(), r.lap_point(0), edges),
{
    let lap = r.lap();
    lemma_lap_places(r);
    assert forall|i: int| 1 <= i < lap.len() implies #[trigger] is_step(lap, edges, i) by {
        lemma_lap_step(edges, r, i);
    }
    lemma_lap_step(edges, r, r.lap_len());
    assert(lap.take(r.lap_len()) =~= lap);
}

/// A solid rectangle is walked once round: in an image whose opaque pixels are
/// those of one rectangle, the outer contour is the lap round the perimeter of
/// the rectangle, it visits every edge point, and there are no holes.
pub proof fn lemma_solid_rectangle_is_walked_once_round(
    cells: Seq<Seq<bool>>,
    r: Rectangle,
    outer: Seq<Point>,
    holes: Seq<Seq<Point>>,
)
    requires
        fits_coordinates(cells),
        r.left <= r.right,
        r.top <= r.bottom,
        forall|x: int, y: int| #[trigger] opaque_at(cells, x, y) <==> r.holds(x, y),
        is_trace(cells, outer, holes),
    ensures
        outer == r.lap(),
        outer.len() == edge_points(cells).len(),
        holes.len() == 0,
{
    assert(opaque_at(cells, r.left, r.top));
    assert(opaque_at(cells, r.right, r.bottom));
    assert(r.is_valid());
    let edges = edge_points(cells);
    let corner = r.lap_point(0);
    lemma_edges_of_solid_rectangle(cells, r);
    lemma_lap_is_walk(edges, r);
    assert(is_first_opaque(cells, corner)) by {
        assert forall|x: int, y: int| scanned_before(x, y, corner.x as int, corner.y as int) implies !#[trigger] opaque_at(
            cells,
            x,
            y,
        ) by {
            assert(!r.holds(x, y));
        }
    }
    lemma_first_opaque_is_unique(cells, outer[0], corner);
    lemma_walk_is_unique(outer, r.lap(), corner, edges);
    lemma_lap_places(r);
    assert forall|p: Point| is_edge(cells, p.x as int, p.y as int) implies #[trigger] outer.contains(p) by {
        lemma_edge_points(cells);
        assert(edges.contains(p));
        assert(outer[r.lap_index(p.x as int, p.y as int)] == p);
    }
    lemma_no_holes_iff_outer_visits_all(cells, outer, holes);
}

} // verus!
