//! The opacity grid, its edge points and the seed of the outer contour.
//!
//! A grid is a list of rows; the cell in row `y` and column `x` is true where
//! the pixel is opaque. A cell off the grid counts as not opaque.

use crate::geometry::Point;
use vstd::prelude::*;

verus! {

/// Rows of cells, top row first.
pub type Grid<T> = Vec<Vec<T>>;

/// The largest number of rows or columns whose indices are coordinates.
pub const MAX_SIDE: usize = 65536;

/// Every row of `cells` has `width` cells, and there are `height` rows.
pub open spec fn is_grid(cells: Seq<Seq<bool>>, width: nat, height: nat) -> bool {
    &&& cells.len() == height
    &&& forall|y: int| 0 <= y < height ==> (#[trigger] cells[y]).len() == width
}

/// Each index into `cells` is a coordinate: no row and no column lies beyond
/// the 16-bit range.
pub open spec fn fits_coordinates(cells: Seq<Seq<bool>>) -> bool {
    &&& cells.len() <= MAX_SIDE
    &&& forall|y: int| 0 <= y < cells.len() ==> (#[trigger] cells[y]).len() <= MAX_SIDE
}

/// Whether the cell at column `x` of row `y` is on the grid and opaque.
pub open spec fn opaque_at(cells: Seq<Seq<bool>>, x: int, y: int) -> bool {
    0 <= y < cells.len() && 0 <= x < cells[y].len() && cells[y][x]
}

/// An edge cell is an opaque cell with a neighbour above, below, left or right
/// that is not opaque.
pub open spec fn is_edge(cells: Seq<Seq<bool>>, x: int, y: int) -> bool {
    &&& opaque_at(cells, x, y)
    &&& !(opaque_at(cells, x - 1, y) && opaque_at(cells, x + 1, y) && opaque_at(cells, x, y - 1)
        && opaque_at(cells, x, y + 1))
}

/// Row-major order: rows from the top, and within a row from the left.
pub open spec fn scanned_before(x1: int, y1: int, x2: int, y2: int) -> bool {
    y1 < y2 || (y1 == y2 && x1 < x2)
}

/// The points come in row-major order, none of them twice.
pub open spec fn is_scan_ordered(points: Seq<Point>) -> bool {
    forall|i: int, j: int|
        0 <= i < j < points.len() ==> scanned_before(
            (#[trigger] points[i]).x as int,
            points[i].y as int,
            (#[trigger] points[j]).x as int,
            points[j].y as int,
        )
}

/// The edge cells of row `y` in its first `upto` columns, from the left.
pub open spec fn row_edges(cells: Seq<Seq<bool>>, y: int, upto: int) -> Seq<Point>
    decreases upto,
{
    if upto <= 0 {
        Seq::empty()
    } else {
        let rest = row_edges(cells, y, upto - 1);
        if is_edge(cells, upto - 1, y) {
            rest.push(Point { x: (upto - 1) as u16, y: y as u16 })
        } else {
            rest
        }
    }
}

/// The edge cells of the first `upto` rows, row by row.
pub open spec fn edges_above(cells: Seq<Seq<bool>>, upto: int) -> Seq<Point>
    decreases upto,
{
    if upto <= 0 {
        Seq::empty()
    } else {
        edges_above(cells, upto - 1) + row_edges(cells, upto - 1, cells[upto - 1].len() as int)
    }
}

/// The edge points of a grid, in row-major order.
pub open spec fn edge_points(cells: Seq<Seq<bool>>) -> Seq<Point> {
    edges_above(cells, cells.len() as int)
}

/// `p` is the first opaque cell in row-major order.
pub open spec fn is_first_opaque(cells: Seq<Seq<bool>>, p: Point) -> bool {
    &&& opaque_at(cells, p.x as int, p.y as int)
    &&& forall|x: int, y: int|
        scanned_before(x, y, p.x as int, p.y as int) ==> !#[trigger] opaque_at(cells, x, y)
}

/// No cell of the grid is opaque.
pub open spec fn is_blank(cells: Seq<Seq<bool>>) -> bool {
    forall|x: int, y: int| !#[trigger] opaque_at(cells, x, y)
}

/// What `row_edges` lists: the edge cells of the row left of `upto`, each
/// once, from left to right.
pub proof fn lemma_row_edges(cells: Seq<Seq<bool>>, y: int, upto: int)
    requires
        0 <= y < MAX_SIDE,
        0 <= upto <= MAX_SIDE,
    ensures
        forall|i: int|
            0 <= i < row_edges(cells, y, upto).len() ==> {
                let p = #[trigger] row_edges(cells, y, upto)[i];
                p.y == y && p.x < upto && is_edge(cells, p.x as int, y)
            },
        forall|i: int, j: int|
            0 <= i < j < row_edges(cells, y, upto).len() ==> (#[trigger] row_edges(cells, y, upto)[i]).x
                < (#[trigger] row_edges(cells, y, upto)[j]).x,
        forall|p: Point|
            p.y == y && p.x < upto && is_edge(cells, p.x as int, y) ==> #[trigger] row_edges(
                cells,
                y,
                upto,
            ).contains(p),
    decreases upto,
{
    if upto > 0 {
        lemma_row_edges(cells, y, upto - 1);
        let rest = row_edges(cells, y, upto - 1);
        let all = row_edges(cells, y, upto);
        assert forall|p: Point| p.y == y && p.x < upto && is_edge(cells, p.x as int, y) implies all.contains(
            p,
        ) by {
            if p.x < upto - 1 {
                assert(rest.contains(p));
                let i = choose|i: int| 0 <= i < rest.len() && rest[i] == p;
                assert(all[i] == p);
            } else {
                assert(all[all.len() - 1] == p);
            }
        }
    }
}

/// What `edges_above` lists: the edge cells of the rows above `upto`, each
/// once, in row-major order.
pub proof fn lemma_edges_above(cells: Seq<Seq<bool>>, upto: int)
    requires
        fits_coordinates(cells),
        0 <= upto <= cells.len(),
    ensures
        forall|i: int|
            0 <= i < edges_above(cells, upto).len() ==> {
                let p = #[trigger] edges_above(cells, upto)[i];
                p.y < upto && is_edge(cells, p.x as int, p.y as int)
            },
        forall|i: int, j: int|
            0 <= i < j < edges_above(cells, upto).len() ==> scanned_before(
                (#[trigger] edges_above(cells, upto)[i]).x as int,
                edges_above(cells, upto)[i].y as int,
                (#[trigger] edges_above(cells, upto)[j]).x as int,
                edges_above(cells, upto)[j].y as int,
            ),
        forall|p: Point|
            p.y < upto && is_edge(cells, p.x as int, p.y as int) ==> #[trigger] edges_above(
                cells,
                upto,
            ).contains(p),
    decreases upto,
{
    if upto > 0 {
        let y = upto - 1;
        let above = edges_above(cells, y);
        let row = row_edges(cells, y, cells[y].len() as int);
        let all = edges_above(cells, upto);
        lemma_edges_above(cells, y);
        lemma_row_edges(cells, y, cells[y].len() as int);
        assert forall|i: int| 0 <= i < all.len() implies ({
            let p = #[trigger] all[i];
            p.y < upto && is_edge(cells, p.x as int, p.y as int)
        }) by {
            if i < above.len() {
                assert(all[i] == above[i]);
            } else {
                assert(all[i] == row[i - above.len()]);
            }
        }
        assert forall|i: int, j: int| 0 <= i < j < all.len() implies scanned_before(
            (#[trigger] all[i]).x as int,
            all[i].y as int,
            (#[trigger] all[j]).x as int,
            all[j].y as int,
        ) by {
            if j < above.len() {
                assert(all[i] == above[i] && all[j] == above[j]);
            } else if i < above.len() {
                assert(all[i] == above[i] && all[j] == row[j - above.len()]);
            } else {
                assert(all[i] == row[i - above.len()] && all[j] == row[j - above.len()]);
            }
        }
        assert forall|p: Point| p.y < upto && is_edge(cells, p.x as int, p.y as int) implies all.contains(
            p,
        ) by {
            if p.y < y {
                assert(above.contains(p));
                let i = choose|i: int| 0 <= i < above.len() && above[i] == p;
                assert(all[i] == p);
            } else {
                assert(row.contains(p));
                let i = choose|i: int| 0 <= i < row.len() && row[i] == p;
                assert(all[above.len() + i] == p);
            }
        }
    }
}

/// The edge points of a grid are its edge cells, each listed once, in
/// row-major order.
pub proof fn lemma_edge_points(cells: Seq<Seq<bool>>)
    requires
        fits_coordinates(cells),
    ensures
        forall|p: Point| #[trigger] edge_points(cells).contains(p) <==> is_edge(cells, p.x as int, p.y as int),
        is_scan_ordered(edge_points(cells)),
        edge_points(cells).no_duplicates(),
{
    lemma_edges_above(cells, cells.len() as int);
}

/// The first opaque cell in row-major order is an edge cell: the cell above it
/// was scanned before it, so it is not opaque.
pub proof fn lemma_first_opaque_is_edge(cells: Seq<Seq<bool>>, p: Point)
    requires
        is_first_opaque(cells, p),
    ensures
        is_edge(cells, p.x as int, p.y as int),
{
    assert(scanned_before(p.x as int, p.y - 1, p.x as int, p.y as int));
    assert(!opaque_at(cells, p.x as int, p.y - 1));
}

/// Only one cell is the first opaque one.
pub proof fn lemma_first_opaque_is_unique(cells: Seq<Seq<bool>>, p: Point, q: Point)
    requires
        is_first_opaque(cells, p),
        is_first_opaque(cells, q),
    ensures
        p == q,
{
    if scanned_before(p.x as int, p.y as int, q.x as int, q.y as int) {
        assert(!opaque_at(cells, p.x as int, p.y as int));
    }
    if scanned_before(q.x as int, q.y as int, p.x as int, p.y as int) {
        assert(!opaque_at(cells, q.x as int, q.y as int));
    }
}

/// Whether the cell at column `x` of row `y` is on the grid and opaque.
pub fn is_opaque(grid: &Grid<bool>, x: usize, y: usize) -> (opaque: bool)
    ensures
        opaque == opaque_at(grid.deep_view(), x as int, y as int),
{
    y < grid.len() && x < grid[y].len() && grid[y][x]
}

/// Whether the cell at column `x` of row `y` is an edge cell.
pub fn is_edge_cell(grid: &Grid<bool>, x: usize, y: usize) -> (edge: bool)
    ensures
        edge == is_edge(grid.deep_view(), x as int, y as int),
{
    if y >= grid.len() || x >= grid[y].len() || !grid[y][x] {
        return false;
    }
    let left = x > 0 && grid[y][x - 1];
    let right = x + 1 < grid[y].len() && grid[y][x + 1];
    let up = y > 0 && is_opaque(grid, x, y - 1);
    let down = y + 1 < grid.len() && is_opaque(grid, x, y + 1);
    !(left && right && up && down)
}

/// Lists the edge points of `grid` in row-major order.
pub fn edge_points_of(grid: &Grid<bool>) -> (edges: Vec<Point>)
    requires
        fits_coordinates(grid.deep_view()),
    ensures
        edges@ == edge_points(grid.deep_view()),
{
    let ghost cells = grid.deep_view();
    let mut edges: Vec<Point> = Vec::new();
    let mut y: usize = 0;
    while y < grid.len()
        invariant
            cells == grid.deep_view(),
            fits_coordinates(cells),
            y <= grid.len(),
            edges@ == edges_above(cells, y as int),
        decreases grid.len() - y,
    {
        let ghost above = edges@;
        let width = grid[y].len();
        assert(width == cells[y as int].len());
        let mut x: usize = 0;
        while x < width
            invariant
                cells == grid.deep_view(),
                y < grid.len(),
                y < MAX_SIDE,
                width == cells[y as int].len(),
                width <= MAX_SIDE,
                x <= width,
                edges@ == above + row_edges(cells, y as int, x as int),
            decreases width - x,
        {
            if is_edge_cell(grid, x, y) {
                edges.push(Point { x: x as u16, y: y as u16 });
            }
            x += 1;
            assert(edges@ =~= above + row_edges(cells, y as int, x as int));
        }
        y += 1;
    }
    edges
}

/// Finds the first opaque cell in row-major order.
pub fn first_opaque_of(grid: &Grid<bool>) -> (first: Option<Point>)
    requires
        fits_coordinates(grid.deep_view()),
    ensures
        match first {
            Some(p) => is_first_opaque(grid.deep_view(), p),
            None => is_blank(grid.deep_view()),
        },
{
    let ghost cells = grid.deep_view();
    let mut y: usize = 0;
    while y < grid.len()
        invariant
            cells == grid.deep_view(),
            fits_coordinates(cells),
            y <= grid.len(),
            forall|i: int, j: int| j < y ==> !#[trigger] opaque_at(cells, i, j),
        decreases grid.len() - y,
    {
        let width = grid[y].len();
        assert(width == cells[y as int].len());
        let mut x: usize = 0;
        while x < width
            invariant
                cells == grid.deep_view(),
                y < grid.len(),
                y < MAX_SIDE,
                width == cells[y as int].len(),
                width <= MAX_SIDE,
                x <= width,
                forall|i: int, j: int| scanned_before(i, j, x as int, y as int) ==> !#[trigger] opaque_at(cells, i, j),
            decreases width - x,
        {
            if grid[y][x] {
                return Some(Point { x: x as u16, y: y as u16 });
            }
            x += 1;
        }
        y += 1;
    }
    None
}

} // verus!
