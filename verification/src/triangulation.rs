//! The bookkeeping around an ear-clipping triangulator.
//!
//! The triangulator itself works on floating-point coordinates and is called
//! by the user of this module. What is done here is what comes before and
//! after that call: the contours are laid out as one list of points with the
//! index at which each hole starts, and the indices that the triangulator
//! hands back are turned into triangles over those points.

use crate::error::Error;
use crate::geometry::{views, Point, Polygon, Triangle};
use vstd::prelude::*;

verus! {

/// The fewest points that bound an area.
pub const MIN_POINTS: usize = 3;

/// The input of a triangulation: all points in one list, the outer contour
/// first, and for each hole the index of its first point in that list.
pub struct Assembly {
    pub points: Vec<Point>,
    pub hole_indices: Vec<usize>,
}

/// The point lists of the holes that were given, if any.
pub open spec fn given_holes(holes: Option<&Vec<Polygon>>) -> Seq<Seq<Point>> {
    match holes {
        Some(list) => views(list@),
        None => Seq::empty(),
    }
}

/// The points of `outer`, followed by the points of each of the first `upto`
/// holes that has three points or more. A hole with fewer points bounds no
/// area and is left out.
pub open spec fn combined_points(outer: Seq<Point>, holes: Seq<Seq<Point>>, upto: int) -> Seq<Point>
    decreases upto,
{
    if upto <= 0 {
        outer
    } else {
        let before = combined_points(outer, holes, upto - 1);
        if holes[upto - 1].len() >= MIN_POINTS {
            before + holes[upto - 1]
        } else {
            before
        }
    }
}

/// For each of the first `upto` holes that has three points or more, the index
/// of its first point in the combined list.
pub open spec fn hole_starts(outer: Seq<Point>, holes: Seq<Seq<Point>>, upto: int) -> Seq<usize>
    decreases upto,
{
    if upto <= 0 {
        Seq::empty()
    } else {
        let before = hole_starts(outer, holes, upto - 1);
        if holes[upto - 1].len() >= MIN_POINTS {
            before.push(combined_points(outer, holes, upto - 1).len() as usize)
        } else {
            before
        }
    }
}

/// The coordinates of `points` in one list: `x` and `y` of the first point,
/// then of the second, and so on.
pub open spec fn flattened(points: Seq<Point>) -> Seq<u16> {
    Seq::new(2 * points.len(), |i: int| if i % 2 == 0 {
        points[i / 2].x
    } else {
        points[i / 2].y
    })
}

/// Whether `indices` describe triangles over `count` points: three indices for
/// each triangle, each of them the index of a point.
pub open spec fn are_triangle_indices(indices: Seq<usize>, count: nat) -> bool {
    &&& indices.len() % 3 == 0
    &&& forall|i: int| 0 <= i < indices.len() ==> #[trigger] indices[i] < count
}

/// The triangles that `indices` describe over `points`, three indices to a
/// triangle.
pub open spec fn triangles_of(points: Seq<Point>, indices: Seq<usize>) -> Seq<Triangle> {
    Seq::new(
        indices.len() / 3,
        |k: int|
            Triangle(
                points[indices[3 * k] as int],
                points[indices[3 * k + 1] as int],
                points[indices[3 * k + 2] as int],
            ),
    )
}

/// Lays out an outer contour and its holes for the triangulator. Holes with
/// fewer than three points are dropped.
///
/// Fails with `DegeneratePolygon` where the outer contour has fewer than three
/// points; nothing is then handed to the triangulator.
pub fn assemble(polygon: &Polygon, holes: Option<&Vec<Polygon>>) -> (assembled: Result<Assembly, Error>)
    ensures
        match assembled {
            Ok(assembly) => {
                &&& polygon.len() >= MIN_POINTS
                &&& assembly.points@ == combined_points(
                    polygon@,
                    given_holes(holes),
                    given_holes(holes).len() as int,
                )
                &&& assembly.hole_indices@ == hole_starts(
                    polygon@,
                    given_holes(holes),
                    given_holes(holes).len() as int,
                )
            },
            Err(e) => e == Error::DegeneratePolygon && polygon.len() < MIN_POINTS,
        },
{
    if polygon.len() < MIN_POINTS {
        return Err(Error::DegeneratePolygon);
    }
    let mut points: Vec<Point> = Vec::new();
    append_points(&mut points, polygon);
    assert(points@ =~= polygon@);
    let mut hole_indices: Vec<usize> = Vec::new();
    if let Some(list) = holes {
        let ghost given = views(list@);
        let mut h: usize = 0;
        while h < list.len()
            invariant
                h <= list.len(),
                given == views(list@),
                points@ == combined_points(polygon@, given, h as int),
                hole_indices@ == hole_starts(polygon@, given, h as int),
            decreases list.len() - h,
        {
            assert(given[h as int] == list@[h as int]@);
            if list[h].len() >= MIN_POINTS {
                hole_indices.push(points.len());
                append_points(&mut points, &list[h]);
            }
            h += 1;
        }
    }
    Ok(Assembly { points, hole_indices })
}

/// Appends the points of `more` to `points`.
fn append_points(points: &mut Vec<Point>, more: &Vec<Point>)
    ensures
        final(points)@ == old(points)@ + more@,
{
    let mut i: usize = 0;
    while i < more.len()
        invariant
            i <= more.len(),
            points@ == old(points)@ + more@.take(i as int),
        decreases more.len() - i,
    {
        points.push(more[i]);
        i += 1;
        assert(points@ =~= old(points)@ + more@.take(i as int));
    }
    assert(more@.take(more.len() as int) =~= more@);
}

impl Assembly {
    /// The coordinates of all points in one list, two for each point, as the
    /// triangulator takes them.
    pub fn coordinates(&self) -> (flat: Vec<u16>)
        ensures
            flat@ == flattened(self.points@),
    {
        let mut flat: Vec<u16> = Vec::new();
        let mut i: usize = 0;
        while i < self.points.len()
            invariant
                i <= self.points.len(),
                flat@ == flattened(self.points@.take(i as int)),
            decreases self.points.len() - i,
        {
            flat.push(self.points[i].x);
            flat.push(self.points[i].y);
            i += 1;
            assert(flat@ =~= flattened(self.points@.take(i as int)));
        }
        assert(self.points@.take(self.points.len() as int) =~= self.points@);
        flat
    }

    /// Turns what the triangulator returned into triangles over the points of
    /// this assembly.
    ///
    /// A failure of the triangulator is passed on as it is. Indices that do
    /// not describe triangles over the points, because their number is no
    /// multiple of three or because one of them is the index of no point,
    /// give `Triangulation`.
    pub fn triangles(&self, outcome: Result<Vec<usize>, Error>) -> (built: Result<Vec<Triangle>, Error>)
        ensures
            match outcome {
                Ok(indices) => if are_triangle_indices(indices@, self.points@.len()) {
                    built matches Ok(list) && list@ == triangles_of(self.points@, indices@)
                } else {
                    built matches Err(e) && e == Error::Triangulation
                },
                Err(failure) => built matches Err(e) && e == failure,
            },
    {
        let indices = match outcome {
            Ok(indices) => indices,
            Err(e) => {
                return Err(e);
            },
        };
        if indices.len() % 3 != 0 {
            return Err(Error::Triangulation);
        }
        let count = indices.len() / 3;
        let mut list: Vec<Triangle> = Vec::new();
        let mut k: usize = 0;
        while k < count
            invariant
                outcome == Ok::<Vec<usize>, Error>(indices),
                k <= count,
                count == indices.len() / 3,
                indices.len() % 3 == 0,
                forall|i: int| 0 <= i < 3 * k ==> #[trigger] indices@[i] < self.points@.len(),
                list@.len() == k,
                forall|j: int| 0 <= j < k ==> #[trigger] list@[j] == triangles_of(self.points@, indices@)[j],
            decreases count - k,
        {
            let a = indices[3 * k];
            let b = indices[3 * k + 1];
            let c = indices[3 * k + 2];
            if a >= self.points.len() || b >= self.points.len() || c >= self.points.len() {
                assert(indices@[3 * k] == a && indices@[3 * k + 1] == b && indices@[3 * k + 2] == c);
                return Err(Error::Triangulation);
            }
            list.push(Triangle(self.points[a], self.points[b], self.points[c]));
            k += 1;
        }
        assert(list@ =~= triangles_of(self.points@, indices@));
        Ok(list)
    }
}

} // verus!
