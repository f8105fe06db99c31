//! A triangle of grid points, compared without regard to vertex order.

use crate::geometry::point::Point;
use vstd::prelude::*;
use vstd::std_specs::cmp::PartialEqSpec;

verus! {

/// Three grid points. Two triangles are equal when they have the same three
/// vertices, in whatever order each lists them.
#[derive(Clone, Copy, Debug)]
pub struct Triangle(pub Point, pub Point, pub Point);

/// `(a, b, c)` is an arrangement of `(x, y, z)`.
pub open spec fn is_arrangement(a: Point, b: Point, c: Point, x: Point, y: Point, z: Point) -> bool {
    ||| (a == x && b == y && c == z)
    ||| (a == x && b == z && c == y)
    ||| (a == y && b == x && c == z)
    ||| (a == y && b == z && c == x)
    ||| (a == z && b == x && c == y)
    ||| (a == z && b == y && c == x)
}

/// `p` comes before `q` in the order of points, or is `q`.
pub open spec fn at_most(p: Point, q: Point) -> bool {
    p.x < q.x || (p.x == q.x && p.y <= q.y)
}

impl PartialEq for Triangle {
    fn eq(&self, other: &Triangle) -> (same: bool) {
        let mine = sorted_vertices(self);
        let theirs = sorted_vertices(other);
        mine.0 == theirs.0 && mine.1 == theirs.1 && mine.2 == theirs.2
    }
}

impl vstd::std_specs::cmp::PartialEqSpecImpl for Triangle {
    open spec fn obeys_eq_spec() -> bool {
        true
    }

    open spec fn eq_spec(&self, other: &Triangle) -> bool {
        is_arrangement(self.0, self.1, self.2, other.0, other.1, other.2)
    }
}

impl Triangle {
    /// The three vertices in the order in which the triangle lists them.
    pub fn points(&self) -> (points: Vec<Point>)
        ensures
            points@ == seq![self.0, self.1, self.2],
    {
        let mut points: Vec<Point> = Vec::new();
        points.push(self.0);
        points.push(self.1);
        points.push(self.2);
        assert(points@ =~= seq![self.0, self.1, self.2]);
        points
    }
}

/// The vertices of `t` in ascending order.
pub fn sorted_vertices(t: &Triangle) -> (sorted: (Point, Point, Point))
    ensures
        is_arrangement(sorted.0, sorted.1, sorted.2, t.0, t.1, t.2),
        at_most(sorted.0, sorted.1),
        at_most(sorted.1, sorted.2),
{
    let mut a = t.0;
    let mut b = t.1;
    let mut c = t.2;
    if b < a {
        let swap = a;
        a = b;
        b = swap;
    }
    if c < b {
        let swap = b;
        b = c;
        c = swap;
    }
    if b < a {
        let swap = a;
        a = b;
        b = swap;
    }
    (a, b, c)
}

/// Equality of triangles does not depend on the order of the vertices: a
/// triangle equals each of its five rearrangements.
pub proof fn lemma_triangle_eq_ignores_order(a: Point, b: Point, c: Point)
    ensures
        Triangle(a, b, c).eq_spec(&Triangle(c, a, b)),
        Triangle(a, b, c).eq_spec(&Triangle(b, c, a)),
        Triangle(c, a, b).eq_spec(&Triangle(b, c, a)),
        Triangle(a, b, c).eq_spec(&Triangle(a, c, b)),
        Triangle(a, b, c).eq_spec(&Triangle(b, a, c)),
        Triangle(a, b, c).eq_spec(&Triangle(c, b, a)),
{
}

/// Equality of triangles is an equivalence: every triangle equals itself, and
/// equality can be turned round and chained.
pub proof fn lemma_triangle_eq_is_equivalence(s: Triangle, t: Triangle, u: Triangle)
    ensures
        s.eq_spec(&s),
        s.eq_spec(&t) ==> t.eq_spec(&s),
        s.eq_spec(&t) && t.eq_spec(&u) ==> s.eq_spec(&u),
{
}

} // verus!
