//! A point of the pixel grid and its eight neighbours.

use std::cmp::Ordering;
use vstd::prelude::*;
use vstd::std_specs::cmp::PartialOrdSpecImpl;

verus! {

/// A grid coordinate. `x` grows to the right and `y` grows downwards, as pixel
/// rows do. Points are ordered by `x`, then by `y`.
#[derive(Clone, Copy, Eq, PartialEq, Ord, Debug, Structural)]
pub struct Point {
    pub x: u16,
    pub y: u16,
}

impl PartialOrd for Point {
    fn partial_cmp(&self, other: &Point) -> (r: Option<Ordering>) {
        if self.x < other.x {
            Some(Ordering::Less)
        } else if self.x > other.x {
            Some(Ordering::Greater)
        } else if self.y < other.y {
            Some(Ordering::Less)
        } else if self.y > other.y {
            Some(Ordering::Greater)
        } else {
            Some(Ordering::Equal)
        }
    }
}

impl PartialOrdSpecImpl for Point {
    open spec fn obeys_partial_cmp_spec() -> bool {
        true
    }

    open spec fn partial_cmp_spec(&self, other: &Point) -> Option<Ordering> {
        if self.x < other.x || (self.x == other.x && self.y < other.y) {
            Some(Ordering::Less)
        } else if self.x == other.x && self.y == other.y {
            Some(Ordering::Equal)
        } else {
            Some(Ordering::Greater)
        }
    }
}

impl Point {
    /// The neighbour one column to the right, if the grid reaches that far.
    pub open spec fn spec_right(&self) -> Option<Point> {
        if self.x < u16::MAX {
            Some(Point { x: (self.x + 1) as u16, y: self.y })
        } else {
            None
        }
    }

    /// The neighbour one column to the left.
    pub open spec fn spec_left(&self) -> Option<Point> {
        if self.x > 0 {
            Some(Point { x: (self.x - 1) as u16, y: self.y })
        } else {
            None
        }
    }

    /// The neighbour one row up, that is with the smaller `y`.
    pub open spec fn spec_up(&self) -> Option<Point> {
        if self.y > 0 {
            Some(Point { x: self.x, y: (self.y - 1) as u16 })
        } else {
            None
        }
    }

    /// The neighbour one row down, that is with the larger `y`.
    pub open spec fn spec_down(&self) -> Option<Point> {
        if self.y < u16::MAX {
            Some(Point { x: self.x, y: (self.y + 1) as u16 })
        } else {
            None
        }
    }

    /// A diagonal neighbour: one step sideways, then one step along the column.
    /// It exists only if both steps stay inside the coordinate range.
    pub open spec fn spec_right_up(&self) -> Option<Point> {
        match self.spec_right() {
            Some(p) => p.spec_up(),
            None => None,
        }
    }

    pub open spec fn spec_right_down(&self) -> Option<Point> {
        match self.spec_right() {
            Some(p) => p.spec_down(),
            None => None,
        }
    }

    pub open spec fn spec_left_up(&self) -> Option<Point> {
        match self.spec_left() {
            Some(p) => p.spec_up(),
            None => None,
        }
    }

    pub open spec fn spec_left_down(&self) -> Option<Point> {
        match self.spec_left() {
            Some(p) => p.spec_down(),
            None => None,
        }
    }

    pub fn new(x: u16, y: u16) -> (p: Point)
        ensures
            p.x == x,
            p.y == y,
    {
        Point { x, y }
    }

    #[verifier::when_used_as_spec(spec_right)]
    pub fn right(&self) -> (r: Option<Point>)
        ensures
            r == self.spec_right(),
    {
        match self.x.checked_add(1) {
            Some(x) => Some(Point { x, y: self.y }),
            None => None,
        }
    }

    #[verifier::when_used_as_spec(spec_left)]
    pub fn left(&self) -> (r: Option<Point>)
        ensures
            r == self.spec_left(),
    {
        match self.x.checked_sub(1) {
            Some(x) => Some(Point { x, y: self.y }),
            None => None,
        }
    }

    #[verifier::when_used_as_spec(spec_up)]
    pub fn up(&self) -> (r: Option<Point>)
        ensures
            r == self.spec_up(),
    {
        match self.y.checked_sub(1) {
            Some(y) => Some(Point { x: self.x, y }),
            None => None,
        }
    }

    #[verifier::when_used_as_spec(spec_down)]
    pub fn down(&self) -> (r: Option<Point>)
        ensures
            r == self.spec_down(),
    {
        match self.y.checked_add(1) {
            Some(y) => Some(Point { x: self.x, y }),
            None => None,
        }
    }

    #[verifier::when_used_as_spec(spec_right_up)]
    pub fn right_up(&self) -> (r: Option<Point>)
        ensures
            r == self.spec_right_up(),
    {
        match self.right() {
            Some(p) => p.up(),
            None => None,
        }
    }

    #[verifier::when_used_as_spec(spec_right_down)]
    pub fn right_down(&self) -> (r: Option<Point>)
        ensures
            r == self.spec_right_down(),
    {
        match self.right() {
            Some(p) => p.down(),
            None => None,
        }
    }

    #[verifier::when_used_as_spec(spec_left_up)]
    pub fn left_up(&self) -> (r: Option<Point>)
        ensures
            r == self.spec_left_up(),
    {
        match self.left() {
            Some(p) => p.up(),
            None => None,
        }
    }

    #[verifier::when_used_as_spec(spec_left_down)]
    pub fn left_down(&self) -> (r: Option<Point>)
        ensures
            r == self.spec_left_down(),
    {
        match self.left() {
            Some(p) => p.down(),
            None => None,
        }
    }
}

} // verus!
