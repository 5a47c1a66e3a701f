//! Vectors in the plane of the grid.
use vstd::prelude::*;
use crate::scalar::Scalar;

verus! {

/// A vector in the plane of the grid.
#[derive(Clone, Copy, Debug)]
pub struct Vector2<S> {
    pub x: S,
    pub y: S,
}

impl<S: Scalar> Vector2<S> {
    /// The vector without length.
    pub open spec fn zero_spec() -> Self {
        Vector2 { x: S::whole_spec(0), y: S::whole_spec(0) }
    }

    /// The sum, component by component.
    pub open spec fn plus_spec(self, other: Self) -> Self {
        Vector2 { x: self.x.plus_spec(other.x), y: self.y.plus_spec(other.y) }
    }

    /// The vector without length.
    pub fn zero() -> (r: Self)
        ensures
            r == Self::zero_spec(),
    {
        Vector2 { x: S::whole(0), y: S::whole(0) }
    }

    /// The length.
    pub open spec fn magnitude_spec(self) -> S {
        self.x.times_spec(self.x).plus_spec(self.y.times_spec(self.y)).root_spec()
    }

    /// The vector divided by `length`.
    pub open spec fn shrunk_spec(self, length: S) -> Self {
        Vector2 { x: self.x.over_spec(length), y: self.y.over_spec(length) }
    }

    /// The length.
    pub fn magnitude(self) -> (r: S)
        ensures
            r == self.magnitude_spec(),
    {
        self.x.times(self.x).plus(self.y.times(self.y)).root()
    }

    /// The vector divided by `length`.
    pub fn shrunk(self, length: S) -> (r: Self)
        ensures
            r == self.shrunk_spec(length),
    {
        Vector2 { x: self.x.over(length), y: self.y.over(length) }
    }

    /// The sum, component by component.
    pub fn plus(self, other: Self) -> (r: Self)
        ensures
            r == self.plus_spec(other),
    {
        Vector2 { x: self.x.plus(other.x), y: self.y.plus(other.y) }
    }
}

/// A vector of the second grid.
#[derive(Clone, Copy, Debug)]
pub struct Vector22<S> {
    pub x: S,
    pub y: S,
}

} // verus!
