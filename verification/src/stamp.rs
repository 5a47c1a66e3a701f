//! Shapes of walls.
use vstd::prelude::*;
use crate::conditions::SIDE;
use crate::grid;
use crate::grid::Grid;
use crate::scalar::Scalar;

verus! {

/// `t` lies no farther than `half` from `center`.
pub open spec fn near(t: int, center: int, half: int) -> bool {
    center - half <= t <= center + half
}

/// Half of `length`, in whole cells.
pub open spec fn half_cells_spec<S: Scalar>(length: S) -> isize {
    length.over_spec(S::whole_spec(2)).truncated_spec()
}

/// The cells of a rectangle of the width `width` and the height `height` about `center`.
pub open spec fn rectangle_shape<S: Scalar>(
    center: (isize, isize),
    width: S,
    height: S,
) -> spec_fn(int, int) -> bool {
    |i: int, j: int|
        near(i, center.0 as int, half_cells_spec(width) as int) && near(
            j,
            center.1 as int,
            half_cells_spec(height) as int,
        )
}

/// The cells of a wedge that begins in column `base` and goes on for `length` columns, to the
/// left or to the right: in its column `s`, those no farther than `halves(s)` from row `y`.
pub open spec fn wedge_shape(
    base: int,
    left: bool,
    length: int,
    y: int,
    halves: spec_fn(int) -> int,
) -> spec_fn(int, int) -> bool {
    |i: int, j: int|
        {
            let s = if left {
                base - i
            } else {
                i - base
            };
            0 <= s <= length && near(j, y, halves(s))
        }
}

/// Half of `length`, in whole cells.
pub fn half_cells<S: Scalar>(length: S) -> (r: isize)
    ensures
        r == half_cells_spec(length),
{
    length.over(S::whole(2)).truncated()
}

/// The first column or row of the grid no farther than `half` from `center`, and the first
/// beyond them.
fn range_in_grid(center: isize, half: isize) -> (r: (usize, usize))
    ensures
        r.0 <= r.1 <= SIDE,
        forall|t: int|
            0 <= t < SIDE ==> (r.0 <= t < r.1 <==> #[trigger] near(t, center as int, half as int)),
{
    let low: i128 = center as i128 - half as i128;
    let high: i128 = center as i128 + half as i128 + 1;
    if high <= low || high <= 0 || low >= SIDE as i128 {
        return (0, 0);
    }
    let first: usize = if low < 0 {
        0
    } else {
        low as usize
    };
    let last: usize = if high > SIDE as i128 {
        SIDE
    } else {
        high as usize
    };
    (first, last)
}

impl<S: Scalar> Grid<S> {
    /// Makes walls of the cells in column `x` whose rows lie no farther than `half` from `y`.
    pub fn stamp_column(&mut self, x: i128, y: isize, half: isize)
        requires
            old(self).wf(),
        ensures
            final(self).wf(),
            grid::stamped(
                *old(self),
                *final(self),
                |i: int, j: int| i == x && near(j, y as int, half as int),
            ),
    {
        let ghost shape = |i: int, j: int| i == x && near(j, y as int, half as int);
        if x < 0 || x >= SIDE as i128 {
            proof {
                grid::lemma_stamped_nothing(*self, shape);
            }
            return;
        }
        let column: usize = x as usize;
        let (first, last) = range_in_grid(y, half);
        let mut t: usize = first;
        proof {
            grid::lemma_stamped_nothing(*self, |i: int, j: int| i == x && first <= j < t);
        }
        while t < last
            invariant
                first <= t <= last <= SIDE,
                0 <= x < SIDE,
                column == x,
                old(self).wf(),
                self.wf(),
                grid::stamped(*old(self), *self, |i: int, j: int| i == x && first <= j < t),
            decreases last - t,
        {
            let ghost before = *self;
            self.wall_init(t, column, true);
            proof {
                grid::lemma_stamped_twice(
                    *old(self),
                    before,
                    *self,
                    |i: int, j: int| i == x && first <= j < t,
                    |i: int, j: int| i == column && j == t,
                    |i: int, j: int| i == x && first <= j < t + 1,
                );
            }
            t = t + 1;
        }
        proof {
            grid::lemma_stamped_same_shape(
                *old(self),
                *self,
                |i: int, j: int| i == x && first <= j < t,
                shape,
            );
        }
    }

    /// Makes walls of a rectangle of the width `width` and the height `height` about column
    /// `cx` and row `cy`.
    pub fn rectangle(&mut self, cx: isize, cy: isize, width: S, height: S)
        requires
            old(self).wf(),
        ensures
            final(self).wf(),
            grid::stamped(*old(self), *final(self), rectangle_shape((cx, cy), width, height)),
    {
        let half_width: isize = half_cells(width);
        let half_height: isize = half_cells(height);
        let (first, last) = range_in_grid(cx, half_width);
        let mut x: usize = first;
        proof {
            grid::lemma_stamped_nothing(
                *self,
                |i: int, j: int| first <= i < x && near(j, cy as int, half_height as int),
            );
        }
        while x < last
            invariant
                first <= x <= last <= SIDE,
                old(self).wf(),
                self.wf(),
                grid::stamped(
                    *old(self),
                    *self,
                    |i: int, j: int| first <= i < x && near(j, cy as int, half_height as int),
                ),
            decreases last - x,
        {
            let ghost before = *self;
            self.stamp_column(x as i128, cy, half_height);
            proof {
                grid::lemma_stamped_twice(
                    *old(self),
                    before,
                    *self,
                    |i: int, j: int| first <= i < x && near(j, cy as int, half_height as int),
                    |i: int, j: int| i == x as i128 && near(j, cy as int, half_height as int),
                    |i: int, j: int| first <= i < x + 1 && near(j, cy as int, half_height as int),
                );
            }
            x = x + 1;
        }
        proof {
            grid::lemma_stamped_same_shape(
                *old(self),
                *self,
                |i: int, j: int| first <= i < x && near(j, cy as int, half_height as int),
                rectangle_shape((cx, cy), width, height),
            );
        }
    }
}

} // verus!
