//! Water and air in one grid: each cell holds a share of water, which moves with the fluid.
use rayon::iter::{IndexedParallelIterator, IntoParallelRefIterator, ParallelIterator};
use vstd::prelude::*;
use crate::conditions;
use crate::conditions::{CELLS, N};
use crate::fixed;
use crate::fixed::Fixed;
use crate::grid;
use crate::grid::{Cell, Grid};
use crate::scalar;
use crate::scalar::Scalar;
use crate::topology;

verus! {

/// `x`, or the end of the range from 0 to 1 that it lies beyond.
pub open spec fn share_spec<S: Scalar>(x: S) -> S {
    scalar::clamped_spec(x, S::whole_spec(0), S::whole_spec(1))
}

/// `x`, or the end of the range from 0 to 1 that it lies beyond.
pub fn share<S: Scalar>(x: S) -> (r: S)
    ensures
        r == share_spec(x),
{
    scalar::clamped(x, S::whole(0), S::whole(1))
}

/// The density of a mixture with the share `phase` of water.
pub open spec fn mixed_density<S: Scalar>(phase: S) -> S {
    let phi = share_spec(phase);
    conditions::rho_air_spec::<S>().times_spec(S::whole_spec(1).minus_spec(phi)).plus_spec(
        conditions::rho_water_spec::<S>().times_spec(phi),
    )
}

/// The cell `cell` with the share `phase` of water, unless it is a wall.
pub open spec fn filled<S>(cell: Cell<S>, phase: S) -> Cell<S> {
    if cell.wall {
        cell
    } else {
        Cell { phase, ..cell }
    }
}

/// The share of water in row `j` under a level surface at `level`.
pub open spec fn still_phase<S: Scalar>(level: S, j: int) -> S {
    if level.at_most_spec(S::whole_spec(j as nat)) {
        S::whole_spec(1)
    } else {
        S::whole_spec(0)
    }
}

/// The shares of water in those of the first `n` cells that are no walls, added up.
pub open spec fn volume<S: Scalar>(cells: Seq<Cell<S>>, n: nat) -> S
    decreases n,
{
    if n == 0 {
        S::whole_spec(0)
    } else {
        let sum = volume(cells, (n - 1) as nat);
        if cells[n - 1].wall {
            sum
        } else {
            sum.plus_spec(cells[n - 1].phase)
        }
    }
}

/// `cell` with its velocities limited to `max` in both directions, unless it is a wall.
pub open spec fn slowed<S: Scalar>(cell: Cell<S>, max: S) -> Cell<S> {
    if cell.wall {
        cell
    } else {
        Cell {
            velocity_x: scalar::clamped_spec(cell.velocity_x, max.negated_spec(), max),
            velocity_y: scalar::clamped_spec(cell.velocity_y, max.negated_spec(), max),
            ..cell
        }
    }
}

impl<S: Scalar> Grid<S> {
    /// The density of the fluid in cell `idx`.
    pub fn local_rho(&self, idx: usize) -> (r: S)
        requires
            idx < self.cells@.len(),
        ensures
            r == mixed_density(self.cells@[idx as int].phase),
    {
        let phi: S = share(self.cells[idx].phase);
        conditions::rho_air::<S>().times(S::whole(1).minus(phi)).plus(
            conditions::rho_water::<S>().times(phi),
        )
    }

    /// Fills the grid with water from the row `water_level` downward, and with air above. Walls
    /// stay as they are.
    pub fn init_water(&mut self, water_level: S)
        requires
            old(self).wf(),
        ensures
            final(self).wf(),
            grid::same_walls(*old(self), *final(self)),
            final(self).cells@ == Seq::new(
                CELLS as nat,
                |k: int|
                    filled(old(self).cells@[k], still_phase(water_level, topology::row_of(k))),
            ),
    {
        let one: S = S::whole(1);
        let zero: S = S::whole(0);
        let mut k: usize = 0;
        while k < CELLS
            invariant
                k <= CELLS,
                one == S::whole_spec(1),
                zero == S::whole_spec(0),
                old(self).wf(),
                grid::same_walls(*old(self), *self),
                forall|n: int|
                    0 <= n < k ==> #[trigger] self.cells@[n] == filled(
                        old(self).cells@[n],
                        still_phase(water_level, topology::row_of(n)),
                    ),
                forall|n: int| k <= n < CELLS ==> #[trigger] self.cells@[n] == old(self).cells@[n],
            decreases CELLS - k,
        {
            let (i, j) = self.decode_index(k);
            let cell: Cell<S> = self.cells[k];
            if !cell.wall {
                let phase: S = if water_level.at_most(S::whole(j)) {
                    one
                } else {
                    zero
                };
                self.cells.set(k, Cell { phase, ..cell });
            }
            k = k + 1;
        }
        proof {
            grid::lemma_same_walls(*old(self), *self);
        }
    }

    /// Fills the grid with fluid that has the share `phase` of water everywhere. Walls stay as
    /// they are.
    pub fn fill_uniform_phase(&mut self, phase: S)
        requires
            old(self).wf(),
        ensures
            final(self).wf(),
            grid::same_walls(*old(self), *final(self)),
            final(self).cells@ == Seq::new(
                CELLS as nat,
                |k: int| filled(old(self).cells@[k], share_spec(phase)),
            ),
    {
        let filling: S = share(phase);
        let mut k: usize = 0;
        while k < CELLS
            invariant
                k <= CELLS,
                filling == share_spec(phase),
                old(self).wf(),
                grid::same_walls(*old(self), *self),
                forall|n: int|
                    0 <= n < k ==> #[trigger] self.cells@[n] == filled(
                        old(self).cells@[n],
                        share_spec(phase),
                    ),
                forall|n: int| k <= n < CELLS ==> #[trigger] self.cells@[n] == old(self).cells@[n],
            decreases CELLS - k,
        {
            let cell: Cell<S> = self.cells[k];
            if !cell.wall {
                self.cells.set(k, Cell { phase: filling, ..cell });
            }
            k = k + 1;
        }
        proof {
            grid::lemma_same_walls(*old(self), *self);
        }
    }

    /// The water in the grid: the shares of water in all cells that are no walls, added up.
    pub fn water_volume(&self) -> (r: S)
        requires
            self.wf(),
        ensures
            r == volume(self.cells@, CELLS as nat),
    {
        let mut sum: S = S::whole(0);
        let mut k: usize = 0;
        while k < CELLS
            invariant
                k <= CELLS,
                self.wf(),
                sum == volume(self.cells@, k as nat),
            decreases CELLS - k,
        {
            if !self.cells[k].wall {
                sum = sum.plus(self.cells[k].phase);
            }
            k = k + 1;
        }
        sum
    }

    /// Limits both velocities of all cells that are no walls to `max_speed` in both directions.
    pub fn clamp_velocity_field(&mut self, max_speed: S)
        requires
            old(self).wf(),
            max_speed.negated_spec().at_most_spec(max_speed),
        ensures
            final(self).wf(),
            grid::same_walls(*old(self), *final(self)),
            final(self).cells@ == Seq::new(
                CELLS as nat,
                |k: int| slowed(old(self).cells@[k], max_speed),
            ),
    {
        let min_speed: S = max_speed.negated();
        let mut k: usize = 0;
        while k < CELLS
            invariant
                k <= CELLS,
                min_speed == max_speed.negated_spec(),
                old(self).wf(),
                grid::same_walls(*old(self), *self),
                forall|n: int|
                    0 <= n < k ==> #[trigger] self.cells@[n] == slowed(
                        old(self).cells@[n],
                        max_speed,
                    ),
                forall|n: int| k <= n < CELLS ==> #[trigger] self.cells@[n] == old(self).cells@[n],
            decreases CELLS - k,
        {
            let cell: Cell<S> = self.cells[k];
            if !cell.wall {
                self.cells.set(
                    k,
                    Cell {
                        velocity_x: scalar::clamped(cell.velocity_x, min_speed, max_speed),
                        velocity_y: scalar::clamped(cell.velocity_y, min_speed, max_speed),
                        ..cell
                    },
                );
            }
            k = k + 1;
        }
        proof {
            grid::lemma_same_walls(*old(self), *self);
        }
    }
}

/// The side between column `i - 1` and column `i` of row `j` lies between the borders of the grid
/// or on one of them, and is next to no wall.
pub open spec fn open_side_x<S>(cells: Seq<Cell<S>>, i: int, j: int) -> bool {
    &&& 1 <= i <= N + 1
    &&& 1 <= j <= N
    &&& !cells[topology::place(i, j)].wall
    &&& !cells[topology::place(i - 1, j)].wall
}

/// The side between row `j - 1` and row `j` of column `i` lies between the borders of the grid or
/// on one of them, and is next to no wall.
pub open spec fn open_side_y<S>(cells: Seq<Cell<S>>, i: int, j: int) -> bool {
    &&& 1 <= i <= N
    &&& 1 <= j <= N + 1
    &&& !cells[topology::place(i, j)].wall
    &&& !cells[topology::place(i, j - 1)].wall
}

/// `v` with `a` added where the side is open.
pub open spec fn pushed<S: Scalar>(v: S, a: S, open_side: bool) -> S {
    if open_side {
        v.plus_spec(a)
    } else {
        v
    }
}

/// Cell `k` with what gravity adds to the velocities through its left and its upper side, `ax`
/// along the row and `ay` along the column. Sides next to a wall are not pushed.
pub open spec fn accelerated<S: Scalar>(cells: Seq<Cell<S>>, k: int, ax: S, ay: S) -> Cell<S> {
    let i = topology::col_of(k);
    let j = topology::row_of(k);
    Cell {
        velocity_x: pushed(cells[k].velocity_x, ax, open_side_x(cells, i, j)),
        velocity_y: pushed(cells[k].velocity_y, ay, open_side_y(cells, i, j)),
        ..cells[k]
    }
}

/// `cells` with what the gravity (`gx`, `gy`) makes of their velocities in the time `dt`.
pub open spec fn pulled<S: Scalar>(cells: Seq<Cell<S>>, gx: S, gy: S, dt: S) -> Seq<Cell<S>> {
    Seq::new(
        cells.len(),
        |k: int| accelerated(cells, k, gx.times_spec(dt), gy.times_spec(dt)),
    )
}

/// Column `c` and row `r` come before column `i` and row `j`, row by row.
spec fn comes_before(c: int, r: int, i: int, j: int) -> bool {
    r < j || (r == j && c < i)
}

/// Cell `k` when the left sides before column `i` of row `j` have been pushed.
spec fn pushed_before_x<S: Scalar>(cells: Seq<Cell<S>>, k: int, a: S, i: int, j: int) -> Cell<S> {
    let c = topology::col_of(k);
    let r = topology::row_of(k);
    Cell {
        velocity_x: pushed(
            cells[k].velocity_x,
            a,
            open_side_x(cells, c, r) && comes_before(c, r, i, j),
        ),
        ..cells[k]
    }
}

/// Cell `k` when the upper sides before column `i` of row `j` have been pushed.
spec fn pushed_before_y<S: Scalar>(cells: Seq<Cell<S>>, k: int, a: S, i: int, j: int) -> Cell<S> {
    let c = topology::col_of(k);
    let r = topology::row_of(k);
    Cell {
        velocity_y: pushed(
            cells[k].velocity_y,
            a,
            open_side_y(cells, c, r) && comes_before(c, r, i, j),
        ),
        ..cells[k]
    }
}

impl<S: Scalar> Grid<S> {
    /// Adds `a` to the velocity through each side between two columns that is next to no wall.
    fn push_rows(&mut self, a: S)
        requires
            old(self).wf(),
        ensures
            grid::same_walls(*old(self), *final(self)),
            forall|k: int|
                0 <= k < CELLS ==> #[trigger] final(self).cells@[k] == pushed_before_x(
                    old(self).cells@,
                    k,
                    a,
                    1,
                    N + 1,
                ),
    {
        let mut j: usize = 1;
        while j <= N
            invariant
                1 <= j <= N + 1,
                old(self).wf(),
                grid::same_walls(*old(self), *self),
                forall|k: int|
                    0 <= k < CELLS ==> #[trigger] self.cells@[k] == pushed_before_x(
                        old(self).cells@,
                        k,
                        a,
                        1,
                        j as int,
                    ),
            decreases N + 1 - j,
        {
            let mut i: usize = 1;
            while i <= N + 1
                invariant
                    1 <= i <= N + 2,
                    1 <= j <= N,
                    old(self).wf(),
                    grid::same_walls(*old(self), *self),
                    forall|k: int|
                        0 <= k < CELLS ==> #[trigger] self.cells@[k] == pushed_before_x(
                            old(self).cells@,
                            k,
                            a,
                            i as int,
                            j as int,
                        ),
                decreases N + 2 - i,
            {
                let ghost before = *self;
                let here: usize = self.to_index(i, j);
                let left: usize = self.to_index(i - 1, j);
                let cell: Cell<S> = self.cells[here];
                if !cell.wall && !self.cells[left].wall {
                    self.cells.set(here, Cell { velocity_x: cell.velocity_x.plus(a), ..cell });
                }
                proof {
                    topology::lemma_place(i as int, j as int);
                    assert(before.cells@[left as int].wall == old(self).cells@[left as int].wall);
                    assert forall|k: int| 0 <= k < CELLS implies #[trigger] self.cells@[k]
                        == pushed_before_x(old(self).cells@, k, a, i + 1, j as int) by {
                        topology::lemma_cell(k);
                        assert(before.cells@[k] == pushed_before_x(
                            old(self).cells@,
                            k,
                            a,
                            i as int,
                            j as int,
                        ));
                    }
                }
                i = i + 1;
            }
            proof {
                assert forall|k: int| 0 <= k < CELLS implies #[trigger] self.cells@[k]
                    == pushed_before_x(old(self).cells@, k, a, 1, j + 1) by {
                    topology::lemma_cell(k);
                }
            }
            j = j + 1;
        }
    }

    /// Adds `a` to the velocity through each side between two rows that is next to no wall.
    fn push_columns(&mut self, a: S)
        requires
            old(self).wf(),
        ensures
            grid::same_walls(*old(self), *final(self)),
            forall|k: int|
                0 <= k < CELLS ==> #[trigger] final(self).cells@[k] == pushed_before_y(
                    old(self).cells@,
                    k,
                    a,
                    1,
                    N + 2,
                ),
    {
        let mut j: usize = 1;
        while j <= N + 1
            invariant
                1 <= j <= N + 2,
                old(self).wf(),
                grid::same_walls(*old(self), *self),
                forall|k: int|
                    0 <= k < CELLS ==> #[trigger] self.cells@[k] == pushed_before_y(
                        old(self).cells@,
                        k,
                        a,
                        1,
                        j as int,
                    ),
            decreases N + 2 - j,
        {
            let mut i: usize = 1;
            while i <= N
                invariant
                    1 <= i <= N + 1,
                    1 <= j <= N + 1,
                    old(self).wf(),
                    grid::same_walls(*old(self), *self),
                    forall|k: int|
                        0 <= k < CELLS ==> #[trigger] self.cells@[k] == pushed_before_y(
                            old(self).cells@,
                            k,
                            a,
                            i as int,
                            j as int,
                        ),
                decreases N + 1 - i,
            {
                let ghost before = *self;
                let here: usize = self.to_index(i, j);
                let above: usize = self.to_index(i, j - 1);
                let cell: Cell<S> = self.cells[here];
                if !cell.wall && !self.cells[above].wall {
                    self.cells.set(here, Cell { velocity_y: cell.velocity_y.plus(a), ..cell });
                }
                proof {
                    topology::lemma_place(i as int, j as int);
                    assert(before.cells@[above as int].wall == old(self).cells@[above as int].wall);
                    assert forall|k: int| 0 <= k < CELLS implies #[trigger] self.cells@[k]
                        == pushed_before_y(old(self).cells@, k, a, i + 1, j as int) by {
                        topology::lemma_cell(k);
                        assert(before.cells@[k] == pushed_before_y(
                            old(self).cells@,
                            k,
                            a,
                            i as int,
                            j as int,
                        ));
                    }
                }
                i = i + 1;
            }
            proof {
                assert forall|k: int| 0 <= k < CELLS implies #[trigger] self.cells@[k]
                    == pushed_before_y(old(self).cells@, k, a, 1, j + 1) by {
                    topology::lemma_cell(k);
                }
            }
            j = j + 1;
        }
    }

    /// Adds what the gravity (`gx`, `gy`) makes of the velocities in the time `dt`, once to each
    /// side of the cells between the borders, those on the borders among them. Sides next to a
    /// wall are left out: no force acts on a solid or in it.
    pub fn apply_gravity(&mut self, gx: S, gy: S, dt: S)
        requires
            old(self).wf(),
        ensures
            final(self).wf(),
            grid::same_walls(*old(self), *final(self)),
            final(self).cells@ == pulled(old(self).cells@, gx, gy, dt),
    {
        let ax: S = gx.times(dt);
        let ay: S = gy.times(dt);
        self.push_rows(ax);
        proof {
            grid::lemma_same_walls(*old(self), *self);
        }
        let ghost middle = *self;
        self.push_columns(ay);
        proof {
            grid::lemma_same_walls(middle, *self);
            assert forall|k: int| 0 <= k < CELLS implies #[trigger] self.cells@[k] == accelerated(
                old(self).cells@,
                k,
                ax,
                ay,
            ) by {
                let i = topology::col_of(k);
                let j = topology::row_of(k);
                topology::lemma_cell(k);
                assert(middle.cells@[k] == pushed_before_x(old(self).cells@, k, ax, 1, N + 1));
                if 1 <= j {
                    topology::lemma_place(i, j - 1);
                    let above = topology::place(i, j - 1);
                    assert(middle.cells@[above].wall == old(self).cells@[above].wall);
                }
            }
            assert(self.cells@ =~= pulled(old(self).cells@, gx, gy, dt));
        }
    }
}

/// The greatest whole number not above `x`, or 0.
pub open spec fn floor_spec<S: Scalar>(x: S) -> nat {
    if x.truncated_spec() < 0 {
        0
    } else {
        x.truncated_spec() as nat
    }
}

/// `x`, or the end of the grid between its borders that it lies beyond.
pub open spec fn kept_inside<S: Scalar>(x: S) -> S {
    let half = scalar::ratio_spec::<S>(1, 2);
    scalar::clamped_spec(x, half, S::whole_spec(N as nat).plus_spec(half))
}

/// The share of water in column `i` and row `j`, or `fallback` at a wall and beyond column or
/// row `N`.
pub open spec fn phase_at<S: Scalar>(cells: Seq<Cell<S>>, i: int, j: int, fallback: S) -> S {
    if i <= N && j <= N && !cells[topology::place(i, j)].wall {
        cells[topology::place(i, j)].phase
    } else {
        fallback
    }
}

/// The share of water at the point (`x`, `y`): the shares in the four cells round it, weighted
/// by how near they lie.
pub open spec fn sampled_phase<S: Scalar>(cells: Seq<Cell<S>>, x: S, y: S, fallback: S) -> S {
    let x = kept_inside(x);
    let y = kept_inside(y);
    let i = floor_spec(x) as int;
    let j = floor_spec(y) as int;
    let s1 = x.minus_spec(S::whole_spec(i as nat));
    let s0 = S::whole_spec(1).minus_spec(s1);
    let t1 = y.minus_spec(S::whole_spec(j as nat));
    let t0 = S::whole_spec(1).minus_spec(t1);
    let left = t0.times_spec(phase_at(cells, i, j, fallback)).plus_spec(
        t1.times_spec(phase_at(cells, i, j + 1, fallback)),
    );
    let right = t0.times_spec(phase_at(cells, i + 1, j, fallback)).plus_spec(
        t1.times_spec(phase_at(cells, i + 1, j + 1, fallback)),
    );
    s0.times_spec(left).plus_spec(s1.times_spec(right))
}

/// The mean of `a` and `b`.
pub open spec fn mean_spec<S: Scalar>(a: S, b: S) -> S {
    scalar::ratio_spec::<S>(1, 2).times_spec(a.plus_spec(b))
}

/// The share of water in cell `k` after a step of `dt0` cells for each unit of velocity: that of
/// the point from which the fluid has flowed into the cell. Walls and the borders keep theirs.
pub open spec fn advected<S: Scalar>(cells: Seq<Cell<S>>, dt0: S, k: int) -> S {
    let i = topology::col_of(k);
    let j = topology::row_of(k);
    let cell = cells[k];
    if cell.wall || !topology::inside(i, j) {
        cell.phase
    } else {
        let u = mean_spec(
            cells[topology::place(i, j)].velocity_x,
            cells[topology::place(i + 1, j)].velocity_x,
        );
        let v = mean_spec(
            cells[topology::place(i, j)].velocity_y,
            cells[topology::place(i, j + 1)].velocity_y,
        );
        let x = S::whole_spec(i as nat).minus_spec(dt0.times_spec(u));
        let y = S::whole_spec(j as nat).minus_spec(dt0.times_spec(v));
        share_spec(sampled_phase(cells, x, y, cell.phase))
    }
}

/// The shares of water in all cells after a step of `dt0` cells for each unit of velocity.
pub open spec fn advected_all<S: Scalar>(cells: Seq<Cell<S>>, dt0: S) -> Seq<S> {
    Seq::new(cells.len(), |k: int| advected(cells, dt0, k))
}

/// `cells` when the water has moved with the fluid for the time `dt`.
pub open spec fn carried<S: Scalar>(cells: Seq<Cell<S>>, dt: S) -> Seq<Cell<S>> {
    let dt0 = dt.times_spec(S::whole_spec(N as nat));
    Seq::new(cells.len(), |k: int| Cell { phase: advected(cells, dt0, k), ..cells[k] })
}

pub fn floor<S: Scalar>(x: S) -> (r: usize)
    ensures
        r == floor_spec(x),
        r <= isize::MAX,
{
    let whole: isize = x.truncated();
    if whole < 0 {
        0
    } else {
        whole as usize
    }
}

fn keep_inside<S: Scalar>(x: S) -> (r: S)
    ensures
        r == kept_inside(x),
{
    let half: S = scalar::ratio(1, 2);
    scalar::clamped(x, half, S::whole(N).plus(half))
}

fn mean<S: Scalar>(a: S, b: S) -> (r: S)
    ensures
        r == mean_spec(a, b),
{
    scalar::ratio::<S>(1, 2).times(a.plus(b))
}

impl<S: Scalar> Grid<S> {
    fn phase_or(&self, i: usize, j: usize, fallback: S) -> (r: S)
        requires
            self.wf(),
        ensures
            r == phase_at(self.cells@, i as int, j as int, fallback),
    {
        if i <= N && j <= N {
            let k: usize = self.to_index(i, j);
            if !self.cells[k].wall {
                return self.cells[k].phase;
            }
        }
        fallback
    }

    /// The share of water at the point (`x`, `y`). A wall counts as `fallback`.
    pub fn sample_phase(&self, x: S, y: S, fallback: S) -> (r: S)
        requires
            self.wf(),
        ensures
            r == sampled_phase(self.cells@, x, y, fallback),
    {
        let x: S = keep_inside(x);
        let y: S = keep_inside(y);
        let i0: usize = floor(x);
        let i1: usize = i0 + 1;
        let j0: usize = floor(y);
        let j1: usize = j0 + 1;
        let s1: S = x.minus(S::whole(i0));
        let s0: S = S::whole(1).minus(s1);
        let t1: S = y.minus(S::whole(j0));
        let t0: S = S::whole(1).minus(t1);
        let left: S = t0.times(self.phase_or(i0, j0, fallback)).plus(
            t1.times(self.phase_or(i0, j1, fallback)),
        );
        let right: S = t0.times(self.phase_or(i1, j0, fallback)).plus(
            t1.times(self.phase_or(i1, j1, fallback)),
        );
        s0.times(left).plus(s1.times(right))
    }

    /// The share of water in cell `k` after a step of `dt0` cells for each unit of velocity.
    pub fn advected_phase(&self, dt0: S, k: usize) -> (r: S)
        requires
            self.wf(),
            k < CELLS,
        ensures
            r == advected(self.cells@, dt0, k as int),
    {
        let (i, j) = self.decode_index(k);
        let cell: Cell<S> = self.cells[k];
        if cell.wall || i == 0 || i > N || j == 0 || j > N {
            return cell.phase;
        }
        let u: S = mean(self.get_u(i, j), self.get_u(i + 1, j));
        let v: S = mean(self.get_v(i, j), self.get_v(i, j + 1));
        let x: S = S::whole(i).minus(dt0.times(u));
        let y: S = S::whole(j).minus(dt0.times(v));
        share(self.sample_phase(x, y, cell.phase))
    }

    /// Calls `par_iter` of the `rayon` crate on the cells, with `enumerate`, `map` and
    /// `collect`. They run `advected_phase` once for each index of a cell, on several threads,
    /// and collect what it returns in the order of the cells.
    #[verifier::external_body]
    fn advected_phases(&self, dt0: S) -> (r: Vec<S>)
        requires
            self.wf(),
        ensures
            r@ == advected_all(self.cells@, dt0),
    {
        self.cells.par_iter().enumerate().map(|(k, _)| self.advected_phase(dt0, k)).collect()
    }

    /// Moves the water with the fluid for the time `dt`: each cell gets the share of water of
    /// the point from which the fluid has flowed into it.
    pub fn advect_phase(&mut self, dt: S)
        requires
            old(self).wf(),
        ensures
            final(self).wf(),
            grid::same_walls(*old(self), *final(self)),
            final(self).cells@ == carried(old(self).cells@, dt),
    {
        let dt0: S = dt.times(S::whole(N));
        let phases: Vec<S> = self.advected_phases(dt0);
        let mut k: usize = 0;
        while k < phases.len()
            invariant
                k <= CELLS,
                old(self).wf(),
                phases@ == advected_all(old(self).cells@, dt0),
                grid::same_walls(*old(self), *self),
                forall|n: int|
                    0 <= n < k ==> #[trigger] self.cells@[n] == (Cell {
                        phase: advected(old(self).cells@, dt0, n),
                        ..old(self).cells@[n]
                    }),
                forall|n: int| k <= n < CELLS ==> #[trigger] self.cells@[n] == old(self).cells@[n],
            decreases CELLS - k,
        {
            let cell: Cell<S> = self.cells[k];
            self.cells.set(k, Cell { phase: phases[k], ..cell });
            k = k + 1;
        }
        proof {
            grid::lemma_same_walls(*old(self), *self);
            assert(self.cells@ =~= carried(old(self).cells@, dt));
        }
    }
}

/// The density of a mixture grows from that of air to that of water with its share of water.
pub proof fn lemma_mixed_density(phase: Fixed)
    ensures
        mixed_density(phase).raw == fixed::ONE + 24 * share_spec(phase).raw,
        conditions::rho_air_spec::<Fixed>().raw <= mixed_density(phase).raw
            <= conditions::rho_water_spec::<Fixed>().raw,
        mixed_density(Fixed::whole_spec(0)) == conditions::rho_air_spec::<Fixed>(),
        mixed_density(Fixed::whole_spec(1)) == conditions::rho_water_spec::<Fixed>(),
{
    let phi = share_spec(phase);
    let rest = Fixed::whole_spec(1).minus_spec(phi);
    fixed::lemma_times_one(rest);
    let water = conditions::rho_water_spec::<Fixed>();
    let product = water.raw * phi.raw;
    assert(product == 510_000_000 * (25 * phi.raw)) by (nonlinear_arith)
        requires
            product == water.raw * phi.raw,
            water.raw == 25 * 510_000_000,
    ;
    assert(product / 510_000_000 == 25 * phi.raw);
    fixed::lemma_times_zero(conditions::rho_water_spec::<Fixed>());
    fixed::lemma_times_one(conditions::rho_water_spec::<Fixed>());
    fixed::lemma_times_one(Fixed::whole_spec(1));
    fixed::lemma_times_zero(Fixed::whole_spec(1));
}

/// `x` lies neither below 0 nor above 1.
pub open spec fn is_share<S: Scalar>(x: S) -> bool {
    !x.below_spec(S::whole_spec(0)) && !S::whole_spec(1).below_spec(x)
}

/// A share of water lies between 0 and 1, and a number that does is its own share.
pub proof fn lemma_share<S: Scalar>(x: S)
    requires
        scalar::unit_ordered::<S>(),
    ensures
        is_share(share_spec(x)),
        is_share(x) ==> share_spec(x) == x,
{
    scalar::lemma_clamped_in_range(x, S::whole_spec(0), S::whole_spec(1));
}

/// Moving the water keeps the shares of water between 0 and 1.
pub proof fn lemma_advected_in_range<S: Scalar>(cells: Seq<Cell<S>>, dt0: S, k: int)
    requires
        scalar::unit_ordered::<S>(),
        is_share(cells[k].phase),
    ensures
        is_share(advected(cells, dt0, k)),
{
    let i = topology::col_of(k);
    let j = topology::row_of(k);
    if !cells[k].wall && topology::inside(i, j) {
        let u = mean_spec(
            cells[topology::place(i, j)].velocity_x,
            cells[topology::place(i + 1, j)].velocity_x,
        );
        let v = mean_spec(
            cells[topology::place(i, j)].velocity_y,
            cells[topology::place(i, j + 1)].velocity_y,
        );
        let x = S::whole_spec(i as nat).minus_spec(dt0.times_spec(u));
        let y = S::whole_spec(j as nat).minus_spec(dt0.times_spec(v));
        lemma_share(sampled_phase(cells, x, y, cells[k].phase));
    }
}

/// The middle of column or row `i` lies between the borders, is that whole number, and has no
/// fraction.
pub open spec fn middle_exact<S: Scalar>(i: int) -> bool {
    let x = S::whole_spec(i as nat);
    &&& kept_inside(x) == x
    &&& x.truncated_spec() == i
    &&& x.minus_spec(x) == S::whole_spec(0)
}

/// The middles of the cells between the borders are whole numbers.
pub open spec fn middles_exact<S: Scalar>() -> bool {
    &&& S::whole_spec(1).minus_spec(S::whole_spec(0)) == S::whole_spec(1)
    &&& forall|i: int| 1 <= i <= N ==> #[trigger] middle_exact::<S>(i)
}

/// `a` is its own product with 1, and the product of `b` with 0 adds nothing to it.
pub open spec fn outweighs<S: Scalar>(a: S, b: S) -> bool {
    &&& S::whole_spec(1).times_spec(a) == a
    &&& a.plus_spec(S::whole_spec(0).times_spec(b)) == a
}

/// In a step of `dt0` cells for each unit of velocity, the velocity `v` moves nothing away from the
/// middle of column or row `i`.
pub open spec fn stays<S: Scalar>(dt0: S, v: S, i: int) -> bool {
    S::whole_spec(i as nat).minus_spec(dt0.times_spec(v)) == S::whole_spec(i as nat)
}

/// In a step of `dt0` cells for each unit of velocity, the velocity `v` moves nothing.
pub open spec fn moves_nothing<S: Scalar>(dt0: S, v: S) -> bool {
    forall|i: int| 1 <= i <= N ==> #[trigger] stays(dt0, v, i)
}

/// The shares of water of any two of `cells` outweigh each other.
pub open spec fn phases_exact<S: Scalar>(cells: Seq<Cell<S>>) -> bool {
    forall|k: int, m: int|
        0 <= k < cells.len() && 0 <= m < cells.len() ==> #[trigger] outweighs(
            cells[k].phase,
            cells[m].phase,
        )
}

/// In no time no velocity of `cells` moves anything.
pub open spec fn time_exact<S: Scalar>(cells: Seq<Cell<S>>) -> bool {
    let zero = S::whole_spec(0);
    &&& zero.times_spec(S::whole_spec(N as nat)) == zero
    &&& forall|k: int, m: int|
        0 <= k < cells.len() && 0 <= m < cells.len() ==> #[trigger] moves_nothing(
            zero,
            mean_spec(cells[k].velocity_x, cells[m].velocity_x),
        )
    &&& forall|k: int, m: int|
        0 <= k < cells.len() && 0 <= m < cells.len() ==> #[trigger] moves_nothing(
            zero,
            mean_spec(cells[k].velocity_y, cells[m].velocity_y),
        )
}

/// The fixed-point numbers are exact where nothing moves, whatever the cells.
pub proof fn lemma_fixed_exact(cells: Seq<Cell<Fixed>>)
    ensures
        scalar::unit_ordered::<Fixed>(),
        middles_exact::<Fixed>(),
        phases_exact(cells),
        time_exact(cells),
        mean_spec(Fixed::whole_spec(0), Fixed::whole_spec(0)) == Fixed::whole_spec(0),
        forall|dt0: Fixed| #[trigger] moves_nothing(dt0, Fixed::whole_spec(0)),
{
    let zero = Fixed::whole_spec(0);
    assert forall|i: int| 1 <= i <= N implies #[trigger] middle_exact::<Fixed>(i) by {
        fixed::lemma_small_whole(i as nat);
        fixed::lemma_small_whole(N as nat);
        assert(scalar::ratio_spec::<Fixed>(1, 2).raw == 255_000_000);
    }
    assert forall|k: int, m: int| 0 <= k < cells.len() && 0 <= m < cells.len() implies
        #[trigger] outweighs(cells[k].phase, cells[m].phase) by {
        fixed::lemma_times_one(cells[k].phase);
        fixed::lemma_times_zero(cells[m].phase);
    }
    fixed::lemma_times_zero(Fixed::whole_spec(N as nat));
    fixed::lemma_times_zero(scalar::ratio_spec::<Fixed>(1, 2));
    assert forall|v: Fixed| #[trigger] moves_nothing(zero, v) by {
        fixed::lemma_times_zero(v);
    }
    assert forall|dt0: Fixed| #[trigger] moves_nothing(dt0, zero) by {
        fixed::lemma_times_zero(dt0);
    }
}

/// A sample at the middle of a cell that is no wall is the share of water in that cell, where that
/// and the three shares that it is mixed with outweigh each other.
pub proof fn lemma_sample_at_cell<S: Scalar>(cells: Seq<Cell<S>>, i: int, j: int, fallback: S)
    requires
        middles_exact::<S>(),
        topology::inside(i, j),
        !cells[topology::place(i, j)].wall,
        outweighs(phase_at(cells, i, j, fallback), phase_at(cells, i, j + 1, fallback)),
        outweighs(phase_at(cells, i, j, fallback), phase_at(cells, i + 1, j, fallback)),
        outweighs(phase_at(cells, i + 1, j, fallback), phase_at(cells, i + 1, j + 1, fallback)),
    ensures
        sampled_phase(cells, S::whole_spec(i as nat), S::whole_spec(j as nat), fallback)
            == cells[topology::place(i, j)].phase,
{
    assert(middle_exact::<S>(i));
    assert(middle_exact::<S>(j));
}

/// Where the velocities move nothing, the water stays.
proof fn lemma_unmoved<S: Scalar>(cells: Seq<Cell<S>>, dt0: S, k: int)
    requires
        cells.len() == CELLS,
        0 <= k < CELLS,
        scalar::unit_ordered::<S>(),
        middles_exact::<S>(),
        phases_exact(cells),
        is_share(cells[k].phase),
        topology::inside(topology::col_of(k), topology::row_of(k)),
        moves_nothing(
            dt0,
            mean_spec(
                cells[k].velocity_x,
                cells[topology::place(topology::col_of(k) + 1, topology::row_of(k))].velocity_x,
            ),
        ),
        moves_nothing(
            dt0,
            mean_spec(
                cells[k].velocity_y,
                cells[topology::place(topology::col_of(k), topology::row_of(k) + 1)].velocity_y,
            ),
        ),
    ensures
        advected(cells, dt0, k) == cells[k].phase,
{
    let i = topology::col_of(k);
    let j = topology::row_of(k);
    topology::lemma_cell(k);
    if !cells[k].wall {
        let u = mean_spec(cells[k].velocity_x, cells[topology::place(i + 1, j)].velocity_x);
        let v = mean_spec(cells[k].velocity_y, cells[topology::place(i, j + 1)].velocity_y);
        assert(stays(dt0, u, i));
        assert(stays(dt0, v, j));
        topology::lemma_place(i + 1, j);
        topology::lemma_place(i, j + 1);
        topology::lemma_place(i + 1, j + 1);
        let phase = cells[k].phase;
        let a = if j + 1 <= N && !cells[topology::place(i, j + 1)].wall {
            topology::place(i, j + 1)
        } else {
            k
        };
        let b = if i + 1 <= N && !cells[topology::place(i + 1, j)].wall {
            topology::place(i + 1, j)
        } else {
            k
        };
        let c = if i + 1 <= N && j + 1 <= N && !cells[topology::place(i + 1, j + 1)].wall {
            topology::place(i + 1, j + 1)
        } else {
            k
        };
        assert(outweighs(cells[k].phase, cells[a].phase));
        assert(outweighs(cells[k].phase, cells[b].phase));
        assert(outweighs(cells[b].phase, cells[c].phase));
        lemma_sample_at_cell(cells, i, j, phase);
        lemma_share(phase);
    }
}

/// Where the fluid does not move, the water stays, as long as the velocity 0 moves nothing.
pub proof fn lemma_still_water<S: Scalar>(cells: Seq<Cell<S>>, dt0: S, k: int)
    requires
        cells.len() == CELLS,
        0 <= k < CELLS,
        scalar::unit_ordered::<S>(),
        middles_exact::<S>(),
        phases_exact(cells),
        mean_spec(S::whole_spec(0), S::whole_spec(0)) == S::whole_spec(0),
        moves_nothing(dt0, S::whole_spec(0)),
        topology::inside(topology::col_of(k), topology::row_of(k)),
        cells[k].velocity_x == S::whole_spec(0),
        cells[k].velocity_y == S::whole_spec(0),
        cells[topology::place(topology::col_of(k) + 1, topology::row_of(k))].velocity_x
            == S::whole_spec(0),
        cells[topology::place(topology::col_of(k), topology::row_of(k) + 1)].velocity_y
            == S::whole_spec(0),
        is_share(cells[k].phase),
    ensures
        advected(cells, dt0, k) == cells[k].phase,
{
    lemma_unmoved(cells, dt0, k);
}

/// Moving the water for no time changes nothing, whatever the velocities: neither a share of
/// water between 0 and 1, nor the volume. This holds of every number type that is exact where
/// nothing moves.
pub proof fn lemma_no_time<S: Scalar>(cells: Seq<Cell<S>>)
    requires
        cells.len() == CELLS,
        scalar::unit_ordered::<S>(),
        middles_exact::<S>(),
        phases_exact(cells),
        time_exact(cells),
        forall|k: int| 0 <= k < CELLS ==> is_share((#[trigger] cells[k]).phase),
    ensures
        carried(cells, S::whole_spec(0)) == cells,
        volume(carried(cells, S::whole_spec(0)), CELLS as nat) == volume(cells, CELLS as nat),
{
    let zero = S::whole_spec(0);
    let after = carried(cells, zero);
    assert forall|k: int| 0 <= k < CELLS implies after[k] == cells[k] by {
        let i = topology::col_of(k);
        let j = topology::row_of(k);
        topology::lemma_cell(k);
        if topology::inside(i, j) {
            topology::lemma_place(i + 1, j);
            topology::lemma_place(i, j + 1);
            let right = topology::place(i + 1, j);
            let below = topology::place(i, j + 1);
            assert(moves_nothing(
                zero,
                mean_spec(cells[k].velocity_x, cells[right].velocity_x),
            ));
            assert(moves_nothing(
                zero,
                mean_spec(cells[k].velocity_y, cells[below].velocity_y),
            ));
            lemma_unmoved(cells, zero, k);
        }
    }
    assert(after =~= cells);
}

/// Moving the water for no time changes nothing in a grid of fixed-point numbers.
pub proof fn lemma_fixed_no_time(cells: Seq<Cell<Fixed>>)
    requires
        cells.len() == CELLS,
        forall|k: int| 0 <= k < CELLS ==> 0 <= (#[trigger] cells[k]).phase.raw <= fixed::ONE,
    ensures
        carried(cells, Fixed::whole_spec(0)) == cells,
        volume(carried(cells, Fixed::whole_spec(0)), CELLS as nat) == volume(cells, CELLS as nat),
{
    lemma_fixed_exact(cells);
    lemma_no_time(cells);
}

/// Where there is no gravity, nothing changes, as long as 0 adds nothing to the velocities.
pub proof fn lemma_no_gravity<S: Scalar>(cells: Seq<Cell<S>>, k: int)
    requires
        cells[k].velocity_x.plus_spec(S::whole_spec(0)) == cells[k].velocity_x,
        cells[k].velocity_y.plus_spec(S::whole_spec(0)) == cells[k].velocity_y,
    ensures
        accelerated(cells, k, S::whole_spec(0), S::whole_spec(0)) == cells[k],
{
}

/// Without walls every cell between the borders, those of the last column and the last row among
/// them, is pushed once along its row and once along its column.
pub proof fn lemma_gravity_without_walls<S: Scalar>(cells: Seq<Cell<S>>, k: int, ax: S, ay: S)
    requires
        cells.len() == CELLS,
        0 <= k < CELLS,
        forall|b: int| 0 <= b < CELLS ==> !(#[trigger] cells[b]).wall,
        topology::inside(topology::col_of(k), topology::row_of(k)),
    ensures
        accelerated(cells, k, ax, ay) == (Cell {
            velocity_x: cells[k].velocity_x.plus_spec(ax),
            velocity_y: cells[k].velocity_y.plus_spec(ay),
            ..cells[k]
        }),
{
    let i = topology::col_of(k);
    let j = topology::row_of(k);
    topology::lemma_cell(k);
    topology::lemma_place(i - 1, j);
    topology::lemma_place(i, j - 1);
}

/// Gravity leaves a wall as it is, and the sides next to it: of the cell to the right of a wall
/// the velocity along the row, and of the cell below it the velocity along the column.
pub proof fn lemma_gravity_beside_walls<S: Scalar>(cells: Seq<Cell<S>>, k: int, ax: S, ay: S)
    requires
        0 <= k < CELLS,
    ensures
        cells[k].wall ==> accelerated(cells, k, ax, ay) == cells[k],
        cells[topology::place(topology::col_of(k) - 1, topology::row_of(k))].wall ==> accelerated(
            cells,
            k,
            ax,
            ay,
        ).velocity_x == cells[k].velocity_x,
        cells[topology::place(topology::col_of(k), topology::row_of(k) - 1)].wall ==> accelerated(
            cells,
            k,
            ax,
            ay,
        ).velocity_y == cells[k].velocity_y,
{
    topology::lemma_cell(k);
}

/// The number of those of the first `n` cells that are no walls.
pub open spec fn open_cells<S>(cells: Seq<Cell<S>>, n: nat) -> nat
    decreases n,
{
    if n == 0 {
        0
    } else {
        open_cells(cells, (n - 1) as nat) + if cells[n - 1].wall {
            0nat
        } else {
            1nat
        }
    }
}

/// One more than `n` is the number that follows `n`.
pub open spec fn counts_on<S: Scalar>(n: int) -> bool {
    S::whole_spec(n as nat).plus_spec(S::whole_spec(1)) == S::whole_spec((n + 1) as nat)
}

/// The cells of a grid can be counted without a loss, and nothing and nothing is nothing.
pub open spec fn counts<S: Scalar>() -> bool {
    &&& S::whole_spec(0).plus_spec(S::whole_spec(0)) == S::whole_spec(0)
    &&& forall|n: int| 0 <= n < CELLS ==> #[trigger] counts_on::<S>(n)
}

/// The fixed-point numbers count the cells of a grid without a loss.
pub proof fn lemma_fixed_counts()
    ensures
        counts::<Fixed>(),
{
}

/// A grid without water holds no water.
pub proof fn lemma_dry_volume<S: Scalar>(cells: Seq<Cell<S>>, n: nat)
    requires
        n <= cells.len(),
        S::whole_spec(0).plus_spec(S::whole_spec(0)) == S::whole_spec(0),
        forall|k: int|
            0 <= k < n && !(#[trigger] cells[k]).wall ==> cells[k].phase == S::whole_spec(0),
    ensures
        volume(cells, n) == S::whole_spec(0),
    decreases n,
{
    if n > 0 {
        lemma_dry_volume(cells, (n - 1) as nat);
    }
}

/// A grid full of water holds as much as it has cells that are no walls.
pub proof fn lemma_full_volume<S: Scalar>(cells: Seq<Cell<S>>, n: nat)
    requires
        n <= cells.len(),
        n <= CELLS,
        counts::<S>(),
        forall|k: int|
            0 <= k < n && !(#[trigger] cells[k]).wall ==> cells[k].phase == S::whole_spec(1),
    ensures
        volume(cells, n) == S::whole_spec(open_cells(cells, n)),
        open_cells(cells, n) <= n,
    decreases n,
{
    if n > 0 {
        lemma_full_volume(cells, (n - 1) as nat);
        assert(counts_on::<S>(open_cells(cells, (n - 1) as nat) as int));
    }
}

proof fn lemma_open_cells_same<S>(cells: Seq<Cell<S>>, other: Seq<Cell<S>>, n: nat)
    requires
        forall|k: int| 0 <= k < n ==> (#[trigger] cells[k]).wall == other[k].wall,
    ensures
        open_cells(cells, n) == open_cells(other, n),
    decreases n,
{
    if n > 0 {
        lemma_open_cells_same(cells, other, (n - 1) as nat);
        assert(cells[n - 1].wall == other[n - 1].wall);
    }
}

/// A grid that has been filled with one fluid holds as much water as it has cells that are no
/// walls if that is water, and none if it is air, in every number type that counts. Walls count for
/// nothing, whatever the share of water in them, which the filling leaves as it is.
pub proof fn lemma_uniform_volume<S: Scalar>(cells: Seq<Cell<S>>, after: Seq<Cell<S>>, phase: S)
    requires
        cells.len() == CELLS,
        scalar::unit_ordered::<S>(),
        counts::<S>(),
        after == Seq::new(CELLS as nat, |k: int| filled(cells[k], share_spec(phase))),
    ensures
        phase == S::whole_spec(1) || S::whole_spec(1).below_spec(phase) && !phase.below_spec(
            S::whole_spec(0),
        ) ==> volume(after, CELLS as nat) == S::whole_spec(open_cells(cells, CELLS as nat)),
        phase == S::whole_spec(0) || phase.below_spec(S::whole_spec(0)) ==> volume(
            after,
            CELLS as nat,
        ) == S::whole_spec(0),
        forall|k: int| 0 <= k < CELLS && cells[k].wall ==> #[trigger] after[k] == cells[k],
{
    lemma_open_cells_same(after, cells, CELLS as nat);
    if share_spec(phase) == S::whole_spec(1) {
        lemma_full_volume(after, CELLS as nat);
    }
    if share_spec(phase) == S::whole_spec(0) {
        lemma_dry_volume(after, CELLS as nat);
    }
}

/// A grid of fixed-point numbers that has been filled with one fluid holds as much water as it has
/// cells that are no walls if that is water, and none if it is air.
pub proof fn lemma_fixed_uniform_volume(
    cells: Seq<Cell<Fixed>>,
    after: Seq<Cell<Fixed>>,
    phase: Fixed,
)
    requires
        cells.len() == CELLS,
        after == Seq::new(CELLS as nat, |k: int| filled(cells[k], share_spec(phase))),
    ensures
        phase.raw >= fixed::ONE ==> volume(after, CELLS as nat) == Fixed::whole_spec(
            open_cells(cells, CELLS as nat),
        ),
        phase.raw <= 0 ==> volume(after, CELLS as nat) == Fixed::whole_spec(0),
{
    lemma_fixed_counts();
    lemma_uniform_volume(cells, after, phase);
}

/// A limited velocity lies within the limits, and limiting it again changes nothing, where the
/// limits are ordered as they should be.
pub proof fn lemma_slowed<S: Scalar>(cell: Cell<S>, max: S)
    requires
        !cell.wall,
        !max.below_spec(max),
        !max.negated_spec().below_spec(max.negated_spec()),
        !max.below_spec(max.negated_spec()),
    ensures
        !slowed(cell, max).velocity_x.below_spec(max.negated_spec()),
        !max.below_spec(slowed(cell, max).velocity_x),
        !slowed(cell, max).velocity_y.below_spec(max.negated_spec()),
        !max.below_spec(slowed(cell, max).velocity_y),
        slowed(slowed(cell, max), max) == slowed(cell, max),
{
    scalar::lemma_clamped_in_range(cell.velocity_x, max.negated_spec(), max);
    scalar::lemma_clamped_in_range(cell.velocity_y, max.negated_spec(), max);
}

} // verus!
