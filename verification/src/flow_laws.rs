//! What the motion of the water and the forces of the fluid amount to, in whole steps of the
//! fixed-point numbers: laws that follow from how each of them is computed.
use vstd::prelude::*;
use crate::conditions::{CELLS, N};
use crate::fixed;
use crate::fixed::{Fixed, ONE};
use crate::grid::Cell;
use crate::pressure_computation;
use crate::scalar;
use crate::scalar::Scalar;
use crate::topology;
use crate::water;

verus! {

/// The product of `a` and `b` steps is within the range of a number.
pub open spec fn product_in_bounds(a: int, b: int) -> bool {
    -(i64::MAX * ONE) <= a * b <= i64::MAX * ONE
}

proof fn lemma_mean(a: Fixed, b: Fixed)
    requires
        fixed::in_bounds(a.raw + b.raw),
    ensures
        water::mean_spec(a, b).raw == fixed::toward_zero(a.raw + b.raw, 2),
{
    fixed::lemma_half(a.plus_spec(b));
}

proof fn lemma_step_length(dt: Fixed)
    requires
        fixed::in_bounds(dt.raw * N),
    ensures
        dt.times_spec(Fixed::whole_spec(N as nat)).raw == dt.raw * N,
{
    let n = dt.raw * Fixed::whole_spec(N as nat).raw;
    assert(n == (dt.raw * 510) * 510_000_000) by (nonlinear_arith)
        requires
            n == dt.raw * Fixed::whole_spec(N as nat).raw,
            Fixed::whole_spec(N as nat).raw == 510 * 510_000_000,
    ;
}

proof fn lemma_whole_step(dt0: Fixed, mean: Fixed, a: int, i: int)
    requires
        1 <= i <= N,
        1 <= i - a <= N,
        dt0.raw * mean.raw == a * ONE * ONE,
    ensures
        Fixed::whole_spec(i as nat).minus_spec(dt0.times_spec(mean)) == Fixed::whole_spec(
            (i - a) as nat,
        ),
{
    assert(a * ONE * ONE == (a * 510_000_000) * 510_000_000);
    assert(dt0.times_spec(mean).raw == a * ONE);
}

/// The water is carried with the fluid: where the fluid flows `a` columns and `b` rows on in the
/// time `dt`, whichever way, a cell gets the share of water of the cell `a` columns and `b` rows
/// back. The velocity in a cell is the mean of those through its two sides, and a width of the grid
/// in a unit of time is the unit of velocity.
pub proof fn lemma_water_carried(
    cells: Seq<Cell<Fixed>>,
    dt: Fixed,
    i: int,
    j: int,
    u: int,
    v: int,
    a: int,
    b: int,
)
    requires
        cells.len() == CELLS,
        topology::inside(i, j),
        topology::inside(i - a, j - b),
        !cells[topology::place(i, j)].wall,
        !cells[topology::place(i - a, j - b)].wall,
        0 <= cells[topology::place(i - a, j - b)].phase.raw <= ONE,
        cells[topology::place(i, j)].velocity_x.raw + cells[topology::place(
            i + 1,
            j,
        )].velocity_x.raw == 2 * u,
        cells[topology::place(i, j)].velocity_y.raw + cells[topology::place(
            i,
            j + 1,
        )].velocity_y.raw == 2 * v,
        fixed::in_bounds(2 * u),
        fixed::in_bounds(2 * v),
        fixed::in_bounds(dt.raw * N),
        (dt.raw * N) * u == a * ONE * ONE,
        (dt.raw * N) * v == b * ONE * ONE,
    ensures
        water::carried(cells, dt)[topology::place(i, j)].phase == cells[topology::place(
            i - a,
            j - b,
        )].phase,
{
    let k = topology::place(i, j);
    topology::lemma_place(i, j);
    let dt0 = dt.times_spec(Fixed::whole_spec(N as nat));
    lemma_step_length(dt);
    let right = topology::place(i + 1, j);
    let below = topology::place(i, j + 1);
    let mu = water::mean_spec(cells[k].velocity_x, cells[right].velocity_x);
    let mv = water::mean_spec(cells[k].velocity_y, cells[below].velocity_y);
    lemma_mean(cells[k].velocity_x, cells[right].velocity_x);
    lemma_mean(cells[k].velocity_y, cells[below].velocity_y);
    assert(mu.raw == u && mv.raw == v);
    assert(dt0.raw * mu.raw == a * ONE * ONE);
    assert(dt0.raw * mv.raw == b * ONE * ONE);
    lemma_whole_step(dt0, mu, a, i);
    lemma_whole_step(dt0, mv, b, j);
    let fallback = cells[k].phase;
    let x = i - a;
    let y = j - b;
    water::lemma_fixed_exact(cells);
    let p = water::phase_at(cells, x, y, fallback);
    let q = water::phase_at(cells, x, y + 1, fallback);
    let r = water::phase_at(cells, x + 1, y, fallback);
    let s = water::phase_at(cells, x + 1, y + 1, fallback);
    fixed::lemma_times_one(p);
    fixed::lemma_times_one(r);
    fixed::lemma_times_zero(q);
    fixed::lemma_times_zero(r);
    fixed::lemma_times_zero(s);
    water::lemma_sample_at_cell(cells, x, y, fallback);
    assert(water::advected(cells, dt0, k) == cells[topology::place(x, y)].phase);
}

/// Walls and the borders keep their water.
pub proof fn lemma_walls_keep_water<S: Scalar>(cells: Seq<Cell<S>>, dt: S, k: int)
    requires
        0 <= k < cells.len(),
        cells[k].wall || !topology::inside(topology::col_of(k), topology::row_of(k)),
    ensures
        water::carried(cells, dt)[k] == cells[k],
{
}

/// Moving the water changes nothing but the shares of water.
pub proof fn lemma_only_water_moves<S: Scalar>(cells: Seq<Cell<S>>, dt: S, k: int)
    requires
        0 <= k < cells.len(),
    ensures
        water::carried(cells, dt).len() == cells.len(),
        water::carried(cells, dt)[k].wall == cells[k].wall,
        water::carried(cells, dt)[k].velocity_x == cells[k].velocity_x,
        water::carried(cells, dt)[k].velocity_y == cells[k].velocity_y,
        water::carried(cells, dt)[k].density == cells[k].density,
        water::carried(cells, dt)[k].pressure == cells[k].pressure,
{
}

/// A share is the number itself between 0 and 1, and the nearer of the two beyond them.
pub proof fn lemma_share_nearest(x: Fixed)
    ensures
        0 <= water::share_spec(x).raw <= ONE,
        0 <= x.raw <= ONE ==> water::share_spec(x) == x,
        x.raw < 0 ==> water::share_spec(x).raw == 0,
        x.raw > ONE ==> water::share_spec(x).raw == ONE,
{
}

/// A sample finds the water of the fluid in a cell, and the fallback at a wall and behind the last
/// column or row.
pub proof fn lemma_phase_found<S: Scalar>(cells: Seq<Cell<S>>, i: int, j: int, fallback: S)
    ensures
        i <= N && j <= N && !cells[topology::place(i, j)].wall ==> water::phase_at(
            cells,
            i,
            j,
            fallback,
        ) == cells[topology::place(i, j)].phase,
        cells[topology::place(i, j)].wall ==> water::phase_at(cells, i, j, fallback) == fallback,
        i > N || j > N ==> water::phase_at(cells, i, j, fallback) == fallback,
{
}

/// `x` or the end of the grid between its borders that it lies beyond, in steps.
pub open spec fn kept_steps(x: int) -> int {
    if 2 * x < ONE {
        ONE as int / 2
    } else if 2 * x > (2 * N + 1) * ONE {
        ((2 * N + 1) * ONE) / 2
    } else {
        x
    }
}

proof fn lemma_weighted(f: int, p: Fixed, q: Fixed, a: Fixed, b: Fixed)
    requires
        0 <= f <= ONE,
        a.raw == ONE - f,
        b.raw == f,
        0 <= p.raw <= ONE,
        0 <= q.raw <= ONE,
    ensures
        ({
            let r = a.times_spec(p).plus_spec(b.times_spec(q)).raw;
            let e = (ONE - f) * p.raw + f * q.raw;
            0 <= r <= ONE && 0 <= e - ONE * r < 2 * ONE
        }),
{
    let e = (ONE - f) * p.raw + f * q.raw;
    let m = a.raw * p.raw;
    let n = b.raw * q.raw;
    assert(0 <= m <= 510_000_000 * 510_000_000 && 0 <= n <= 510_000_000 * 510_000_000
        && e <= 510_000_000 * 510_000_000) by (nonlinear_arith)
        requires
            m == a.raw * p.raw,
            n == b.raw * q.raw,
            e == (510_000_000 - f) * p.raw + f * q.raw,
            a.raw == 510_000_000 - f,
            b.raw == f,
            0 <= f <= 510_000_000,
            0 <= p.raw <= 510_000_000,
            0 <= q.raw <= 510_000_000,
    ;
    fixed::lemma_times_near(a, p);
    fixed::lemma_times_near(b, q);
    assert(e == m + n);
}

/// A sample is the mean of the four cells round its point, each with the weight of how near it lies
/// along the row and along the column, less at most four steps.
pub proof fn lemma_sample_weighs(cells: Seq<Cell<Fixed>>, x: Fixed, y: Fixed, fallback: Fixed)
    requires
        ({
            let i = kept_steps(x.raw as int) / (ONE as int);
            let j = kept_steps(y.raw as int) / (ONE as int);
            forall|c: int, r: int|
                i <= c <= i + 1 && j <= r <= j + 1 ==> 0 <= (#[trigger] water::phase_at(
                    cells,
                    c,
                    r,
                    fallback,
                )).raw <= ONE
        }),
    ensures
        ({
            let i = kept_steps(x.raw as int) / (ONE as int);
            let j = kept_steps(y.raw as int) / (ONE as int);
            let f = kept_steps(x.raw as int) % (ONE as int);
            let g = kept_steps(y.raw as int) % (ONE as int);
            let left = (ONE - g) * water::phase_at(cells, i, j, fallback).raw + g
                * water::phase_at(cells, i, j + 1, fallback).raw;
            let right = (ONE - g) * water::phase_at(cells, i + 1, j, fallback).raw + g
                * water::phase_at(cells, i + 1, j + 1, fallback).raw;
            let mean = (ONE - f) * left + f * right;
            0 <= mean - ONE * ONE * water::sampled_phase(cells, x, y, fallback).raw < 4 * ONE
                * ONE
        }),
{
    let kx = kept_steps(x.raw as int);
    let ky = kept_steps(y.raw as int);
    assert(scalar::ratio_spec::<Fixed>(1, 2).raw == 255_000_000);
    assert(water::kept_inside(x).raw == kx);
    assert(water::kept_inside(y).raw == ky);
    let i = kx / (ONE as int);
    let j = ky / (ONE as int);
    let f = kx % (ONE as int);
    let g = ky % (ONE as int);
    assert(0 <= i <= 510 && 0 <= j <= 510 && 0 <= f < ONE && 0 <= g < ONE);
    assert(kx == i * ONE + f && ky == j * ONE + g);
    assert(water::floor_spec(water::kept_inside(x)) == i);
    assert(water::floor_spec(water::kept_inside(y)) == j);
    let p = water::phase_at(cells, i, j, fallback);
    let q = water::phase_at(cells, i, j + 1, fallback);
    let r = water::phase_at(cells, i + 1, j, fallback);
    let s = water::phase_at(cells, i + 1, j + 1, fallback);
    let one = Fixed::whole_spec(1);
    let s1 = water::kept_inside(x).minus_spec(Fixed::whole_spec(i as nat));
    let s0 = one.minus_spec(s1);
    let t1 = water::kept_inside(y).minus_spec(Fixed::whole_spec(j as nat));
    let t0 = one.minus_spec(t1);
    assert(s1.raw == f && s0.raw == ONE - f && t1.raw == g && t0.raw == ONE - g);
    let l = t0.times_spec(p).plus_spec(t1.times_spec(q));
    let m = t0.times_spec(r).plus_spec(t1.times_spec(s));
    lemma_weighted(g, p, q, t0, t1);
    lemma_weighted(g, r, s, t0, t1);
    lemma_weighted(f, l, m, s0, s1);
    let left = (ONE - g) * p.raw + g * q.raw;
    let right = (ONE - g) * r.raw + g * s.raw;
    let mean = (ONE - f) * left + f * right;
    let e = (ONE - f) * l.raw + f * m.raw;
    let w = s0.times_spec(l).plus_spec(s1.times_spec(m));
    assert(0 <= mean - ONE * e < 2 * ONE * ONE) by (nonlinear_arith)
        requires
            mean == (ONE - f) * left + f * right,
            e == (ONE - f) * l.raw + f * m.raw,
            0 <= left - ONE * l.raw < 2 * ONE,
            0 <= right - ONE * m.raw < 2 * ONE,
            0 <= f < ONE,
    ;
    assert(w == water::sampled_phase(cells, x, y, fallback));
    assert(0 <= e - ONE * w.raw < 2 * ONE);
}

/// The fluid that is in column `i` and row `j` after the time `dt` has come from the point (`x`,
/// `y`): the velocity times the time back, up to what is lost in the steps of the numbers.
pub open spec fn comes_from(
    cells: Seq<Cell<Fixed>>,
    dt: Fixed,
    i: int,
    j: int,
    x: Fixed,
    y: Fixed,
) -> bool {
    let here = cells[topology::place(i, j)];
    let u = here.velocity_x.raw + cells[topology::place(i + 1, j)].velocity_x.raw;
    let v = here.velocity_y.raw + cells[topology::place(i, j + 1)].velocity_y.raw;
    let reach = dt.raw * N;
    let lost = 2 * ONE + if reach < 0 {
        -reach
    } else {
        reach
    };
    &&& fixed::differ_less(2 * ONE * x.raw, 2 * i * ONE * ONE - reach * u, lost)
    &&& fixed::differ_less(2 * ONE * y.raw, 2 * j * ONE * ONE - reach * v, lost)
}

proof fn lemma_origin(dt: Fixed, a: Fixed, b: Fixed, i: int)
    requires
        1 <= i <= N,
        fixed::in_bounds(dt.raw * N),
        fixed::in_bounds(a.raw + b.raw),
        product_in_bounds(dt.raw * N, a.raw + b.raw),
    ensures
        ({
            let dt0 = dt.times_spec(Fixed::whole_spec(N as nat));
            let x = Fixed::whole_spec(i as nat).minus_spec(
                dt0.times_spec(water::mean_spec(a, b)),
            );
            let reach = dt.raw * N;
            let lost = 2 * ONE + if reach < 0 {
                -reach
            } else {
                reach
            };
            fixed::differ_less(
                2 * ONE * x.raw,
                2 * i * ONE * ONE - reach * (a.raw + b.raw),
                lost,
            )
        }),
{
    lemma_step_length(dt);
    lemma_mean(a, b);
    let reach = dt.raw * N;
    let sum = a.raw + b.raw;
    let dt0 = dt.times_spec(Fixed::whole_spec(N as nat));
    let mean = water::mean_spec(a, b);
    let m = mean.raw as int;
    assert(sum - 1 <= 2 * m <= sum + 1);
    let size = if reach < 0 {
        -reach
    } else {
        reach
    };
    let product = dt0.raw * mean.raw;
    assert(product == reach * m);
    assert(-size <= 2 * product - reach * sum <= size && (2 * m == sum ==> 2 * product == reach
        * sum)) by (nonlinear_arith)
        requires
            product == reach * m,
            sum - 1 <= 2 * m <= sum + 1,
            size == if reach < 0 {
                -reach
            } else {
                reach
            },
    ;
    fixed::lemma_times_near(dt0, mean);
}

/// A cell of fluid between the borders gets the share of water of the point that the fluid in it has
/// come from.
pub proof fn lemma_water_comes_from(cells: Seq<Cell<Fixed>>, dt: Fixed, i: int, j: int)
    requires
        cells.len() == CELLS,
        topology::inside(i, j),
        !cells[topology::place(i, j)].wall,
        fixed::in_bounds(dt.raw * N),
        ({
            let here = cells[topology::place(i, j)];
            let u = here.velocity_x.raw + cells[topology::place(i + 1, j)].velocity_x.raw;
            let v = here.velocity_y.raw + cells[topology::place(i, j + 1)].velocity_y.raw;
            fixed::in_bounds(u) && fixed::in_bounds(v) && product_in_bounds(dt.raw * N, u)
                && product_in_bounds(dt.raw * N, v)
        }),
    ensures
        exists|x: Fixed, y: Fixed| #[trigger]
            comes_from(cells, dt, i, j, x, y) && water::carried(cells, dt)[topology::place(
                i,
                j,
            )].phase == water::share_spec(
                water::sampled_phase(cells, x, y, cells[topology::place(i, j)].phase),
            ),
{
    let k = topology::place(i, j);
    topology::lemma_place(i, j);
    let dt0 = dt.times_spec(Fixed::whole_spec(N as nat));
    let right = topology::place(i + 1, j);
    let below = topology::place(i, j + 1);
    lemma_origin(dt, cells[k].velocity_x, cells[right].velocity_x, i);
    lemma_origin(dt, cells[k].velocity_y, cells[below].velocity_y, j);
    let u = water::mean_spec(cells[k].velocity_x, cells[right].velocity_x);
    let v = water::mean_spec(cells[k].velocity_y, cells[below].velocity_y);
    let x = Fixed::whole_spec(i as nat).minus_spec(dt0.times_spec(u));
    let y = Fixed::whole_spec(j as nat).minus_spec(dt0.times_spec(v));
    assert(comes_from(cells, dt, i, j, x, y));
}

/// Water stands in the rows at and below its level, and nowhere else.
pub proof fn lemma_level_surface(level: Fixed, j: int)
    requires
        0 <= j < 0x1_0000,
    ensures
        j * ONE >= level.raw ==> water::still_phase(level, j).raw == ONE,
        j * ONE < level.raw ==> water::still_phase(level, j).raw == 0,
{
    fixed::lemma_small_whole(j as nat);
}

/// Filling changes the share of water of a cell that is no wall, and nothing else.
pub proof fn lemma_filled<S: Scalar>(cell: Cell<S>, phase: S)
    ensures
        cell.wall ==> water::filled(cell, phase) == cell,
        !cell.wall ==> water::filled(cell, phase).phase == phase,
        water::filled(cell, phase).wall == cell.wall,
        water::filled(cell, phase).velocity_x == cell.velocity_x,
        water::filled(cell, phase).velocity_y == cell.velocity_y,
        water::filled(cell, phase).density == cell.density,
        water::filled(cell, phase).pressure == cell.pressure,
{
}

/// The volume is as many steps as all shares of water of the fluid together: what is poured into one
/// cell is added to it, and what is in a wall counts for nothing.
pub proof fn lemma_volume_poured(cells: Seq<Cell<Fixed>>, k: int, phase: Fixed, n: nat)
    requires
        n <= CELLS,
        n <= cells.len(),
        0 <= k < cells.len(),
        0 <= phase.raw <= ONE,
        forall|c: int| 0 <= c < cells.len() ==> 0 <= (#[trigger] cells[c]).phase.raw <= ONE,
    ensures
        ({
            let after = cells.update(k, Cell { phase, ..cells[k] });
            let gained = if k < n && !cells[k].wall {
                phase.raw - cells[k].phase.raw
            } else {
                0
            };
            &&& water::volume(after, n).raw == water::volume(cells, n).raw + gained
            &&& 0 <= water::volume(cells, n).raw <= n * ONE
        }),
    decreases n,
{
    let after = cells.update(k, Cell { phase, ..cells[k] });
    if n > 0 {
        lemma_volume_poured(cells, k, phase, (n - 1) as nat);
        if n - 1 != k {
            assert(after[n - 1] == cells[n - 1]);
        }
        assert(0 <= cells[n - 1].phase.raw <= ONE);
        assert forall|c: int| 0 <= c < after.len() implies 0 <= (#[trigger] after[c]).phase.raw
            <= ONE by {
            assert(0 <= cells[c].phase.raw <= ONE);
        }
        lemma_volume_bound(after, (n - 1) as nat);
    }
}

proof fn lemma_volume_bound(cells: Seq<Cell<Fixed>>, n: nat)
    requires
        n <= CELLS,
        n <= cells.len(),
        forall|c: int| 0 <= c < cells.len() ==> 0 <= (#[trigger] cells[c]).phase.raw <= ONE,
    ensures
        0 <= water::volume(cells, n).raw <= n * ONE,
    decreases n,
{
    if n > 0 {
        lemma_volume_bound(cells, (n - 1) as nat);
        assert(0 <= cells[n - 1].phase.raw <= ONE);
    }
}

/// A velocity is limited to the nearest one that is allowed: one within the limits stays, one beyond
/// a limit becomes that limit. Walls, and all else of a cell, stay.
pub proof fn lemma_slowed_nearest(cell: Cell<Fixed>, max: Fixed)
    requires
        0 <= max.raw,
    ensures
        cell.wall ==> water::slowed(cell, max) == cell,
        !cell.wall ==> {
            let x = cell.velocity_x.raw;
            let y = cell.velocity_y.raw;
            let after = water::slowed(cell, max);
            &&& -max.raw <= x <= max.raw ==> after.velocity_x.raw == x
            &&& x < -max.raw ==> after.velocity_x.raw == -max.raw
            &&& x > max.raw ==> after.velocity_x == max
            &&& -max.raw <= y <= max.raw ==> after.velocity_y.raw == y
            &&& y < -max.raw ==> after.velocity_y.raw == -max.raw
            &&& y > max.raw ==> after.velocity_y == max
        },
        water::slowed(cell, max).wall == cell.wall,
        water::slowed(cell, max).phase == cell.phase,
        water::slowed(cell, max).density == cell.density,
        water::slowed(cell, max).pressure == cell.pressure,
{
}

/// Gravity pushes the fluid through a side exactly if that side lies between the borders or on one
/// of them, with fluid before and behind it, whatever else is in the grid, and changes nothing but
/// the velocities.
pub proof fn lemma_gravity_pushes_fluid<S: Scalar>(
    cells: Seq<Cell<S>>,
    i: int,
    j: int,
    ax: S,
    ay: S,
)
    requires
        topology::in_grid(i, j),
    ensures
        ({
            let k = topology::place(i, j);
            let after = water::accelerated(cells, k, ax, ay);
            let fluid = |c: int, r: int| !cells[topology::place(c, r)].wall;
            &&& 1 <= i && 1 <= j <= N && fluid(i - 1, j) && fluid(i, j) ==> after.velocity_x
                == cells[k].velocity_x.plus_spec(ax)
            &&& i < 1 || j < 1 || j > N || !fluid(i - 1, j) || !fluid(i, j) ==> after.velocity_x
                == cells[k].velocity_x
            &&& 1 <= j && 1 <= i <= N && fluid(i, j - 1) && fluid(i, j) ==> after.velocity_y
                == cells[k].velocity_y.plus_spec(ay)
            &&& j < 1 || i < 1 || i > N || !fluid(i, j - 1) || !fluid(i, j) ==> after.velocity_y
                == cells[k].velocity_y
            &&& after.wall == cells[k].wall
            &&& after.phase == cells[k].phase
            &&& after.density == cells[k].density
            &&& after.pressure == cells[k].pressure
        }),
{
    topology::lemma_place(i, j);
}

/// The density of a mixture with the share `phi` of water is that of `phi` of water, which is 25
/// times that of air, and of the rest of air.
pub proof fn lemma_density_mixes(phi: Fixed)
    requires
        0 <= phi.raw <= ONE,
    ensures
        water::mixed_density(phi).raw == (ONE - phi.raw) + 25 * phi.raw,
{
    water::lemma_mixed_density(phi);
}

proof fn lemma_negated_times(x: Fixed, one: Fixed)
    requires
        one.raw == -ONE,
        fixed::in_bounds(x.raw as int),
    ensures
        x.times_spec(one).raw == -x.raw,
{
    let n = x.raw * one.raw;
    assert(n == -(x.raw * 510_000_000)) by (nonlinear_arith)
        requires
            n == x.raw * one.raw,
            one.raw == -510_000_000,
    ;
}

/// A velocity or a pressure of an ordinary size: at most ten thousand.
pub open spec fn is_ordinary(x: Fixed) -> bool {
    -10_000 * ONE <= x.raw <= 10_000 * ONE
}

/// The force per side along the normal, in steps: `away` is 1 where the fluid lies in the direction
/// of growing columns or rows, and -1 where it lies in the other.
proof fn lemma_normal_force(v: Fixed, p: Fixed, n: Fixed, away: int)
    requires
        is_ordinary(v),
        is_ordinary(p),
        away == 1 || away == -1,
        n.raw == away * ONE,
    ensures
        ({
            let h = Fixed::whole_spec(1).over_spec(Fixed::whole_spec(N as nat));
            let drag = Fixed::whole_spec(1).over_spec(Fixed::whole_spec(2));
            let speed = v.times_spec(n);
            let pull = drag.times_spec(speed.size_spec()).times_spec(speed);
            let f = p.negated_spec().times_spec(n).plus_spec(pull.times_spec(n)).times_spec(h);
            let square = if v.raw < 0 {
                -(v.raw * v.raw)
            } else {
                v.raw * v.raw
            };
            let size = if v.raw < 0 {
                -v.raw
            } else {
                v.raw as int
            };
            fixed::differ_less(
                2 * N * ONE * f.raw,
                square - 2 * ONE * away * p.raw,
                1022 * ONE + size,
            )
        }),
{
    let h = Fixed::whole_spec(1).over_spec(Fixed::whole_spec(N as nat));
    let drag = Fixed::whole_spec(1).over_spec(Fixed::whole_spec(2));
    let speed = v.times_spec(n);
    let q = drag.times_spec(speed.size_spec());
    let pull = q.times_spec(speed);
    let push = p.negated_spec();
    assert(h.raw == 1_000_000);
    if away == 1 {
        assert(n == Fixed::whole_spec(1));
        fixed::lemma_times_one(v);
        fixed::lemma_times_one(push);
    } else {
        lemma_negated_times(v, n);
        lemma_negated_times(push, n);
    }
    assert(speed.raw == away * v.raw);
    assert(push.times_spec(n).raw == -(away * p.raw));
    fixed::lemma_half(speed.size_spec());
    let size = if v.raw < 0 {
        -v.raw
    } else {
        v.raw as int
    };
    assert(speed.size_spec().raw == size);
    assert(0 <= q.raw && size - 1 <= 2 * q.raw <= size);
    let product = q.raw * speed.raw;
    let w = speed.raw as int;
    let z = q.raw as int;
    assert(-5_000 * 510_000_000 * (10_000 * 510_000_000) <= product <= 5_000 * 510_000_000 * (
    10_000 * 510_000_000)) by (nonlinear_arith)
        requires
            product == z * w,
            z == q.raw,
            w == speed.raw,
            0 <= z <= 5_000 * 510_000_000,
            -10_000 * 510_000_000 <= w <= 10_000 * 510_000_000,
    ;
    fixed::lemma_times_near(q, speed);
    let square = if v.raw < 0 {
        -(v.raw * v.raw)
    } else {
        v.raw * v.raw
    };
    assert(fixed::differ_less(2 * product, away * square, size + 1)) by (nonlinear_arith)
        requires
            product == z * w,
            w == away * v.raw,
            away == 1 || away == -1,
            size == if v.raw < 0 {
                -v.raw
            } else {
                v.raw as int
            },
            square == if v.raw < 0 {
                -(v.raw * v.raw)
            } else {
                v.raw * v.raw
            },
            size - 1 <= 2 * z <= size,
    ;
    if away == 1 {
        fixed::lemma_times_one(pull);
    } else {
        lemma_negated_times(pull, n);
    }
    let sum = push.times_spec(n).plus_spec(pull.times_spec(n));
    assert(pull.times_spec(n).raw == away * pull.raw);
    assert(sum.raw == -(away * p.raw) + away * pull.raw);
    let f = sum.times_spec(h);
    let m = sum.raw * h.raw;
    assert(m == sum.raw * 1_000_000) by (nonlinear_arith)
        requires
            m == sum.raw * h.raw,
            h.raw == 1_000_000,
    ;
    assert(f.raw == fixed::toward_zero(sum.raw as int, 510));
    assert(fixed::differ_less(510 * f.raw, sum.raw as int, 510));
    assert(fixed::differ_less(2 * ONE * (away * pull.raw), square, 2 * ONE + size + 1));
    let turned = away * p.raw;
    assert(2 * ONE * away * p.raw == 2 * ONE * turned) by (nonlinear_arith)
        requires
            turned == away * p.raw,
    ;
    assert(2 * N * ONE * f.raw == 2 * ONE * (510 * f.raw)) by (nonlinear_arith)
        requires
            N == 510,
    ;
}

/// What the fluid in `cell` does to a wall to the left of it, where `away` is 1, or to the right of
/// it, where `away` is -1: it pushes the wall away with its pressure, and pulls it along its own
/// way with half the square of its velocity along the row, both over one `N`-th of the width of the
/// grid, up to rounding. Its velocity along the column does nothing.
pub proof fn lemma_contact_along_row(cell: Cell<Fixed>, n: Fixed, away: int)
    requires
        is_ordinary(cell.velocity_x),
        is_ordinary(cell.velocity_y),
        is_ordinary(cell.pressure),
        away == 1 || away == -1,
        n.raw == away * ONE,
    ensures
        ({
            let force = pressure_computation::contact_force_spec(cell, n, Fixed::whole_spec(0));
            let v = cell.velocity_x.raw;
            let square = if v < 0 {
                -(v * v)
            } else {
                v * v
            };
            let size = if v < 0 {
                -v
            } else {
                v as int
            };
            &&& fixed::differ_less(
                2 * N * ONE * force.x.raw,
                square - 2 * ONE * away * cell.pressure.raw,
                1022 * ONE + size,
            )
            &&& force.y.raw == 0
        }),
{
    let zero = Fixed::whole_spec(0);
    let vx = cell.velocity_x;
    let vy = cell.velocity_y;
    lemma_normal_force(vx, cell.pressure, n, away);
    lemma_no_side_force(vx, vy, cell.pressure, n);
}

/// What the fluid in `cell` does to a wall above it, where `away` is 1, or below it, where `away` is
/// -1: as to a wall beside it, with its velocity along the column.
pub proof fn lemma_contact_along_column(cell: Cell<Fixed>, n: Fixed, away: int)
    requires
        is_ordinary(cell.velocity_x),
        is_ordinary(cell.velocity_y),
        is_ordinary(cell.pressure),
        away == 1 || away == -1,
        n.raw == away * ONE,
    ensures
        ({
            let force = pressure_computation::contact_force_spec(cell, Fixed::whole_spec(0), n);
            let v = cell.velocity_y.raw;
            let square = if v < 0 {
                -(v * v)
            } else {
                v * v
            };
            let size = if v < 0 {
                -v
            } else {
                v as int
            };
            &&& fixed::differ_less(
                2 * N * ONE * force.y.raw,
                square - 2 * ONE * away * cell.pressure.raw,
                1022 * ONE + size,
            )
            &&& force.x.raw == 0
        }),
{
    let zero = Fixed::whole_spec(0);
    let vx = cell.velocity_x;
    let vy = cell.velocity_y;
    lemma_normal_force(vy, cell.pressure, n, away);
    lemma_no_side_force(vy, vx, cell.pressure, n);
    assert(vx.times_spec(zero).plus_spec(vy.times_spec(n)) == vy.times_spec(n).plus_spec(
        vx.times_spec(zero),
    ));
}

proof fn lemma_no_side_force(v: Fixed, side: Fixed, p: Fixed, n: Fixed)
    ensures
        ({
            let zero = Fixed::whole_spec(0);
            let h = Fixed::whole_spec(1).over_spec(Fixed::whole_spec(N as nat));
            let drag = Fixed::whole_spec(1).over_spec(Fixed::whole_spec(2));
            let speed = v.times_spec(n);
            let pull = drag.times_spec(speed.size_spec()).times_spec(speed);
            &&& side.times_spec(zero) == zero
            &&& speed.plus_spec(zero) == speed
            &&& speed.times_spec(zero) == zero
            &&& p.negated_spec().times_spec(zero) == zero
            &&& pull.times_spec(zero) == zero
            &&& zero.plus_spec(zero) == zero
            &&& zero.times_spec(h) == zero
            &&& forall|x: Fixed| #[trigger] zero.times_spec(x) == zero
            &&& forall|x: Fixed| #[trigger] x.plus_spec(zero) == x
        }),
{
    let zero = Fixed::whole_spec(0);
    let drag = Fixed::whole_spec(1).over_spec(Fixed::whole_spec(2));
    let speed = v.times_spec(n);
    let pull = drag.times_spec(speed.size_spec()).times_spec(speed);
    fixed::lemma_times_zero(side);
    fixed::lemma_times_zero(speed);
    fixed::lemma_times_zero(p.negated_spec());
    fixed::lemma_times_zero(pull);
    assert forall|x: Fixed| #[trigger] zero.times_spec(x) == zero by {
        fixed::lemma_times_zero(x);
    }
}

/// Gravity makes the fluid faster by the gravity times the time, up to rounding, along the rows and
/// along the columns, each with its own gravity.
pub proof fn lemma_gravity_accelerates(
    cells: Seq<Cell<Fixed>>,
    gx: Fixed,
    gy: Fixed,
    dt: Fixed,
    i: int,
    j: int,
)
    requires
        cells.len() == CELLS,
        topology::inside(i, j),
        !cells[topology::place(i, j)].wall,
        !cells[topology::place(i - 1, j)].wall,
        !cells[topology::place(i, j - 1)].wall,
        is_ordinary(cells[topology::place(i, j)].velocity_x),
        is_ordinary(cells[topology::place(i, j)].velocity_y),
        is_ordinary(gx),
        is_ordinary(gy),
        is_ordinary(dt),
    ensures
        ({
            let before = cells[topology::place(i, j)];
            let after = water::pulled(cells, gx, gy, dt)[topology::place(i, j)];
            &&& fixed::differ_less(
                ONE * (after.velocity_x.raw - before.velocity_x.raw),
                gx.raw * dt.raw,
                ONE as int,
            )
            &&& fixed::differ_less(
                ONE * (after.velocity_y.raw - before.velocity_y.raw),
                gy.raw * dt.raw,
                ONE as int,
            )
        }),
{
    topology::lemma_place(i, j);
    lemma_gravity_pushes_fluid(cells, i, j, gx.times_spec(dt), gy.times_spec(dt));
    lemma_ordinary_product(gx, dt);
    lemma_ordinary_product(gy, dt);
}

proof fn lemma_ordinary_product(a: Fixed, b: Fixed)
    requires
        is_ordinary(a),
        is_ordinary(b),
    ensures
        fixed::differ_less(ONE * a.times_spec(b).raw, a.raw * b.raw, ONE as int),
        -100_000_000 * ONE <= a.times_spec(b).raw <= 100_000_000 * ONE,
{
    let n = a.raw * b.raw;
    assert(-10_000 * 510_000_000 * (10_000 * 510_000_000) <= n <= 10_000 * 510_000_000 * (10_000
        * 510_000_000)) by (nonlinear_arith)
        requires
            n == a.raw * b.raw,
            -10_000 * 510_000_000 <= a.raw <= 10_000 * 510_000_000,
            -10_000 * 510_000_000 <= b.raw <= 10_000 * 510_000_000,
    ;
    fixed::lemma_times_near(a, b);
}

} // verus!
