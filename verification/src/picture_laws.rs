//! What the colours of a picture say of the grid, in whole steps of the fixed-point numbers.
use vstd::prelude::*;
use crate::conditions::{CELLS, N};
use crate::display;
use crate::display::DisplayMode;
use crate::fixed;
use crate::fixed::{Fixed, ONE};
use crate::flow_laws;
use crate::grid::Cell;
use crate::scalar;
use crate::scalar::Scalar;
use crate::topology;
use crate::water;

verus! {

/// `speed` is the length of the velocity of the fluid in `cell`, up to rounding, in steps.
pub open spec fn is_speed(cell: Cell<Fixed>, speed: int) -> bool {
    let x = cell.velocity_x.raw;
    let y = cell.velocity_y.raw;
    &&& 0 <= speed
    &&& speed * speed <= x * x + y * y
    &&& x * x + y * y < (speed + 1) * (speed + 1) + 2 * ONE
}

/// The speed of the fluid counts its velocity along the row and along the column, whatever their
/// signs.
pub proof fn lemma_speed_is_length(cell: Cell<Fixed>)
    requires
        flow_laws::is_ordinary(cell.velocity_x),
        flow_laws::is_ordinary(cell.velocity_y),
    ensures
        is_speed(cell, display::speed_spec(cell).raw as int),
        display::speed_spec(cell).raw <= 15_000 * ONE,
{
    fixed::lemma_square_near(cell.velocity_x);
    fixed::lemma_square_near(cell.velocity_y);
    let vx = cell.velocity_x;
    let vy = cell.velocity_y;
    let t = vx.times_spec(vx).plus_spec(vy.times_spec(vy));
    fixed::lemma_root_near(t);
    let r = t.root_spec().raw as int;
    assert(r <= 15_000 * 510_000_000) by (nonlinear_arith)
        requires
            0 <= r,
            r * r <= t.raw * 510_000_000,
            t.raw <= 200_000_000 * 510_000_000,
    ;
}

/// What the picture shows of a cell is the size of its pressure, of its share of water, of its
/// vorticity, or its speed.
pub proof fn lemma_shown_sizes(cells: Seq<Cell<Fixed>>, i: int, j: int)
    requires
        fixed::in_bounds(cells[topology::place(i, j)].pressure.raw as int),
        fixed::in_bounds(cells[topology::place(i, j)].phase.raw as int),
        fixed::in_bounds(display::vorticity(cells, i, j).raw as int),
    ensures
        ({
            let cell = cells[topology::place(i, j)];
            let size = |x: int|
                if x < 0 {
                    -x
                } else {
                    x
                };
            &&& display::shown_size(cells, DisplayMode::Pressure, i, j).raw == size(
                cell.pressure.raw as int,
            )
            &&& display::shown_size(cells, DisplayMode::Phase, i, j).raw == size(
                cell.phase.raw as int,
            )
            &&& display::shown_size(cells, DisplayMode::Vorticity, i, j).raw == size(
                display::vorticity(cells, i, j).raw as int,
            )
            &&& display::shown_size(cells, DisplayMode::Velocity, i, j) == display::speed_spec(
                cell,
            )
        }),
{
}

proof fn lemma_quarter(a: Fixed, b: Fixed)
    requires
        flow_laws::is_ordinary(a),
        flow_laws::is_ordinary(b),
    ensures
        ({
            let width = Fixed::whole_spec(2).times_spec(Fixed::whole_spec(2));
            let q = a.minus_spec(b).over_spec(width).raw;
            &&& -3 <= 4 * q - (a.raw - b.raw) <= 3
        }),
{
    let two = Fixed::whole_spec(2);
    let width = two.times_spec(two);
    assert(two.raw * two.raw == 1_020_000_000 * 1_020_000_000);
    assert(width.raw == 4 * ONE);
    fixed::lemma_over_near(a.minus_spec(b), width);
}

/// The vorticity is how fast the velocity along the columns grows along the row, less how fast that
/// along the rows grows along the column: a cell is two wide, and what lies beyond the grid counts as
/// the last cell between its borders.
pub proof fn lemma_vorticity_turns(cells: Seq<Cell<Fixed>>, i: int, j: int)
    requires
        topology::inside(i, j),
        forall|k: int|
            flow_laws::is_ordinary((#[trigger] cells[k]).velocity_x) && flow_laws::is_ordinary(
                cells[k].velocity_y,
            ),
    ensures
        ({
            let left = if i == 1 {
                1
            } else {
                i - 1
            };
            let right = if i == N {
                i
            } else {
                i + 1
            };
            let above = if j == 1 {
                1
            } else {
                j - 1
            };
            let below = if j == N {
                j
            } else {
                j + 1
            };
            let v = |c: int| cells[topology::place(c, j)].velocity_y.raw;
            let u = |r: int| cells[topology::place(i, r)].velocity_x.raw;
            let turn = (v(right) - v(left)) - (u(below) - u(above));
            -6 <= 4 * display::vorticity(cells, i, j).raw - turn <= 6
        }),
{
    let a = cells[topology::place(i, display::after(j))].velocity_x;
    let b = cells[topology::place(i, display::before(j))].velocity_x;
    let c = cells[topology::place(display::after(i), j)].velocity_y;
    let d = cells[topology::place(display::before(i), j)].velocity_y;
    lemma_quarter(a, b);
    lemma_quarter(c, d);
}

proof fn lemma_scaled_same<S: Scalar>(
    a: Seq<Cell<S>>,
    b: Seq<Cell<S>>,
    mode: DisplayMode,
    scale: S,
    j: int,
    n: nat,
)
    requires
        1 <= j <= N,
        n <= N,
        same_sizes(a, b, mode),
    ensures
        display::row_scale(a, mode, scale, j, n) == display::row_scale(b, mode, scale, j, n),
    decreases n,
{
    if n > 0 {
        lemma_scaled_same(a, b, mode, scale, j, (n - 1) as nat);
        assert(same_size(a, b, mode, n as int, j));
    }
}

/// The cells `a` and `b` hold in column `i` and row `j` are both walls or both fluid, and show the
/// same size.
pub open spec fn same_size<S: Scalar>(
    a: Seq<Cell<S>>,
    b: Seq<Cell<S>>,
    mode: DisplayMode,
    i: int,
    j: int,
) -> bool {
    &&& a[topology::place(i, j)].wall == b[topology::place(i, j)].wall
    &&& display::shown_size(a, mode, i, j) == display::shown_size(b, mode, i, j)
}

/// `a` and `b` show the same sizes between the borders.
pub open spec fn same_sizes<S: Scalar>(
    a: Seq<Cell<S>>,
    b: Seq<Cell<S>>,
    mode: DisplayMode,
) -> bool {
    forall|i: int, j: int| topology::inside(i, j) ==> #[trigger] same_size(a, b, mode, i, j)
}

proof fn lemma_rows_same<S: Scalar>(a: Seq<Cell<S>>, b: Seq<Cell<S>>, mode: DisplayMode, n: nat)
    requires
        n <= N,
        same_sizes(a, b, mode),
    ensures
        display::scale_of_rows(a, mode, n) == display::scale_of_rows(b, mode, n),
    decreases n,
{
    if n > 0 {
        lemma_rows_same(a, b, mode, (n - 1) as nat);
        lemma_scaled_same(
            a,
            b,
            mode,
            display::scale_of_rows(a, mode, (n - 1) as nat),
            n as int,
            N as nat,
        );
    }
}

/// The scale depends on nothing but the sizes that are shown between the borders, where there is no
/// wall.
pub proof fn lemma_scale_of_sizes<S: Scalar>(a: Seq<Cell<S>>, b: Seq<Cell<S>>, mode: DisplayMode)
    requires
        same_sizes(a, b, mode),
    ensures
        display::scale_spec(a, mode) == display::scale_spec(b, mode),
{
    lemma_rows_same(a, b, mode, N as nat);
}

/// The cell in column `i` and row `j` is fluid between the borders, and shows the size `scale`.
pub open spec fn shows<S: Scalar>(
    cells: Seq<Cell<S>>,
    mode: DisplayMode,
    scale: S,
    i: int,
    j: int,
) -> bool {
    &&& topology::inside(i, j)
    &&& !cells[topology::place(i, j)].wall
    &&& display::shown_size(cells, mode, i, j) == scale
}

proof fn lemma_row_attained<S: Scalar>(
    cells: Seq<Cell<S>>,
    mode: DisplayMode,
    scale: S,
    j: int,
    n: nat,
)
    requires
        1 <= j <= N,
        n <= N,
    ensures
        display::row_scale(cells, mode, scale, j, n) == scale || exists|i: int, r: int| #[trigger]
            shows(cells, mode, display::row_scale(cells, mode, scale, j, n), i, r),
    decreases n,
{
    if n > 0 {
        lemma_row_attained(cells, mode, scale, j, (n - 1) as nat);
        let next = display::row_scale(cells, mode, scale, j, n);
        let before = display::row_scale(cells, mode, scale, j, (n - 1) as nat);
        if next != before {
            assert(shows(cells, mode, next, n as int, j));
        }
    }
}

proof fn lemma_rows_attained<S: Scalar>(cells: Seq<Cell<S>>, mode: DisplayMode, n: nat)
    requires
        n <= N,
    ensures
        display::scale_of_rows(cells, mode, n) == display::least_scale::<S>() || exists|
            i: int,
            j: int,
        | #[trigger]
            shows(cells, mode, display::scale_of_rows(cells, mode, n), i, j),
    decreases n,
{
    if n > 0 {
        lemma_rows_attained(cells, mode, (n - 1) as nat);
        lemma_row_attained(
            cells,
            mode,
            display::scale_of_rows(cells, mode, (n - 1) as nat),
            n as int,
            N as nat,
        );
    }
}

/// The scale is the least scale, or the size that some cell between the borders shows.
pub proof fn lemma_scale_attained<S: Scalar>(cells: Seq<Cell<S>>, mode: DisplayMode)
    ensures
        display::scale_spec(cells, mode) == display::least_scale::<S>() || exists|i: int, j: int|
            #[trigger] shows(cells, mode, display::scale_spec(cells, mode), i, j),
{
    lemma_rows_attained(cells, mode, N as nat);
}

/// The least scale is one millionth.
pub proof fn lemma_least_scale()
    ensures
        1_000_000 * display::least_scale::<Fixed>().raw == ONE,
{
}

/// `cells` with their velocities along the rows and along the columns exchanged.
pub open spec fn exchanged(cells: Seq<Cell<Fixed>>) -> Seq<Cell<Fixed>> {
    Seq::new(
        cells.len(),
        |k: int|
            Cell {
                velocity_x: cells[k].velocity_y,
                velocity_y: cells[k].velocity_x,
                ..cells[k]
            },
    )
}

/// `cells` with the signs of their velocities changed: of those along the rows if `rows`, and of
/// those along the columns if `columns`.
pub open spec fn turned_back(
    cells: Seq<Cell<Fixed>>,
    rows: bool,
    columns: bool,
) -> Seq<Cell<Fixed>> {
    Seq::new(
        cells.len(),
        |k: int|
            Cell {
                velocity_x: if rows {
                    cells[k].velocity_x.negated_spec()
                } else {
                    cells[k].velocity_x
                },
                velocity_y: if columns {
                    cells[k].velocity_y.negated_spec()
                } else {
                    cells[k].velocity_y
                },
                ..cells[k]
            },
    )
}

proof fn lemma_negated_square(x: Fixed)
    requires
        fixed::in_bounds(x.raw as int),
    ensures
        x.negated_spec().times_spec(x.negated_spec()) == x.times_spec(x),
{
    let y = x.negated_spec();
    assert(y.raw * y.raw == x.raw * x.raw) by (nonlinear_arith)
        requires
            y.raw == -x.raw,
    ;
}

/// In the picture of the velocities neither exchanging the two velocities of all cells nor changing
/// their signs changes a colour: it shows how fast the fluid is, and not which way it flows.
pub proof fn lemma_speeds_without_direction(
    cells: Seq<Cell<Fixed>>,
    rows: bool,
    columns: bool,
    vorticity_gain: Fixed,
    pressure_gain: Fixed,
    i: int,
    j: int,
)
    requires
        cells.len() == CELLS,
        topology::inside(i, j),
        forall|k: int|
            0 <= k < cells.len() ==> fixed::in_bounds((#[trigger] cells[k]).velocity_x.raw as int)
                && fixed::in_bounds(cells[k].velocity_y.raw as int),
    ensures
        ({
            let color = |other: Seq<Cell<Fixed>>|
                display::cell_color_spec(
                    other,
                    DisplayMode::Velocity,
                    display::scale_spec(other, DisplayMode::Velocity),
                    vorticity_gain,
                    pressure_gain,
                    i,
                    j,
                );
            &&& color(exchanged(cells)) == color(cells)
            &&& color(turned_back(cells, rows, columns)) == color(cells)
        }),
{
    let mode = DisplayMode::Velocity;
    let other = exchanged(cells);
    let back = turned_back(cells, rows, columns);
    assert forall|c: int, r: int| topology::inside(c, r) implies #[trigger] same_size(
        other,
        cells,
        mode,
        c,
        r,
    ) by {
        topology::lemma_place(c, r);
    }
    assert forall|c: int, r: int| topology::inside(c, r) implies #[trigger] same_size(
        back,
        cells,
        mode,
        c,
        r,
    ) by {
        topology::lemma_place(c, r);
        let cell = cells[topology::place(c, r)];
        lemma_negated_square(cell.velocity_x);
        lemma_negated_square(cell.velocity_y);
    }
    lemma_scale_of_sizes(other, cells, mode);
    lemma_scale_of_sizes(back, cells, mode);
    assert(same_size(other, cells, mode, i, j));
    assert(same_size(back, cells, mode, i, j));
}

/// In the picture of the velocities the fluid that is as fast as the scale has the last colour of the
/// scale for speeds, and still fluid the first.
pub proof fn lemma_fastest_and_still(
    cells: Seq<Cell<Fixed>>,
    scale: Fixed,
    vorticity_gain: Fixed,
    pressure_gain: Fixed,
    i: int,
    j: int,
)
    requires
        !cells[topology::place(i, j)].wall,
        scale.raw > 0,
    ensures
        ({
            let cell = cells[topology::place(i, j)];
            let color = display::cell_color_spec(
                cells,
                DisplayMode::Velocity,
                scale,
                vorticity_gain,
                pressure_gain,
                i,
                j,
            );
            &&& display::shown_size(cells, DisplayMode::Velocity, i, j) == scale ==> color == seq![
                252u8,
                229u8,
                38u8,
                255u8,
            ]
            &&& cell.velocity_x.raw == 0 && cell.velocity_y.raw == 0 ==> color == seq![
                12u8,
                7u8,
                76u8,
                255u8,
            ]
        }),
{
    let zero = Fixed::whole_spec(0);
    let one = Fixed::whole_spec(1);
    fixed::lemma_over_monotonic(scale, scale, scale);
    fixed::lemma_times_zero(zero);
    fixed::lemma_root_of_one();
    lemma_sequential_first();
    lemma_sequential_last();
}

proof fn lemma_sequential_first()
    ensures
        display::sequential_spec(Fixed::whole_spec(0)) == seq![12u8, 7u8, 76u8, 255u8],
{
    let zero = Fixed::whole_spec(0);
    lemma_sequential_near(zero);
    let color = display::sequential_spec(zero);
    assert(part_near(color[0] as int, 5, 0, 0));
    assert(part_near(color[1] as int, 3, 35, 0));
    assert(part_near(color[2] as int, 30, 55, 0));
    assert(color =~= seq![12u8, 7u8, 76u8, 255u8]);
}

proof fn lemma_sequential_last()
    ensures
        display::sequential_spec(Fixed::whole_spec(1)) == seq![252u8, 229u8, 38u8, 255u8],
{
    let one = Fixed::whole_spec(1);
    lemma_sequential_near(one);
    let color = display::sequential_spec(one);
    assert(part_near(color[0] as int, 75, 99, ONE as int));
    assert(part_near(color[1] as int, 85, 90, ONE as int));
    assert(part_near(color[2] as int, 10, 15, ONE as int));
    assert(color =~= seq![252u8, 229u8, 38u8, 255u8]);
}

/// The colour part `q`, from 0 to 255, is that of `a` hundredths at the beginning of a stretch and
/// `b` hundredths at its end, where `f` steps of it have been gone, up to rounding.
pub open spec fn part_near(q: int, a: int, b: int, f: int) -> bool {
    let exact = a * ONE + (b - a) * f;
    -101 * ONE < 100 * ONE * q - 255 * exact < ONE
}

proof fn lemma_part(a: nat, b: nat, f: Fixed)
    requires
        a <= 99,
        b <= 99,
        0 <= f.raw <= ONE,
    ensures
        part_near(
            display::byte_spec(
                display::blend_spec(a, b, f).times_spec(Fixed::whole_spec(255)),
            ) as int,
            a as int,
            b as int,
            f.raw as int,
        ),
{
    let first = scalar::ratio_spec::<Fixed>(a, 100);
    let second = scalar::ratio_spec::<Fixed>(b, 100);
    fixed::lemma_small_whole(a);
    fixed::lemma_small_whole(b);
    fixed::lemma_small_whole(100);
    assert(first.raw == a * 5_100_000);
    assert(second.raw == b * 5_100_000);
    let d = second.minus_spec(first);
    let z = d.raw as int;
    assert(z == (b - a) * 5_100_000);
    let n = d.raw * f.raw;
    let c = b - a;
    let e = c * f.raw;
    assert(n == 5_100_000 * e && (c >= 0 ==> 0 <= e <= c * 510_000_000) && (c <= 0 ==> c
        * 510_000_000 <= e <= 0)) by (nonlinear_arith)
        requires
            n == d.raw * f.raw,
            d.raw == c * 5_100_000,
            e == c * f.raw,
            0 <= f.raw <= 510_000_000,
    ;
    fixed::lemma_times_near(d, f);
    let part = d.times_spec(f);
    let r = first.plus_spec(part);
    assert(0 <= r.raw <= ONE);
    let full = Fixed::whole_spec(255);
    fixed::lemma_small_whole(255);
    let m = r.raw * full.raw;
    assert(m == (255 * r.raw) * 510_000_000) by (nonlinear_arith)
        requires
            m == r.raw * full.raw,
            full.raw == 255 * 510_000_000,
    ;
    let x = r.times_spec(full);
    assert(x.raw == 255 * r.raw);
    fixed::lemma_truncated_near(x);
    assert(0 <= x.truncated_spec() <= 255);
}

/// The scale for speeds goes evenly from each of its five stops to the next, a quarter of the scale
/// apart.
pub proof fn lemma_sequential_near(t: Fixed)
    ensures
        ({
            let s = if t.raw < 0 {
                0
            } else if t.raw > ONE {
                ONE as int
            } else {
                t.raw as int
            };
            let n = if 4 * s >= 3 * ONE {
                3
            } else {
                4 * s / (ONE as int)
            };
            let f = 4 * s - n * ONE;
            let color = display::sequential_spec(t);
            let a = display::stop_spec(n as nat);
            let b = display::stop_spec((n + 1) as nat);
            &&& 0 <= n <= 3
            &&& 0 <= f <= ONE
            &&& color.len() == 4
            &&& part_near(color[0] as int, a.0 as int, b.0 as int, f)
            &&& part_near(color[1] as int, a.1 as int, b.1 as int, f)
            &&& part_near(color[2] as int, a.2 as int, b.2 as int, f)
            &&& color[3] == 255
        }),
{
    let s = water::share_spec(t);
    let four = Fixed::whole_spec(4);
    let m = s.raw * four.raw;
    assert(m == (4 * s.raw) * 510_000_000) by (nonlinear_arith)
        requires
            m == s.raw * four.raw,
            four.raw == 4 * 510_000_000,
    ;
    let scaled = s.times_spec(four);
    assert(scaled.raw == 4 * s.raw);
    let n = display::stop_below(scaled);
    assert(0 <= n <= 3);
    let share = scaled.minus_spec(Fixed::whole_spec(n));
    let a = display::stop_spec(n);
    let b = display::stop_spec(n + 1);
    lemma_part(a.0, b.0, share);
    lemma_part(a.1, b.1, share);
    lemma_part(a.2, b.2, share);
}

/// Only fluid that is almost still, compared to the scale, has the colour of still fluid.
pub proof fn lemma_dark_is_still(t: Fixed)
    requires
        display::sequential_spec(t) == seq![12u8, 7u8, 76u8, 255u8],
    ensures
        900 * t.raw < ONE,
{
    let s = if t.raw < 0 {
        0
    } else if t.raw > ONE {
        ONE as int
    } else {
        t.raw as int
    };
    let n = if 4 * s >= 3 * ONE {
        3
    } else {
        4 * s / (ONE as int)
    };
    let f = 4 * s - n * ONE;
    lemma_sequential_near(t);
    assert(display::sequential_spec(t)[1] == 7);
    lemma_green_of_dark(n, f);
}

proof fn lemma_green_of_dark(n: int, f: int)
    requires
        0 <= n <= 3,
        0 <= f <= ONE,
        part_near(
            7,
            display::stop_spec(n as nat).1 as int,
            display::stop_spec((n + 1) as nat).1 as int,
            f,
        ),
    ensures
        n == 0,
        225 * f < ONE,
{
    if n == 0 {
        assert(part_near(7, 3, 35, f));
    } else if n == 1 {
        assert(part_near(7, 35, 65, f));
    } else if n == 2 {
        assert(part_near(7, 65, 85, f));
    } else {
        assert(part_near(7, 85, 90, f));
    }
}

/// In the picture of the velocities the colour of fluid is that of its speed relative to the scale:
/// at `t` on the scale for speeds, where `t` times the scale is the speed, up to rounding.
pub proof fn lemma_velocity_color(
    cells: Seq<Cell<Fixed>>,
    scale: Fixed,
    vorticity_gain: Fixed,
    pressure_gain: Fixed,
    i: int,
    j: int,
)
    requires
        !cells[topology::place(i, j)].wall,
        flow_laws::is_ordinary(cells[topology::place(i, j)].velocity_x),
        flow_laws::is_ordinary(cells[topology::place(i, j)].velocity_y),
        1_000_000 * scale.raw >= ONE,
    ensures
        exists|speed: int, t: Fixed| #[trigger]
            at_ratio(t, speed, scale) && is_speed(cells[topology::place(i, j)], speed)
                && display::cell_color_spec(
                cells,
                DisplayMode::Velocity,
                scale,
                vorticity_gain,
                pressure_gain,
                i,
                j,
            ) == display::sequential_spec(t),
{
    let cell = cells[topology::place(i, j)];
    lemma_speed_is_length(cell);
    let speed = display::speed_spec(cell);
    lemma_ratio(speed, scale);
    assert(at_ratio(speed.over_spec(scale), speed.raw as int, scale));
}

/// `t` is the quotient of `x` steps by `scale`, up to rounding.
pub open spec fn at_ratio(t: Fixed, x: int, scale: Fixed) -> bool {
    fixed::differ_less(scale.raw * t.raw, x * ONE, scale.raw as int)
}

/// `t` is the product of `q` and `gain`, up to rounding.
pub open spec fn at_product(t: Fixed, q: Fixed, gain: Fixed) -> bool {
    fixed::differ_less(ONE * t.raw, q.raw * gain.raw, ONE as int)
}

proof fn lemma_ratio(x: Fixed, scale: Fixed)
    requires
        -15_000 * ONE <= x.raw <= 15_000 * ONE,
        1_000_000 * scale.raw >= ONE,
    ensures
        at_ratio(x.over_spec(scale), x.raw as int, scale),
{
    fixed::lemma_over_near(x, scale);
}

/// In the picture of the pressures the colour of fluid is that of its pressure relative to the scale,
/// times the gain, on the scale from blue to red.
pub proof fn lemma_pressure_color(
    cells: Seq<Cell<Fixed>>,
    scale: Fixed,
    vorticity_gain: Fixed,
    pressure_gain: Fixed,
    i: int,
    j: int,
)
    requires
        !cells[topology::place(i, j)].wall,
        flow_laws::is_ordinary(cells[topology::place(i, j)].pressure),
        1_000_000 * scale.raw >= ONE,
        ({
            let q = cells[topology::place(i, j)].pressure.over_spec(scale).raw;
            flow_laws::product_in_bounds(q as int, pressure_gain.raw as int)
        }),
    ensures
        exists|q: Fixed, t: Fixed| #[trigger]
            at_product(t, q, pressure_gain) && at_ratio(
                q,
                cells[topology::place(i, j)].pressure.raw as int,
                scale,
            ) && display::cell_color_spec(
                cells,
                DisplayMode::Pressure,
                scale,
                vorticity_gain,
                pressure_gain,
                i,
                j,
            ) == display::diverging_spec(t),
{
    let pressure = cells[topology::place(i, j)].pressure;
    lemma_ratio(pressure, scale);
    let q = pressure.over_spec(scale);
    fixed::lemma_times_near(q, pressure_gain);
    assert(at_product(q.times_spec(pressure_gain), q, pressure_gain));
}

/// In the picture of the vorticity the colour of fluid is that of its vorticity relative to the
/// scale, times the gain, on the scale from blue to red.
pub proof fn lemma_vorticity_color(
    cells: Seq<Cell<Fixed>>,
    scale: Fixed,
    vorticity_gain: Fixed,
    pressure_gain: Fixed,
    i: int,
    j: int,
)
    requires
        !cells[topology::place(i, j)].wall,
        flow_laws::is_ordinary(display::vorticity(cells, i, j)),
        1_000_000 * scale.raw >= ONE,
        ({
            let q = display::vorticity(cells, i, j).over_spec(scale).raw;
            flow_laws::product_in_bounds(q as int, vorticity_gain.raw as int)
        }),
    ensures
        exists|q: Fixed, t: Fixed| #[trigger]
            at_product(t, q, vorticity_gain) && at_ratio(
                q,
                display::vorticity(cells, i, j).raw as int,
                scale,
            ) && display::cell_color_spec(
                cells,
                DisplayMode::Vorticity,
                scale,
                vorticity_gain,
                pressure_gain,
                i,
                j,
            ) == display::diverging_spec(t),
{
    let turn = display::vorticity(cells, i, j);
    lemma_ratio(turn, scale);
    let q = turn.over_spec(scale);
    fixed::lemma_times_near(q, vorticity_gain);
    assert(at_product(q.times_spec(vorticity_gain), q, vorticity_gain));
}

/// Walls are black, and the pictures of the densities and of the water show each cell for itself,
/// whatever the scale and the gains.
pub proof fn lemma_plain_colors<S: Scalar>(
    cells: Seq<Cell<S>>,
    mode: DisplayMode,
    scale: S,
    vorticity_gain: S,
    pressure_gain: S,
    i: int,
    j: int,
)
    ensures
        ({
            let cell = cells[topology::place(i, j)];
            let color = |shown: DisplayMode|
                display::cell_color_spec(
                    cells,
                    shown,
                    scale,
                    vorticity_gain,
                    pressure_gain,
                    i,
                    j,
                );
            &&& cell.wall ==> color(mode) == seq![0u8, 0u8, 0u8, 255u8]
            &&& !cell.wall ==> color(DisplayMode::Density) == display::density_color_spec(
                cell.density,
            )
            &&& !cell.wall ==> color(DisplayMode::Phase) == display::phase_color_spec(cell.phase)
        }),
{
}

/// The colour of fluid with the share `phi` of water is mixed from that of air and that of water, in
/// proportion to their shares, each part cut to a whole number.
pub proof fn lemma_phase_color_mixes(phi: Fixed)
    requires
        0 <= phi.raw <= ONE,
    ensures
        ({
            let color = display::phase_color_spec(phi);
            let is_mix = |q: u8, air: int, wet: int|
                ONE * q <= air * (ONE - phi.raw) + wet * phi.raw < ONE * (q + 1);
            &&& color.len() == 4
            &&& is_mix(color[0], 200, 20)
            &&& is_mix(color[1], 220, 60)
            &&& is_mix(color[2], 255, 160)
            &&& color[3] == 255
        }),
{
    let rest = Fixed::whole_spec(1).minus_spec(phi);
    lemma_mix(200, 20, rest, phi);
    lemma_mix(220, 60, rest, phi);
    lemma_mix(255, 160, rest, phi);
}

proof fn lemma_mix(air: nat, wet: nat, rest: Fixed, phi: Fixed)
    requires
        air <= 255,
        wet <= 255,
        0 <= phi.raw <= ONE,
        rest.raw == ONE - phi.raw,
    ensures
        ({
            let q = display::byte_spec(
                Fixed::whole_spec(air).times_spec(rest).plus_spec(
                    Fixed::whole_spec(wet).times_spec(phi),
                ),
            );
            ONE * q <= air * (ONE - phi.raw) + wet * phi.raw < ONE * (q + 1)
        }),
{
    let a = Fixed::whole_spec(air);
    let b = Fixed::whole_spec(wet);
    fixed::lemma_small_whole(air);
    fixed::lemma_small_whole(wet);
    let m = a.raw * rest.raw;
    let n = b.raw * phi.raw;
    let u = air * rest.raw;
    let v = wet * phi.raw;
    assert(m == u * 510_000_000 && n == v * 510_000_000 && 0 <= u <= 255 * rest.raw && 0 <= v
        <= 255 * phi.raw) by (nonlinear_arith)
        requires
            m == a.raw * rest.raw,
            n == b.raw * phi.raw,
            u == air * rest.raw,
            v == wet * phi.raw,
            a.raw == air * 510_000_000,
            b.raw == wet * 510_000_000,
            0 <= air <= 255,
            0 <= wet <= 255,
            0 <= phi.raw,
            0 <= rest.raw,
    ;
    let x = a.times_spec(rest).plus_spec(b.times_spec(phi));
    assert(x.raw == u + v);
    fixed::lemma_truncated_near(x);
}

/// The colour of fluid of a density up to 20 goes evenly from white to blue, and from there up to 40
/// evenly from black to red.
pub proof fn lemma_density_color_even(density: Fixed)
    requires
        0 <= density.raw <= 1_000_000 * ONE,
    ensures
        ({
            let d = density.raw;
            let color = display::density_color_spec(density);
            &&& color.len() == 4 && color[3] == 255
            &&& d <= 20 * ONE ==> {
                &&& color[0] == color[1] && color[2] == 255
                &&& 20 * ONE * color[0] <= 255 * (20 * ONE - d) + 5_100
                &&& 255 * (20 * ONE - d) < 20 * ONE * (color[0] + 1)
            }
            &&& d > 20 * ONE ==> {
                let x = if d > 40 * ONE {
                    20 * ONE
                } else {
                    d - 20 * ONE
                };
                &&& color[1] == 0 && color[2] == 0
                &&& 20 * ONE * color[0] <= 255 * x
                &&& 255 * (x - 20) < 20 * ONE * (color[0] + 1)
            }
        }),
{
    let twenty = Fixed::whole_spec(20);
    let full = Fixed::whole_spec(255);
    let one = Fixed::whole_spec(1);
    fixed::lemma_small_whole(20);
    fixed::lemma_small_whole(255);
    if density.raw <= 20 * ONE {
        fixed::lemma_over_near(density, twenty);
        let e = density.over_spec(twenty);
        let rest = one.minus_spec(e);
        assert(0 <= density.raw - 20 * e.raw < 20);
        lemma_full_share(rest);
    } else {
        let excess = scalar::clamped_spec(
            density.minus_spec(twenty),
            Fixed::whole_spec(0),
            twenty,
        );
        fixed::lemma_over_near(excess, twenty);
        let e = excess.over_spec(twenty);
        assert(0 <= excess.raw - 20 * e.raw < 20);
        lemma_full_share(e);
    }
}

proof fn lemma_full_share(x: Fixed)
    requires
        0 <= x.raw <= ONE,
    ensures
        ({
            let full = Fixed::whole_spec(255);
            let q = display::byte_spec(display::level_spec(full.times_spec(x)));
            &&& ONE * q <= 255 * x.raw < ONE * (q + 1)
            &&& display::byte_spec(x.times_spec(full)) == q
        }),
{
    let full = Fixed::whole_spec(255);
    fixed::lemma_small_whole(255);
    let m = full.raw * x.raw;
    assert(m == (255 * x.raw) * 510_000_000 && x.raw * full.raw == m) by (nonlinear_arith)
        requires
            m == full.raw * x.raw,
            full.raw == 255 * 510_000_000,
    ;
    let y = full.times_spec(x);
    assert(y.raw == 255 * x.raw);
    assert(display::level_spec(y) == y);
    fixed::lemma_truncated_near(y);
}

/// `b` is the root of `s` steps, cut to whole steps.
pub open spec fn is_cut_root(b: int, s: int) -> bool {
    0 <= b && b * b <= s * ONE < (b + 1) * (b + 1)
}

/// The size of `t`, but not above 1, in steps.
pub open spec fn kept_size(t: Fixed) -> int {
    if t.raw > ONE || t.raw < -ONE {
        ONE as int
    } else if t.raw < 0 {
        -t.raw
    } else {
        t.raw as int
    }
}

/// `b` is the root of the size of `t`, and leaves the part `q` of a colour.
pub open spec fn fades(t: Fixed, b: int, q: int) -> bool {
    is_cut_root(b, kept_size(t)) && ONE * q <= 255 * (ONE - b) < ONE * (q + 1)
}

/// On the scale from blue to red the colour of `t` has full red and, the farther `t` is above 0, the
/// less green and blue; below 0 full blue and the less red and green: by the root of its size, which
/// counts as 1 from there on.
pub proof fn lemma_diverging_by_root(t: Fixed)
    ensures
        ({
            let color = display::diverging_spec(t);
            &&& color.len() == 4
            &&& color[3] == 255
            &&& t.raw < 0 ==> color[0] == color[1] && color[2] == 255
            &&& t.raw >= 0 ==> color[1] == color[2] && color[0] == 255
            &&& exists|b: int| #[trigger] fades(t, b, color[1] as int)
        }),
{
    let one = Fixed::whole_spec(1);
    let zero = Fixed::whole_spec(0);
    let kept = scalar::clamped_spec(t, one.negated_spec(), one);
    let s = kept.size_spec();
    fixed::lemma_root_near(s);
    let root = s.half_power_spec();
    let b = root.raw as int;
    assert(s.raw == kept_size(t));
    assert(is_cut_root(b, s.raw as int));
    assert(b <= ONE) by (nonlinear_arith)
        requires
            b * b <= s.raw * 510_000_000,
            s.raw <= 510_000_000,
            0 <= b,
            ONE == 510_000_000,
    ;
    let rest = one.minus_spec(root);
    lemma_full_share(rest);
    lemma_full_share(one);
    fixed::lemma_times_one(root);
    if t.raw < 0 {
        assert(b > 0) by (nonlinear_arith)
            requires
                0 <= b,
                s.raw * 510_000_000 < (b + 1) * (b + 1),
                s.raw >= 1,
        ;
        let m = one.negated_spec().raw * root.raw;
        assert(m == -(root.raw * 510_000_000)) by (nonlinear_arith)
            requires
                m == one.negated_spec().raw * root.raw,
                one.negated_spec().raw == -510_000_000,
        ;
        assert(display::boosted(t).raw == -b);
        assert(one.plus_spec(display::boosted(t)) == rest);
    } else {
        assert(display::boosted(t) == root);
    }
    assert(fades(t, b, display::diverging_spec(t)[1] as int));
}

/// On the scale from blue to red the colours of `t` and of its negative mirror each other, with red
/// and blue exchanged.
pub proof fn lemma_diverging_mirrors(t: Fixed)
    requires
        fixed::in_bounds(t.raw as int),
    ensures
        ({
            let here = display::diverging_spec(t);
            let there = display::diverging_spec(t.negated_spec());
            &&& there[0] == here[2]
            &&& there[1] == here[1]
            &&& there[2] == here[0]
            &&& there[3] == here[3]
        }),
{
    let up = if t.raw >= 0 {
        t
    } else {
        t.negated_spec()
    };
    let down = up.negated_spec();
    lemma_diverging_by_root(up);
    lemma_diverging_by_root(down);
    let a = display::diverging_spec(up)[1] as int;
    let c = display::diverging_spec(down)[1] as int;
    if up.raw == 0 {
        assert(down == up);
        lemma_white(up);
    } else {
        let b = choose|b: int| #[trigger] fades(up, b, a);
        let e = choose|e: int| #[trigger] fades(down, e, c);
        let s = kept_size(up);
        assert(kept_size(down) == s);
        assert(b == e) by (nonlinear_arith)
            requires
                0 <= b,
                0 <= e,
                b * b <= s * ONE < (b + 1) * (b + 1),
                e * e <= s * ONE < (e + 1) * (e + 1),
        ;
        assert(a == c);
    }
}

proof fn lemma_white(t: Fixed)
    requires
        t.raw == 0,
    ensures
        display::diverging_spec(t) == seq![255u8, 255u8, 255u8, 255u8],
{
    display::lemma_diverging_ends(t);
}

/// A pixel that shows a cell is the one in the column and the row of that cell, and a pixel that
/// shows none is in no row of the picture; where rows of the picture overlap, the last one is shown.
pub proof fn lemma_pixel_of_cell(p: int, width: int, n: nat)
    ensures
        match display::shown_below(p, width, n) {
            Some((i, j)) => p == j * width + i && 1 <= i <= N && 1 <= j <= n && forall|r: int|
                j < r <= n ==> !(1 <= p - #[trigger] (r * width) <= N),
            None => forall|r: int| 1 <= r <= n ==> !(1 <= p - #[trigger] (r * width) <= N),
        },
    decreases n,
{
    if n > 0 {
        lemma_pixel_of_cell(p, width, (n - 1) as nat);
    }
}

/// In a picture that is wide enough, the four bytes of a pixel in the column and the row of a cell
/// are its colour. Bytes that belong to no cell stay.
pub proof fn lemma_picture_of_cell<S: Scalar>(
    before: Seq<u8>,
    cells: Seq<Cell<S>>,
    mode: DisplayMode,
    vorticity_gain: S,
    pressure_gain: S,
    width: int,
    i: int,
    j: int,
    c: int,
)
    requires
        width > N,
        topology::inside(i, j),
        0 <= c < 4,
    ensures
        ({
            let b = 4 * (j * width + i) + c;
            &&& display::picture_byte(
                before,
                cells,
                mode,
                vorticity_gain,
                pressure_gain,
                display::shown_at(b / 4, width),
                b,
            ) == display::cell_color_spec(
                cells,
                mode,
                display::scale_spec(cells, mode),
                vorticity_gain,
                pressure_gain,
                i,
                j,
            )[c]
            &&& display::picture_byte(
                before,
                cells,
                mode,
                vorticity_gain,
                pressure_gain,
                None,
                b,
            ) == before[b]
        }),
{
    let p = j * width + i;
    display::lemma_cell_shown(width, i, j);
    assert((4 * p + c) / 4 == p && (4 * p + c) % 4 == c);
}

/// A picture fits its frame exactly if the pixel of the last cell does.
pub proof fn lemma_frame_holds_picture(length: int, width: int, i: int, j: int)
    requires
        0 <= width,
        topology::inside(i, j),
    ensures
        display::frame_holds(length, width) ==> 4 * (j * width + i) + 4 <= length,
        !display::frame_holds(length, width) ==> 4 * (N * width + N) + 4 > length,
{
    assert(j * width <= N * width) by (nonlinear_arith)
        requires
            j <= N,
            0 <= width,
    ;
}

} // verus!
