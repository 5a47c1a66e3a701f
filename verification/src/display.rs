//! The picture of the grid.
use vstd::prelude::*;
use crate::conditions::{CELLS, CELL_SIZE, N};
use crate::fixed;
use crate::fixed::Fixed;
use crate::grid::{Cell, Grid};
use crate::scalar;
use crate::scalar::Scalar;
use crate::topology;
use crate::water;

verus! {

/// What the picture shows of the fluid.
#[derive(Clone, Copy, Debug, PartialEq, Eq, Structural)]
pub enum DisplayMode {
    Density,
    Vorticity,
    Pressure,
    Velocity,
    Phase,
}

/// `x` without its fraction, or the end of the range of a byte that it lies beyond.
pub open spec fn byte_spec<S: Scalar>(x: S) -> u8 {
    if x.truncated_spec() < 0 {
        0
    } else if x.truncated_spec() > 255 {
        255
    } else {
        x.truncated_spec() as u8
    }
}

fn byte<S: Scalar>(x: S) -> (r: u8)
    ensures
        r == byte_spec(x),
{
    let n: isize = x.truncated();
    if n < 0 {
        0
    } else if n > 255 {
        255
    } else {
        n as u8
    }
}

/// `x`, or the end of the range from 0 to 255 that it lies beyond.
pub open spec fn level_spec<S: Scalar>(x: S) -> S {
    scalar::clamped_spec(x, S::whole_spec(0), S::whole_spec(255))
}

/// The colour of fluid of the density `density`: from white to blue up to 20, then from black to
/// red up to 40.
pub open spec fn density_color_spec<S: Scalar>(density: S) -> Seq<u8> {
    let twenty = S::whole_spec(20);
    let full = S::whole_spec(255);
    if density.at_most_spec(twenty) {
        let intensity = byte_spec(
            level_spec(
                full.times_spec(S::whole_spec(1).minus_spec(density.over_spec(twenty))),
            ),
        );
        seq![intensity, intensity, 255u8, 255u8]
    } else {
        let excess = scalar::clamped_spec(density.minus_spec(twenty), S::whole_spec(0), twenty);
        let red = byte_spec(level_spec(full.times_spec(excess.over_spec(twenty))));
        seq![red, 0u8, 0u8, 255u8]
    }
}

/// The colour of fluid of the density `density`, as red, green, blue and opacity.
pub fn density_color<S: Scalar>(density: S) -> (r: [u8; 4])
    ensures
        r@ == density_color_spec(density),
{
    let zero: S = S::whole(0);
    let twenty: S = S::whole(20);
    let full: S = S::whole(255);
    if density.at_most(twenty) {
        let intensity: u8 = byte(
            scalar::clamped(full.times(S::whole(1).minus(density.over(twenty))), zero, full),
        );
        let color: [u8; 4] = [intensity, intensity, 255, 255];
        assert(color@ =~= density_color_spec(density));
        color
    } else {
        let excess: S = scalar::clamped(density.minus(twenty), zero, twenty);
        let red: u8 = byte(scalar::clamped(full.times(excess.over(twenty)), zero, full));
        let color: [u8; 4] = [red, 0, 0, 255];
        assert(color@ =~= density_color_spec(density));
        color
    }
}

/// The colour of the shares `r`, `g` and `b` of full red, green and blue.
pub open spec fn shares_color<S: Scalar>(r: S, g: S, b: S) -> Seq<u8> {
    let full = S::whole_spec(255);
    seq![
        byte_spec(r.times_spec(full)),
        byte_spec(g.times_spec(full)),
        byte_spec(b.times_spec(full)),
        255u8,
    ]
}

fn color_of_shares<S: Scalar>(r: S, g: S, b: S) -> (c: [u8; 4])
    ensures
        c@ == shares_color(r, g, b),
{
    let full: S = S::whole(255);
    let color: [u8; 4] = [byte(r.times(full)), byte(g.times(full)), byte(b.times(full)), 255];
    assert(color@ =~= shares_color(r, g, b));
    color
}

/// `t`, which is kept between -1 and 1, moved away from 0: its size to the power of one half,
/// with its sign.
pub open spec fn boosted<S: Scalar>(t: S) -> S {
    let one = S::whole_spec(1);
    let kept = scalar::clamped_spec(t, one.negated_spec(), one);
    let sign = if kept.below_spec(S::whole_spec(0)) {
        one.negated_spec()
    } else {
        one
    };
    sign.times_spec(kept.size_spec().half_power_spec())
}

/// The colour of `t` on a scale from blue at -1 over white at 0 to red at 1.
pub open spec fn diverging_spec<S: Scalar>(t: S) -> Seq<u8> {
    let one = S::whole_spec(1);
    let b = boosted(t);
    if b.below_spec(S::whole_spec(0)) {
        shares_color(one.plus_spec(b), one.plus_spec(b), one)
    } else {
        shares_color(one, one.minus_spec(b), one.minus_spec(b))
    }
}

/// The colour of `t` on a scale from blue at -1 over white at 0 to red at 1, as red, green, blue
/// and opacity.
pub fn diverging_colormap<S: Scalar>(t: S) -> (r: [u8; 4])
    ensures
        r@ == diverging_spec(t),
{
    let zero: S = S::whole(0);
    let one: S = S::whole(1);
    let kept: S = scalar::clamped(t, one.negated(), one);
    let sign: S = if kept.below(zero) {
        one.negated()
    } else {
        one
    };
    let b: S = sign.times(kept.size().half_power());
    if b.below(zero) {
        let s: S = one.plus(b);
        color_of_shares(s, s, one)
    } else {
        let s: S = one.minus(b);
        color_of_shares(one, s, s)
    }
}

/// The red, the green and the blue of stop `n` of the scale for speeds, in hundredths.
pub open spec fn stop_spec(n: nat) -> (nat, nat, nat) {
    if n == 0 {
        (5, 3, 30)
    } else if n == 1 {
        (0, 35, 55)
    } else if n == 2 {
        (0, 65, 35)
    } else if n == 3 {
        (75, 85, 10)
    } else {
        (99, 90, 15)
    }
}

fn stop(n: usize) -> (r: (usize, usize, usize))
    ensures
        r.0 == stop_spec(n as nat).0,
        r.1 == stop_spec(n as nat).1,
        r.2 == stop_spec(n as nat).2,
{
    match n {
        0 => (5, 3, 30),
        1 => (0, 35, 55),
        2 => (0, 65, 35),
        3 => (75, 85, 10),
        _ => (99, 90, 15),
    }
}

/// `a / 100` at 0 and `b / 100` at 1, and in proportion between them.
pub open spec fn blend_spec<S: Scalar>(a: nat, b: nat, share: S) -> S {
    let first = scalar::ratio_spec::<S>(a, 100);
    let second = scalar::ratio_spec::<S>(b, 100);
    first.plus_spec(second.minus_spec(first).times_spec(share))
}

fn blend<S: Scalar>(a: usize, b: usize, share: S) -> (r: S)
    ensures
        r == blend_spec(a as nat, b as nat, share),
{
    let first: S = scalar::ratio(a, 100);
    let second: S = scalar::ratio(b, 100);
    first.plus(second.minus(first).times(share))
}

/// The stop of the scale for speeds that `scaled` lies behind.
pub open spec fn stop_below<S: Scalar>(scaled: S) -> nat {
    if water::floor_spec(scaled) > 3 {
        3
    } else {
        water::floor_spec(scaled)
    }
}

/// The colour of `t` on the scale for speeds, from dark blue at 0 to yellow at 1.
pub open spec fn sequential_spec<S: Scalar>(t: S) -> Seq<u8> {
    let scaled = water::share_spec(t).times_spec(S::whole_spec(4));
    let n = stop_below(scaled);
    let share = scaled.minus_spec(S::whole_spec(n));
    let (r0, g0, b0) = stop_spec(n);
    let (r1, g1, b1) = stop_spec(n + 1);
    shares_color(
        blend_spec(r0, r1, share),
        blend_spec(g0, g1, share),
        blend_spec(b0, b1, share),
    )
}

/// The colour of `t` on the scale for speeds, from dark blue at 0 to yellow at 1, as red, green,
/// blue and opacity.
pub fn sequential_colormap<S: Scalar>(t: S) -> (r: [u8; 4])
    ensures
        r@ == sequential_spec(t),
{
    let scaled: S = water::share(t).times(S::whole(4));
    let whole: usize = water::floor(scaled);
    let n: usize = if whole > 3 {
        3
    } else {
        whole
    };
    let part: S = scaled.minus(S::whole(n));
    let (r0, g0, b0) = stop(n);
    let (r1, g1, b1) = stop(n + 1);
    color_of_shares(blend(r0, r1, part), blend(g0, g1, part), blend(b0, b1, part))
}

/// The colour of fluid with the share `phase` of water.
pub open spec fn phase_color_spec<S: Scalar>(phase: S) -> Seq<u8> {
    let t = water::share_spec(phase);
    let rest = S::whole_spec(1).minus_spec(t);
    let mixed = |air: nat, wet: nat|
        byte_spec(
            S::whole_spec(air).times_spec(rest).plus_spec(S::whole_spec(wet).times_spec(t)),
        );
    seq![mixed(200, 20), mixed(220, 60), mixed(255, 160), 255u8]
}

fn mix<S: Scalar>(air: usize, wet: usize, rest: S, t: S) -> (r: u8)
    ensures
        r == byte_spec(
            S::whole_spec(air as nat).times_spec(rest).plus_spec(
                S::whole_spec(wet as nat).times_spec(t),
            ),
        ),
{
    byte(S::whole(air).times(rest).plus(S::whole(wet).times(t)))
}

/// The colour of fluid with the share `phase` of water, as red, green, blue and opacity.
pub fn phase_color<S: Scalar>(phase: S) -> (r: [u8; 4])
    ensures
        r@ == phase_color_spec(phase),
{
    let t: S = water::share(phase);
    let rest: S = S::whole(1).minus(t);
    let color: [u8; 4] = [
        mix(200, 20, rest, t),
        mix(220, 60, rest, t),
        mix(255, 160, rest, t),
        255,
    ];
    assert(color@ =~= phase_color_spec(phase));
    color
}

/// `t - 1`, but not below 1.
pub open spec fn before(t: int) -> int {
    if t <= 2 {
        1
    } else {
        t - 1
    }
}

/// `t + 1`, but not above `N`.
pub open spec fn after(t: int) -> int {
    if t + 1 > N {
        N as int
    } else {
        t + 1
    }
}

/// The vorticity of the fluid in column `i` and row `j`.
pub open spec fn vorticity<S: Scalar>(cells: Seq<Cell<S>>, i: int, j: int) -> S {
    let width = S::whole_spec(2).times_spec(S::whole_spec(CELL_SIZE as nat));
    let du = cells[topology::place(i, after(j))].velocity_x.minus_spec(
        cells[topology::place(i, before(j))].velocity_x,
    ).over_spec(width);
    let dv = cells[topology::place(after(i), j)].velocity_y.minus_spec(
        cells[topology::place(before(i), j)].velocity_y,
    ).over_spec(width);
    dv.minus_spec(du)
}

/// The vorticity of the fluid in column `i` and row `j`: how fast the velocity along the columns
/// grows along the row, less how fast that along the rows grows along the column.
pub fn vorticity_at<S: Scalar>(grid: &Grid<S>, i: usize, j: usize) -> (r: S)
    requires
        grid.wf(),
        topology::in_grid(i as int, j as int),
    ensures
        r == vorticity(grid.cells@, i as int, j as int),
{
    let width: S = S::whole(2).times(S::whole(CELL_SIZE));
    let im: usize = if i <= 2 {
        1
    } else {
        i - 1
    };
    let ip: usize = if i + 1 > N {
        N
    } else {
        i + 1
    };
    let jm: usize = if j <= 2 {
        1
    } else {
        j - 1
    };
    let jp: usize = if j + 1 > N {
        N
    } else {
        j + 1
    };
    let up: usize = grid.to_index(i, jp);
    let down: usize = grid.to_index(i, jm);
    let left: usize = grid.to_index(im, j);
    let right: usize = grid.to_index(ip, j);
    let du: S = grid.cells[up].velocity_x.minus(grid.cells[down].velocity_x).over(width);
    let dv: S = grid.cells[right].velocity_y.minus(grid.cells[left].velocity_y).over(width);
    dv.minus(du)
}

/// The speed of the fluid in `cell`.
pub open spec fn speed_spec<S: Scalar>(cell: Cell<S>) -> S {
    cell.velocity_x.times_spec(cell.velocity_x).plus_spec(
        cell.velocity_y.times_spec(cell.velocity_y),
    ).root_spec()
}

fn speed<S: Scalar>(cell: Cell<S>) -> (r: S)
    ensures
        r == speed_spec(cell),
{
    let vx: S = cell.velocity_x;
    let vy: S = cell.velocity_y;
    vx.times(vx).plus(vy.times(vy)).root()
}

/// The size of what is shown in column `i` and row `j`.
pub open spec fn shown_size<S: Scalar>(
    cells: Seq<Cell<S>>,
    mode: DisplayMode,
    i: int,
    j: int,
) -> S {
    let cell = cells[topology::place(i, j)];
    match mode {
        DisplayMode::Vorticity => vorticity(cells, i, j).size_spec(),
        DisplayMode::Pressure => cell.pressure.size_spec(),
        DisplayMode::Velocity => speed_spec(cell),
        DisplayMode::Density => S::whole_spec(0),
        DisplayMode::Phase => cell.phase.size_spec(),
    }
}

/// `scale`, or the size of what is shown in column `i` and row `j` where that is above it. Walls
/// do not count.
pub open spec fn scaled_by<S: Scalar>(
    cells: Seq<Cell<S>>,
    mode: DisplayMode,
    scale: S,
    i: int,
    j: int,
) -> S {
    if cells[topology::place(i, j)].wall || !scale.below_spec(shown_size(cells, mode, i, j)) {
        scale
    } else {
        shown_size(cells, mode, i, j)
    }
}

/// `scale` raised to the sizes of what is shown in columns 1 to `n` of row `j`.
pub open spec fn row_scale<S: Scalar>(
    cells: Seq<Cell<S>>,
    mode: DisplayMode,
    scale: S,
    j: int,
    n: nat,
) -> S
    decreases n,
{
    if n == 0 {
        scale
    } else {
        scaled_by(cells, mode, row_scale(cells, mode, scale, j, (n - 1) as nat), n as int, j)
    }
}

/// The least size that the colours are scaled to: one millionth.
pub open spec fn least_scale<S: Scalar>() -> S {
    scalar::ratio_spec(1, 1000000)
}

/// The greatest size of what is shown in the rows 1 to `n`, and not below the least scale.
pub open spec fn scale_of_rows<S: Scalar>(cells: Seq<Cell<S>>, mode: DisplayMode, n: nat) -> S
    decreases n,
{
    if n == 0 {
        least_scale()
    } else {
        row_scale(
            cells,
            mode,
            scale_of_rows(cells, mode, (n - 1) as nat),
            n as int,
            N as nat,
        )
    }
}

/// The size that the colours are scaled to. Densities are not scaled.
pub open spec fn scale_spec<S: Scalar>(cells: Seq<Cell<S>>, mode: DisplayMode) -> S {
    if mode == DisplayMode::Density {
        least_scale()
    } else {
        scale_of_rows(cells, mode, N as nat)
    }
}

/// The colour of the cell in column `i` and row `j`.
pub open spec fn cell_color_spec<S: Scalar>(
    cells: Seq<Cell<S>>,
    mode: DisplayMode,
    scale: S,
    vorticity_gain: S,
    pressure_gain: S,
    i: int,
    j: int,
) -> Seq<u8> {
    let cell = cells[topology::place(i, j)];
    if cell.wall {
        seq![0u8, 0u8, 0u8, 255u8]
    } else {
        match mode {
            DisplayMode::Density => density_color_spec(cell.density),
            DisplayMode::Vorticity => diverging_spec(
                vorticity(cells, i, j).over_spec(scale).times_spec(vorticity_gain),
            ),
            DisplayMode::Pressure => diverging_spec(
                cell.pressure.over_spec(scale).times_spec(pressure_gain),
            ),
            DisplayMode::Velocity => sequential_spec(speed_spec(cell).over_spec(scale)),
            DisplayMode::Phase => phase_color_spec(cell.phase),
        }
    }
}

/// The column and the row that pixel `p` of a picture of the width `width` shows, among the
/// rows 1 to `n`: where pictures of rows overlap, the last one.
pub open spec fn shown_below(p: int, width: int, n: nat) -> Option<(int, int)>
    decreases n,
{
    if n == 0 {
        None
    } else if 1 <= p - n * width <= N {
        Some((p - n * width, n as int))
    } else {
        shown_below(p, width, (n - 1) as nat)
    }
}

/// The column and the row that pixel `p` of a picture of the width `width` shows.
pub open spec fn shown_at(p: int, width: int) -> Option<(int, int)> {
    shown_below(p, width, N as nat)
}

/// A picture of the width `width` fits the frame.
pub open spec fn frame_holds(length: int, width: int) -> bool {
    4 * (N * width + N) + 4 <= length
}

/// Whether a picture of the width `width` fits a frame of `length` bytes.
pub fn check_frame(length: usize, width: usize) -> (ok: bool)
    ensures
        ok == frame_holds(length as int, width as int),
{
    4 * (N as u128 * width as u128 + N as u128) + 4 <= length as u128
}

fn measure<S: Scalar>(grid: &Grid<S>, mode: DisplayMode, i: usize, j: usize) -> (r: S)
    requires
        grid.wf(),
        topology::in_grid(i as int, j as int),
    ensures
        r == shown_size(grid.cells@, mode, i as int, j as int),
{
    let k: usize = grid.to_index(i, j);
    match mode {
        DisplayMode::Vorticity => vorticity_at(grid, i, j).size(),
        DisplayMode::Pressure => grid.cells[k].pressure.size(),
        DisplayMode::Velocity => speed(grid.cells[k]),
        DisplayMode::Density => S::whole(0),
        DisplayMode::Phase => grid.cells[k].phase.size(),
    }
}

/// The size that the colours of the picture are scaled to, so that the picture stays readable
/// whatever the sizes of what it shows.
pub fn autoscale<S: Scalar>(grid: &Grid<S>, mode: DisplayMode) -> (r: S)
    requires
        grid.wf(),
    ensures
        r == scale_spec(grid.cells@, mode),
{
    let mut scale: S = scalar::ratio(1, 1000000);
    if mode == DisplayMode::Density {
        return scale;
    }
    let mut j: usize = 1;
    while j <= N
        invariant
            1 <= j <= N + 1,
            grid.wf(),
            scale == scale_of_rows(grid.cells@, mode, (j - 1) as nat),
        decreases N + 1 - j,
    {
        let ghost before = scale;
        let mut i: usize = 1;
        while i <= N
            invariant
                1 <= i <= N + 1,
                1 <= j <= N,
                grid.wf(),
                scale == row_scale(grid.cells@, mode, before, j as int, (i - 1) as nat),
            decreases N + 1 - i,
        {
            let k: usize = grid.to_index(i, j);
            if !grid.cells[k].wall {
                let size: S = measure(grid, mode, i, j);
                if scale.below(size) {
                    scale = size;
                }
            }
            i = i + 1;
        }
        j = j + 1;
    }
    scale
}

/// The colour of the cell in column `i` and row `j`, where the colours are scaled to `scale`.
pub fn cell_color<S: Scalar>(
    grid: &Grid<S>,
    mode: DisplayMode,
    scale: S,
    vorticity_gain: S,
    pressure_gain: S,
    i: usize,
    j: usize,
) -> (r: [u8; 4])
    requires
        grid.wf(),
        topology::in_grid(i as int, j as int),
    ensures
        r@ == cell_color_spec(
            grid.cells@,
            mode,
            scale,
            vorticity_gain,
            pressure_gain,
            i as int,
            j as int,
        ),
{
    let k: usize = grid.to_index(i, j);
    let cell: Cell<S> = grid.cells[k];
    if cell.wall {
        let black: [u8; 4] = [0, 0, 0, 255];
        assert(black@ =~= seq![0u8, 0u8, 0u8, 255u8]);
        return black;
    }
    match mode {
        DisplayMode::Density => density_color(cell.density),
        DisplayMode::Vorticity => diverging_colormap(
            vorticity_at(grid, i, j).over(scale).times(vorticity_gain),
        ),
        DisplayMode::Pressure => diverging_colormap(
            cell.pressure.over(scale).times(pressure_gain),
        ),
        DisplayMode::Velocity => sequential_colormap(speed(cell).over(scale)),
        DisplayMode::Phase => phase_color(cell.phase),
    }
}

/// Sets pixel `p` of `frame` to `color`.
fn set_pixel(frame: &mut [u8], p: usize, color: [u8; 4])
    requires
        4 * p + 4 <= old(frame)@.len(),
    ensures
        final(frame)@ == Seq::new(
            old(frame)@.len(),
            |b: int|
                if b / 4 == p {
                    color@[b % 4]
                } else {
                    old(frame)@[b]
                },
        ),
{
    let ghost before = frame@;
    let b: usize = 4 * p;
    frame[b] = color[0];
    frame[b + 1] = color[1];
    frame[b + 2] = color[2];
    frame[b + 3] = color[3];
    assert(frame@ =~= Seq::new(
        before.len(),
        |b: int|
            if b / 4 == p {
                color@[b % 4]
            } else {
                before[b]
            },
    ));
}

/// The column and the row that pixel `p` shows so far, when column `i` of row `j` comes next.
spec fn shown_before(p: int, width: int, i: int, j: int) -> Option<(int, int)> {
    if 1 <= p - j * width < i {
        Some((p - j * width, j))
    } else {
        shown_below(p, width, (j - 1) as nat)
    }
}

/// Byte `b` of the picture over `before`, where the pixel that holds it shows `shown`.
pub open spec fn picture_byte<S: Scalar>(
    before: Seq<u8>,
    cells: Seq<Cell<S>>,
    mode: DisplayMode,
    vorticity_gain: S,
    pressure_gain: S,
    shown: Option<(int, int)>,
    b: int,
) -> u8 {
    match shown {
        Some((i, j)) => cell_color_spec(
            cells,
            mode,
            scale_spec(cells, mode),
            vorticity_gain,
            pressure_gain,
            i,
            j,
        )[b % 4],
        None => before[b],
    }
}

/// Draws the grid between its borders into `frame`, a picture of `grid_w` pixels in each row and
/// four bytes in each pixel. Pixels that show no cell stay as they are.
pub fn draw_grid<S: Scalar>(
    grid: &Grid<S>,
    frame: &mut [u8],
    grid_w: usize,
    mode: DisplayMode,
    vorticity_gain: S,
    pressure_gain: S,
)
    requires
        grid.wf(),
        frame_holds(old(frame)@.len() as int, grid_w as int),
    ensures
        final(frame)@ == Seq::new(
            old(frame)@.len(),
            |b: int|
                picture_byte(
                    old(frame)@,
                    grid.cells@,
                    mode,
                    vorticity_gain,
                    pressure_gain,
                    shown_at(b / 4, grid_w as int),
                    b,
                ),
        ),
{
    let ghost first = frame@;
    let ghost width = grid_w as int;
    let length: usize = frame.len();
    let scale: S = autoscale(grid, mode);
    let mut j: usize = 1;
    while j <= N
        invariant
            1 <= j <= N + 1,
            grid.wf(),
            width == grid_w,
            length == first.len(),
            frame_holds(first.len() as int, width),
            scale == scale_spec(grid.cells@, mode),
            frame@.len() == first.len(),
            forall|b: int|
                0 <= b < first.len() ==> #[trigger] frame@[b] == picture_byte(
                    first,
                    grid.cells@,
                    mode,
                    vorticity_gain,
                    pressure_gain,
                    shown_below(b / 4, width, (j - 1) as nat),
                    b,
                ),
        decreases N + 1 - j,
    {
        let mut i: usize = 1;
        while i <= N
            invariant
                1 <= i <= N + 1,
                1 <= j <= N,
                grid.wf(),
                width == grid_w,
                length == first.len(),
                frame_holds(first.len() as int, width),
                scale == scale_spec(grid.cells@, mode),
                frame@.len() == first.len(),
                forall|b: int|
                    0 <= b < first.len() ==> #[trigger] frame@[b] == picture_byte(
                        first,
                        grid.cells@,
                        mode,
                        vorticity_gain,
                        pressure_gain,
                        shown_before(b / 4, width, i as int, j as int),
                        b,
                    ),
            decreases N + 1 - i,
        {
            proof {
                assert(0 <= j * width <= N * width) by (nonlinear_arith)
                    requires
                        j <= N,
                        0 <= width,
                ;
            }
            let p: usize = j * grid_w + i;
            let color: [u8; 4] = cell_color(grid, mode, scale, vorticity_gain, pressure_gain, i, j);
            set_pixel(frame, p, color);
            i = i + 1;
        }
        j = j + 1;
    }
    assert(frame@ =~= Seq::new(
        first.len(),
        |b: int|
            picture_byte(
                first,
                grid.cells@,
                mode,
                vorticity_gain,
                pressure_gain,
                shown_at(b / 4, width),
                b,
            ),
    ));
}

/// In a picture that is wide enough, each cell between the borders is shown by the pixel in its
/// column and row.
pub proof fn lemma_cell_shown(width: int, i: int, j: int)
    requires
        width > N,
        topology::inside(i, j),
    ensures
        shown_at(j * width + i, width) == Some((i, j)),
{
    lemma_shown_from(width, i, j, N as nat);
}

proof fn lemma_shown_from(width: int, i: int, j: int, n: nat)
    requires
        width > N,
        topology::inside(i, j),
        j <= n,
    ensures
        shown_below(j * width + i, width, n) == Some((i, j)),
    decreases n,
{
    let p = j * width + i;
    if n > j {
        assert(p - n * width < 1) by (nonlinear_arith)
            requires
                p == j * width + i,
                n >= j + 1,
                width > 510,
                i <= 510,
        ;
        lemma_shown_from(width, i, j, (n - 1) as nat);
    }
}

/// Every colour of a picture has its four bytes, and is opaque.
pub proof fn lemma_colors_opaque<S: Scalar>(
    cells: Seq<Cell<S>>,
    mode: DisplayMode,
    scale: S,
    vorticity_gain: S,
    pressure_gain: S,
    i: int,
    j: int,
)
    ensures
        ({
            let color = cell_color_spec(
                cells,
                mode,
                scale,
                vorticity_gain,
                pressure_gain,
                i,
                j,
            );
            color.len() == 4 && color[3] == 255
        }),
{
}

/// The scale from blue to red is pure blue from -1 downward, white at 0, and pure red from 1
/// upward.
pub proof fn lemma_diverging_ends(t: Fixed)
    ensures
        t.raw <= -fixed::ONE ==> diverging_spec(t) == seq![0u8, 0u8, 255u8, 255u8],
        t.raw == 0 ==> diverging_spec(t) == seq![255u8, 255u8, 255u8, 255u8],
        t.raw >= fixed::ONE ==> diverging_spec(t) == seq![255u8, 0u8, 0u8, 255u8],
{
    let zero = Fixed::whole_spec(0);
    let one = Fixed::whole_spec(1);
    let full = Fixed::whole_spec(255);
    fixed::lemma_root_of_one();
    fixed::lemma_times_one(one);
    fixed::lemma_times_one(full);
    fixed::lemma_times_zero(full);
    fixed::lemma_times_one(one.negated_spec());
    fixed::lemma_times_one(zero);
    fixed::lemma_small_whole(255);
    fixed::lemma_small_whole(0);
    assert(byte_spec(full) == 255);
    assert(byte_spec(zero) == 0);
    if t.raw <= -fixed::ONE {
        assert(boosted(t) == one.negated_spec());
        assert(diverging_spec(t) =~= seq![0u8, 0u8, 255u8, 255u8]);
    } else if t.raw >= fixed::ONE {
        assert(boosted(t) == one);
        assert(diverging_spec(t) =~= seq![255u8, 0u8, 0u8, 255u8]);
    } else if t.raw == 0 {
        assert(boosted(t) == zero);
        assert(diverging_spec(t) =~= seq![255u8, 255u8, 255u8, 255u8]);
    }
}

/// Fluid without density is white, and fluid of the density 40 or more is pure red.
pub proof fn lemma_density_color_ends(density: Fixed)
    ensures
        density.raw <= 0 ==> density_color_spec(density) == seq![255u8, 255u8, 255u8, 255u8],
        density.raw >= 40 * fixed::ONE ==> density_color_spec(density) == seq![
            255u8,
            0u8,
            0u8,
            255u8,
        ],
{
    let zero = Fixed::whole_spec(0);
    let one = Fixed::whole_spec(1);
    let twenty = Fixed::whole_spec(20);
    let full = Fixed::whole_spec(255);
    fixed::lemma_small_whole(255);
    fixed::lemma_small_whole(20);
    fixed::lemma_times_one(full);
    fixed::lemma_over_monotonic(twenty, twenty, twenty);
    if density.raw <= 0 {
        fixed::lemma_over_monotonic(density, zero, twenty);
        let rest = one.minus_spec(density.over_spec(twenty));
        fixed::lemma_times_monotonic(one, rest, full);
        assert(level_spec(full.times_spec(rest)) == full);
        assert(density_color_spec(density) =~= seq![255u8, 255u8, 255u8, 255u8]);
    } else if density.raw >= 40 * fixed::ONE {
        assert(density_color_spec(density) =~= seq![255u8, 0u8, 0u8, 255u8]);
    }
}

proof fn lemma_row_scale<S: Scalar>(
    cells: Seq<Cell<S>>,
    mode: DisplayMode,
    scale: S,
    j: int,
    n: nat,
    i: int,
    x: S,
)
    requires
        scalar::strictly_ordered::<S>(),
    ensures
        !scale.below_spec(x) ==> !row_scale(cells, mode, scale, j, n).below_spec(x),
        1 <= i <= n && !cells[topology::place(i, j)].wall ==> !row_scale(
            cells,
            mode,
            scale,
            j,
            n,
        ).below_spec(shown_size(cells, mode, i, j)),
    decreases n,
{
    if n > 0 {
        lemma_row_scale(cells, mode, scale, j, (n - 1) as nat, i, x);
        let before = row_scale(cells, mode, scale, j, (n - 1) as nat);
        let size = shown_size(cells, mode, n as int, j);
        assert(!size.below_spec(size));
        assert(scalar::order_rises(before, size, x));
        assert(scalar::order_rises(before, size, shown_size(cells, mode, i, j)));
    }
}

proof fn lemma_rows_scale<S: Scalar>(
    cells: Seq<Cell<S>>,
    mode: DisplayMode,
    n: nat,
    i: int,
    j: int,
)
    requires
        scalar::strictly_ordered::<S>(),
    ensures
        !scale_of_rows(cells, mode, n).below_spec(least_scale()),
        1 <= i <= N && 1 <= j <= n && !cells[topology::place(i, j)].wall ==> !scale_of_rows(
            cells,
            mode,
            n,
        ).below_spec(shown_size(cells, mode, i, j)),
    decreases n,
{
    if n == 0 {
        assert(!least_scale::<S>().below_spec(least_scale()));
    } else {
        lemma_rows_scale(cells, mode, (n - 1) as nat, i, j);
        let before = scale_of_rows(cells, mode, (n - 1) as nat);
        lemma_row_scale(cells, mode, before, n as int, N as nat, i, least_scale());
        lemma_row_scale(
            cells,
            mode,
            before,
            n as int,
            N as nat,
            i,
            shown_size(cells, mode, i, j),
        );
    }
}

/// Nothing that is shown is above the scale, and the scale is not below the least scale.
pub proof fn lemma_scale_bounds<S: Scalar>(
    cells: Seq<Cell<S>>,
    mode: DisplayMode,
    i: int,
    j: int,
)
    requires
        scalar::strictly_ordered::<S>(),
        topology::inside(i, j),
        !cells[topology::place(i, j)].wall,
        mode != DisplayMode::Density,
    ensures
        !scale_spec(cells, mode).below_spec(shown_size(cells, mode, i, j)),
        !scale_spec(cells, mode).below_spec(least_scale()),
{
    lemma_rows_scale(cells, mode, N as nat, i, j);
}

/// What a pixel shows lies between the borders.
pub proof fn lemma_shown_inside(p: int, width: int, n: nat)
    requires
        n <= N,
    ensures
        match shown_below(p, width, n) {
            Some((i, j)) => topology::inside(i, j),
            None => true,
        },
    decreases n,
{
    if n > 0 {
        lemma_shown_inside(p, width, (n - 1) as nat);
    }
}

/// `cells` with all pressures doubled.
pub open spec fn doubled<S: Scalar>(cells: Seq<Cell<S>>) -> Seq<Cell<S>> {
    Seq::new(
        cells.len(),
        |k: int|
            Cell { pressure: cells[k].pressure.plus_spec(cells[k].pressure), ..cells[k] },
    )
}

/// The size of the pressure in cell `k`.
pub open spec fn pressure_size<S: Scalar>(cells: Seq<Cell<S>>, k: int) -> S {
    cells[k].pressure.size_spec()
}

/// Of the pressure in cell `k`: its size doubles with it, and if it is above the least scale, so is
/// its double.
pub open spec fn doubles_alone<S: Scalar>(cells: Seq<Cell<S>>, k: int) -> bool {
    let size = pressure_size(cells, k);
    let pressure = cells[k].pressure;
    &&& pressure.plus_spec(pressure).size_spec() == size.plus_spec(size)
    &&& least_scale::<S>().below_spec(size) ==> least_scale::<S>().below_spec(size.plus_spec(size))
}

/// Of the pressures in the cells `k` and `m`: their sizes are ordered as their doubles are, and
/// among each other and the least scale as numbers are, and the quotient of one by the size of the
/// other is that of their doubles.
pub open spec fn doubles_beside<S: Scalar>(cells: Seq<Cell<S>>, k: int, m: int) -> bool {
    let least = least_scale::<S>();
    let a = pressure_size(cells, k);
    let b = pressure_size(cells, m);
    let pressure = cells[k].pressure;
    &&& a.below_spec(b) == a.plus_spec(a).below_spec(b.plus_spec(b))
    &&& !least.below_spec(a) && least.below_spec(b) ==> a.below_spec(b)
    &&& least.below_spec(a) && a.below_spec(b) ==> least.below_spec(b)
    &&& least.below_spec(b) ==> pressure.plus_spec(pressure).over_spec(b.plus_spec(b))
        == pressure.over_spec(b)
}

/// The pressures of `cells` can be doubled: they and the least scale compare, add and divide like
/// numbers, and nothing is lost with their doubles.
pub open spec fn can_double<S: Scalar>(cells: Seq<Cell<S>>) -> bool {
    &&& !least_scale::<S>().below_spec(least_scale())
    &&& forall|k: int| 0 <= k < cells.len() ==> #[trigger] doubles_alone(cells, k)
    &&& forall|k: int, m: int|
        0 <= k < cells.len() && 0 <= m < cells.len() ==> #[trigger] doubles_beside(cells, k, m)
}

/// Pressures of at most half the greatest number can be doubled.
pub proof fn lemma_fixed_can_double(cells: Seq<Cell<Fixed>>)
    requires
        forall|k: int|
            0 <= k < cells.len() ==> -0x3fff_ffff_ffff_ffff <= (#[trigger] cells[k]).pressure.raw
                <= 0x3fff_ffff_ffff_ffff,
    ensures
        can_double(cells),
{
    assert forall|k: int, m: int| 0 <= k < cells.len() && 0 <= m < cells.len() implies
        #[trigger] doubles_beside(cells, k, m) by {
        let p = cells[k].pressure;
        let b = pressure_size(cells, m);
        assert(-0x3fff_ffff_ffff_ffff <= cells[m].pressure.raw <= 0x3fff_ffff_ffff_ffff);
        if least_scale::<Fixed>().below_spec(b) {
            fixed::lemma_over_doubled(p, p.plus_spec(p), b, b.plus_spec(b));
        }
    }
}

/// `scale` is the size of the pressure in cell `k`, which is above the least scale, and `twice` is
/// its double.
spec fn doubles_cell<S: Scalar>(cells: Seq<Cell<S>>, scale: S, twice: S, k: int) -> bool {
    &&& 0 <= k < cells.len()
    &&& scale == pressure_size(cells, k)
    &&& least_scale::<S>().below_spec(scale)
    &&& twice == scale.plus_spec(scale)
}

/// `twice` is the least scale, or the double of a size that is not above it.
spec fn doubles_little<S: Scalar>(cells: Seq<Cell<S>>, twice: S, k: int) -> bool {
    ||| twice == least_scale::<S>()
    ||| {
        &&& 0 <= k < cells.len()
        &&& !least_scale::<S>().below_spec(pressure_size(cells, k))
        &&& twice == pressure_size(cells, k).plus_spec(pressure_size(cells, k))
    }
}

/// `scale` and `twice` are what the least scale becomes when it is raised to sizes of pressures,
/// and to the doubles of the same ones.
spec fn scales_match<S: Scalar>(cells: Seq<Cell<S>>, scale: S, twice: S) -> bool {
    ||| exists|k: int| #[trigger] doubles_cell(cells, scale, twice, k)
    ||| {
        &&& scale == least_scale::<S>()
        &&& exists|k: int| #[trigger] doubles_little(cells, twice, k)
    }
}

proof fn lemma_doubled_step<S: Scalar>(
    cells: Seq<Cell<S>>,
    scale: S,
    twice: S,
    i: int,
    j: int,
)
    requires
        cells.len() == CELLS,
        can_double(cells),
        topology::inside(i, j),
        scales_match(cells, scale, twice),
    ensures
        ({
            let next = scaled_by(cells, DisplayMode::Pressure, scale, i, j);
            let next_twice = scaled_by(doubled(cells), DisplayMode::Pressure, twice, i, j);
            &&& scales_match(cells, next, next_twice)
            &&& least_scale::<S>().below_spec(scale) ==> least_scale::<S>().below_spec(next)
            &&& !cells[topology::place(i, j)].wall && least_scale::<S>().below_spec(
                shown_size(cells, DisplayMode::Pressure, i, j),
            ) ==> least_scale::<S>().below_spec(next)
        }),
{
    let least = least_scale::<S>();
    let next = scaled_by(cells, DisplayMode::Pressure, scale, i, j);
    let next_twice = scaled_by(doubled(cells), DisplayMode::Pressure, twice, i, j);
    let m = topology::place(i, j);
    let size = pressure_size(cells, m);
    topology::lemma_place(i, j);
    assert(doubles_alone(cells, m));
    if !cells[m].wall {
        if exists|k: int| #[trigger] doubles_cell(cells, scale, twice, k) {
            let k = choose|k: int| #[trigger] doubles_cell(cells, scale, twice, k);
            assert(doubles_beside(cells, k, m));
            assert(doubles_beside(cells, m, k));
            assert(doubles_cell(cells, next, next_twice, m) || doubles_cell(
                cells,
                next,
                next_twice,
                k,
            ));
        } else {
            let k = choose|k: int| #[trigger] doubles_little(cells, twice, k);
            if least.below_spec(size) {
                if twice != least {
                    assert(doubles_beside(cells, k, m));
                }
                assert(doubles_cell(cells, next, next_twice, m));
            } else {
                assert(doubles_little(cells, next_twice, k) || doubles_little(
                    cells,
                    next_twice,
                    m,
                ));
            }
        }
    }
}

proof fn lemma_doubled_row<S: Scalar>(
    cells: Seq<Cell<S>>,
    scale: S,
    twice: S,
    j: int,
    n: nat,
    strong: int,
)
    requires
        cells.len() == CELLS,
        can_double(cells),
        1 <= j <= N,
        n <= N,
        scales_match(cells, scale, twice),
    ensures
        ({
            let next = row_scale(cells, DisplayMode::Pressure, scale, j, n);
            let next_twice = row_scale(doubled(cells), DisplayMode::Pressure, twice, j, n);
            &&& scales_match(cells, next, next_twice)
            &&& least_scale::<S>().below_spec(scale) ==> least_scale::<S>().below_spec(next)
            &&& 1 <= strong <= n && is_strong(cells, strong, j) ==> least_scale::<S>().below_spec(
                next,
            )
        }),
    decreases n,
{
    if n > 0 {
        lemma_doubled_row(cells, scale, twice, j, (n - 1) as nat, strong);
        lemma_doubled_step(
            cells,
            row_scale(cells, DisplayMode::Pressure, scale, j, (n - 1) as nat),
            row_scale(doubled(cells), DisplayMode::Pressure, twice, j, (n - 1) as nat),
            n as int,
            j,
        );
    }
}

/// The cell in column `i` and row `j` is no wall, and the size of its pressure is above the least
/// scale.
pub open spec fn is_strong<S: Scalar>(cells: Seq<Cell<S>>, i: int, j: int) -> bool {
    &&& topology::inside(i, j)
    &&& !cells[topology::place(i, j)].wall
    &&& least_scale::<S>().below_spec(pressure_size(cells, topology::place(i, j)))
}

/// The pressures show in the picture: one of them is above the least scale, or none changes when it
/// is doubled.
pub open spec fn pressures_show<S: Scalar>(cells: Seq<Cell<S>>) -> bool {
    ||| exists|i: int, j: int| #[trigger] is_strong(cells, i, j)
    ||| forall|k: int|
        0 <= k < cells.len() ==> (#[trigger] cells[k]).pressure.plus_spec(cells[k].pressure)
            == cells[k].pressure
}

proof fn lemma_doubled_rows<S: Scalar>(cells: Seq<Cell<S>>, n: nat, i: int, j: int)
    requires
        cells.len() == CELLS,
        can_double(cells),
        n <= N,
    ensures
        ({
            let scale = scale_of_rows(cells, DisplayMode::Pressure, n);
            let twice = scale_of_rows(doubled(cells), DisplayMode::Pressure, n);
            &&& scales_match(cells, scale, twice)
            &&& 1 <= j <= n && is_strong(cells, i, j) ==> least_scale::<S>().below_spec(scale)
        }),
    decreases n,
{
    if n == 0 {
        assert(doubles_little(cells, least_scale::<S>(), 0));
    } else {
        lemma_doubled_rows(cells, (n - 1) as nat, i, j);
        lemma_doubled_row(
            cells,
            scale_of_rows(cells, DisplayMode::Pressure, (n - 1) as nat),
            scale_of_rows(doubled(cells), DisplayMode::Pressure, (n - 1) as nat),
            n as int,
            N as nat,
            i,
        );
    }
}

/// Doubling all pressures doubles the scale of their picture, and leaves every colour of it as it
/// is, where the pressures show and can be doubled.
pub proof fn lemma_doubled_colors<S: Scalar>(
    cells: Seq<Cell<S>>,
    vorticity_gain: S,
    pressure_gain: S,
    i: int,
    j: int,
)
    requires
        cells.len() == CELLS,
        can_double(cells),
        pressures_show(cells),
        topology::inside(i, j),
    ensures
        (exists|a: int, b: int| #[trigger] is_strong(cells, a, b)) ==> scale_spec(
            doubled(cells),
            DisplayMode::Pressure,
        ) == scale_spec(cells, DisplayMode::Pressure).plus_spec(
            scale_spec(cells, DisplayMode::Pressure),
        ),
        cell_color_spec(
            doubled(cells),
            DisplayMode::Pressure,
            scale_spec(doubled(cells), DisplayMode::Pressure),
            vorticity_gain,
            pressure_gain,
            i,
            j,
        ) == cell_color_spec(
            cells,
            DisplayMode::Pressure,
            scale_spec(cells, DisplayMode::Pressure),
            vorticity_gain,
            pressure_gain,
            i,
            j,
        ),
{
    if exists|a: int, b: int| #[trigger] is_strong(cells, a, b) {
        let m = topology::place(i, j);
        let scale = scale_spec(cells, DisplayMode::Pressure);
        let twice = scale_spec(doubled(cells), DisplayMode::Pressure);
        let (a, b) = choose|a: int, b: int| #[trigger] is_strong(cells, a, b);
        topology::lemma_place(i, j);
        lemma_doubled_rows(cells, N as nat, a, b);
        let k = choose|k: int| #[trigger] doubles_cell(cells, scale, twice, k);
        assert(doubles_cell(cells, scale, twice, k));
        assert(doubles_beside(cells, m, k));
    } else {
        assert(doubled(cells) =~= cells);
    }
}

/// The picture of the pressures does not depend on how strong they are: doubling them all leaves
/// every byte of it as it is, where they show and can be doubled.
pub proof fn lemma_doubled_picture<S: Scalar>(
    before: Seq<u8>,
    cells: Seq<Cell<S>>,
    vorticity_gain: S,
    pressure_gain: S,
    width: int,
    b: int,
)
    requires
        cells.len() == CELLS,
        can_double(cells),
        pressures_show(cells),
    ensures
        picture_byte(
            before,
            doubled(cells),
            DisplayMode::Pressure,
            vorticity_gain,
            pressure_gain,
            shown_at(b / 4, width),
            b,
        ) == picture_byte(
            before,
            cells,
            DisplayMode::Pressure,
            vorticity_gain,
            pressure_gain,
            shown_at(b / 4, width),
            b,
        ),
{
    lemma_shown_inside(b / 4, width, N as nat);
    match shown_at(b / 4, width) {
        Some((i, j)) => {
            lemma_doubled_colors(cells, vorticity_gain, pressure_gain, i, j);
        },
        None => {},
    }
}

/// The picture of fixed-point pressures that are at most half the greatest number does not depend
/// on how strong they are.
pub proof fn lemma_fixed_doubled_picture(
    before: Seq<u8>,
    cells: Seq<Cell<Fixed>>,
    vorticity_gain: Fixed,
    pressure_gain: Fixed,
    width: int,
    b: int,
)
    requires
        cells.len() == CELLS,
        pressures_show(cells),
        forall|k: int|
            0 <= k < cells.len() ==> -0x3fff_ffff_ffff_ffff <= (#[trigger] cells[k]).pressure.raw
                <= 0x3fff_ffff_ffff_ffff,
    ensures
        picture_byte(
            before,
            doubled(cells),
            DisplayMode::Pressure,
            vorticity_gain,
            pressure_gain,
            shown_at(b / 4, width),
            b,
        ) == picture_byte(
            before,
            cells,
            DisplayMode::Pressure,
            vorticity_gain,
            pressure_gain,
            shown_at(b / 4, width),
            b,
        ),
{
    lemma_fixed_can_double(cells);
    lemma_doubled_picture(before, cells, vorticity_gain, pressure_gain, width, b);
}

} // verus!
