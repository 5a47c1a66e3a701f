use windtunnel::boat::{build_boat_layout, BoatParams, ContainerLayoutKind};
use windtunnel::conditions::{
    center_source_radius, flow_density, flow_velocity, gravity_x, gravity_y, max_velocity,
    rho_water, time_step, water_level, N,
};
use windtunnel::display::{
    autoscale, density_color, diverging_colormap, draw_grid, sequential_colormap, vorticity_at,
    DisplayMode,
};
use windtunnel::fixed::{Fixed, ONE};
use windtunnel::grid::Grid;
use windtunnel::scalar::{at_least, clamped, ratio, signed, Scalar};
use windtunnel::scenario::{BoatUiState, SimParams};
use windtunnel::trial::{check_scores, test_layout};

#[derive(Clone, Copy, Debug, PartialEq)]
struct Real(f32);

impl Scalar for Real {
    fn whole(n: usize) -> Self {
        Real(n as f32)
    }

    fn plus(self, other: Self) -> Self {
        Real(self.0 + other.0)
    }

    fn minus(self, other: Self) -> Self {
        Real(self.0 - other.0)
    }

    fn times(self, other: Self) -> Self {
        Real(self.0 * other.0)
    }

    fn over(self, other: Self) -> Self {
        Real(self.0 / other.0)
    }

    fn negated(self) -> Self {
        Real(-self.0)
    }

    fn size(self) -> Self {
        Real(self.0.abs())
    }

    fn root(self) -> Self {
        Real(self.0.sqrt())
    }

    fn half_power(self) -> Self {
        Real(self.0.powf(0.5))
    }

    fn below(self, other: Self) -> bool {
        self.0 < other.0
    }

    fn at_most(self, other: Self) -> bool {
        self.0 <= other.0
    }

    fn truncated(self) -> isize {
        self.0 as isize
    }

    fn rounded(self) -> isize {
        self.0.round() as isize
    }
}

#[test]
fn constants_are_the_nearest_numbers() {
    let n: f32 = 510.0;
    assert_eq!(flow_velocity::<Real>().0, 2.7);
    assert_eq!(flow_density::<Real>().0, 15.0);
    assert_eq!(water_level::<Real>().0, n * 0.6);
    assert_eq!(rho_water::<Real>().0, 25.0);
    assert_eq!(gravity_x::<Real>().0, 0.0);
    assert_eq!(gravity_y::<Real>().0, 9.81);
    assert_eq!(time_step::<Real>().0, 1.0 / 60.0);
    assert_eq!(max_velocity::<Real>().0, 15.0);
    assert_eq!(center_source_radius::<Real>().0, n / 40.0);
    assert_eq!(SimParams::<Real>::default().vorticity_gain.0, 1.8);
    assert_eq!(BoatUiState::<Real>::default().hull_curvature.0, 0.6);
    assert_eq!(ratio::<Real>(1, 1000000).0, 1e-6);
    assert_eq!(ratio::<Real>(1, 1000).0, 0.001);
    assert_eq!(ratio::<Real>(1, 10).0, 0.1);
    for k in 0..100 {
        assert_eq!(ratio::<Real>(k, 100).0, format!("0.{k:02}").parse::<f32>().unwrap());
    }
}

#[test]
fn helpers_on_numbers() {
    assert_eq!(signed::<Real>(-7).0, -7.0);
    assert_eq!(signed::<Real>(isize::MIN).0, isize::MIN as f32);
    assert_eq!(clamped(Real(3.0), Real(0.0), Real(1.0)).0, 1.0);
    assert_eq!(clamped(Real(-3.0), Real(0.0), Real(1.0)).0, 0.0);
    assert!(clamped(Real(f32::NAN), Real(0.0), Real(1.0)).0.is_nan());
    assert_eq!(at_least(Real(f32::NAN), Real(1.0)).0, 1.0);
    assert_eq!(at_least(Real(0.5), Real(1.0)).0, 1.0);
    assert_eq!(at_least(Real(2.5), Real(1.0)).0, 2.5);
}

fn plain_density_color(density: f32) -> [u8; 4] {
    if density <= 20.0 {
        let intensity = (255.0 * (1.0 - density / 20.0)).clamp(0.0, 255.0) as u8;
        [intensity, intensity, 0xFF, 0xFF]
    } else {
        let excess = (density - 20.0).clamp(0.0, 20.0);
        let red = (255.0 * (excess / 20.0)).clamp(0.0, 255.0) as u8;
        [red, 0x00, 0x00, 0xFF]
    }
}

fn plain_diverging(t: f32) -> [u8; 4] {
    let t = t.clamp(-1.0, 1.0);
    let boosted = t.signum() * t.abs().powf(0.5);
    let (r, g, b) = if boosted < 0.0 {
        (1.0 + boosted, 1.0 + boosted, 1.0)
    } else {
        (1.0, 1.0 - boosted, 1.0 - boosted)
    };
    [(r * 255.0) as u8, (g * 255.0) as u8, (b * 255.0) as u8, 255]
}

fn plain_sequential(t: f32) -> [u8; 4] {
    let stops = [
        (0.05f32, 0.03f32, 0.30f32),
        (0.00, 0.35, 0.55),
        (0.00, 0.65, 0.35),
        (0.75, 0.85, 0.10),
        (0.99, 0.90, 0.15),
    ];
    let scaled = t.clamp(0.0, 1.0) * 4.0;
    let n = (scaled.floor() as usize).min(3);
    let part = scaled - n as f32;
    let (a, b) = (stops[n], stops[n + 1]);
    let r = a.0 + (b.0 - a.0) * part;
    let g = a.1 + (b.1 - a.1) * part;
    let c = a.2 + (b.2 - a.2) * part;
    [(r * 255.0) as u8, (g * 255.0) as u8, (c * 255.0) as u8, 255]
}

#[test]
fn colours_are_those_of_the_plain_formulas() {
    for k in -300..=300 {
        let x = k as f32 / 97.0;
        assert_eq!(density_color(Real(x * 20.0)), plain_density_color(x * 20.0));
        assert_eq!(diverging_colormap(Real(x)), plain_diverging(x));
        assert_eq!(sequential_colormap(Real(x)), plain_sequential(x));
    }
    for x in [f32::NAN, f32::INFINITY, f32::NEG_INFINITY, -0.0] {
        assert_eq!(density_color(Real(x)), plain_density_color(x));
        assert_eq!(diverging_colormap(Real(x)), plain_diverging(x));
        assert_eq!(sequential_colormap(Real(x)), plain_sequential(x));
    }
}

#[test]
fn forces_are_those_of_the_plain_formula() {
    let mut grid: Grid<Real> = Grid::new();
    grid.wall_init(50, 50, true);
    let left = grid.to_index(49, 50);
    let below = grid.to_index(50, 51);
    grid.cells[left].pressure = Real(1.25);
    grid.cells[left].velocity_x = Real(0.3);
    grid.cells[left].velocity_y = Real(-0.7);
    grid.cells[below].pressure = Real(-0.4);
    grid.cells[below].velocity_y = Real(2.1);
    let force = grid.compute_wall_forces()[grid.to_index(50, 50)];
    let h = 1.0f32 / N as f32;
    let push = |p: f32, vx: f32, vy: f32, nx: f32, ny: f32| {
        let v = vx * nx + vy * ny;
        (
            (-p * nx + 0.5 * v.abs() * v * nx + 0.0 * (vx - v * nx)) * h,
            (-p * ny + 0.5 * v.abs() * v * ny + 0.0 * (vy - v * ny)) * h,
        )
    };
    let a = push(1.25, 0.3, -0.7, -1.0, 0.0);
    let b = push(-0.4, 0.0, 2.1, 0.0, 1.0);
    assert_eq!(force.x.0, a.0 + b.0);
    assert_eq!(force.y.0, a.1 + b.1);
}

#[test]
fn density_and_vorticity_in_single_precision() {
    let mut grid: Grid<Real> = Grid::new();
    let k = grid.to_index(10, 10);
    grid.cells[k].phase = Real(0.3);
    assert_eq!(grid.local_rho(k).0, 1.0 * (1.0 - 0.3f32) + 25.0 * 0.3f32);
    let up = grid.to_index(10, 11);
    let right = grid.to_index(11, 10);
    grid.cells[up].velocity_x = Real(0.7);
    grid.cells[right].velocity_y = Real(0.2);
    assert_eq!(vorticity_at(&grid, 10, 10).0, (0.2f32 - 0.0) / 4.0 - (0.7f32 - 0.0) / 4.0);
}

#[test]
fn water_moves_in_single_precision() {
    let mut grid: Grid<Real> = Grid::new();
    let k = grid.to_index(100, 100);
    grid.cells[k].phase = Real(1.0);
    for cell in grid.cells.iter_mut() {
        cell.velocity_x = Real(0.25);
        cell.velocity_y = Real(-0.5);
    }
    let dt = 1.0f32 / 510.0;
    grid.advect_phase(Real(dt));
    let dt0 = dt * 510.0;
    let x = 100.0 - dt0 * 0.25;
    let y = 100.0 - dt0 * -0.5;
    let s1 = x - 99.0;
    let t0 = 1.0 - (y - 100.0);
    // Only the cell itself holds water: it lies right of the point and above it.
    assert_eq!(grid.cells[k].phase.0, s1 * t0);
    let below = grid.to_index(100, 99);
    let t1 = (99.0 - dt0 * -0.5) - 99.0;
    assert_eq!(grid.cells[below].phase.0, s1 * t1);
}

#[test]
fn containers_lie_where_single_precision_puts_them() {
    let p = BoatParams {
        center: (255, 255),
        hull_width: Real(30.0),
        hull_height: Real(61.5),
        container_width: Real(7.3),
        container_height: Real(8.9),
        container_gap: Real(1.4),
        kind: ContainerLayoutKind::Staggered { rows: 3, cols: 4 },
        flow_angle: Real(0.0),
        curve_bow: false,
        curve_stern: false,
        hull_curvature: Real(0.0),
        bow_length: Real(0.0),
        stern_length: Real(0.0),
        add_bow_fairing: true,
        add_stern_fairing: false,
        fairing_length: Real(3.0),
    };
    let layout = build_boat_layout("s", &p);
    let step_x = 7.3f32 + 1.4;
    let step_y = 8.9f32 + 1.4;
    let mut n = 0;
    for r in 0..3 {
        let offset = if r % 2 == 1 { step_x / 2.0 } else { 0.0 };
        let start = 255 - ((4.0 * step_x - 1.4) / 2.0) as isize + offset as isize;
        let cy = 255 - (61.5f32 / 2.0) as isize
            - (r as f32 * step_y) as isize
            - (8.9f32 / 2.0) as isize
            - 1.4f32 as isize;
        for c in 0..4 {
            let cx = start + (c as f32 * step_x + 7.3 / 2.0) as isize;
            assert_eq!(layout.containers[n].center, (cx, cy));
            assert_eq!(layout.containers[n].id, n);
            n += 1;
        }
    }
    assert_eq!(layout.fairings.len(), 1);
}

#[test]
fn trials_in_single_precision() {
    let p = BoatUiState::<Real>::default().params();
    let layout = build_boat_layout("r", &p);
    let mut grid: Grid<Real> = Grid::new();
    let labels = grid.apply_layout(&layout);
    for (k, cell) in grid.cells.iter_mut().enumerate() {
        cell.pressure = Real((k % 13) as f32 * 0.1);
    }
    let r = test_layout(&layout, &mut grid, &labels, Real(1.0), Real(0.0));
    let forces = grid.compute_wall_forces();
    let total: f64 = forces.iter().map(|f| f.x.0 as f64).sum();
    assert!((total - r.total_drag.0 as f64).abs() < 1e-3);
    assert_eq!(r.score.0, 1.0 * r.total_drag.0.abs() + 1.0 * r.total_torque.0);
    let mut odd = test_layout(&layout, &mut grid, &labels, Real(1.0), Real(0.0));
    odd.score = Real(f32::NAN);
    assert!(check_scores(&vec![r]));
    let good = test_layout(&layout, &mut grid, &labels, Real(1.0), Real(0.0));
    assert!(!check_scores(&vec![good, odd]));
}

#[test]
fn numbers_between_zero_and_one_in_single_precision() {
    let shares: Vec<f32> = (0..=510).map(|k| 1.0 - k as f32 / 510.0).collect();
    for &a in shares.iter() {
        assert_eq!(1.0 - (1.0 - a), a);
        assert!(a <= a.sqrt() && a.sqrt() <= 1.0);
        assert_eq!(0.0 * (1.0 - a) + 0.0 * a, 0.0);
        assert_eq!(1.0 * (1.0 - a) + 1.0 * a, 1.0);
        for &b in shares.iter() {
            assert!(a * b <= a);
            assert!(a * (1.0 - b) + b * b <= 1.0);
        }
    }
}

#[test]
fn a_pointed_end_lies_within_a_rounded_one_in_single_precision() {
    for (tip, height) in [(110, 7.3), (67, 40.0), (101, 3.0), (407, 61.5)] {
        let mut pointed: Grid<Real> = Grid::new();
        pointed.stamp_curved_hull_end(100, tip, 200, Real(height), Real(0.0));
        let mut rounded: Grid<Real> = Grid::new();
        rounded.stamp_curved_hull_end(100, tip, 200, Real(height), Real(1.0));
        assert!(pointed.cells.iter().zip(&rounded.cells).all(|(p, r)| !p.wall || r.wall));
        for y in 100..300 {
            assert_eq!(pointed.cells[pointed.to_index(tip as usize, y)].wall, y == 200);
            assert_eq!(rounded.cells[rounded.to_index(tip as usize, y)].wall, y == 200);
        }
    }
}

#[test]
fn a_picture_of_doubled_pressures_in_single_precision() {
    let mut grid: Grid<Real> = Grid::new();
    grid.wall_init(30, 40, true);
    for (k, cell) in grid.cells.iter_mut().enumerate() {
        cell.pressure = Real((k % 997) as f32 * 0.013 - 5.7);
    }
    let scale = autoscale(&grid, DisplayMode::Pressure);
    let mut first = vec![7u8; 4 * 512 * 512];
    draw_grid(&grid, &mut first, 512, DisplayMode::Pressure, Real(1.8), Real(1.0));
    for cell in grid.cells.iter_mut() {
        cell.pressure = cell.pressure.plus(cell.pressure);
    }
    let mut second = vec![7u8; 4 * 512 * 512];
    draw_grid(&grid, &mut second, 512, DisplayMode::Pressure, Real(1.8), Real(1.0));
    assert_eq!(autoscale(&grid, DisplayMode::Pressure).0, 2.0 * scale.0);
    assert!(first == second);
}

#[test]
fn no_time_and_one_fluid_in_single_precision() {
    let mut grid: Grid<Real> = Grid::new();
    grid.rectangle(200, 200, Real(9.0), Real(5.0));
    let walls = grid.cells.iter().filter(|c| c.wall).count();
    for (k, cell) in grid.cells.iter_mut().enumerate() {
        cell.phase = Real((k % 101) as f32 / 100.0);
        cell.velocity_x = Real((k % 31) as f32 - 15.0);
        cell.velocity_y = Real((k % 17) as f32 * -0.37);
    }
    let before: Vec<f32> = grid.cells.iter().map(|c| c.phase.0).collect();
    let volume = grid.water_volume();
    grid.advect_phase(Real(0.0));
    assert!(grid.cells.iter().zip(before).all(|(c, p)| c.phase.0 == p));
    assert_eq!(grid.water_volume(), volume);
    for phase in [1.0, 1.5] {
        grid.fill_uniform_phase(Real(phase));
        assert_eq!(grid.water_volume().0, (512 * 512 - walls) as f32);
    }
    for phase in [0.0, -2.0] {
        grid.fill_uniform_phase(Real(phase));
        assert_eq!(grid.water_volume().0, 0.0);
    }
}

#[test]
fn fixed_point_numbers() {
    let whole = |n: i64| Fixed { raw: n * ONE };
    assert_eq!(whole(7).over(whole(2)).raw, 7 * ONE / 2);
    assert_eq!(whole(-7).over(whole(2)).raw, -7 * ONE / 2);
    assert_eq!(whole(1).over(whole(0)).raw, i64::MAX);
    assert_eq!(whole(-1).over(whole(0)).raw, i64::MIN);
    assert_eq!(whole(9).root(), whole(3));
    assert_eq!(whole(2).root().raw, 721_248_916);
    assert_eq!(whole(-4).root(), whole(0));
    assert_eq!(Fixed { raw: 3 * ONE / 2 }.rounded(), 2);
    assert_eq!(Fixed { raw: -3 * ONE / 2 }.rounded(), -2);
    assert_eq!(Fixed { raw: -3 * ONE / 2 }.truncated(), -1);
    assert_eq!(Fixed { raw: i64::MAX }.plus(whole(1)).raw, i64::MAX);
    assert_eq!(Fixed { raw: i64::MIN }.negated().raw, i64::MAX);
    assert_eq!(Fixed::whole(usize::MAX).raw, i64::MAX);
    assert_eq!(whole(-3).size(), whole(3));
    assert_eq!(whole(3).times(Fixed { raw: -1 }).raw, -3);
    // The width of a cell and the decimal constants are exact.
    assert_eq!(ratio::<Fixed>(1, 510).times(whole(510)), whole(1));
    assert_eq!(ratio::<Fixed>(1, 1000000).times(whole(1000000)), whole(1));
    assert_eq!(gravity_y::<Fixed>().times(whole(100)), whole(981));
    assert_eq!(time_step::<Fixed>().times(whole(60)), whole(1));
    assert_eq!(ratio::<Fixed>(1, 7).times(whole(7)).raw, ONE - 6);
}
