use windtunnel::boat::{ContainerLayoutKind, Draws};
use windtunnel::display::DisplayMode;
use windtunnel::fixed::{Fixed, ONE};
use windtunnel::grid::Grid;
use windtunnel::history::{ForceHistories, TickHistory};
use windtunnel::pressure_computation::ObjectForce;
use windtunnel::report::{orientation, Orientation};
use windtunnel::scenario::{
    apply_shape, fixed_walls, hole_positions, inject_for_config, setup_config, BoatUiState,
    ConfigKind, FixedWalls, Injection, ScenarioUiState, ShapeKind, ShapeWalls, SimParams,
};
use windtunnel::session::Session;
use windtunnel::vector::Vector2;

fn whole(n: i64) -> Fixed {
    Fixed { raw: n * ONE }
}

fn object(id: usize, drag: i64, cells: usize, x: i64) -> ObjectForce<Fixed> {
    ObjectForce {
        id,
        center_of_mass: Vector2 { x: whole(x), y: whole(1) },
        total_force: Vector2 { x: whole(drag), y: whole(0) },
        torque: whole(-drag),
        cell_count: cells,
    }
}

fn walls(grid: &Grid<Fixed>) -> usize {
    grid.cells.iter().filter(|c| c.wall).count()
}

#[test]
fn histories_slide() {
    let mut h: ForceHistories<Fixed> = ForceHistories::new(3);
    for step in 0..5 {
        h.push(&vec![object(1, step, 30, 7), object(4, 10 * step, 5, 9)]);
    }
    assert_eq!(h.step, 5);
    assert_eq!(h.per_object.len(), 2);
    let one = &h.per_object[&1];
    assert_eq!(one.drag, vec![(2, whole(2)), (3, whole(3)), (4, whole(4))]);
    assert_eq!(one.torque, vec![(2, whole(-2)), (3, whole(-3)), (4, whole(-4))]);
    for (drag, torque) in one.drag.iter().zip(one.torque.iter()) {
        assert_eq!(drag.0, torque.0);
    }
    assert_eq!(one.last_cell_count, 30);
    assert_eq!(one.last_center_x, whole(7));
    assert_eq!(h.per_object[&4].drag[2], (4, whole(40)));
}

#[test]
fn objects_come_and_go() {
    let mut h: ForceHistories<Fixed> = ForceHistories::new(10);
    h.push(&vec![object(1, 1, 3, 0)]);
    h.push(&vec![]);
    h.push(&vec![object(1, 2, 4, 0), object(2, 3, 5, 0)]);
    assert_eq!(h.per_object[&1].drag, vec![(0, whole(1)), (2, whole(2))]);
    assert_eq!(h.per_object[&2].drag, vec![(2, whole(3))]);
    assert_eq!(h.per_object[&1].last_cell_count, 4);
    h.clear();
    assert!(h.per_object.is_empty());
    assert_eq!(h.step, 0);
    assert_eq!(h.max_points, 10);
}

#[test]
fn a_history_without_room_keeps_nothing() {
    let mut h: ForceHistories<Fixed> = ForceHistories::new(0);
    h.push(&vec![object(1, 1, 3, 0)]);
    assert!(h.per_object[&1].drag.is_empty());
    assert!(h.per_object[&1].torque.is_empty());
    assert_eq!(h.per_object[&1].last_cell_count, 3);
}

#[test]
fn objects_are_shown_by_size_and_column() {
    let mut h: ForceHistories<Fixed> = ForceHistories::new(10);
    h.push(&vec![
        object(9, 0, 20, 100),
        object(2, 0, 19, 100),
        object(5, 0, 50, 40),
        object(1, 0, 21, 50),
        object(3, 0, 20, 49),
    ]);
    assert_eq!(h.shown_ids(20, whole(50)), vec![1, 9]);
    assert_eq!(h.shown_ids(0, whole(0)), vec![1, 2, 3, 5, 9]);
    assert_eq!(h.shown_ids(51, whole(0)), Vec::<usize>::new());
}

#[test]
fn times_of_steps_slide() {
    let mut t: TickHistory<f64> = TickHistory::new(2);
    for ms in [5.0, 6.0, 7.0] {
        t.push(ms);
    }
    assert_eq!(t.points, vec![(1, 6.0), (2, 7.0)]);
    assert_eq!(t.step, 3);
}

#[test]
fn settings_at_the_beginning() {
    let p: SimParams<Fixed> = SimParams::default();
    assert_eq!(p.flow_velocity.raw, 27 * ONE / 10);
    assert_eq!(p.flow_density, whole(15));
    assert_eq!(p.viscosity, whole(0));
    assert!(!p.paused && !p.straight_line_mode);
    assert_eq!(p.pen_size, 1);
    assert_eq!(p.display_mode, DisplayMode::Density);
    assert_eq!(p.min_cells_to_plot, 20);
    assert_eq!(p.vorticity_gain.raw, 9 * ONE / 5);
    let s: ScenarioUiState<Fixed> = ScenarioUiState::default();
    assert_eq!(s.shape, ShapeKind::Nothing);
    assert_eq!(s.shape_size, whole(40));
    assert_eq!(s.config, ConfigKind::ClassicFlow);
    assert!(s.center_source_radial);
    let b: BoatUiState<Fixed> = BoatUiState::default();
    assert_eq!((b.rows, b.cols, b.kind_index, b.random_batch_size), (3, 3, 0, 8));
    assert_eq!(b.hull_height, whole(60));
    assert_eq!(b.hull_curvature.raw, 3 * ONE / 5);
}

#[test]
fn the_ship_that_is_set_up() {
    let mut b: BoatUiState<Fixed> = BoatUiState::default();
    let p = b.params();
    assert_eq!(p.center, (255, 255));
    assert!(matches!(p.kind, ContainerLayoutKind::Grid { rows: 3, cols: 3 }));
    assert_eq!(p.flow_angle, whole(0));
    assert_eq!(p.container_gap, whole(1));
    b.rows = 5;
    b.cols = 2;
    b.kind_index = 1;
    assert!(matches!(b.params().kind, ContainerLayoutKind::Pyramid { rows: 5 }));
    b.kind_index = 2;
    assert!(matches!(b.params().kind, ContainerLayoutKind::Staggered { rows: 5, cols: 2 }));
    b.kind_index = 77;
    assert!(matches!(b.params().kind, ContainerLayoutKind::Staggered { rows: 5, cols: 2 }));
}

#[test]
fn shapes_in_the_middle() {
    assert!(matches!(apply_shape(ShapeKind::Nothing, whole(40)), ShapeWalls::Nothing));
    match apply_shape(ShapeKind::Rectangle, whole(40)) {
        ShapeWalls::Rectangle { cx, cy, width, height } => {
            assert_eq!((cx, cy), (255, 255));
            assert_eq!(width, whole(40));
            assert!((height.raw - 24 * ONE).abs() <= 40);
        }
        _ => panic!(),
    }
    match apply_shape(ShapeKind::Circle, whole(40)) {
        ShapeWalls::Circle { cx, cy, radius } => {
            assert_eq!((cx, cy), (255, 255));
            assert_eq!(radius, whole(20));
        }
        _ => panic!(),
    }
    assert!(matches!(
        apply_shape(ShapeKind::Triangle, whole(4)),
        ShapeWalls::Triangle { cx: 255, cy: 255, .. }
    ));
    assert!(matches!(
        apply_shape(ShapeKind::Square, whole(4)),
        ShapeWalls::Square { cx: 255, cy: 255, .. }
    ));
}

#[test]
fn walls_and_water_of_a_configuration() {
    assert_eq!(fixed_walls(ConfigKind::ClassicFlow), FixedWalls::WindTunnel);
    assert_eq!(fixed_walls(ConfigKind::CenterSource), FixedWalls::Nothing);
    assert_eq!(fixed_walls(ConfigKind::KarmanVortex), FixedWalls::KarmanVortex);
    let mut grid: Grid<Fixed> = Grid::new();
    grid.wall_init(400, 400, true);
    setup_config(&mut grid);
    assert_eq!(grid.cells[grid.to_index(9, 305)].phase, whole(0));
    assert_eq!(grid.cells[grid.to_index(9, 306)].phase, whole(1));
    assert_eq!(grid.cells[grid.to_index(400, 400)].phase, whole(0));
}

#[test]
fn what_keeps_the_fluid_flowing() {
    let mut grid: Grid<Fixed> = Grid::new();
    grid.wall_init(7, 1, true);
    let mut p: SimParams<Fixed> = SimParams::default();
    p.flow_velocity = whole(0);
    let mut s: ScenarioUiState<Fixed> = ScenarioUiState::default();
    s.center_source_radial = false;
    match inject_for_config(&mut grid, ConfigKind::ClassicFlow, &p, &s) {
        Injection::WindTunnel { density, velocity } => {
            assert_eq!(density, whole(15));
            assert_eq!(velocity, whole(0));
        }
        _ => panic!(),
    }
    match inject_for_config(&mut grid, ConfigKind::CenterSource, &p, &s) {
        Injection::CenterSource { radius, density, velocity, radial } => {
            assert_eq!(radius.raw, 510 * ONE / 40);
            assert_eq!(density, whole(15));
            assert_eq!(velocity.raw, ONE / 10);
            assert!(!radial);
        }
        _ => panic!(),
    }
    assert!(grid.cells.iter().all(|c| c.density == whole(0)));
    p.flow_velocity = whole(3);
    assert!(matches!(
        inject_for_config(&mut grid, ConfigKind::KarmanVortex, &p, &s),
        Injection::FirstColumn
    ));
    for y in 0..512 {
        let cell = grid.cells[grid.to_index(1, y)];
        let inside = y >= 1 && y <= 510 && y != 7;
        assert_eq!(cell.density, whole(if inside { 15 } else { 0 }));
        assert_eq!(cell.velocity_x, whole(if inside { 3 } else { 0 }));
    }
    assert_eq!(grid.cells[grid.to_index(2, 5)].density, whole(0));
}

#[test]
fn holes_are_even() {
    let holes = hole_positions();
    assert_eq!(holes.len(), 255);
    assert_eq!(holes[0], 2);
    assert_eq!(holes[254], 510);
    assert!(holes.iter().all(|x| x % 2 == 0));
}

#[test]
fn reports_of_the_objects() {
    let mut grid: Grid<Fixed> = Grid::new();
    assert!(grid.report_object_forces().is_none());
    grid.rectangle(50, 50, whole(2), whole(2));
    // Nine cells are too few.
    assert!(grid.report_object_forces().unwrap().is_empty());
    grid.rectangle(100, 100, whole(4), whole(2));
    let k = grid.to_index(97, 100);
    grid.cells[k].pressure = whole(510);
    let reports = grid.report_object_forces().unwrap();
    assert_eq!(reports.len(), 1);
    assert_eq!(reports[0].object.cell_count, 15);
    assert_eq!(reports[0].magnitude.raw, ONE);
    let direction = reports[0].direction.unwrap();
    assert_eq!(direction.x, whole(1));
    assert_eq!(direction.y, whole(0));
    grid.cells[k].pressure = whole(0);
    assert!(grid.report_object_forces().unwrap()[0].direction.is_none());
}

#[test]
fn orientations() {
    let half = |n: i64| orientation(Fixed { raw: n * ONE / 2 });
    assert_eq!(half(0), Orientation::Right);
    assert_eq!(half(45), Orientation::Right);
    assert_eq!(half(-45), Orientation::DownRight);
    assert_eq!(half(46), Orientation::UpRight);
    assert_eq!(half(135), Orientation::UpRight);
    assert_eq!(half(180), Orientation::Up);
    assert_eq!(half(225), Orientation::Up);
    assert_eq!(half(270), Orientation::UpLeft);
    assert_eq!(half(315), Orientation::UpLeft);
    assert_eq!(half(316), Orientation::Left);
    assert_eq!(half(360), Orientation::Left);
    assert_eq!(half(-360), Orientation::Left);
    assert_eq!(half(-315), Orientation::Left);
    assert_eq!(half(-270), Orientation::DownLeft);
    assert_eq!(half(-225), Orientation::DownLeft);
    assert_eq!(half(-180), Orientation::Down);
    assert_eq!(half(-135), Orientation::Down);
    assert_eq!(half(-90), Orientation::DownRight);
}

#[test]
fn a_session_goes_on_and_begins_anew() {
    let mut s: Session<Fixed> = Session::new(Grid::new());
    assert!(s.advances(false));
    s.params.paused = true;
    assert!(!s.advances(false));
    assert!(s.advances(true));
    s.moved(30, 30);
    s.press();
    s.moved(33, 30);
    s.release();
    assert_eq!(walls(&s.grid), 4);
    assert!(matches!(s.inject(), Injection::WindTunnel { .. }));
    assert!(s.grid.wall_topology_dirty);
    s.record_step();
    assert!(!s.grid.wall_topology_dirty);
    s.record_step();
    assert!(!s.grid.wall_topology_dirty);
    assert_eq!(s.step, 2);
    assert_eq!(s.history.step, 2);
    assert_eq!(s.history.per_object[&1].drag.len(), 2);
    assert_eq!(s.history.per_object[&1].last_cell_count, 4);
    s.scenario.shape = ShapeKind::Square;
    assert!(matches!(s.restart(), ShapeWalls::Square { .. }));
    assert_eq!(walls(&s.grid), 0);
    assert_eq!(s.history.max_points, 300);
    assert_eq!(s.step, 0);
    assert!(s.history.per_object.is_empty());
    assert!(s.params.paused);
}

#[test]
fn a_session_with_a_ship() {
    let mut s: Session<Fixed> = Session::new(Grid::new());
    s.moved(3, 3);
    s.press();
    s.record_step();
    let layout = s.apply_boat();
    assert_eq!(layout.name, "custom");
    assert_eq!(layout.containers.len(), 9);
    assert_eq!(s.step, 0);
    assert!(s.history.per_object.is_empty());
    assert!(!s.grid.cells[s.grid.to_index(3, 3)].wall);
    assert!(s.grid.cells[s.grid.to_index(255, 255)].wall);
    let draws = Draws {
        gap: whole(1),
        curve_bow: false,
        curve_stern: false,
        curvature: whole(0),
        add_bow_fairing: false,
        add_stern_fairing: false,
        fairing_length: whole(2),
    };
    let mut rng = rand::rng();
    let layout = s.apply_random_boat(&mut rng, &draws);
    assert_eq!(layout.name, "alea_apercu");
    assert_eq!(s.history.max_points, 300);
    assert!(layout.hull_curve.is_none());
    assert!(walls(&s.grid) >= 31 * 61);
}
