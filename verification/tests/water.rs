use windtunnel::conditions::{
    gravity_x, gravity_y, max_velocity, time_step, water_level, CELLS, N,
};
use windtunnel::fixed::{Fixed, ONE};
use windtunnel::grid::Grid;

fn whole(n: i64) -> Fixed {
    Fixed { raw: n * ONE }
}

fn half() -> Fixed {
    Fixed { raw: ONE / 2 }
}

#[test]
fn density_lies_between_air_and_water() {
    let mut grid: Grid<Fixed> = Grid::new();
    assert_eq!(grid.local_rho(0), whole(1));
    grid.cells[0].phase = whole(1);
    assert_eq!(grid.local_rho(0), whole(25));
    grid.cells[0].phase = half();
    assert_eq!(grid.local_rho(0), whole(13));
    grid.cells[0].phase = whole(3);
    assert_eq!(grid.local_rho(0), whole(25));
    grid.cells[0].phase = whole(-3);
    assert_eq!(grid.local_rho(0), whole(1));
}

#[test]
fn water_fills_the_grid_from_its_level_down() {
    let mut grid: Grid<Fixed> = Grid::new();
    grid.wall_init(400, 20, true);
    grid.init_water(whole(300));
    for x in [0, 1, 20, 511] {
        assert_eq!(grid.cells[grid.to_index(x, 299)].phase, whole(0));
        assert_eq!(grid.cells[grid.to_index(x, 300)].phase, whole(1));
        assert_eq!(grid.cells[grid.to_index(x, 511)].phase, whole(1));
    }
    let k = grid.to_index(20, 400);
    assert_eq!(grid.cells[k].phase, whole(0));
    assert!(grid.cells[k].wall);
    assert_eq!(grid.water_volume(), whole(212 * 512 - 1));
    grid.init_water(Fixed { raw: 300 * ONE + 1 });
    assert_eq!(grid.cells[grid.to_index(1, 300)].phase, whole(0));
    assert_eq!(grid.cells[grid.to_index(1, 301)].phase, whole(1));
}

#[test]
fn the_level_at_the_beginning() {
    let level: Fixed = water_level();
    // Six tenths of 510.
    assert_eq!(level, whole(306));
}

#[test]
fn one_fluid_everywhere() {
    let mut grid: Grid<Fixed> = Grid::new();
    grid.wall_init(5, 5, true);
    grid.fill_uniform_phase(whole(2));
    assert_eq!(grid.water_volume(), whole(CELLS as i64 - 1));
    grid.fill_uniform_phase(whole(0));
    assert_eq!(grid.water_volume(), whole(0));
    assert!(grid.cells.iter().all(|c| c.phase == whole(0)));
    grid.fill_uniform_phase(whole(-1));
    assert!(grid.cells.iter().all(|c| c.phase == whole(0)));
}

#[test]
fn gravity_pushes_every_side_once() {
    let mut grid: Grid<Fixed> = Grid::new();
    grid.apply_gravity(whole(2), whole(6), half());
    for (x, y) in [(1, 1), (100, 200), (N, 200), (100, N), (N, N)] {
        let cell = grid.cells[grid.to_index(x, y)];
        assert_eq!(cell.velocity_x, whole(1));
        assert_eq!(cell.velocity_y, whole(3));
    }
    // The sides on the far borders belong to the border cells.
    let cell = grid.cells[grid.to_index(N + 1, 9)];
    assert_eq!((cell.velocity_x, cell.velocity_y), (whole(1), whole(0)));
    let cell = grid.cells[grid.to_index(9, N + 1)];
    assert_eq!((cell.velocity_x, cell.velocity_y), (whole(0), whole(3)));
    for (x, y) in [(0, 9), (9, 0), (0, 0), (N + 1, N + 1), (N + 1, 0)] {
        let cell = grid.cells[grid.to_index(x, y)];
        assert_eq!((cell.velocity_x, cell.velocity_y), (whole(0), whole(0)));
    }
    assert!(grid.cells.iter().all(|c| c.pressure == whole(0) && c.phase == whole(0) && !c.wall));
    let mut grid: Grid<Fixed> = Grid::new();
    grid.apply_gravity(whole(0), whole(0), whole(1));
    assert!(grid.cells.iter().all(|c| c.velocity_x == whole(0) && c.velocity_y == whole(0)));
}

#[test]
fn gravity_skips_the_sides_next_to_a_wall() {
    let mut grid: Grid<Fixed> = Grid::new();
    grid.wall_init(7, 7, true);
    grid.apply_gravity(whole(2), whole(6), half());
    let at = |x: usize, y: usize| {
        let cell = grid.cells[grid.to_index(x, y)];
        (cell.velocity_x, cell.velocity_y)
    };
    assert_eq!(at(7, 7), (whole(0), whole(0)));
    assert_eq!(at(8, 7), (whole(0), whole(3)));
    assert_eq!(at(7, 8), (whole(1), whole(0)));
    assert_eq!(at(6, 7), (whole(1), whole(3)));
    assert_eq!(at(7, 6), (whole(1), whole(3)));
    assert_eq!(at(8, 8), (whole(1), whole(3)));
}

#[test]
fn gravity_of_the_simulation() {
    let mut grid: Grid<Fixed> = Grid::new();
    grid.apply_gravity(gravity_x(), gravity_y(), time_step());
    let cell = grid.cells[grid.to_index(50, 50)];
    assert_eq!(cell.velocity_x, whole(0));
    // 9.81 and 1 / 60 in steps of the number type, and their product.
    assert_eq!(cell.velocity_y.raw, (981 * ONE / 100) * (ONE / 60) / ONE);
    grid.clamp_velocity_field(max_velocity());
    assert_eq!(max_velocity::<Fixed>(), whole(15));
}

#[test]
fn no_time_changes_nothing() {
    let mut grid: Grid<Fixed> = Grid::new();
    for (k, cell) in grid.cells.iter_mut().enumerate() {
        cell.phase = Fixed { raw: (k as i64 * 1_234_567) % (ONE + 1) };
        cell.velocity_x = Fixed { raw: (k as i64 % 1000) * ONE };
        cell.velocity_y = Fixed { raw: -(k as i64 % 77) * ONE };
    }
    let before: Vec<i64> = grid.cells.iter().map(|c| c.phase.raw).collect();
    let volume = grid.water_volume();
    grid.advect_phase(whole(0));
    assert!(grid.cells.iter().zip(before).all(|(c, p)| c.phase.raw == p));
    assert_eq!(grid.water_volume(), volume);
}

#[test]
fn walls_hold_no_water() {
    let mut grid: Grid<Fixed> = Grid::new();
    grid.fill_uniform_phase(whole(1));
    grid.wall_init(5, 5, true);
    grid.wall_init(6, 5, true);
    grid.fill_uniform_phase(whole(7));
    assert_eq!(grid.water_volume(), whole(CELLS as i64 - 2));
    grid.fill_uniform_phase(whole(0));
    assert_eq!(grid.water_volume(), whole(0));
    assert_eq!(grid.cells[grid.to_index(5, 5)].phase, whole(1));
}

#[test]
fn samples_between_cells_are_weighted() {
    let mut grid: Grid<Fixed> = Grid::new();
    let k = grid.to_index(10, 20);
    grid.cells[k].phase = whole(1);
    assert_eq!(grid.sample_phase(whole(10), whole(20), whole(0)), whole(1));
    let x = Fixed { raw: 10 * ONE + ONE / 4 };
    assert_eq!(grid.sample_phase(x, whole(20), whole(0)).raw, 3 * ONE / 4);
    let y = Fixed { raw: 19 * ONE + ONE / 2 };
    assert_eq!(grid.sample_phase(x, y, whole(0)).raw, 3 * ONE / 8);
    // A wall counts as the fallback.
    grid.wall_init(20, 10, true);
    assert_eq!(grid.sample_phase(whole(10), whole(20), half()), half());
    // Points beyond the borders are moved to them.
    let k = grid.to_index(1, 1);
    grid.cells[k].phase = whole(1);
    assert_eq!(grid.sample_phase(whole(-7), whole(1), whole(0)), half());
    // Beyond the last column there is the fallback.
    assert_eq!(grid.sample_phase(whole(900), whole(5), whole(1)).raw, ONE / 2);
}

#[test]
fn water_moves_with_the_fluid() {
    let mut grid: Grid<Fixed> = Grid::new();
    let from = grid.to_index(100, 100);
    grid.cells[from].phase = whole(1);
    for cell in grid.cells.iter_mut() {
        cell.velocity_x = whole(1);
    }
    // Three cells for each unit of velocity.
    grid.advect_phase(Fixed { raw: 3 * ONE / 510 });
    assert_eq!(grid.cells[grid.to_index(103, 100)].phase, whole(1));
    assert!(grid.cells[from].phase.raw == 0);
    assert!(grid.cells.iter().all(|c| c.phase.raw >= 0 && c.phase.raw <= ONE));
}

#[test]
fn each_cell_gets_its_own_share() {
    let mut grid: Grid<Fixed> = Grid::new();
    for y in 0..512 {
        for x in 0..512 {
            let k = grid.to_index(x, y);
            grid.cells[k].phase = Fixed { raw: 2 * ((x * 7 + y * 13) % 64) as i64 };
            grid.cells[k].velocity_x = whole(500_000);
        }
    }
    let before: Vec<i64> = grid.cells.iter().map(|c| c.phase.raw).collect();
    // One step of the number type, times 510, times 500000 is half a cell.
    grid.advect_phase(Fixed { raw: 1 });
    for (x, y) in [(50, 60), (200, 3), (510, 510), (33, 257)] {
        let k = grid.to_index(x, y);
        let left = grid.to_index(x - 1, y);
        assert_eq!(grid.cells[k].phase.raw, (before[left] + before[k]) / 2);
    }
    for (x, y) in [(0, 5), (511, 5), (5, 0), (5, 511)] {
        let k = grid.to_index(x, y);
        assert_eq!(grid.cells[k].phase.raw, before[k]);
    }
}

#[test]
fn still_water_stays() {
    let mut grid: Grid<Fixed> = Grid::new();
    grid.init_water(whole(256));
    grid.wall_init(300, 300, true);
    let before: Vec<i64> = grid.cells.iter().map(|c| c.phase.raw).collect();
    grid.advect_phase(whole(1));
    assert!(grid.cells.iter().zip(before).all(|(c, p)| c.phase.raw == p));
    assert_eq!(grid.water_volume(), whole(256 * 512 - 1));
}

#[test]
fn velocities_are_limited() {
    let mut grid: Grid<Fixed> = Grid::new();
    let a = grid.to_index(3, 3);
    let b = grid.to_index(4, 4);
    grid.cells[a].velocity_x = whole(20);
    grid.cells[a].velocity_y = whole(-30);
    grid.wall_init(4, 4, true);
    grid.cells[b].velocity_x = whole(99);
    grid.clamp_velocity_field(whole(15));
    assert_eq!(grid.cells[a].velocity_x, whole(15));
    assert_eq!(grid.cells[a].velocity_y, whole(-15));
    assert_eq!(grid.cells[b].velocity_x, whole(99));
    grid.clamp_velocity_field(whole(15));
    assert_eq!(grid.cells[a].velocity_x, whole(15));
}
