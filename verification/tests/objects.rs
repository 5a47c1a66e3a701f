use windtunnel::conditions::CELLS;
use windtunnel::fixed::{Fixed, ONE};
use windtunnel::grid::Grid;
use windtunnel::scalar::Scalar;

fn whole(n: i64) -> Fixed {
    Fixed { raw: n * ONE }
}

#[test]
fn two_objects_are_numbered_in_cell_order() {
    let mut grid: Grid<Fixed> = Grid::new();
    grid.wall_init(3, 3, true);
    grid.wall_init(3, 4, true);
    grid.wall_init(100, 7, true);
    let ids = grid.identify_objects();
    let a = grid.to_index(3, 3);
    let b = grid.to_index(4, 3);
    let c = grid.to_index(7, 100);
    assert_eq!(ids[a], 1);
    assert_eq!(ids[b], 1);
    assert_eq!(ids[c], 2);
    assert_eq!(ids.iter().filter(|&&id| id != 0).count(), 3);
    assert_eq!(grid.max_object_id_cache, 2);
}

#[test]
fn walls_that_touch_at_a_corner_are_two_objects() {
    let mut grid: Grid<Fixed> = Grid::new();
    grid.wall_init(10, 10, true);
    grid.wall_init(11, 11, true);
    let ids = grid.identify_objects();
    assert_ne!(ids[grid.to_index(10, 10)], ids[grid.to_index(11, 11)]);
}

#[test]
fn a_bent_wall_is_one_object() {
    let mut grid: Grid<Fixed> = Grid::new();
    for x in 5..40 {
        grid.wall_init(5, x, true);
    }
    for y in 5..40 {
        grid.wall_init(y, 39, true);
    }
    for x in 20..40 {
        grid.wall_init(39, x, true);
    }
    let objects = grid.compute_object_forces();
    assert_eq!(objects.len(), 1);
    assert_eq!(objects[0].id, 1);
    assert_eq!(objects[0].cell_count, 35 + 34 + 19);
}

#[test]
fn an_empty_grid_has_no_objects() {
    let mut grid: Grid<Fixed> = Grid::new();
    assert!(grid.compute_object_forces().is_empty());
    assert!(grid.identify_objects().iter().all(|&id| id == 0));
    assert!(!grid.wall_topology_dirty);
}

#[test]
fn walls_at_the_corners_of_the_grid_are_found() {
    let mut grid: Grid<Fixed> = Grid::new();
    grid.wall_init(0, 0, true);
    grid.wall_init(511, 511, true);
    let ids = grid.identify_objects();
    assert_eq!(ids[0], 1);
    assert_eq!(ids[CELLS - 1], 2);
    assert_eq!(grid.wall_cells_cache, vec![0, CELLS - 1]);
}

#[test]
fn objects_are_identified_again_only_when_walls_change() {
    let mut grid: Grid<Fixed> = Grid::new();
    grid.wall_init(8, 8, true);
    let _ = grid.identify_objects();
    assert!(!grid.wall_topology_dirty);
    grid.wall_init(8, 8, true);
    assert!(!grid.wall_topology_dirty);
    grid.wall_init(8, 9, true);
    assert!(grid.wall_topology_dirty);
    let _ = grid.identify_objects();
    grid.wall_init(8, 8, false);
    assert!(grid.wall_topology_dirty);
    grid.wall_init(600, 3, true);
    assert_eq!(grid.identify_objects().iter().filter(|&&id| id == 1).count(), 1);
}

#[test]
fn pressure_pushes_a_wall_away_from_the_fluid() {
    let mut grid: Grid<Fixed> = Grid::new();
    grid.wall_init(50, 50, true);
    let left = grid.to_index(49, 50);
    grid.cells[left].pressure = whole(510);
    let forces = grid.compute_wall_forces();
    let k = grid.to_index(50, 50);
    // One side of a cell is one over 510 long.
    assert_eq!(forces[k].x.raw, ONE);
    assert_eq!(forces[k].y.raw, 0);
    assert_eq!(forces.len(), CELLS);
    assert!(forces.iter().enumerate().all(|(n, f)| n == k || (f.x.raw == 0 && f.y.raw == 0)));
}

#[test]
fn drag_grows_with_the_square_of_the_velocity() {
    let mut grid: Grid<Fixed> = Grid::new();
    grid.wall_init(50, 50, true);
    let right = grid.to_index(51, 50);
    grid.cells[right].velocity_x = whole(4);
    let forces = grid.compute_wall_forces();
    let k = grid.to_index(50, 50);
    // A half of 4 times 4 is 8.
    assert_eq!(forces[k].x.raw, 8 * ONE / 510);
    grid.cells[right].velocity_x = whole(-4);
    let forces = grid.compute_wall_forces();
    assert_eq!(forces[k].x.raw, -8 * ONE / 510);
}

#[test]
fn a_wall_among_walls_bears_no_force() {
    let mut grid: Grid<Fixed> = Grid::new();
    for y in 99..102 {
        for x in 99..102 {
            grid.wall_init(y, x, true);
        }
    }
    for cell in grid.cells.iter_mut() {
        cell.pressure = whole(7);
        cell.velocity_y = whole(2);
    }
    let forces = grid.compute_wall_forces();
    let k = grid.to_index(100, 100);
    assert_eq!(forces[k].x.raw, 0);
    assert_eq!(forces[k].y.raw, 0);
}

#[test]
fn still_fluid_bears_on_nothing() {
    let mut grid: Grid<Fixed> = Grid::new();
    grid.rectangle(200, 200, whole(9), whole(5));
    let objects = grid.compute_object_forces();
    assert_eq!(objects.len(), 1);
    assert_eq!(objects[0].total_force.x.raw, 0);
    assert_eq!(objects[0].total_force.y.raw, 0);
    assert_eq!(objects[0].torque.raw, 0);
}

#[test]
fn centre_force_and_moment_of_an_object() {
    let mut grid: Grid<Fixed> = Grid::new();
    // Three cells in one row, and pressure from above on the last.
    for x in 10..13 {
        grid.wall_init(20, x, true);
    }
    let above = grid.to_index(12, 19);
    grid.cells[above].pressure = whole(510);
    let objects = grid.compute_object_forces();
    assert_eq!(objects.len(), 1);
    let object = objects[0];
    assert_eq!(object.cell_count, 3);
    assert_eq!(object.center_of_mass.x, whole(11));
    assert_eq!(object.center_of_mass.y, whole(20));
    assert_eq!(object.total_force.x.raw, 0);
    assert_eq!(object.total_force.y.raw, ONE);
    assert_eq!(object.torque.raw, ONE);
}

#[test]
fn a_moment_about_the_middle_between_two_cells() {
    let mut grid: Grid<Fixed> = Grid::new();
    grid.wall_init(20, 10, true);
    grid.wall_init(20, 11, true);
    let above = grid.to_index(10, 19);
    grid.cells[above].pressure = whole(510);
    let object = grid.compute_object_forces()[0];
    assert_eq!(object.center_of_mass.x.raw, 21 * ONE / 2);
    assert_eq!(object.total_force.y, whole(1));
    // The force of one acts half a cell to the left of the centre.
    assert_eq!(object.torque.raw, -ONE / 2);
    grid.cells[above].pressure = whole(0);
    let right = grid.to_index(12, 20);
    grid.cells[right].pressure = whole(510);
    let object = grid.compute_object_forces()[0];
    assert_eq!(object.total_force.x, whole(-1));
    assert_eq!(object.torque, whole(0));
}

#[test]
fn the_objects_share_out_the_walls() {
    let mut grid: Grid<Fixed> = Grid::new();
    grid.rectangle(100, 100, whole(20), whole(10));
    grid.rectangle(300, 80, whole(6), whole(6));
    grid.wall_init(400, 400, true);
    let objects = grid.compute_object_forces();
    assert_eq!(objects.len(), 3);
    let total: usize = objects.iter().map(|o| o.cell_count).sum();
    assert_eq!(total, 21 * 11 + 7 * 7 + 1);
    assert_eq!(total, grid.wall_cells_cache.len());
    for (n, object) in objects.iter().enumerate() {
        assert_eq!(object.id, n + 1);
        assert!(object.cell_count >= 1);
    }
    assert!(Fixed::whole(1).below(Fixed::whole(2)));
}

#[test]
fn what_is_known_of_the_objects_is_left_as_it_is() {
    let mut grid: Grid<Fixed> = Grid::new();
    grid.rectangle(100, 100, whole(20), whole(10));
    grid.refresh_wall_topology_cache();
    assert!(!grid.wall_topology_dirty);
    let ids = grid.object_ids_cache.clone();
    let walls = grid.wall_cells_cache.clone();
    grid.refresh_wall_topology_cache();
    let _ = grid.compute_object_forces();
    assert_eq!(grid.object_ids_cache, ids);
    assert_eq!(grid.wall_cells_cache, walls);
    assert_eq!(grid.max_object_id_cache, 1);
    assert!(!grid.wall_topology_dirty);
}
