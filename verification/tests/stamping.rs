use windtunnel::conditions::{gravity, CELLS, N, SIDE};
use windtunnel::fixed::{Fixed, ONE};
use windtunnel::grid::Grid;
use windtunnel::morton::{decode, encode};
use windtunnel::pen::{bresenham_line, stamp_wall, Pen};
use windtunnel::vector::Vector22;

fn whole(n: i64) -> Fixed {
    Fixed { raw: n * ONE }
}

fn wall(grid: &Grid<Fixed>, x: usize, y: usize) -> bool {
    grid.cells[grid.to_index(x, y)].wall
}

fn count(grid: &Grid<Fixed>) -> usize {
    grid.cells.iter().filter(|c| c.wall).count()
}

#[test]
fn the_second_grid_has_no_gravity() {
    let g: Vector22<Fixed> = gravity();
    assert_eq!(g.x, whole(0));
    assert_eq!(g.y, whole(0));
}

#[test]
fn cells_are_in_morton_order() {
    assert_eq!(encode(0, 0), 0);
    assert_eq!(encode(1, 0), 1);
    assert_eq!(encode(0, 1), 2);
    assert_eq!(encode(1, 1), 3);
    assert_eq!(encode(2, 0), 4);
    assert_eq!(encode(511, 511), CELLS - 1);
    assert_eq!(decode(6), (2, 1));
    let grid: Grid<Fixed> = Grid::new();
    for x in 0..SIDE {
        for y in [0, 1, 2, 255, 256, 510, 511] {
            let k = grid.to_index(x, y);
            assert!(k < CELLS);
            assert_eq!(grid.decode_index(k), (x, y));
        }
    }
}

#[test]
fn indices_exist_in_the_grid_only() {
    let grid: Grid<Fixed> = Grid::new();
    assert!(grid.in_bounds(511, 511));
    assert!(!grid.in_bounds(512, 0));
    assert!(!grid.in_bounds(0, 512));
    assert_eq!(grid.try_index(511, 0), Some(grid.to_index(511, 0)));
    assert_eq!(grid.try_index(usize::MAX, 0), None);
    assert_eq!(grid.try_index(0, usize::MAX), None);
}

#[test]
fn a_rectangle_reaches_half_its_size_from_its_centre() {
    let mut grid: Grid<Fixed> = Grid::new();
    grid.rectangle(100, 200, whole(5), whole(8));
    assert_eq!(count(&grid), 5 * 9);
    assert!(wall(&grid, 98, 196));
    assert!(wall(&grid, 102, 204));
    assert!(!wall(&grid, 103, 200));
    assert!(!wall(&grid, 100, 205));
    assert!(grid.wall_topology_dirty);
}

#[test]
fn a_rectangle_is_cut_off_at_the_borders() {
    let mut grid: Grid<Fixed> = Grid::new();
    grid.rectangle(0, 511, whole(4), whole(4));
    assert_eq!(count(&grid), 9);
    grid.rectangle(-1000, 40, whole(4), whole(4));
    grid.rectangle(isize::MAX, isize::MIN, whole(4), whole(4));
    assert_eq!(count(&grid), 9);
}

#[test]
fn stamping_again_or_in_another_order_gives_the_same_walls() {
    let mut a: Grid<Fixed> = Grid::new();
    a.rectangle(30, 30, whole(10), whole(4));
    let once: Vec<bool> = a.cells.iter().map(|c| c.wall).collect();
    a.rectangle(30, 30, whole(10), whole(4));
    let twice: Vec<bool> = a.cells.iter().map(|c| c.wall).collect();
    assert_eq!(once, twice);
    a.rectangle(33, 31, whole(4), whole(10));
    let mut b: Grid<Fixed> = Grid::new();
    b.rectangle(33, 31, whole(4), whole(10));
    b.rectangle(30, 30, whole(10), whole(4));
    assert!(a.cells.iter().zip(b.cells.iter()).all(|(p, q)| p.wall == q.wall));
}

#[test]
fn stamping_the_same_walls_leaves_the_objects_known() {
    let mut grid: Grid<Fixed> = Grid::new();
    grid.rectangle(30, 30, whole(10), whole(4));
    let _ = grid.identify_objects();
    grid.rectangle(30, 30, whole(6), whole(2));
    assert!(!grid.wall_topology_dirty);
}

#[test]
fn the_smallest_pen_covers_one_cell() {
    let mut grid: Grid<Fixed> = Grid::new();
    stamp_wall(&mut grid, 40, 41, 1);
    assert_eq!(count(&grid), 1);
    assert!(wall(&grid, 40, 41));
}

#[test]
fn a_pen_of_two_or_three_cells_covers_a_cross_and_its_corners() {
    let mut grid: Grid<Fixed> = Grid::new();
    stamp_wall(&mut grid, 40, 40, 2);
    // One cell each way, and the diagonals since 1 + 1 is not above 1 + 1.
    assert_eq!(count(&grid), 9);
    let mut grid: Grid<Fixed> = Grid::new();
    stamp_wall(&mut grid, 40, 40, 5);
    assert!(wall(&grid, 42, 41));
    assert!(!wall(&grid, 42, 42));
    assert_eq!(count(&grid), 21);
}

#[test]
fn a_pen_does_not_draw_on_the_borders() {
    let mut grid: Grid<Fixed> = Grid::new();
    stamp_wall(&mut grid, 1, 1, 3);
    assert_eq!(count(&grid), 4);
    assert!(!wall(&grid, 0, 1));
    stamp_wall(&mut grid, N, N, 3);
    assert!(!wall(&grid, N + 1, N));
    assert_eq!(count(&grid), 8);
}

#[test]
fn lines_between_two_points() {
    assert_eq!(bresenham_line(3, 4, 3, 4), vec![(3, 4)]);
    assert_eq!(bresenham_line(1, 1, 4, 1), vec![(1, 1), (2, 1), (3, 1), (4, 1)]);
    assert_eq!(bresenham_line(5, 5, 5, 3), vec![(5, 5), (5, 4), (5, 3)]);
    assert_eq!(bresenham_line(4, 4, 1, 1), vec![(4, 4), (3, 3), (2, 2), (1, 1)]);
    assert_eq!(
        bresenham_line(0, 0, 6, 2),
        vec![(0, 0), (1, 0), (2, 1), (3, 1), (4, 1), (5, 2), (6, 2)]
    );
    assert_eq!(bresenham_line(2, 0, 0, 4), vec![(2, 0), (2, 1), (1, 2), (1, 3), (0, 4)]);
}

#[test]
fn a_line_is_unbroken() {
    for (x1, y1) in [(17, 90), (200, 13), (1, 1), (33, 34)] {
        let line = bresenham_line(50, 40, x1, y1);
        assert_eq!(line[0], (50, 40));
        assert_eq!(line[line.len() - 1], (x1, y1));
        for k in 1..line.len() {
            let dx = line[k].0.abs_diff(line[k - 1].0);
            let dy = line[k].1.abs_diff(line[k - 1].1);
            assert!(dx <= 1 && dy <= 1 && dx + dy >= 1);
        }
    }
}

#[test]
fn drawing_by_hand_joins_the_points() {
    let mut grid: Grid<Fixed> = Grid::new();
    let mut pen = Pen::new();
    pen.moved(&mut grid, 10, 10, false, 1);
    assert_eq!(count(&grid), 0);
    pen.press(&mut grid, false, 1);
    assert_eq!(count(&grid), 1);
    pen.moved(&mut grid, 20, 10, false, 1);
    assert_eq!(count(&grid), 11);
    pen.moved(&mut grid, 20, 15, false, 1);
    assert_eq!(count(&grid), 16);
    pen.release(&mut grid, false, 1);
    pen.moved(&mut grid, 100, 100, false, 1);
    assert_eq!(count(&grid), 16);
    assert_eq!(pen.cursor, Some((100, 100)));
    assert_eq!(pen.last, None);
    assert!(!pen.down);
}

#[test]
fn a_straight_line_is_drawn_when_the_button_is_released() {
    let mut grid: Grid<Fixed> = Grid::new();
    let mut pen = Pen::new();
    pen.moved(&mut grid, 10, 10, true, 1);
    pen.press(&mut grid, true, 1);
    assert_eq!(pen.anchor, Some((10, 10)));
    pen.moved(&mut grid, 14, 30, true, 1);
    pen.moved(&mut grid, 10, 19, true, 1);
    assert_eq!(count(&grid), 0);
    pen.release(&mut grid, true, 1);
    assert_eq!(count(&grid), 10);
    assert_eq!(pen.anchor, None);
    pen.release(&mut grid, true, 1);
    assert_eq!(count(&grid), 10);
}

#[test]
fn the_cursor_is_not_followed_beyond_the_borders() {
    let mut grid: Grid<Fixed> = Grid::new();
    let mut pen = Pen::new();
    pen.moved(&mut grid, 5, 5, false, 1);
    pen.press(&mut grid, false, 1);
    pen.moved(&mut grid, 0, 5, false, 1);
    pen.moved(&mut grid, 5, 511, false, 1);
    assert_eq!(pen.cursor, Some((5, 5)));
    assert_eq!(pen.last, Some((5, 5)));
    assert_eq!(count(&grid), 1);
}

#[test]
fn a_press_before_any_move_draws_nothing() {
    let mut grid: Grid<Fixed> = Grid::new();
    let mut pen = Pen::new();
    pen.press(&mut grid, false, 9);
    assert_eq!(count(&grid), 0);
    assert!(pen.down);
    pen.moved(&mut grid, 5, 5, false, 1);
    assert_eq!(count(&grid), 1);
}
