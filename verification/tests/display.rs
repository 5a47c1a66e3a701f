use windtunnel::display::{
    autoscale, density_color, diverging_colormap, draw_grid, phase_color, sequential_colormap,
    vorticity_at, DisplayMode,
};
use windtunnel::fixed::{Fixed, ONE};
use windtunnel::grid::Grid;

fn whole(n: i64) -> Fixed {
    Fixed { raw: n * ONE }
}

fn hundredths(n: i64) -> Fixed {
    Fixed { raw: n * ONE / 100 }
}

#[test]
fn colours_of_densities() {
    assert_eq!(density_color(whole(0)), [255, 255, 255, 255]);
    assert_eq!(density_color(whole(-9)), [255, 255, 255, 255]);
    assert_eq!(density_color(whole(10)), [127, 127, 255, 255]);
    assert_eq!(density_color(whole(20)), [0, 0, 255, 255]);
    assert_eq!(density_color(whole(30)), [127, 0, 0, 255]);
    assert_eq!(density_color(whole(40)), [255, 0, 0, 255]);
    assert_eq!(density_color(whole(4000)), [255, 0, 0, 255]);
}

#[test]
fn colours_from_blue_to_red() {
    assert_eq!(diverging_colormap(whole(-1)), [0, 0, 255, 255]);
    assert_eq!(diverging_colormap(whole(-8)), [0, 0, 255, 255]);
    assert_eq!(diverging_colormap(whole(0)), [255, 255, 255, 255]);
    assert_eq!(diverging_colormap(whole(1)), [255, 0, 0, 255]);
    assert_eq!(diverging_colormap(whole(8)), [255, 0, 0, 255]);
    // The root of a quarter is a half.
    assert_eq!(diverging_colormap(hundredths(25)), [255, 127, 127, 255]);
    assert_eq!(diverging_colormap(hundredths(-25)), [127, 127, 255, 255]);
}

#[test]
fn colours_of_speeds() {
    let near = |a: [u8; 4], b: [u8; 4]| a.iter().zip(b).all(|(&p, q)| p.abs_diff(q) <= 1);
    assert!(near(sequential_colormap(whole(0)), [12, 7, 76, 255]));
    assert!(near(sequential_colormap(whole(-2)), [12, 7, 76, 255]));
    assert!(near(sequential_colormap(hundredths(25)), [0, 89, 140, 255]));
    assert!(near(sequential_colormap(hundredths(50)), [0, 165, 89, 255]));
    assert!(near(sequential_colormap(hundredths(75)), [191, 216, 25, 255]));
    assert!(near(sequential_colormap(whole(1)), [252, 229, 38, 255]));
    assert!(near(sequential_colormap(whole(3)), [252, 229, 38, 255]));
    // Halfway between the first two stops.
    assert!(near(sequential_colormap(Fixed { raw: ONE / 8 }), [6, 48, 108, 255]));
}

#[test]
fn colours_of_water_and_air() {
    assert_eq!(phase_color(whole(0)), [200, 220, 255, 255]);
    assert_eq!(phase_color(whole(1)), [20, 60, 160, 255]);
    assert_eq!(phase_color(Fixed { raw: ONE / 2 }), [110, 140, 207, 255]);
    assert_eq!(phase_color(whole(9)), [20, 60, 160, 255]);
}

#[test]
fn vorticity_of_a_turning_fluid() {
    let mut grid: Grid<Fixed> = Grid::new();
    for y in 0..512 {
        for x in 0..512 {
            let k = grid.to_index(x, y);
            grid.cells[k].velocity_x = whole(-(y as i64));
            grid.cells[k].velocity_y = whole(x as i64);
        }
    }
    // Both velocities change by two over four pixels.
    assert_eq!(vorticity_at(&grid, 100, 100), whole(1));
    // At the borders the difference is taken over one cell only.
    assert_eq!(vorticity_at(&grid, 1, 1).raw, ONE / 2);
    assert_eq!(vorticity_at(&grid, 510, 510).raw, ONE / 2);
    assert_eq!(vorticity_at(&grid, 2, 100).raw, ONE);
}

#[test]
fn the_scale_is_the_greatest_size_between_the_borders() {
    let mut grid: Grid<Fixed> = Grid::new();
    let k = grid.to_index(40, 50);
    grid.cells[k].pressure = whole(-9);
    grid.cells[k].velocity_x = whole(3);
    grid.cells[k].velocity_y = whole(4);
    let b = grid.to_index(0, 50);
    grid.cells[b].pressure = whole(100);
    let w = grid.to_index(41, 50);
    grid.cells[w].pressure = whole(50);
    grid.cells[w].wall = true;
    assert_eq!(autoscale(&grid, DisplayMode::Pressure), whole(9));
    assert_eq!(autoscale(&grid, DisplayMode::Velocity), whole(5));
    assert_eq!(autoscale(&grid, DisplayMode::Density).raw, ONE / 1_000_000);
}

#[test]
fn a_picture_of_densities() {
    let mut grid: Grid<Fixed> = Grid::new();
    let k = grid.to_index(3, 5);
    grid.cells[k].density = whole(40);
    let k = grid.to_index(4, 5);
    grid.cells[k].wall = true;
    let mut frame = vec![9u8; 512 * 512 * 4];
    draw_grid(&grid, &mut frame, 512, DisplayMode::Density, whole(1), whole(1));
    let pixel = |x: usize, y: usize| frame[(y * 512 + x) * 4..(y * 512 + x) * 4 + 4].to_vec();
    assert_eq!(pixel(3, 5), vec![255, 0, 0, 255]);
    assert_eq!(pixel(4, 5), vec![0, 0, 0, 255]);
    assert_eq!(pixel(1, 1), vec![255, 255, 255, 255]);
    assert_eq!(pixel(510, 510), vec![255, 255, 255, 255]);
    // The borders are not drawn.
    assert_eq!(pixel(0, 5), vec![9, 9, 9, 9]);
    assert_eq!(pixel(511, 5), vec![9, 9, 9, 9]);
    assert_eq!(pixel(5, 0), vec![9, 9, 9, 9]);
    assert_eq!(pixel(5, 511), vec![9, 9, 9, 9]);
}

#[test]
fn pictures_of_the_other_fields() {
    let mut grid: Grid<Fixed> = Grid::new();
    let k = grid.to_index(3, 5);
    grid.cells[k].pressure = whole(8);
    grid.cells[k].velocity_x = whole(2);
    grid.cells[k].phase = whole(1);
    let k = grid.to_index(9, 9);
    grid.cells[k].pressure = whole(-2);
    let at = |frame: &Vec<u8>, x: usize, y: usize| {
        frame[(y * 512 + x) * 4..(y * 512 + x) * 4 + 4].to_vec()
    };
    let mut frame = vec![0u8; 512 * 512 * 4];
    draw_grid(&grid, &mut frame, 512, DisplayMode::Pressure, whole(1), whole(1));
    assert_eq!(at(&frame, 3, 5), vec![255, 0, 0, 255]);
    // A quarter of the scale, whose root is a half.
    assert_eq!(at(&frame, 9, 9), vec![127, 127, 255, 255]);
    draw_grid(&grid, &mut frame, 512, DisplayMode::Pressure, whole(1), whole(4));
    assert_eq!(at(&frame, 9, 9), vec![0, 0, 255, 255]);
    draw_grid(&grid, &mut frame, 512, DisplayMode::Velocity, whole(1), whole(1));
    assert!(at(&frame, 3, 5)[0] >= 251);
    draw_grid(&grid, &mut frame, 512, DisplayMode::Phase, whole(1), whole(1));
    assert_eq!(at(&frame, 3, 5), vec![20, 60, 160, 255]);
    assert_eq!(at(&frame, 4, 5), vec![200, 220, 255, 255]);
    draw_grid(&grid, &mut frame, 512, DisplayMode::Vorticity, whole(1), whole(1));
    // The velocity along the row falls off above and below the cell.
    assert_eq!(at(&frame, 3, 4), vec![0, 0, 255, 255]);
    assert_eq!(at(&frame, 3, 6), vec![255, 0, 0, 255]);
    assert_eq!(at(&frame, 100, 100), vec![255, 255, 255, 255]);
}

#[test]
fn a_picture_of_pressures_does_not_depend_on_their_strength() {
    let mut grid: Grid<Fixed> = Grid::new();
    for (k, cell) in grid.cells.iter_mut().enumerate() {
        cell.pressure = Fixed { raw: (k as i64 * 7919) % 100003 - 50000 };
        cell.wall = k % 31 == 0;
    }
    let mut weak = vec![0u8; 512 * 512 * 4];
    draw_grid(&grid, &mut weak, 512, DisplayMode::Pressure, whole(1), hundredths(180));
    for cell in grid.cells.iter_mut() {
        cell.pressure.raw *= 2;
    }
    let mut strong = vec![0u8; 512 * 512 * 4];
    draw_grid(&grid, &mut strong, 512, DisplayMode::Pressure, whole(1), hundredths(180));
    assert!(weak == strong);
}
