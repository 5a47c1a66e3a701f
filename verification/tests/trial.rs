use std::collections::HashMap;
use windtunnel::fixed::{Fixed, ONE};
use windtunnel::grid::Grid;
use windtunnel::ship::{Container, Fairing, FairingSide, ShipLayout, WallKind};
use windtunnel::trial::{compare_layouts, test_layout, LayoutResult};
use windtunnel::vector::Vector2;

fn whole(n: i64) -> Fixed {
    Fixed { raw: n * ONE }
}

fn result(name: &str, score: i64) -> LayoutResult<Fixed> {
    LayoutResult {
        layout_name: name.to_string(),
        hull_force: Vector2 { x: whole(0), y: whole(0) },
        container_forces: HashMap::new(),
        total_drag: whole(0),
        total_torque: whole(0),
        score: whole(score),
    }
}

fn names(results: &[LayoutResult<Fixed>]) -> Vec<&str> {
    results.iter().map(|r| r.layout_name.as_str()).collect()
}

fn ship() -> ShipLayout<Fixed> {
    ShipLayout {
        name: "trial".to_string(),
        hull_rects: vec![((100, 100), whole(8), whole(2))],
        hull_curve: None,
        containers: vec![
            Container { id: 3, center: (98, 98), width: whole(2), height: whole(2) },
            Container { id: 5, center: (102, 98), width: whole(2), height: whole(2) },
        ],
        fairings: vec![Fairing {
            position: (97, 98),
            length: whole(2),
            half_height: whole(0),
            side: FairingSide::Bow,
        }],
        flow_angle: whole(0),
    }
}

#[test]
fn forces_are_told_apart_by_label() {
    let layout = ship();
    let mut grid: Grid<Fixed> = Grid::new();
    let labels = grid.apply_layout(&layout);
    // Pressure left of the hull, on top of each container, and left of the fairing.
    for (x, y, p) in [(95, 100, 510), (98, 96, 1020), (102, 96, 510), (94, 98, 1530)] {
        let k = grid.to_index(x, y);
        grid.cells[k].pressure = whole(p);
    }
    let before: Vec<bool> = grid.cells.iter().map(|c| c.wall).collect();
    let r = test_layout(&layout, &mut grid, &labels, whole(1), whole(0));
    assert_eq!(r.layout_name, "trial");
    assert_eq!(labels[&grid.to_index(96, 98)], WallKind::Fairing);
    // The hull bears its own force and that on the fairing.
    assert_eq!(r.hull_force.x.raw, 4 * ONE);
    assert_eq!(r.hull_force.y.raw, 0);
    assert_eq!(r.container_forces.len(), 2);
    assert_eq!(r.container_forces[&3].x.raw, 0);
    assert_eq!(r.container_forces[&3].y.raw, 2 * ONE);
    assert_eq!(r.container_forces[&5].y.raw, ONE);
    assert_eq!(r.total_drag.raw, 4 * ONE);
    assert!(grid.cells.iter().zip(before).all(|(c, w)| c.wall == w));
    assert_eq!(r.score.raw, r.total_drag.raw + r.total_torque.raw);
    assert!(r.total_torque.raw >= 0);
    let copy = r.clone();
    assert_eq!(copy.layout_name, r.layout_name);
    assert_eq!(copy.container_forces[&5].y, r.container_forces[&5].y);
    assert_eq!(copy.score, r.score);
}

#[test]
fn drag_is_the_force_in_the_direction_of_the_flow() {
    let layout = ship();
    let mut grid: Grid<Fixed> = Grid::new();
    let labels = grid.apply_layout(&layout);
    let k = grid.to_index(98, 96);
    grid.cells[k].pressure = whole(510);
    let r = test_layout(&layout, &mut grid, &labels, whole(0), whole(-1));
    assert_eq!(r.total_drag.raw, -ONE);
    // The score counts the size of the drag.
    assert_eq!(r.score.raw, ONE + r.total_torque.raw);
}

#[test]
fn moments_count_by_size() {
    let mut layout = ship();
    layout.containers.clear();
    layout.fairings.clear();
    let mut grid: Grid<Fixed> = Grid::new();
    let labels = grid.apply_layout(&layout);
    // Pressure from above on the last column of the hull, four columns from its centre.
    let k = grid.to_index(104, 98);
    grid.cells[k].pressure = whole(510);
    let r = test_layout(&layout, &mut grid, &labels, whole(1), whole(0));
    assert_eq!(r.total_torque.raw, 4 * ONE);
    let k = grid.to_index(104, 98);
    grid.cells[k].pressure = whole(0);
    let k = grid.to_index(96, 98);
    grid.cells[k].pressure = whole(510);
    let r = test_layout(&layout, &mut grid, &labels, whole(1), whole(0));
    assert_eq!(r.total_torque.raw, 4 * ONE);
    assert_eq!(r.score, r.total_torque);
}

#[test]
fn a_ship_without_containers_has_no_container_forces() {
    let mut layout = ship();
    layout.containers.clear();
    let mut grid: Grid<Fixed> = Grid::new();
    let labels = grid.apply_layout(&layout);
    let r = test_layout(&layout, &mut grid, &labels, whole(1), whole(0));
    assert!(r.container_forces.is_empty());
    assert_eq!(r.score, whole(0));
}

#[test]
fn ships_are_ranked_by_score() {
    let ranking = compare_layouts(vec![
        result("c", 30),
        result("a", 10),
        result("d", 40),
        result("b", 20),
        result("z", -5),
    ]);
    assert_eq!(names(&ranking), vec!["z", "a", "b", "c", "d"]);
    for k in 1..ranking.len() {
        assert!(ranking[k - 1].score.raw <= ranking[k].score.raw);
    }
}

#[test]
fn equal_scores_keep_their_order() {
    let ranking = compare_layouts(vec![
        result("p", 2),
        result("q", 1),
        result("r", 2),
        result("s", 1),
        result("t", 2),
    ]);
    assert_eq!(names(&ranking), vec!["q", "s", "p", "r", "t"]);
}

#[test]
fn a_ranking_of_none_or_one() {
    let none: Vec<LayoutResult<Fixed>> = compare_layouts(Vec::new());
    assert!(none.is_empty());
    assert_eq!(names(&compare_layouts(vec![result("only", 3)])), vec!["only"]);
}
