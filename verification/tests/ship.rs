use windtunnel::boat::{
    append_decimal, build_boat_layout, check_draws, checked_boat_layout, draw_kind, fairing_limit,
    gap_limit, kind_from_draws, quick_variants, random_layout, random_variants, BoatParams,
    ContainerLayoutKind, Draws,
};
use windtunnel::fixed::{Fixed, ONE};
use windtunnel::grid::Grid;
use windtunnel::ship::{Container, Fairing, FairingSide, HullCurveSpec, ShipLayout, WallKind};

fn whole(n: i64) -> Fixed {
    Fixed { raw: n * ONE }
}

fn column(grid: &Grid<Fixed>, x: usize) -> usize {
    (0..512).filter(|&y| grid.cells[grid.to_index(x, y)].wall).count()
}

fn count(grid: &Grid<Fixed>) -> usize {
    grid.cells.iter().filter(|c| c.wall).count()
}

fn measures(kind: ContainerLayoutKind) -> BoatParams<Fixed> {
    BoatParams {
        center: (255, 255),
        hull_width: whole(30),
        hull_height: whole(60),
        container_width: whole(8),
        container_height: whole(8),
        container_gap: whole(1),
        kind,
        flow_angle: whole(0),
        curve_bow: true,
        curve_stern: false,
        hull_curvature: Fixed { raw: ONE / 2 },
        bow_length: whole(15),
        stern_length: whole(15),
        add_bow_fairing: false,
        add_stern_fairing: false,
        fairing_length: whole(10),
    }
}

fn empty_layout() -> ShipLayout<Fixed> {
    ShipLayout {
        name: "ship".to_string(),
        hull_rects: Vec::new(),
        hull_curve: None,
        containers: Vec::new(),
        fairings: Vec::new(),
        flow_angle: whole(0),
    }
}

#[test]
fn a_pointed_end_of_a_hull() {
    let mut grid: Grid<Fixed> = Grid::new();
    grid.stamp_curved_hull_end(100, 110, 200, whole(10), whole(0));
    for s in 0..=10usize {
        assert_eq!(column(&grid, 100 + s), 2 * (10 - s) + 1);
    }
    assert_eq!(column(&grid, 111), 0);
    assert_eq!(column(&grid, 99), 0);
}

#[test]
fn a_round_end_of_a_hull() {
    let mut grid: Grid<Fixed> = Grid::new();
    grid.stamp_curved_hull_end(110, 100, 200, whole(10), whole(1));
    // Full height at the base, none but the middle row at the tip.
    assert_eq!(column(&grid, 110), 21);
    assert_eq!(column(&grid, 100), 1);
    // In the middle the root of 1 - 1 / 4 is about 0.866, which makes 9 rows each way.
    assert_eq!(column(&grid, 105), 19);
    for x in 100..110 {
        assert!(column(&grid, x) <= column(&grid, x + 1));
    }
    assert_eq!(column(&grid, 111), 0);
}

#[test]
fn a_curvature_beyond_one_counts_as_one() {
    let mut a: Grid<Fixed> = Grid::new();
    a.stamp_curved_hull_end(100, 120, 200, whole(12), whole(1));
    let mut b: Grid<Fixed> = Grid::new();
    b.stamp_curved_hull_end(100, 120, 200, whole(12), whole(5));
    assert!(a.cells.iter().zip(b.cells.iter()).all(|(p, q)| p.wall == q.wall));
}

#[test]
fn an_end_without_length_reaches_one_column_on() {
    let mut grid: Grid<Fixed> = Grid::new();
    grid.stamp_curved_hull_end(100, 100, 200, whole(3), whole(0));
    assert_eq!(column(&grid, 100), 7);
    assert_eq!(column(&grid, 101), 1);
    assert_eq!(count(&grid), 8);
}

#[test]
fn an_end_beyond_the_grid_is_cut_off() {
    let mut grid: Grid<Fixed> = Grid::new();
    grid.stamp_curved_hull_end(2, -8, 0, whole(10), whole(0));
    assert_eq!(column(&grid, 2), 11);
    assert_eq!(column(&grid, 0), 9);
    assert_eq!(count(&grid), 11 + 10 + 9);
}

#[test]
fn fairings_grow_thinner_away_from_the_stack() {
    let mut grid: Grid<Fixed> = Grid::new();
    grid.stamp_fairing(&Fairing {
        position: (100, 100),
        length: whole(4),
        half_height: whole(8),
        side: FairingSide::Bow,
    });
    assert_eq!(column(&grid, 100), 17);
    assert_eq!(column(&grid, 99), 13);
    assert_eq!(column(&grid, 98), 9);
    assert_eq!(column(&grid, 97), 5);
    assert_eq!(column(&grid, 96), 1);
    assert_eq!(column(&grid, 101), 0);
    let mut grid: Grid<Fixed> = Grid::new();
    grid.stamp_fairing(&Fairing {
        position: (100, 100),
        length: whole(0),
        half_height: whole(2),
        side: FairingSide::Stern,
    });
    // No fairing is shorter than one.
    assert_eq!(column(&grid, 100), 5);
    assert_eq!(column(&grid, 101), 1);
    assert_eq!(count(&grid), 6);
}

#[test]
fn each_wall_of_a_ship_has_its_label() {
    let mut layout = empty_layout();
    layout.hull_rects.push(((100, 100), whole(20), whole(4)));
    for (id, x) in [(7, 100), (9, 103)] {
        let center = (x, 96);
        layout.containers.push(Container { id, center, width: whole(4), height: whole(4) });
    }
    layout.fairings.push(Fairing {
        position: (98, 96),
        length: whole(3),
        half_height: whole(2),
        side: FairingSide::Bow,
    });
    let mut grid: Grid<Fixed> = Grid::new();
    grid.wall_init(300, 300, true);
    let labels = grid.apply_layout(&layout);
    assert_eq!(labels.len(), count(&grid));
    for (k, cell) in grid.cells.iter().enumerate() {
        assert_eq!(labels.contains_key(&k), cell.wall);
    }
    // A wall that was there before counts as the hull.
    assert_eq!(labels[&grid.to_index(300, 300)], WallKind::Hull);
    assert_eq!(labels[&grid.to_index(95, 102)], WallKind::Hull);
    // The hull keeps the row that it shares with the containers.
    assert_eq!(labels[&grid.to_index(100, 98)], WallKind::Hull);
    assert_eq!(labels[&grid.to_index(100, 94)], WallKind::Container(7));
    // The first container keeps the columns that it shares with the second.
    assert_eq!(labels[&grid.to_index(102, 95)], WallKind::Container(7));
    assert_eq!(labels[&grid.to_index(103, 95)], WallKind::Container(9));
    assert_eq!(labels[&grid.to_index(97, 96)], WallKind::Fairing);
    assert_eq!(labels[&grid.to_index(98, 96)], WallKind::Container(7));
}

#[test]
fn the_ends_of_a_hull_stand_beside_its_first_rectangle() {
    let mut layout = empty_layout();
    layout.hull_rects.push(((100, 100), whole(20), whole(8)));
    layout.hull_rects.push(((300, 300), whole(2), whole(2)));
    layout.hull_curve = Some(HullCurveSpec {
        curve_bow: true,
        curve_stern: true,
        curvature: whole(0),
        bow_length: whole(4),
        stern_length: whole(0),
    });
    let mut grid: Grid<Fixed> = Grid::new();
    let labels = grid.apply_layout(&layout);
    assert_eq!(column(&grid, 90), 9);
    assert_eq!(column(&grid, 88), 5);
    assert_eq!(column(&grid, 86), 1);
    assert_eq!(column(&grid, 85), 0);
    // A stern without length is not drawn.
    assert_eq!(column(&grid, 111), 0);
    assert!(labels.values().all(|&kind| kind == WallKind::Hull));
    layout.hull_rects.clear();
    let mut grid: Grid<Fixed> = Grid::new();
    assert!(grid.apply_layout(&layout).is_empty());
    assert_eq!(count(&grid), 0);
}

#[test]
fn a_grid_of_containers() {
    let p = measures(ContainerLayoutKind::Grid { rows: 2, cols: 3 });
    let layout = build_boat_layout("custom", &p);
    assert_eq!(layout.name, "custom");
    // The bow takes 15 of the 30 columns.
    assert_eq!(layout.hull_rects, vec![((255, 255), whole(15), whole(60))]);
    assert_eq!(layout.containers.len(), 6);
    // A row is 3 * 9 - 1 = 26 wide, and begins in column 255 - 13 = 242.
    let first: Vec<(isize, isize)> = layout.containers.iter().map(|c| c.center).collect();
    assert_eq!(
        first,
        vec![(246, 220), (255, 220), (264, 220), (246, 211), (255, 211), (264, 211)]
    );
    for (n, c) in layout.containers.iter().enumerate() {
        assert_eq!(c.id, n);
        assert_eq!(c.width, whole(8));
        assert_eq!(c.height, whole(8));
    }
    assert!(layout.fairings.is_empty());
    let curve = layout.hull_curve.unwrap();
    assert!(curve.curve_bow && !curve.curve_stern);
    assert_eq!(curve.bow_length, whole(15));
}

#[test]
fn a_pyramid_of_containers() {
    let p = measures(ContainerLayoutKind::Pyramid { rows: 4 });
    let layout = build_boat_layout("p", &p);
    assert_eq!(layout.containers.len(), 10);
    let rows: Vec<isize> = layout.containers.iter().map(|c| c.center.1).collect();
    assert_eq!(rows, vec![220, 220, 220, 220, 211, 211, 211, 202, 202, 193]);
    assert_eq!(layout.containers[9].center, (255, 193));
}

#[test]
fn a_staggered_stack_shifts_every_other_row() {
    let p = measures(ContainerLayoutKind::Staggered { rows: 3, cols: 2 });
    let layout = build_boat_layout("s", &p);
    let columns: Vec<isize> = layout.containers.iter().map(|c| c.center.0).collect();
    // Half a step is 4.5 cells, of which 4 count.
    assert_eq!(columns, vec![251, 260, 255, 264, 251, 260]);
}

#[test]
fn a_hull_without_curves_and_a_stack_without_containers() {
    let mut p = measures(ContainerLayoutKind::Grid { rows: 0, cols: 5 });
    p.curve_bow = false;
    p.add_bow_fairing = true;
    p.add_stern_fairing = true;
    let layout = build_boat_layout("bare", &p);
    assert!(layout.hull_curve.is_none());
    assert!(layout.containers.is_empty());
    assert!(layout.fairings.is_empty());
}

#[test]
fn fairings_are_as_high_as_the_stack() {
    let mut p = measures(ContainerLayoutKind::Grid { rows: 2, cols: 3 });
    p.add_bow_fairing = true;
    p.add_stern_fairing = true;
    let layout = build_boat_layout("f", &p);
    assert_eq!(layout.fairings.len(), 2);
    // The stack reaches from row 207 to row 224, and from column 242 to column 268.
    assert_eq!(layout.fairings[0].position, (242, 215));
    assert_eq!(layout.fairings[0].side, FairingSide::Bow);
    assert_eq!(layout.fairings[0].half_height.raw, 17 * ONE / 2);
    assert_eq!(layout.fairings[0].length, whole(10));
    assert_eq!(layout.fairings[1].position, (268, 215));
    assert_eq!(layout.fairings[1].side, FairingSide::Stern);
    p.add_bow_fairing = false;
    let layout = build_boat_layout("f", &p);
    assert_eq!(layout.fairings.len(), 1);
    assert_eq!(layout.fairings[0].side, FairingSide::Stern);
    for c in &layout.containers {
        assert!(c.center.0 + 4 <= layout.fairings[0].position.0);
    }
}

#[test]
fn a_ship_that_does_not_fit_is_refused() {
    let mut p = measures(ContainerLayoutKind::Grid { rows: 1, cols: 1 });
    assert!(checked_boat_layout("a", &p).is_some());
    p.center = (isize::MAX, 255);
    assert!(checked_boat_layout("a", &p).is_some());
    p.add_stern_fairing = true;
    assert!(checked_boat_layout("a", &p).is_none());
    p.center = (255, isize::MIN);
    assert!(checked_boat_layout("a", &p).is_none());
}

#[test]
fn three_quick_variants() {
    let base = measures(ContainerLayoutKind::Grid { rows: 1, cols: 1 });
    let layouts = quick_variants(base);
    let names: Vec<&str> = layouts.iter().map(|l| l.name.as_str()).collect();
    assert_eq!(names, vec!["grille_3x3", "pyramide_4", "quinconce_3x3"]);
    assert_eq!(layouts[0].containers.len(), 9);
    assert_eq!(layouts[1].containers.len(), 10);
    assert_eq!(layouts[2].containers.len(), 9);
    assert_ne!(layouts[0].containers[3].center.0, layouts[2].containers[3].center.0);
}

fn some_draws() -> Draws<Fixed> {
    Draws {
        gap: whole(2),
        curve_bow: false,
        curve_stern: true,
        curvature: Fixed { raw: 1000 },
        add_bow_fairing: true,
        add_stern_fairing: false,
        fairing_length: whole(5),
    }
}

#[test]
fn limits_of_what_is_drawn() {
    let mut base = measures(ContainerLayoutKind::Grid { rows: 1, cols: 1 });
    assert_eq!(gap_limit(&base), whole(3));
    base.container_gap = whole(4);
    assert_eq!(gap_limit(&base), whole(12));
    base.container_gap = whole(0);
    assert_eq!(gap_limit(&base), whole(3));
    assert_eq!(fairing_limit(&base), whole(15));
    base.hull_width = whole(1);
    assert_eq!(fairing_limit(&base), whole(2));
}

#[test]
fn the_lots_decide_the_stacking() {
    assert!(matches!(kind_from_draws(0, 2, 3), ContainerLayoutKind::Grid { rows: 2, cols: 3 }));
    assert!(matches!(kind_from_draws(1, 2, 3), ContainerLayoutKind::Pyramid { rows: 2 }));
    assert!(matches!(
        kind_from_draws(2, 2, 3),
        ContainerLayoutKind::Staggered { rows: 2, cols: 3 }
    ));
}

#[test]
fn drawn_stackings_stay_in_their_range() {
    let mut rng = rand::rng();
    let mut seen = [[false; 7]; 3];
    for _ in 0..2000 {
        match draw_kind(&mut rng) {
            ContainerLayoutKind::Grid { rows, cols } => {
                assert!((1..=6).contains(&rows) && (1..=6).contains(&cols));
                seen[0][rows] = true;
            }
            ContainerLayoutKind::Pyramid { rows } => {
                assert!((1..=6).contains(&rows));
                seen[1][rows] = true;
            }
            ContainerLayoutKind::Staggered { rows, cols } => {
                assert!((1..=6).contains(&rows) && (1..=6).contains(&cols));
                seen[2][rows] = true;
            }
        }
    }
    // Each number of rows comes up for each stacking, within two thousand draws.
    for kind in 0..3 {
        for rows in 1..=6 {
            assert!(seen[kind][rows]);
        }
    }
}

#[test]
fn a_random_ship_has_what_was_drawn() {
    let base = measures(ContainerLayoutKind::Grid { rows: 1, cols: 1 });
    let draws = some_draws();
    assert!(check_draws(&base, &draws));
    let mut rng = rand::rng();
    let layout = random_layout("alea_apercu", &base, &mut rng, &draws);
    assert_eq!(layout.name, "alea_apercu");
    assert!(!layout.containers.is_empty() && layout.containers.len() <= 36);
    let curve = layout.hull_curve.unwrap();
    assert!(!curve.curve_bow && curve.curve_stern);
    assert_eq!(curve.curvature.raw, 1000);
    assert_eq!(layout.fairings.len(), 1);
    assert_eq!(layout.fairings[0].side, FairingSide::Bow);
    assert_eq!(layout.fairings[0].length, whole(5));
    // The stern takes 15 of the 30 columns.
    assert_eq!(layout.hull_rects[0].1, whole(15));
}

#[test]
fn random_ships_stay_in_the_ranges_of_their_draws() {
    let base = measures(ContainerLayoutKind::Grid { rows: 1, cols: 1 });
    let mut least = some_draws();
    least.gap = whole(0);
    least.curvature = whole(0);
    least.fairing_length = whole(2);
    least.curve_bow = true;
    least.add_stern_fairing = true;
    let mut most = least;
    most.gap = gap_limit(&base);
    most.curvature = whole(1);
    most.fairing_length = fairing_limit(&base);
    for layout in random_variants(base, &vec![least, most, some_draws()]) {
        let curvature = layout.hull_curve.unwrap().curvature;
        assert!(0 <= curvature.raw && curvature.raw <= ONE);
        assert!(layout.fairings.len() <= 2);
        for fairing in layout.fairings.iter() {
            assert!(2 * ONE <= fairing.length.raw && fairing.length.raw <= 15 * ONE);
        }
    }
}

#[test]
fn random_ships_are_numbered() {
    let base = measures(ContainerLayoutKind::Grid { rows: 1, cols: 1 });
    let draws = vec![some_draws(); 12];
    let layouts = random_variants(base, &draws);
    assert_eq!(layouts.len(), 12);
    for (n, layout) in layouts.iter().enumerate() {
        assert_eq!(layout.name, format!("alea_{n}"));
    }
}

#[test]
fn draws_that_do_not_fit_are_found_out() {
    let mut base = measures(ContainerLayoutKind::Grid { rows: 1, cols: 1 });
    base.center = (255, isize::MIN + 40);
    assert!(!check_draws(&base, &some_draws()));
}

#[test]
fn numbers_in_decimal_notation() {
    for n in [0, 7, 10, 99, 100, 1234567890, usize::MAX] {
        let mut text = "n=".to_string();
        append_decimal(&mut text, n);
        assert_eq!(text, format!("n={n}"));
    }
}

#[test]
fn a_copied_layout_is_the_same() {
    let mut p = measures(ContainerLayoutKind::Grid { rows: 2, cols: 2 });
    p.add_bow_fairing = true;
    let layout = build_boat_layout("c", &p);
    let copy = layout.clone();
    assert_eq!(copy.name, layout.name);
    assert_eq!(copy.hull_rects, layout.hull_rects);
    assert_eq!(copy.containers.len(), 4);
    assert_eq!(copy.containers[3].center, layout.containers[3].center);
    assert_eq!(copy.fairings[0].position, layout.fairings[0].position);
}

#[test]
fn the_rectangle_of_a_hull_leaves_room_for_its_ends() {
    let width = |bow: i64, stern: i64, curve_bow: bool, curve_stern: bool| {
        let mut p = measures(ContainerLayoutKind::Grid { rows: 0, cols: 0 });
        p.curve_bow = curve_bow;
        p.curve_stern = curve_stern;
        p.bow_length = whole(bow);
        p.stern_length = whole(stern);
        build_boat_layout("w", &p).hull_rects[0].1
    };
    assert_eq!(width(10, 6, true, true), whole(14));
    assert_eq!(width(10, 6, true, false), whole(20));
    assert_eq!(width(10, 6, false, true), whole(24));
    assert_eq!(width(10, 6, false, false), whole(30));
    assert_eq!(width(20, 20, true, true), whole(0));
    // An end without length takes no room.
    assert_eq!(width(0, 6, true, true), whole(24));
    assert_eq!(width(-9, 6, true, false), whole(30));
    // With its ends the hull is as wide as before.
    let mut p = measures(ContainerLayoutKind::Grid { rows: 0, cols: 0 });
    p.curve_stern = true;
    p.bow_length = whole(10);
    p.stern_length = whole(6);
    let mut grid: Grid<Fixed> = Grid::new();
    grid.apply_layout(&build_boat_layout("w", &p));
    let columns = (0..512).filter(|&x| column(&grid, x) > 0).count();
    assert_eq!(columns, 31);
}

#[test]
fn a_pointed_end_lies_within_a_rounded_one() {
    let stamp = |curvature: Fixed| {
        let mut grid: Grid<Fixed> = Grid::new();
        grid.stamp_curved_hull_end(100, 133, 200, whole(17), curvature);
        grid
    };
    let pointed = stamp(whole(0));
    let rounded = stamp(whole(1));
    assert!(pointed.cells.iter().zip(rounded.cells.iter()).all(|(p, q)| !p.wall || q.wall));
    assert!(count(&pointed) < count(&rounded));
    let below = stamp(whole(-2));
    assert!(pointed.cells.iter().zip(below.cells.iter()).all(|(p, q)| p.wall == q.wall));
    for grid in [&pointed, &rounded] {
        assert_eq!(column(grid, 133), 1);
        assert!(grid.cells[grid.to_index(133, 200)].wall);
        for x in 100..=133 {
            for d in 0..20 {
                let up = grid.cells[grid.to_index(x, 200 - d)].wall;
                assert_eq!(up, grid.cells[grid.to_index(x, 200 + d)].wall);
            }
        }
    }
}
