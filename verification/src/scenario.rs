//! What the user can set: the scenario, the parameters of the simulation, and the ship.
use vstd::prelude::*;
use crate::boat::{BoatParams, ContainerLayoutKind};
use crate::conditions;
use crate::conditions::{CELLS, FLOW_SPACE, N};
use crate::display::DisplayMode;
use crate::fixed;
use crate::fixed::Fixed;
use crate::grid;
use crate::grid::{Cell, Grid};
use crate::scalar;
use crate::scalar::Scalar;
use crate::topology;
use crate::water;

verus! {

/// The shape that stands in the middle of the grid after a restart.
#[derive(Clone, Copy, Debug, PartialEq, Eq, Structural)]
pub enum ShapeKind {
    Nothing,
    Triangle,
    Square,
    Rectangle,
    Circle,
}

/// How the fluid is made to flow.
#[derive(Clone, Copy, Debug, PartialEq, Eq, Structural)]
pub enum ConfigKind {
    /// A wind tunnel: the fluid flows in through holes in its left wall.
    ClassicFlow,
    /// A round source in the middle of the grid.
    CenterSource,
    /// A round obstacle in the flow.
    KarmanVortex,
}

/// The scenario that a restart begins.
#[derive(Clone, Copy, Debug)]
pub struct ScenarioUiState<S> {
    pub shape: ShapeKind,
    pub shape_size: S,
    pub config: ConfigKind,
    /// The source blows outward; else it turns.
    pub center_source_radial: bool,
}

impl<S: Scalar> ScenarioUiState<S> {
    /// The scenario at the beginning: the wind tunnel, without a shape.
    pub open spec fn default_spec() -> Self {
        ScenarioUiState {
            shape: ShapeKind::Nothing,
            shape_size: S::whole_spec(40),
            config: ConfigKind::ClassicFlow,
            center_source_radial: true,
        }
    }
}

impl<S: Scalar> Default for ScenarioUiState<S> {
    fn default() -> (r: Self)
        ensures
            r == Self::default_spec(),
    {
        ScenarioUiState {
            shape: ShapeKind::Nothing,
            shape_size: S::whole(40),
            config: ConfigKind::ClassicFlow,
            center_source_radial: true,
        }
    }
}

/// The parameters that can be changed while the simulation runs.
#[derive(Clone, Copy, Debug)]
pub struct SimParams<S> {
    pub flow_velocity: S,
    pub flow_density: S,
    pub viscosity: S,
    pub w_drag: S,
    pub w_torque: S,
    pub paused: bool,
    pub pen_size: usize,
    pub straight_line_mode: bool,
    pub display_mode: DisplayMode,
    /// Objects of fewer cells are not plotted.
    pub min_cells_to_plot: usize,
    /// Objects before this column are not plotted.
    pub min_column_x: S,
    pub vorticity_gain: S,
    pub pressure_gain: S,
}

impl<S: Scalar> SimParams<S> {
    /// The parameters at the beginning.
    pub open spec fn default_spec() -> Self {
        SimParams {
            flow_velocity: conditions::flow_velocity_spec::<S>(),
            flow_density: conditions::flow_density_spec::<S>(),
            viscosity: conditions::viscosity_spec::<S>(),
            w_drag: S::whole_spec(1),
            w_torque: S::whole_spec(1),
            paused: false,
            pen_size: 1,
            straight_line_mode: false,
            display_mode: DisplayMode::Density,
            min_cells_to_plot: 20,
            min_column_x: S::whole_spec(0),
            vorticity_gain: scalar::ratio_spec::<S>(9, 5),
            pressure_gain: scalar::ratio_spec::<S>(9, 5),
        }
    }
}

impl<S: Scalar> Default for SimParams<S> {
    fn default() -> (r: Self)
        ensures
            r == Self::default_spec(),
    {
        SimParams {
            flow_velocity: conditions::flow_velocity(),
            flow_density: conditions::flow_density(),
            viscosity: conditions::viscosity(),
            w_drag: S::whole(1),
            w_torque: S::whole(1),
            paused: false,
            pen_size: 1,
            straight_line_mode: false,
            display_mode: DisplayMode::Density,
            min_cells_to_plot: 20,
            min_column_x: S::whole(0),
            vorticity_gain: scalar::ratio(9, 5),
            pressure_gain: scalar::ratio(9, 5),
        }
    }
}

/// The ship that the user has set up.
#[derive(Clone, Copy, Debug)]
pub struct BoatUiState<S> {
    pub hull_width: S,
    pub hull_height: S,
    pub container_width: S,
    pub container_height: S,
    pub container_gap: S,
    /// 0 for a grid, 1 for a pyramid, 2 for a staggered stack.
    pub kind_index: usize,
    pub rows: usize,
    pub cols: usize,
    pub curve_bow: bool,
    pub curve_stern: bool,
    pub hull_curvature: S,
    pub bow_length: S,
    pub stern_length: S,
    pub add_bow_fairing: bool,
    pub add_stern_fairing: bool,
    pub fairing_length: S,
    /// The number of random ships that are compared.
    pub random_batch_size: usize,
}

impl<S: Scalar> BoatUiState<S> {
    /// The ship at the beginning.
    pub open spec fn default_spec() -> Self {
        BoatUiState {
            hull_width: S::whole_spec(30),
            hull_height: S::whole_spec(60),
            container_width: S::whole_spec(8),
            container_height: S::whole_spec(8),
            container_gap: S::whole_spec(1),
            kind_index: 0,
            rows: 3,
            cols: 3,
            curve_bow: true,
            curve_stern: false,
            hull_curvature: scalar::ratio_spec::<S>(3, 5),
            bow_length: S::whole_spec(15),
            stern_length: S::whole_spec(15),
            add_bow_fairing: false,
            add_stern_fairing: false,
            fairing_length: S::whole_spec(10),
            random_batch_size: 8,
        }
    }
}

impl<S: Scalar> Default for BoatUiState<S> {
    fn default() -> (r: Self)
        ensures
            r == Self::default_spec(),
    {
        BoatUiState {
            hull_width: S::whole(30),
            hull_height: S::whole(60),
            container_width: S::whole(8),
            container_height: S::whole(8),
            container_gap: S::whole(1),
            kind_index: 0,
            rows: 3,
            cols: 3,
            curve_bow: true,
            curve_stern: false,
            hull_curvature: scalar::ratio(3, 5),
            bow_length: S::whole(15),
            stern_length: S::whole(15),
            add_bow_fairing: false,
            add_stern_fairing: false,
            fairing_length: S::whole(10),
            random_batch_size: 8,
        }
    }
}

impl<S: Scalar> BoatUiState<S> {
    /// How the containers are stacked.
    pub open spec fn kind_spec(self) -> ContainerLayoutKind {
        if self.kind_index == 0 {
            ContainerLayoutKind::Grid { rows: self.rows, cols: self.cols }
        } else if self.kind_index == 1 {
            ContainerLayoutKind::Pyramid { rows: self.rows }
        } else {
            ContainerLayoutKind::Staggered { rows: self.rows, cols: self.cols }
        }
    }

    /// The measures of the ship, in the middle of the grid and in a flow toward growing columns.
    pub open spec fn params_spec(self) -> BoatParams<S> {
        BoatParams {
            center: (255, 255),
            hull_width: self.hull_width,
            hull_height: self.hull_height,
            container_width: self.container_width,
            container_height: self.container_height,
            container_gap: self.container_gap,
            kind: self.kind_spec(),
            flow_angle: S::whole_spec(0),
            curve_bow: self.curve_bow,
            curve_stern: self.curve_stern,
            hull_curvature: self.hull_curvature,
            bow_length: self.bow_length,
            stern_length: self.stern_length,
            add_bow_fairing: self.add_bow_fairing,
            add_stern_fairing: self.add_stern_fairing,
            fairing_length: self.fairing_length,
        }
    }

    /// The measures of the ship, in the middle of the grid and in a flow toward growing columns.
    pub fn params(&self) -> (r: BoatParams<S>)
        ensures
            r == self.params_spec(),
    {
        let kind: ContainerLayoutKind = match self.kind_index {
            0 => ContainerLayoutKind::Grid { rows: self.rows, cols: self.cols },
            1 => ContainerLayoutKind::Pyramid { rows: self.rows },
            _ => ContainerLayoutKind::Staggered { rows: self.rows, cols: self.cols },
        };
        BoatParams {
            center: (N as isize / 2, N as isize / 2),
            hull_width: self.hull_width,
            hull_height: self.hull_height,
            container_width: self.container_width,
            container_height: self.container_height,
            container_gap: self.container_gap,
            kind,
            flow_angle: S::whole(0),
            curve_bow: self.curve_bow,
            curve_stern: self.curve_stern,
            hull_curvature: self.hull_curvature,
            bow_length: self.bow_length,
            stern_length: self.stern_length,
            add_bow_fairing: self.add_bow_fairing,
            add_stern_fairing: self.add_stern_fairing,
            fairing_length: self.fairing_length,
        }
    }
}

/// A shape of walls about the column `cx` and the row `cy`.
#[derive(Clone, Copy, Debug)]
pub enum ShapeWalls<S> {
    Nothing,
    Triangle { cx: isize, cy: isize, size: S },
    Square { cx: isize, cy: isize, size: S },
    Rectangle { cx: isize, cy: isize, width: S, height: S },
    Circle { cx: isize, cy: isize, radius: S },
}

/// The walls of the shape `shape` of the size `size` in the middle of the grid. A rectangle is
/// as wide as the size, and three fifths as high; the size of a circle is its diameter.
pub open spec fn shape_walls<S: Scalar>(shape: ShapeKind, size: S) -> ShapeWalls<S> {
    let cx: isize = 255;
    let cy: isize = 255;
    match shape {
        ShapeKind::Nothing => ShapeWalls::Nothing,
        ShapeKind::Triangle => ShapeWalls::Triangle { cx, cy, size },
        ShapeKind::Square => ShapeWalls::Square { cx, cy, size },
        ShapeKind::Rectangle => ShapeWalls::Rectangle {
            cx,
            cy,
            width: size,
            height: size.times_spec(scalar::ratio_spec::<S>(3, 5)),
        },
        ShapeKind::Circle => ShapeWalls::Circle {
            cx,
            cy,
            radius: size.over_spec(S::whole_spec(2)),
        },
    }
}

/// The walls of the shape `shape` of the size `size` in the middle of the grid.
pub fn apply_shape<S: Scalar>(shape: ShapeKind, size: S) -> (r: ShapeWalls<S>)
    ensures
        r == shape_walls(shape, size),
{
    let cx: isize = N as isize / 2;
    let cy: isize = N as isize / 2;
    match shape {
        ShapeKind::Nothing => ShapeWalls::Nothing,
        ShapeKind::Triangle => ShapeWalls::Triangle { cx, cy, size },
        ShapeKind::Square => ShapeWalls::Square { cx, cy, size },
        ShapeKind::Rectangle => ShapeWalls::Rectangle {
            cx,
            cy,
            width: size,
            height: size.times(scalar::ratio(3, 5)),
        },
        ShapeKind::Circle => ShapeWalls::Circle { cx, cy, radius: size.over(S::whole(2)) },
    }
}

/// The walls that stand in the grid as long as a configuration lasts.
#[derive(Clone, Copy, Debug, PartialEq, Eq, Structural)]
pub enum FixedWalls {
    Nothing,
    WindTunnel,
    KarmanVortex,
}

/// The walls that belong to `config`.
pub open spec fn fixed_walls_spec(config: ConfigKind) -> FixedWalls {
    match config {
        ConfigKind::ClassicFlow => FixedWalls::WindTunnel,
        ConfigKind::CenterSource => FixedWalls::Nothing,
        ConfigKind::KarmanVortex => FixedWalls::KarmanVortex,
    }
}

/// The walls that belong to `config`. They are laid before the water is filled in.
pub fn fixed_walls(config: ConfigKind) -> (r: FixedWalls)
    ensures
        r == fixed_walls_spec(config),
{
    match config {
        ConfigKind::ClassicFlow => FixedWalls::WindTunnel,
        ConfigKind::CenterSource => FixedWalls::Nothing,
        ConfigKind::KarmanVortex => FixedWalls::KarmanVortex,
    }
}

/// The cells `cells` with water up to the level at which every simulation begins.
pub open spec fn filled_up<S: Scalar>(cells: Seq<Cell<S>>) -> Seq<Cell<S>> {
    Seq::new(
        CELLS as nat,
        |k: int|
            water::filled(
                cells[k],
                water::still_phase(conditions::water_level_spec::<S>(), topology::row_of(k)),
            ),
    )
}

/// Fills the grid, in which the walls of its configuration stand, with water up to the level at
/// which every simulation begins.
pub fn setup_config<S: Scalar>(grid: &mut Grid<S>)
    requires
        old(grid).wf(),
    ensures
        final(grid).wf(),
        grid::same_walls(*old(grid), *final(grid)),
        final(grid).cells@ == filled_up(old(grid).cells@),
{
    grid.init_water(conditions::water_level());
}

/// What keeps the fluid flowing at each step.
#[derive(Clone, Copy, Debug)]
pub enum Injection<S> {
    /// Fluid is to flow in through the holes of the wind tunnel.
    WindTunnel { density: S, velocity: S },
    /// Fluid is to come from the middle of the grid.
    CenterSource { radius: S, density: S, velocity: S, radial: bool },
    /// Fluid has been let in along the first column.
    FirstColumn,
}

/// What keeps the fluid flowing at each step.
pub open spec fn injection<S: Scalar>(
    config: ConfigKind,
    params: SimParams<S>,
    scenario: ScenarioUiState<S>,
) -> Injection<S> {
    match config {
        ConfigKind::ClassicFlow => Injection::WindTunnel {
            density: params.flow_density,
            velocity: params.flow_velocity,
        },
        ConfigKind::CenterSource => Injection::CenterSource {
            radius: conditions::center_source_radius_spec::<S>(),
            density: scalar::at_least_spec(
                params.flow_density,
                scalar::ratio_spec::<S>(1, 10),
            ),
            velocity: scalar::at_least_spec(
                params.flow_velocity,
                scalar::ratio_spec::<S>(1, 10),
            ),
            radial: scenario.center_source_radial,
        },
        ConfigKind::KarmanVortex => Injection::FirstColumn,
    }
}

/// `cell` in column `i` and row `j` when fluid of the given velocity and density has been let in
/// along the first column: between the borders, where there is no wall.
pub open spec fn let_in<S: Scalar>(
    cell: Cell<S>,
    i: int,
    j: int,
    velocity: S,
    density: S,
) -> Cell<S> {
    if i == 1 && 1 <= j <= N && !cell.wall {
        Cell { velocity_x: velocity, velocity_y: S::whole_spec(0), density, ..cell }
    } else {
        cell
    }
}

/// Lets fluid of the given velocity and density in along the first column.
fn inject_first_column<S: Scalar>(grid: &mut Grid<S>, velocity: S, density: S)
    requires
        old(grid).wf(),
    ensures
        final(grid).wf(),
        grid::same_walls(*old(grid), *final(grid)),
        final(grid).cells@ == Seq::new(
            CELLS as nat,
            |k: int|
                let_in(
                    old(grid).cells@[k],
                    topology::col_of(k),
                    topology::row_of(k),
                    velocity,
                    density,
                ),
        ),
{
    let zero: S = S::whole(0);
    let mut j: usize = 1;
    while j <= N
        invariant
            1 <= j <= N + 1,
            zero == S::whole_spec(0),
            old(grid).wf(),
            grid.wf(),
            grid::same_walls(*old(grid), *grid),
            forall|k: int|
                0 <= k < CELLS ==> #[trigger] grid.cells@[k] == if topology::row_of(k) < j {
                    let_in(
                        old(grid).cells@[k],
                        topology::col_of(k),
                        topology::row_of(k),
                        velocity,
                        density,
                    )
                } else {
                    old(grid).cells@[k]
                },
        decreases N + 1 - j,
    {
        let ghost before = *grid;
        let here: usize = grid.to_index(1, j);
        if !grid.cells[here].wall {
            grid.cell_init(1, j, velocity, zero, density);
        }
        proof {
            topology::lemma_place(1, j as int);
            assert forall|k: int| 0 <= k < CELLS implies #[trigger] grid.cells@[k]
                == if topology::row_of(k) < j + 1 {
                let_in(
                    old(grid).cells@[k],
                    topology::col_of(k),
                    topology::row_of(k),
                    velocity,
                    density,
                )
            } else {
                old(grid).cells@[k]
            } by {
                topology::lemma_cell(k);
                assert(before.cells@[k] == if topology::row_of(k) < j {
                    let_in(
                        old(grid).cells@[k],
                        topology::col_of(k),
                        topology::row_of(k),
                        velocity,
                        density,
                    )
                } else {
                    old(grid).cells@[k]
                });
            }
        }
        j = j + 1;
    }
    proof {
        assert forall|k: int| 0 <= k < CELLS implies #[trigger] grid.cells@[k] == let_in(
            old(grid).cells@[k],
            topology::col_of(k),
            topology::row_of(k),
            velocity,
            density,
        ) by {
            topology::lemma_cell(k);
        }
        assert(grid.cells@ =~= Seq::new(
            CELLS as nat,
            |k: int|
                let_in(
                    old(grid).cells@[k],
                    topology::col_of(k),
                    topology::row_of(k),
                    velocity,
                    density,
                ),
        ));
    }
}

/// Keeps the fluid flowing as `config` says. Where that takes more than the cells of the first
/// column, the grid stays as it is, and what is to be done is returned.
pub fn inject_for_config<S: Scalar>(
    grid: &mut Grid<S>,
    config: ConfigKind,
    params: &SimParams<S>,
    scenario: &ScenarioUiState<S>,
) -> (r: Injection<S>)
    requires
        old(grid).wf(),
    ensures
        final(grid).wf(),
        grid::same_walls(*old(grid), *final(grid)),
        r == injection(config, *params, *scenario),
        final(grid).cells@ == if config == ConfigKind::KarmanVortex {
            Seq::new(
                CELLS as nat,
                |k: int|
                    let_in(
                        old(grid).cells@[k],
                        topology::col_of(k),
                        topology::row_of(k),
                        params.flow_velocity,
                        params.flow_density,
                    ),
            )
        } else {
            old(grid).cells@
        },
{
    match config {
        ConfigKind::ClassicFlow => Injection::WindTunnel {
            density: params.flow_density,
            velocity: params.flow_velocity,
        },
        ConfigKind::CenterSource => {
            let least: S = scalar::ratio(1, 10);
            Injection::CenterSource {
                radius: conditions::center_source_radius(),
                density: scalar::at_least(params.flow_density, least),
                velocity: scalar::at_least(params.flow_velocity, least),
                radial: scenario.center_source_radial,
            }
        },
        ConfigKind::KarmanVortex => {
            inject_first_column(grid, params.flow_velocity, params.flow_density);
            Injection::FirstColumn
        },
    }
}

/// The rows of the holes that the flow comes through.
pub open spec fn holes_spec() -> Seq<usize> {
    Seq::new((N / FLOW_SPACE) as nat, |k: int| (FLOW_SPACE * (k + 1)) as usize)
}

/// The rows of the holes that the flow comes through, in ascending order: the multiples of
/// `FLOW_SPACE` between the borders.
pub fn hole_positions() -> (r: Vec<usize>)
    ensures
        r@ == holes_spec(),
{
    let mut holes: Vec<usize> = Vec::new();
    let mut x: usize = 1;
    while x <= N
        invariant
            1 <= x <= N + 1,
            holes@ == Seq::new(
                ((x - 1) / FLOW_SPACE as int) as nat,
                |k: int| (FLOW_SPACE * (k + 1)) as usize,
            ),
        decreases N + 1 - x,
    {
        if x % FLOW_SPACE == 0 {
            holes.push(x);
        }
        x = x + 1;
        assert(holes@ =~= Seq::new(
            ((x - 1) / FLOW_SPACE as int) as nat,
            |k: int| (FLOW_SPACE * (k + 1)) as usize,
        ));
    }
    assert(holes@ =~= holes_spec());
    holes
}

/// The holes are the multiples of `FLOW_SPACE` between the borders, and nothing else.
pub proof fn lemma_holes(holes: Seq<usize>, x: usize)
    requires
        holes == Seq::new((N / FLOW_SPACE) as nat, |k: int| (FLOW_SPACE * (k + 1)) as usize),
    ensures
        holes.contains(x) <==> 1 <= x <= N && x % FLOW_SPACE == 0,
{
    if 1 <= x <= N && x % FLOW_SPACE == 0 {
        let k = x as int / FLOW_SPACE as int - 1;
        assert(holes[k] == x);
    }
    if holes.contains(x) {
        let k = holes.index_of(x);
        assert(holes[k] == x);
    }
}

/// The flow comes through every other row between the borders, beginning with the second, in
/// ascending order.
pub proof fn lemma_holes_in_order(k: int)
    ensures
        holes_spec().len() == 255,
        0 <= k < 255 ==> holes_spec()[k] == 2 * (k + 1),
{
}

/// A shape stands in the middle of the grid with the size that the user asks for: a circle of that
/// diameter, and a rectangle of that width and three fifths of it high, up to rounding.
pub proof fn lemma_shapes_sized(size: Fixed)
    requires
        0 <= size.raw <= 1_000_000 * fixed::ONE,
    ensures
        shape_walls(ShapeKind::Nothing, size) is Nothing,
        shape_walls(ShapeKind::Triangle, size) == (ShapeWalls::Triangle {
            cx: 255,
            cy: 255,
            size,
        }),
        shape_walls(ShapeKind::Square, size) == (ShapeWalls::Square { cx: 255, cy: 255, size }),
        match shape_walls(ShapeKind::Circle, size) {
            ShapeWalls::Circle { cx, cy, radius } => cx == 255 && cy == 255 && 0 <= size.raw - 2
                * radius.raw <= 1,
            _ => false,
        },
        match shape_walls(ShapeKind::Rectangle, size) {
            ShapeWalls::Rectangle { cx, cy, width, height } => cx == 255 && cy == 255 && width
                == size && 0 <= 3 * size.raw - 5 * height.raw < 5,
            _ => false,
        },
{
    fixed::lemma_half(size);
    let share = scalar::ratio_spec::<Fixed>(3, 5);
    assert(share.raw == 306_000_000);
    let n = size.raw * share.raw;
    assert(n == size.raw * 306_000_000) by (nonlinear_arith)
        requires
            n == size.raw * share.raw,
            share.raw == 306_000_000,
    ;
    fixed::lemma_times_near(size, share);
}

/// At the beginning of every simulation the fluid below three fifths of the height of the grid is
/// water, and that above it air; walls stay, and nothing else changes.
pub proof fn lemma_water_at_the_beginning(cells: Seq<Cell<Fixed>>, k: int)
    requires
        cells.len() == CELLS,
        0 <= k < CELLS,
    ensures
        ({
            let after = filled_up(cells)[k];
            let row = topology::row_of(k);
            &&& filled_up(cells).len() == CELLS
            &&& cells[k].wall ==> after == cells[k]
            &&& !cells[k].wall && 5 * row >= 3 * N ==> after.phase.raw == fixed::ONE
            &&& !cells[k].wall && 5 * row < 3 * N ==> after.phase.raw == 0
            &&& after.wall == cells[k].wall
            &&& after.velocity_x == cells[k].velocity_x
            &&& after.velocity_y == cells[k].velocity_y
            &&& after.density == cells[k].density
            &&& after.pressure == cells[k].pressure
        }),
{
    topology::lemma_cell(k);
    fixed::lemma_small_whole(topology::row_of(k) as nat);
    let share = scalar::ratio_spec::<Fixed>(3, 5);
    assert(share.raw == 306_000_000);
    let whole = Fixed::whole_spec(N as nat);
    assert(whole.raw * share.raw == 260_100_000_000 * 306_000_000);
    assert(conditions::water_level_spec::<Fixed>().raw == 306 * fixed::ONE);
}

/// What keeps the fluid flowing has the density and the velocity that the user asks for; those of the
/// source in the middle are not below a tenth, and its radius is one fortieth of the grid.
pub proof fn lemma_injection_as_set(
    config: ConfigKind,
    params: SimParams<Fixed>,
    scenario: ScenarioUiState<Fixed>,
)
    ensures
        match injection(config, params, scenario) {
            Injection::WindTunnel { density, velocity } => {
                &&& config == ConfigKind::ClassicFlow
                &&& density == params.flow_density
                &&& velocity == params.flow_velocity
            },
            Injection::CenterSource { radius, density, velocity, radial } => {
                &&& config == ConfigKind::CenterSource
                &&& 40 * radius.raw == N * fixed::ONE
                &&& 10 * params.flow_density.raw >= fixed::ONE ==> density == params.flow_density
                &&& 10 * params.flow_density.raw < fixed::ONE ==> 10 * density.raw == fixed::ONE
                &&& 10 * params.flow_velocity.raw >= fixed::ONE ==> velocity
                    == params.flow_velocity
                &&& 10 * params.flow_velocity.raw < fixed::ONE ==> 10 * velocity.raw == fixed::ONE
                &&& radial == scenario.center_source_radial
            },
            Injection::FirstColumn => config == ConfigKind::KarmanVortex,
        },
{
    assert(scalar::ratio_spec::<Fixed>(1, 10).raw == 51_000_000);
}

/// Fluid is let in along the first column between the borders, where there is no wall, with the
/// velocity along the row and the density that are given and no velocity along the column; all other
/// cells, and the pressure and the water in these, stay.
pub proof fn lemma_let_in<S: Scalar>(cell: Cell<S>, i: int, j: int, velocity: S, density: S)
    ensures
        ({
            let after = let_in(cell, i, j, velocity, density);
            &&& i != 1 || j < 1 || j > N || cell.wall ==> after == cell
            &&& i == 1 && 1 <= j <= N && !cell.wall ==> after.velocity_x == velocity
                && after.velocity_y == S::whole_spec(0) && after.density == density
            &&& after.wall == cell.wall && after.pressure == cell.pressure && after.phase
                == cell.phase
        }),
{
}

/// The ship that the user sets up has the stacking and all the measures that are set, in the middle
/// of the grid and in a flow toward growing columns.
pub proof fn lemma_ship_as_set<S: Scalar>(boat: BoatUiState<S>)
    ensures
        ({
            let p = boat.params_spec();
            &&& p.center == (255isize, 255isize)
            &&& p.flow_angle == S::whole_spec(0)
            &&& boat.kind_index == 0 ==> p.kind == (ContainerLayoutKind::Grid {
                rows: boat.rows,
                cols: boat.cols,
            })
            &&& boat.kind_index == 1 ==> p.kind == (ContainerLayoutKind::Pyramid {
                rows: boat.rows,
            })
            &&& boat.kind_index >= 2 ==> p.kind == (ContainerLayoutKind::Staggered {
                rows: boat.rows,
                cols: boat.cols,
            })
            &&& p.hull_width == boat.hull_width && p.hull_height == boat.hull_height
            &&& p.container_width == boat.container_width
            &&& p.container_height == boat.container_height
            &&& p.container_gap == boat.container_gap
            &&& p.curve_bow == boat.curve_bow && p.curve_stern == boat.curve_stern
            &&& p.hull_curvature == boat.hull_curvature
            &&& p.bow_length == boat.bow_length && p.stern_length == boat.stern_length
            &&& p.add_bow_fairing == boat.add_bow_fairing
            &&& p.add_stern_fairing == boat.add_stern_fairing
            &&& p.fairing_length == boat.fairing_length
        }),
{
}

} // verus!
