//! A simulation with its user: what is set, what is drawn, and what is kept of the steps.
use rand::rngs::ThreadRng;
use vstd::prelude::*;
use crate::boat;
use crate::boat::{BoatParams, Draws};
use crate::conditions::{CELLS, N};
use crate::grid;
use crate::grid::Grid;
use crate::history;
use crate::history::{ForceHistories, ObjectTrace};
use crate::pen;
use crate::pen::Pen;
use crate::pressure_computation;
use crate::pressure_computation::ObjectForce;
use crate::scalar::Scalar;
use crate::scenario;
use crate::scenario::{BoatUiState, ConfigKind, Injection, ScenarioUiState, ShapeWalls, SimParams};
use crate::ship;
use crate::ship::ShipLayout;
use crate::topology;

verus! {

/// The most steps that are kept of the forces on an object.
pub const KEPT_STEPS: usize = 300;

/// A running simulation.
pub struct Session<S> {
    pub grid: Grid<S>,
    pub params: SimParams<S>,
    pub scenario: ScenarioUiState<S>,
    pub boat: BoatUiState<S>,
    pub history: ForceHistories<S>,
    pub pen: Pen,
    /// The number of steps since the last restart.
    pub step: usize,
}

impl<S: Scalar> Session<S> {
    /// The parts of the session are well-formed.
    pub open spec fn wf(self) -> bool {
        self.grid.wf() && self.history.wf() && self.pen.wf()
    }

    /// What the user has set is the same as in `other`.
    pub open spec fn same_settings(self, other: Self) -> bool {
        &&& self.params == other.params
        &&& self.scenario == other.scenario
        &&& self.boat == other.boat
    }

    /// Nothing is kept of earlier steps.
    pub open spec fn fresh(self) -> bool {
        &&& self.history.traces() == Map::<usize, ObjectTrace<S>>::empty()
        &&& self.history.step == 0
        &&& self.step == 0
    }

    /// A session with `grid` and the default settings.
    pub fn new(grid: Grid<S>) -> (r: Self)
        requires
            grid.wf(),
        ensures
            r.wf(),
            r.fresh(),
            r.grid == grid,
            r.history.max_points == KEPT_STEPS,
            r.pen == (Pen { down: false, last: None, anchor: None, cursor: None }),
            r.params == SimParams::<S>::default_spec(),
            r.scenario == ScenarioUiState::<S>::default_spec(),
            r.boat == BoatUiState::<S>::default_spec(),
    {
        Session {
            grid,
            params: SimParams::default(),
            scenario: ScenarioUiState::default(),
            boat: BoatUiState::default(),
            history: ForceHistories::new(KEPT_STEPS),
            pen: Pen::new(),
            step: 0,
        }
    }

    fn forget(&mut self)
        ensures
            final(self).fresh(),
            final(self).history.wf(),
            final(self).history.max_points == old(self).history.max_points,
            final(self).same_settings(*old(self)),
            final(self).grid == old(self).grid,
            final(self).pen == old(self).pen,
    {
        self.history.clear();
        self.step = 0;
    }

    /// Begins the scenario anew with an empty grid. Returns the walls of the shape that is to
    /// stand in its middle.
    pub fn restart(&mut self) -> (r: ShapeWalls<S>)
        requires
            old(self).wf(),
        ensures
            final(self).wf(),
            final(self).fresh(),
            final(self).same_settings(*old(self)),
            final(self).history.max_points == old(self).history.max_points,
            final(self).pen == old(self).pen,
            final(self).grid.cells@ == Seq::new(CELLS as nat, |k: int| Grid::<S>::still_air()),
            final(self).grid.wall_topology_dirty,
            r == scenario::shape_walls(old(self).scenario.shape, old(self).scenario.shape_size),
    {
        self.grid = Grid::new();
        self.forget();
        scenario::apply_shape(self.scenario.shape, self.scenario.shape_size)
    }

    fn launch(&mut self, layout: &ShipLayout<S>)
        requires
            old(self).wf(),
        ensures
            final(self).wf(),
            final(self).fresh(),
            final(self).same_settings(*old(self)),
            final(self).history.max_points == old(self).history.max_points,
            final(self).pen == old(self).pen,
            final(self).grid.cells@ == ship::ship_cells(*layout),
            final(self).grid.wall_topology_dirty,
    {
        let (grid, _) = ship::launch(layout);
        self.grid = grid;
        self.forget();
    }

    /// Begins anew with the ship that the user has set up. Returns the ship.
    pub fn apply_boat(&mut self) -> (r: ShipLayout<S>)
        requires
            old(self).wf(),
            old(self).boat.params_spec().fits(),
        ensures
            final(self).wf(),
            final(self).fresh(),
            final(self).same_settings(*old(self)),
            final(self).history.max_points == old(self).history.max_points,
            final(self).pen == old(self).pen,
            old(self).boat.params_spec().describes("custom"@, r),
            final(self).grid.cells@ == ship::ship_cells(r),
            final(self).grid.wall_topology_dirty,
    {
        let params: BoatParams<S> = self.boat.params();
        let layout: ShipLayout<S> = boat::build_boat_layout("custom", &params);
        self.launch(&layout);
        layout
    }

    /// Begins anew with a random ship of the measures that the user has set up. Returns the ship.
    pub fn apply_random_boat(&mut self, rng: &mut ThreadRng, draws: &Draws<S>) -> (r: ShipLayout<S>)
        requires
            old(self).wf(),
            old(self).boat.params_spec().fits_any_draw(*draws),
        ensures
            final(self).wf(),
            final(self).fresh(),
            final(self).same_settings(*old(self)),
            final(self).history.max_points == old(self).history.max_points,
            final(self).pen == old(self).pen,
            exists|kind: boat::ContainerLayoutKind| #[trigger]
                boat::drawable(kind) && old(self).boat.params_spec().with_draws_spec(
                    kind,
                    *draws,
                ).describes("alea_apercu"@, r),
            final(self).grid.cells@ == ship::ship_cells(r),
            final(self).grid.wall_topology_dirty,
    {
        let params: BoatParams<S> = self.boat.params();
        let layout: ShipLayout<S> = boat::random_layout("alea_apercu", &params, rng, draws);
        self.launch(&layout);
        layout
    }

    /// Whether the simulation goes on by a step: unless it is paused, or where the user asks for
    /// one.
    pub fn advances(&self, do_step: bool) -> (r: bool)
        ensures
            r == (!self.params.paused || do_step),
    {
        !self.params.paused || do_step
    }

    /// Keeps the fluid flowing as the scenario says. Returns what is left to be done for it.
    pub fn inject(&mut self) -> (r: Injection<S>)
        requires
            old(self).wf(),
        ensures
            final(self).wf(),
            final(self).same_settings(*old(self)),
            final(self).history == old(self).history,
            final(self).pen == old(self).pen,
            final(self).step == old(self).step,
            grid::same_walls(old(self).grid, final(self).grid),
            r == scenario::injection(
                old(self).scenario.config,
                old(self).params,
                old(self).scenario,
            ),
            final(self).grid.cells@ == if old(self).scenario.config == ConfigKind::KarmanVortex {
                Seq::new(
                    CELLS as nat,
                    |k: int|
                        scenario::let_in(
                            old(self).grid.cells@[k],
                            topology::col_of(k),
                            topology::row_of(k),
                            old(self).params.flow_velocity,
                            old(self).params.flow_density,
                        ),
                )
            } else {
                old(self).grid.cells@
            },
    {
        scenario::inject_for_config(
            &mut self.grid,
            self.scenario.config,
            &self.params,
            &self.scenario,
        )
    }

    /// Counts a step, once the fluid has moved, and adds the forces on the objects to the
    /// history.
    pub fn record_step(&mut self)
        requires
            old(self).wf(),
            old(self).step < usize::MAX,
            old(self).history.step < usize::MAX,
        ensures
            final(self).wf(),
            final(self).same_settings(*old(self)),
            final(self).pen == old(self).pen,
            final(self).step == old(self).step + 1,
            final(self).grid.cells == old(self).grid.cells,
            !final(self).grid.wall_topology_dirty,
            !old(self).grid.wall_topology_dirty ==> final(self).grid == old(self).grid,
            final(self).history.step == old(self).history.step + 1,
            final(self).history.max_points == old(self).history.max_points,
            final(self).history.traces() == history::with_objects(
                old(self).history.traces(),
                old(self).history.step,
                old(self).history.max_points,
                pressure_computation::forces_on_objects(old(self).grid.cells@),
                pressure_computation::forces_on_objects(old(self).grid.cells@).len(),
            ),
    {
        self.step = self.step + 1;
        let objects: Vec<ObjectForce<S>> = self.grid.compute_object_forces();
        self.history.push(&objects);
    }

    /// Takes the button of the mouse being pressed.
    pub fn press(&mut self)
        requires
            old(self).wf(),
            pen::pen_fits(N as int, N as int, old(self).params.pen_size as int),
        ensures
            final(self).wf(),
            final(self).same_settings(*old(self)),
            final(self).history == old(self).history,
            final(self).step == old(self).step,
            final(self).pen == old(self).pen.pressed(old(self).params.straight_line_mode),
            grid::stamped(
                old(self).grid,
                final(self).grid,
                pen::trace_shape(
                    old(self).pen.pressed_trace(old(self).params.straight_line_mode),
                    old(self).params.pen_size as int,
                ),
            ),
    {
        self.pen.press(&mut self.grid, self.params.straight_line_mode, self.params.pen_size)
    }

    /// Takes the button of the mouse being released.
    pub fn release(&mut self)
        requires
            old(self).wf(),
            pen::pen_fits(N as int, N as int, old(self).params.pen_size as int),
        ensures
            final(self).wf(),
            final(self).same_settings(*old(self)),
            final(self).history == old(self).history,
            final(self).step == old(self).step,
            final(self).pen == old(self).pen.released(old(self).params.straight_line_mode),
            grid::stamped(
                old(self).grid,
                final(self).grid,
                pen::trace_shape(
                    old(self).pen.released_trace(old(self).params.straight_line_mode),
                    old(self).params.pen_size as int,
                ),
            ),
    {
        self.pen.release(&mut self.grid, self.params.straight_line_mode, self.params.pen_size)
    }

    /// Takes the cursor being moved to column `x` and row `y`.
    pub fn moved(&mut self, x: usize, y: usize)
        requires
            old(self).wf(),
            pen::pen_fits(N as int, N as int, old(self).params.pen_size as int),
        ensures
            final(self).wf(),
            final(self).same_settings(*old(self)),
            final(self).history == old(self).history,
            final(self).step == old(self).step,
            final(self).pen == old(self).pen.moved_to(
                x,
                y,
                old(self).params.straight_line_mode,
            ),
            grid::stamped(
                old(self).grid,
                final(self).grid,
                pen::trace_shape(
                    old(self).pen.moved_trace(
                        x as int,
                        y as int,
                        old(self).params.straight_line_mode,
                    ),
                    old(self).params.pen_size as int,
                ),
            ),
    {
        self.pen.moved(
            &mut self.grid,
            x,
            y,
            self.params.straight_line_mode,
            self.params.pen_size,
        )
    }
}

} // verus!
