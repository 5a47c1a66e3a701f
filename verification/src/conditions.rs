//! The parameters of the simulation.
use vstd::prelude::*;
use crate::fixed;
use crate::fixed::Fixed;
use crate::scalar;
use crate::scalar::Scalar;
use crate::vector::Vector22;

verus! {

/// The number of columns, and of rows, between the borders of the grid.
pub const N: usize = 510;

/// The number of columns, and of rows, of the grid with its borders. A power of two, so that
/// the Morton order of the cells has no gaps.
pub const SIDE: usize = 512;

/// The number of cells of the grid.
pub const CELLS: usize = 262144;

/// The width and the height of a cell, in pixels.
pub const CELL_SIZE: usize = 2;

/// The width of the window, in pixels.
pub const WINDOW_WIDTH: usize = 1024;

/// The height of the window, in pixels.
pub const WINDOW_HEIGHT: usize = 1024;

/// The distance between two holes that the flow comes through.
pub const FLOW_SPACE: usize = 2;

/// Objects of fewer cells are not reported.
pub const OBJET_SIZE_PRINT_LIMIT: usize = 10;

/// The density of the flow.
pub open spec fn flow_density_spec<S: Scalar>() -> S {
    S::whole_spec(15)
}

/// The density of the flow.
pub fn flow_density<S: Scalar>() -> (r: S)
    ensures
        r == flow_density_spec::<S>(),
{
    S::whole(15)
}

/// The velocity of the flow.
pub open spec fn flow_velocity_spec<S: Scalar>() -> S {
    scalar::ratio_spec(27, 10)
}

/// The velocity of the flow.
pub fn flow_velocity<S: Scalar>() -> (r: S)
    ensures
        r == flow_velocity_spec::<S>(),
{
    scalar::ratio(27, 10)
}

/// The viscosity of the fluid.
pub open spec fn viscosity_spec<S: Scalar>() -> S {
    S::whole_spec(0)
}

/// The viscosity of the fluid: none.
pub fn viscosity<S: Scalar>() -> (r: S)
    ensures
        r == viscosity_spec::<S>(),
{
    S::whole(0)
}

/// The weight of the drag in the score of a ship.
pub open spec fn drag_weight_spec<S: Scalar>() -> S {
    S::whole_spec(1)
}

/// The weight of the drag in the score of a ship.
pub fn drag_weight<S: Scalar>() -> (r: S)
    ensures
        r == drag_weight_spec::<S>(),
{
    S::whole(1)
}

/// The weight of the moments in the score of a ship.
pub open spec fn torque_weight_spec<S: Scalar>() -> S {
    S::whole_spec(1)
}

/// The weight of the moments in the score of a ship.
pub fn torque_weight<S: Scalar>() -> (r: S)
    ensures
        r == torque_weight_spec::<S>(),
{
    S::whole(1)
}

/// The radius of the source in the middle of the grid.
pub open spec fn center_source_radius_spec<S: Scalar>() -> S {
    S::whole_spec(N as nat).over_spec(S::whole_spec(40))
}

/// The radius of the source in the middle of the grid.
pub fn center_source_radius<S: Scalar>() -> (r: S)
    ensures
        r == center_source_radius_spec::<S>(),
{
    S::whole(N).over(S::whole(40))
}

/// The density of air.
pub open spec fn rho_air_spec<S: Scalar>() -> S {
    S::whole_spec(1)
}

/// The density of air.
pub fn rho_air<S: Scalar>() -> (r: S)
    ensures
        r == rho_air_spec::<S>(),
{
    S::whole(1)
}

/// The density of water.
pub open spec fn rho_water_spec<S: Scalar>() -> S {
    S::whole_spec(25)
}

/// The density of water. Its ratio to that of air is far smaller than in nature, so that the
/// pressure settles after few iterations.
pub fn rho_water<S: Scalar>() -> (r: S)
    ensures
        r == rho_water_spec::<S>(),
{
    S::whole(25)
}

/// The first row of the water.
pub open spec fn water_level_spec<S: Scalar>() -> S {
    S::whole_spec(N as nat).times_spec(scalar::ratio_spec(3, 5))
}

/// The first row of the water.
pub fn water_level<S: Scalar>() -> (r: S)
    ensures
        r == water_level_spec::<S>(),
{
    S::whole(N).times(scalar::ratio(3, 5))
}

/// The time of one step, in seconds.
pub open spec fn time_step_spec<S: Scalar>() -> S {
    scalar::ratio_spec(1, 60)
}

/// The time of one step, in seconds.
pub fn time_step<S: Scalar>() -> (r: S)
    ensures
        r == time_step_spec::<S>(),
{
    scalar::ratio(1, 60)
}

/// The gravity along the rows.
pub open spec fn gravity_x_spec<S: Scalar>() -> S {
    S::whole_spec(0)
}

/// The gravity along the rows.
pub fn gravity_x<S: Scalar>() -> (r: S)
    ensures
        r == gravity_x_spec::<S>(),
{
    S::whole(0)
}

/// The gravity along the columns.
pub open spec fn gravity_y_spec<S: Scalar>() -> S {
    scalar::ratio_spec(981, 100)
}

/// The gravity along the columns.
pub fn gravity_y<S: Scalar>() -> (r: S)
    ensures
        r == gravity_y_spec::<S>(),
{
    scalar::ratio(981, 100)
}

/// The greatest velocity that is let stand in water.
pub open spec fn max_velocity_spec<S: Scalar>() -> S {
    S::whole_spec(15)
}

/// The greatest velocity that is let stand in water.
pub fn max_velocity<S: Scalar>() -> (r: S)
    ensures
        r == max_velocity_spec::<S>(),
{
    S::whole(15)
}

/// Gravity on the second grid: none.
pub fn gravity<S: Scalar>() -> (r: Vector22<S>)
    ensures
        r.x == S::whole_spec(0),
        r.y == S::whole_spec(0),
{
    Vector22 { x: S::whole(0), y: S::whole(0) }
}

/// The parameters of the simulation, in steps of the fixed-point numbers: all of them are exact.
pub proof fn lemma_parameters_exact()
    ensures
        flow_density_spec::<Fixed>().raw == 15 * fixed::ONE,
        10 * flow_velocity_spec::<Fixed>().raw == 27 * fixed::ONE,
        viscosity_spec::<Fixed>().raw == 0,
        drag_weight_spec::<Fixed>().raw == fixed::ONE,
        torque_weight_spec::<Fixed>().raw == fixed::ONE,
        40 * center_source_radius_spec::<Fixed>().raw == N * fixed::ONE,
        rho_air_spec::<Fixed>().raw == fixed::ONE,
        rho_water_spec::<Fixed>().raw == 25 * fixed::ONE,
        5 * water_level_spec::<Fixed>().raw == 3 * N * fixed::ONE,
        60 * time_step_spec::<Fixed>().raw == fixed::ONE,
        gravity_x_spec::<Fixed>().raw == 0,
        100 * gravity_y_spec::<Fixed>().raw == 981 * fixed::ONE,
        max_velocity_spec::<Fixed>().raw == 15 * fixed::ONE,
{
    let share = scalar::ratio_spec::<Fixed>(3, 5);
    assert(share.raw == 306_000_000);
    let whole = Fixed::whole_spec(N as nat);
    assert(whole.raw * share.raw == 260_100_000_000 * 306_000_000);
}

} // verus!
