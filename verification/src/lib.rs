//! A wind tunnel in two dimensions: a grid of cells that water and air move in, the forces of the
//! fluid on the walls in it, ships with their containers as walls, and the picture of it all.
use vstd::prelude::*;

pub mod boat;
pub mod conditions;
pub mod display;
pub mod fixed;
pub mod flow_laws;
pub mod force_laws;
pub mod grid;
pub mod history;
pub mod morton;
pub mod pen;
pub mod picture_laws;
pub mod pressure_computation;
pub mod report;
pub mod scalar;
pub mod scenario;
pub mod session;
pub mod ship;
pub mod ship_laws;
pub mod stamp;
pub mod topology;
pub mod trial;
pub mod vector;
pub mod water;

verus! {

} // verus!
