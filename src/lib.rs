//! Constraint, objective and state features for assigning jobs to vehicle shifts.
//!
//! Quantities are integers throughout: times are seconds, distances and costs
//! are whole units of whatever scale the caller picks.
use vstd::prelude::*;

pub mod costs;
pub mod fleet;
pub mod group_table;
pub mod job_sequence;
pub mod model;
pub mod routing;
pub mod same_assignee;
pub mod shared_resource;
pub mod solution;
pub mod sync;
pub mod tiered_costs;
pub mod tour_limits;
pub mod vehicle_affinity;

verus! {

} // verus!
