//! The candidate solution that features inspect and keep consistent.
use vstd::prelude::*;
use crate::model::{Job, Route, RouteContext};
use crate::job_sequence::SequenceGroupState;
use crate::sync::SyncGroupInfo;
use crate::vehicle_affinity::AffinityGroupState;

verus! {

/// Identifies the rule that refused a move.
#[derive(Clone, Copy, Debug, PartialEq, Eq, Structural)]
pub struct ViolationCode(pub i32);

/// A refused move. `stopped` tells the search that no other position in the
/// same route can help.
#[derive(Clone, Copy, Debug, PartialEq, Eq, Structural)]
pub struct ConstraintViolation {
    pub code: ViolationCode,
    pub stopped: bool,
}

impl ConstraintViolation {
    /// A violation that rules out the whole route.
    pub fn fail(code: ViolationCode) -> (r: Option<ConstraintViolation>)
        ensures
            r == Some(ConstraintViolation { code, stopped: true }),
    {
        Some(ConstraintViolation { code, stopped: true })
    }
}

/// Solution-wide aggregates kept by the features; `None` until first built.
#[derive(Clone, Debug)]
pub struct SolutionState {
    pub sequence_groups: Option<Vec<(String, SequenceGroupState)>>,
    pub sync_groups: Option<Vec<(String, SyncGroupInfo)>>,
    /// Assignee key to the id of the vehicle that serves it.
    pub assignees: Option<Vec<(String, usize)>>,
    /// Affinity key to the id of the vehicle bound to it.
    pub affinities: Option<Vec<(String, usize)>>,
    pub affinity_groups: Option<Vec<(String, AffinityGroupState)>>,
}

impl SolutionState {
    /// A state with no aggregate built yet.
    pub fn empty() -> (r: Self)
        ensures
            r.sequence_groups is None,
            r.sync_groups is None,
            r.assignees is None,
            r.affinities is None,
            r.affinity_groups is None,
    {
        SolutionState {
            sequence_groups: None,
            sync_groups: None,
            assignees: None,
            affinities: None,
            affinity_groups: None,
        }
    }
}

/// A candidate solution.
#[derive(Clone, Debug)]
pub struct SolutionContext {
    /// Jobs still to be assigned.
    pub required: Vec<Job>,
    /// Jobs left out on purpose.
    pub ignored: Vec<Job>,
    pub routes: Vec<RouteContext>,
    pub state: SolutionState,
}

/// The jobs that a list of activities serves, in tour order.
pub open spec fn activity_jobs(acts: Seq<crate::model::Activity>) -> Seq<Job>
    decreases acts.len(),
{
    if acts.len() == 0 {
        Seq::empty()
    } else {
        let rest = activity_jobs(acts.drop_last());
        match acts.last().job {
            Some(j) => rest.push(j),
            None => rest,
        }
    }
}

/// Each of `jobs` paired with the route that serves it.
pub open spec fn paired_with(r: Route, jobs: Seq<Job>) -> Seq<(Route, Job)> {
    jobs.map_values(|j: Job| (r, j))
}

/// Each job served in the routes, paired with its route, route by route.
pub open spec fn routed_jobs(routes: Seq<RouteContext>) -> Seq<(Route, Job)>
    decreases routes.len(),
{
    if routes.len() == 0 {
        Seq::empty()
    } else {
        let r = routes.last().route;
        routed_jobs(routes.drop_last()) + paired_with(r, activity_jobs(r.activities@))
    }
}

/// The jobs served in the routes, route by route.
pub open spec fn route_job_list(routes: Seq<RouteContext>) -> Seq<Job>
    decreases routes.len(),
{
    if routes.len() == 0 {
        Seq::empty()
    } else {
        route_job_list(routes.drop_last()) + activity_jobs(routes.last().route.activities@)
    }
}

/// Every job the solution knows: required, ignored, then routed.
pub open spec fn all_jobs(s: SolutionContext) -> Seq<Job> {
    s.required@ + s.ignored@ + route_job_list(s.routes@)
}

} // verus!
