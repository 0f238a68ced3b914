//! Jobs, fleet and routes as the features see them.
//!
//! Times are seconds (`Timestamp`); a vehicle is known by its `id`, which acts
//! as its identity: two vehicles with equal fields but different ids are
//! different resources.
use vstd::prelude::*;
use crate::tiered_costs::TieredCosts;

verus! {

/// A point in time, in seconds.
pub type Timestamp = i64;

/// Seconds in a calendar day.
pub const SECONDS_PER_DAY: i64 = 86400;

/// A time window `[start, end]`.
#[derive(Clone, Copy, Debug, PartialEq, Eq, Structural)]
pub struct TimeWindow {
    pub start: Timestamp,
    pub end: Timestamp,
}

/// An optional earliest and latest time.
#[derive(Clone, Copy, Debug, PartialEq, Eq, Structural)]
pub struct TimeInterval {
    pub earliest: Option<Timestamp>,
    pub latest: Option<Timestamp>,
}

/// Typed attributes of a job. Each feature reads the fields it knows.
#[derive(Clone, Debug)]
pub struct Dimensions {
    pub job_id: Option<String>,
    pub sequence_key: Option<String>,
    pub sequence_order: Option<u32>,
    pub sequence_days_between_min: Option<u32>,
    pub sequence_days_between_max: Option<u32>,
    pub sync_group: Option<String>,
    pub sync_index: Option<u32>,
    pub sync_size: Option<u32>,
    /// Allowed deviation from the other members of the sync group, in seconds.
    pub sync_tolerance: Option<i64>,
    pub job_group: Option<String>,
    pub affinity: Option<String>,
    pub affinity_sequence: Option<u32>,
    pub affinity_duration_days: Option<u32>,
    /// Allowed deviation from the affinity group's day grid, in seconds.
    pub affinity_tolerance: Option<i64>,
    pub compatibility: Option<String>,
    pub same_assignee_key: Option<String>,
    /// How much of a shared resource the job consumes.
    pub resource_demand: Option<u64>,
}

impl Dimensions {
    /// Dimensions with no attribute set.
    pub fn empty() -> (r: Self)
        ensures
            r.job_id.is_none() && r.sequence_key.is_none() && r.sequence_order.is_none()
                && r.sequence_days_between_min.is_none() && r.sequence_days_between_max.is_none()
                && r.sync_group.is_none() && r.sync_index.is_none() && r.sync_size.is_none()
                && r.sync_tolerance.is_none() && r.job_group.is_none() && r.affinity.is_none()
                && r.affinity_sequence.is_none() && r.affinity_duration_days.is_none()
                && r.affinity_tolerance.is_none()
                && r.compatibility.is_none() && r.same_assignee_key.is_none()
                && r.resource_demand.is_none(),
    {
        Dimensions {
            job_id: None,
            sequence_key: None,
            sequence_order: None,
            sequence_days_between_min: None,
            sequence_days_between_max: None,
            sync_group: None,
            sync_index: None,
            sync_size: None,
            sync_tolerance: None,
            job_group: None,
            affinity: None,
            affinity_sequence: None,
            affinity_duration_days: None,
            affinity_tolerance: None,
            compatibility: None,
            same_assignee_key: None,
            resource_demand: None,
        }
    }
}

/// A place where a job can be served.
#[derive(Clone, Debug)]
pub struct Place {
    pub location: Option<usize>,
    pub duration: i64,
    pub times: Vec<TimeWindow>,
}

/// A job: one activity for a single job, several for a multi job.
#[derive(Clone, Debug)]
pub struct Job {
    pub dimens: Dimensions,
    pub places: Vec<Place>,
    /// Number of activities the job adds to a tour.
    pub activities: usize,
}

/// Start of the first time window of the job's first place.
pub open spec fn job_start_time(job: Job) -> Option<Timestamp> {
    if job.places@.len() > 0 && job.places@[0].times@.len() > 0 {
        Some(job.places@[0].times@[0].start)
    } else {
        None
    }
}

/// Start of the first time window of the job's first place, if any.
pub fn extract_job_start_time(job: &Job) -> (r: Option<Timestamp>)
    ensures
        r == job_start_time(*job),
{
    if job.places.len() > 0 && job.places[0].times.len() > 0 {
        Some(job.places[0].times[0].start)
    } else {
        None
    }
}

/// Two jobs are the same job when both carry the same id.
pub open spec fn same_job(a: Job, b: Job) -> bool {
    a.dimens.job_id matches Some(x) && b.dimens.job_id matches Some(y) && x@ == y@
}

/// Whether two jobs carry the same id.
pub fn is_same_job(a: &Job, b: &Job) -> (r: bool)
    ensures
        r == same_job(*a, *b),
{
    match (&a.dimens.job_id, &b.dimens.job_id) {
        (Some(x), Some(y)) => x.eq(y),
        _ => false,
    }
}

/// Operating costs of a driver or a vehicle.
#[derive(Clone, Copy, Debug, PartialEq, Eq, Structural)]
pub struct Costs {
    pub fixed: i64,
    pub per_distance: i64,
    pub per_driving_time: i64,
    pub per_waiting_time: i64,
    pub per_service_time: i64,
}

/// Driver detail (reserved).
#[derive(Clone, Copy, Debug, PartialEq, Eq, Structural)]
pub struct DriverDetail {}

/// A driver of a vehicle.
#[derive(Clone, Debug)]
pub struct Driver {
    pub costs: Costs,
    pub tiered_costs: Option<TieredCosts>,
    pub details: Vec<DriverDetail>,
}

/// A place of a vehicle shift.
#[derive(Clone, Copy, Debug, PartialEq, Eq, Structural)]
pub struct VehiclePlace {
    pub location: usize,
    pub time: TimeInterval,
}

/// A vehicle shift.
#[derive(Clone, Copy, Debug, PartialEq, Eq, Structural)]
pub struct VehicleDetail {
    pub start: Option<VehiclePlace>,
    pub end: Option<VehiclePlace>,
}

/// A vehicle; `id` is its identity.
#[derive(Clone, Debug)]
pub struct Vehicle {
    pub id: usize,
    pub profile: usize,
    pub costs: Costs,
    pub tiered_costs: Option<TieredCosts>,
    pub details: Vec<VehicleDetail>,
}

/// Exact start, end and working time of an actor.
#[derive(Clone, Copy, Debug, PartialEq, Eq, Structural)]
pub struct ActorDetail {
    pub start: Option<VehiclePlace>,
    pub end: Option<VehiclePlace>,
    pub time: TimeWindow,
}

/// One vehicle shift with its driver.
#[derive(Clone, Debug)]
pub struct Actor {
    pub vehicle: Vehicle,
    pub driver: Driver,
    pub detail: ActorDetail,
}

/// Arrival and departure of an activity.
#[derive(Clone, Copy, Debug, PartialEq, Eq, Structural)]
pub struct Schedule {
    pub arrival: Timestamp,
    pub departure: Timestamp,
}

/// A visit in a tour, with the job it serves if any.
#[derive(Clone, Debug)]
pub struct Activity {
    pub location: usize,
    /// Earliest service start at this place.
    pub time_start: Timestamp,
    pub duration: i64,
    pub schedule: Schedule,
    pub job: Option<Job>,
    /// A shared resource offered here: `(capacity, resource id)`.
    pub resource: Option<(u64, usize)>,
}

/// An actor and its tour of activities.
#[derive(Clone, Debug)]
pub struct Route {
    pub actor: Actor,
    pub activities: Vec<Activity>,
}

/// Per-route bookkeeping kept by the features.
#[derive(Clone, Debug)]
pub struct RouteState {
    /// Sync groups that have a member in this route.
    pub sync_groups: Option<Vec<String>>,
    /// Activity index ranges `[start, end]` that draw on the resource offered
    /// at their start.
    pub resource_intervals: Vec<(usize, usize)>,
    /// Resource left at an interval's start activity: `(index, amount)`.
    pub resource_available: Vec<(usize, i128)>,
}

/// A route with its bookkeeping.
#[derive(Clone, Debug)]
pub struct RouteContext {
    pub route: Route,
    pub state: RouteState,
}

/// Start of the shift of an actor.
pub fn extract_shift_start_time(actor: &Actor) -> (r: Timestamp)
    ensures
        r == actor.detail.time.start,
{
    actor.detail.time.start
}

/// Departure of the first activity that serves `job`.
pub open spec fn route_departure_of(acts: Seq<Activity>, job: Job) -> Option<Timestamp>
    decreases acts.len(),
{
    if acts.len() == 0 {
        None
    } else if acts[0].job matches Some(j) && same_job(j, job) {
        Some(acts[0].schedule.departure)
    } else {
        route_departure_of(acts.drop_first(), job)
    }
}

/// Departure of the first activity of the route that serves `job`, if any.
pub fn extract_scheduled_departure(route: &Route, job: &Job) -> (r: Option<Timestamp>)
    ensures
        r == route_departure_of(route.activities@, *job),
{
    let mut i: usize = 0;
    assert(route.activities@.subrange(0, route.activities@.len() as int) =~= route.activities@);
    while i < route.activities.len()
        invariant
            0 <= i <= route.activities.len(),
            route_departure_of(route.activities@, *job) == route_departure_of(
                route.activities@.subrange(i as int, route.activities@.len() as int),
                *job,
            ),
        decreases route.activities.len() - i,
    {
        let ghost rest = route.activities@.subrange(i as int, route.activities@.len() as int);
        assert(rest.drop_first() =~= route.activities@.subrange(
            i as int + 1,
            route.activities@.len() as int,
        ));
        if let Some(j) = &route.activities[i].job {
            if is_same_job(j, job) {
                return Some(route.activities[i].schedule.departure);
            }
        }
        i = i + 1;
    }
    None
}

/// Which detail of its vehicle an actor's shift is: the first whose start
/// time equals the actor's start and whose end time, when set, equals the
/// actor's end; the first detail when none matches.
pub open spec fn shift_index(actor: Actor) -> int {
    if exists|i: int| 0 <= i < actor.vehicle.details@.len() && detail_matches(actor, i) {
        let i = choose|i: int|
            0 <= i < actor.vehicle.details@.len() && detail_matches(actor, i) && forall|j: int|
                0 <= j < i ==> !detail_matches(actor, j);
        i
    } else {
        0
    }
}

/// Whether vehicle detail `i` describes the actor's shift.
pub open spec fn detail_matches(actor: Actor, i: int) -> bool {
    let d = actor.vehicle.details@[i];
    (d.start matches Some(s) && s.time.earliest == Some(actor.detail.time.start)) && (match d.end {
        Some(e) => match e.time.latest {
            Some(l) => l == actor.detail.time.end,
            None => true,
        },
        None => true,
    })
}

/// The index of the vehicle detail that the actor's shift comes from.
pub fn get_shift_index(actor: &Actor) -> (r: usize)
    ensures
        r == shift_index(*actor),
{
    let details = &actor.vehicle.details;
    let mut i: usize = 0;
    while i < details.len()
        invariant
            0 <= i <= details.len(),
            details == &actor.vehicle.details,
            forall|j: int| 0 <= j < i ==> !detail_matches(*actor, j),
        decreases details.len() - i,
    {
        let d = &details[i];
        let start_matches = match &d.start {
            Some(s) => match s.time.earliest {
                Some(t) => t == actor.detail.time.start,
                None => false,
            },
            None => false,
        };
        let end_matches = match &d.end {
            Some(e) => match e.time.latest {
                Some(l) => l == actor.detail.time.end,
                None => true,
            },
            None => true,
        };
        if start_matches && end_matches {
            proof {
                let k = choose|k: int|
                    0 <= k < actor.vehicle.details@.len() && detail_matches(*actor, k) && forall|
                        j: int,
                    | 0 <= j < k ==> !detail_matches(*actor, j);
                assert(detail_matches(*actor, i as int));
                if k < i {
                } else if k > i {
                }
            }
            return i;
        }
        i = i + 1;
    }
    0
}

} // verus!
