//! Synchronisation of several vehicles on the members of one job group.
use vstd::prelude::*;
use crate::group_table::{
    find_key, keys_unique, lemma_key_index_bounds, lemma_lookup_upsert, lemma_upsert_unique_all,
    lookup, table_view, upsert,
};
use crate::model::{
    extract_job_start_time, is_same_job, job_start_time, same_job, Activity, Job, Route,
    RouteContext, Timestamp,
};
use crate::solution::{activity_jobs, ConstraintViolation, SolutionContext, ViolationCode};
use crate::costs::{matrix_at, SimpleTransportCost};

verus! {

/// One member of a sync group placed in a route:
/// `(route index, member index, service start, tolerance in seconds)`.
pub type SyncAssignment = (usize, u32, Timestamp, i64);

/// The members of a sync group placed so far.
#[derive(Clone, Debug)]
pub struct SyncGroupInfo {
    /// How many members the group has.
    pub required_size: u32,
    pub assignments: Vec<SyncAssignment>,
}

/// What a sync group holds: its size and its placed members.
pub struct SyncGroupView {
    pub required_size: u32,
    pub assignments: Seq<SyncAssignment>,
}

impl View for SyncGroupInfo {
    type V = SyncGroupView;

    open spec fn view(&self) -> SyncGroupView {
        SyncGroupView { required_size: self.required_size, assignments: self.assignments@ }
    }
}


/// Default tolerance of a sync member: fifteen minutes.
pub const DEFAULT_SYNC_TOLERANCE: i64 = 900;

/// Buffer added by the last-resort time estimate: fifteen minutes.
pub const CONSERVATIVE_BUFFER: i64 = 900;

/// Whether a member served at `t` with tolerance `tolerance` agrees with every
/// placed member: the deviation from each stays within the smaller of the two
/// tolerances.
pub open spec fn timing_ok(existing: Seq<SyncAssignment>, t: int, tolerance: int) -> bool {
    forall|i: int|
        0 <= i < existing.len() ==> {
            let e = #[trigger] existing[i];
            let eff = if tolerance <= e.3 {
                tolerance
            } else {
                e.3 as int
            };
            let d = t - e.2;
            -eff <= d <= eff
        }
}

/// Whether a member served at `new_scheduled_time` keeps within the tightest
/// tolerance towards every placed member.
pub fn validate_sync_timing_with_tolerance(
    existing_assignments: &Vec<SyncAssignment>,
    new_scheduled_time: i128,
    tolerance: i64,
) -> (r: bool)
    ensures
        r == timing_ok(existing_assignments@, new_scheduled_time as int, tolerance as int),
{
    let mut i: usize = 0;
    while i < existing_assignments.len()
        invariant
            0 <= i <= existing_assignments.len(),
            timing_ok(existing_assignments@.subrange(0, i as int), new_scheduled_time as int, tolerance as int),
        decreases existing_assignments.len() - i,
    {
        let e = existing_assignments[i];
        let eff: i64 = if tolerance <= e.3 {
            tolerance
        } else {
            e.3
        };
        if new_scheduled_time < e.2 as i128 - eff as i128 || new_scheduled_time > e.2 as i128
            + eff as i128 {
            assert(existing_assignments@[i as int] == e);
            return false;
        }
        assert forall|j: int| 0 <= j < i + 1 implies ({
            let x = #[trigger] existing_assignments@.subrange(0, i as int + 1)[j];
            let eff = if tolerance <= x.3 {
                tolerance as int
            } else {
                x.3 as int
            };
            -eff <= new_scheduled_time - x.2 <= eff
        }) by {
            if j < i {
                assert(existing_assignments@.subrange(0, i as int + 1)[j]
                    == existing_assignments@.subrange(0, i as int)[j]);
            }
        }
        i = i + 1;
    }
    assert(existing_assignments@.subrange(0, i as int) =~= existing_assignments@);
    true
}

/// Service start of the first activity that serves `job` (the later of
/// arrival and the place's earliest start).
pub open spec fn scheduled_time_in(acts: Seq<Activity>, job: Job) -> Option<Timestamp>
    decreases acts.len(),
{
    if acts.len() == 0 {
        None
    } else if acts[0].job matches Some(j) && same_job(j, job) {
        let a = acts[0];
        Some(
            if a.schedule.arrival >= a.time_start {
                a.schedule.arrival
            } else {
                a.time_start
            },
        )
    } else {
        scheduled_time_in(acts.drop_first(), job)
    }
}

fn scheduled_time_of(route: &Route, job: &Job) -> (r: Option<Timestamp>)
    ensures
        r == scheduled_time_in(route.activities@, *job),
{
    let acts = &route.activities;
    let mut i: usize = 0;
    assert(acts@.subrange(0, acts@.len() as int) =~= acts@);
    while i < acts.len()
        invariant
            0 <= i <= acts.len(),
            acts == &route.activities,
            scheduled_time_in(acts@, *job) == scheduled_time_in(
                acts@.subrange(i as int, acts@.len() as int),
                *job,
            ),
        decreases acts.len() - i,
    {
        assert(acts@.subrange(i as int, acts@.len() as int).drop_first() =~= acts@.subrange(
            i as int + 1,
            acts@.len() as int,
        ));
        assert(acts@.subrange(i as int, acts@.len() as int)[0] == acts@[i as int]);
        if let Some(j) = &acts[i].job {
            if is_same_job(j, job) {
                let a = &acts[i];
                let start = if a.schedule.arrival >= a.time_start {
                    a.schedule.arrival
                } else {
                    a.time_start
                };
                assert(scheduled_time_in(acts@.subrange(i as int, acts@.len() as int), *job) == Some(
                    start,
                ));
                return Some(start);
            }
        }
        i = i + 1;
    }
    None
}

/// Service start of `job` in the route, if the route serves it.
pub fn extract_scheduled_time(route_ctx: &RouteContext, job: &Job) -> (r: Option<Timestamp>)
    ensures
        r == scheduled_time_in(route_ctx.route.activities@, *job),
{
    scheduled_time_of(&route_ctx.route, job)
}

/// The sync group of the job an activity serves.
pub open spec fn activity_group(a: Activity) -> Option<Seq<char>> {
    match a.job {
        Some(j) => match j.dimens.sync_group {
            Some(k) => Some(k@),
            None => None,
        },
        None => None,
    }
}

/// Whether some activity serves a job of sync group `g`.
pub open spec fn group_seen(acts: Seq<Activity>, g: Seq<char>) -> bool {
    exists|i: int| 0 <= i < acts.len() && #[trigger] activity_group(acts[i]) == Some(g)
}

/// Whether `g` is among the groups of a list.
pub open spec fn names(list: Seq<String>, g: Seq<char>) -> bool {
    exists|i: int| 0 <= i < list.len() && list[i]@ == g
}

/// Whether the list holds the group `g`.
pub fn contains_group(list: &Vec<String>, g: &String) -> (r: bool)
    ensures
        r == names(list@, g@),
{
    let mut i: usize = 0;
    while i < list.len()
        invariant
            0 <= i <= list.len(),
            forall|j: int| 0 <= j < i ==> list@[j]@ != g@,
        decreases list.len() - i,
    {
        if list[i].eq(g) {
            return true;
        }
        i = i + 1;
    }
    false
}

/// The sync groups that have a member in the route, each once.
pub fn get_route_sync_groups(route_ctx: &RouteContext) -> (r: Vec<String>)
    ensures
        forall|g: Seq<char>| names(r@, g) <==> group_seen(route_ctx.route.activities@, g),
        forall|a: int, b: int| 0 <= a < b < r@.len() ==> r@[a]@ != r@[b]@,
{
    let acts = &route_ctx.route.activities;
    let mut groups: Vec<String> = Vec::new();
    let mut i: usize = 0;
    while i < acts.len()
        invariant
            0 <= i <= acts.len(),
            forall|g: Seq<char>|
                names(groups@, g) <==> group_seen(acts@.subrange(0, i as int), g),
            forall|a: int, b: int| 0 <= a < b < groups@.len() ==> groups@[a]@ != groups@[b]@,
        decreases acts.len() - i,
    {
        let ghost before = groups@;
        if let Some(job) = &acts[i].job {
            if let Some(g) = &job.dimens.sync_group {
                if !contains_group(&groups, g) {
                    groups.push(g.clone());
                    assert(groups@[groups@.len() - 1]@ == g@);
                }
                assert(activity_group(acts@[i as int]) == Some(g@));
                assert(names(groups@, g@));
            }
        }
        proof {
            assert(forall|w: int| 0 <= w < before.len() ==> groups@[w] == before[w]);
            assert(groups@.len() == before.len() || (groups@.len() == before.len() + 1
                && activity_group(acts@[i as int]) == Some(groups@[groups@.len() - 1]@)));
            let sub = acts@.subrange(0, i as int + 1);
            let prev = acts@.subrange(0, i as int);
            assert forall|g: Seq<char>| names(groups@, g) <==> group_seen(sub, g) by {
                if group_seen(sub, g) {
                    let k = choose|k: int|
                        0 <= k < sub.len() && #[trigger] activity_group(sub[k]) == Some(g);
                    if k < i {
                        assert(prev[k] == sub[k]);
                        assert(group_seen(prev, g));
                        assert(names(before, g));
                        let w = choose|w: int| 0 <= w < before.len() && before[w]@ == g;
                        assert(groups@[w] == before[w]);
                    } else {
                        if names(before, g) {
                            let w = choose|w: int| 0 <= w < before.len() && before[w]@ == g;
                            assert(groups@[w] == before[w]);
                        } else {
                            assert(groups@[groups@.len() - 1]@ == g);
                        }
                    }
                }
                if names(groups@, g) {
                    let w = choose|w: int| 0 <= w < groups@.len() && groups@[w]@ == g;
                    if w < before.len() {
                        assert(names(before, g));
                        assert(group_seen(prev, g));
                        let k = choose|k: int|
                            0 <= k < prev.len() && #[trigger] activity_group(prev[k]) == Some(g);
                        assert(sub[k] == prev[k]);
                    } else {
                        assert(sub[i as int] == acts@[i as int]);
                    }
                }
            }
        }
        i = i + 1;
    }
    assert(acts@.subrange(0, i as int) =~= acts@);
    groups
}


/// Integer division rounding toward zero, as the machine does it.
pub open spec fn div_trunc(x: int, n: int) -> int {
    if x >= 0 {
        x / n
    } else {
        -((-x) / n)
    }
}

/// The larger of two values.
pub open spec fn later(a: int, b: int) -> int {
    if a >= b {
        a
    } else {
        b
    }
}

/// Estimated service start between activities `i` and `i + 1`: their
/// midpoint, or the job's window start when later.
pub open spec fn gap_estimate(acts: Seq<Activity>, job: Job, i: int) -> int {
    let mid = div_trunc(acts[i].schedule.departure + acts[i + 1].schedule.arrival, 2);
    match job_start_time(job) {
        Some(s) => later(mid, s as int),
        None => mid,
    }
}

/// How far the estimate between `i` and `i + 1` is pushed past the midpoint.
pub open spec fn gap_disruption(acts: Seq<Activity>, job: Job, i: int) -> int {
    gap_estimate(acts, job, i) - div_trunc(
        acts[i].schedule.departure + acts[i + 1].schedule.arrival,
        2,
    )
}

/// Among the gaps before activity `n`, the first one with the least
/// disruption.
pub open spec fn best_gap(acts: Seq<Activity>, job: Job, n: int) -> int
    decreases n,
{
    if n <= 1 {
        0
    } else {
        let b = best_gap(acts, job, n - 1);
        if gap_disruption(acts, job, n - 1) < gap_disruption(acts, job, b) {
            n - 1
        } else {
            b
        }
    }
}

/// Estimate from the route's structure: the least disruptive gap between
/// two consecutive activities. Needs a job place and two activities.
pub open spec fn structure_estimate(acts: Seq<Activity>, job: Job) -> Option<int> {
    if job.places@.len() == 0 || acts.len() < 2 {
        None
    } else {
        Some(gap_estimate(acts, job, best_gap(acts, job, acts.len() - 1)))
    }
}

/// Estimate from route statistics: the route end plus the average time per
/// activity, or the job's window start when later.
pub open spec fn statistical_estimate(acts: Seq<Activity>, job: Job) -> Option<int> {
    if acts.len() < 2 || job.places@.len() == 0 {
        None
    } else {
        let end = acts.last().schedule.departure as int;
        let avg = div_trunc(end - acts[0].schedule.arrival, acts.len() as int);
        let t = end + avg;
        Some(
            match job_start_time(job) {
                Some(s) => later(t, s as int),
                None => t,
            },
        )
    }
}

/// Last-resort estimate: the later of the route end and the job's window
/// start, plus a buffer.
pub open spec fn fallback_estimate(acts: Seq<Activity>, job: Job) -> int {
    let end: int = if acts.len() > 0 {
        acts.last().schedule.departure as int
    } else {
        0
    };
    let start: int = match job_start_time(job) {
        Some(s) => s as int,
        None => end,
    };
    later(end, start) + CONSERVATIVE_BUFFER
}

/// Smallest safety margin added to a transport estimate, in seconds.
pub const TRANSPORT_BUFFER: i64 = 30;

/// Estimate from travel: leaving the route's last activity for the job's
/// place, served no earlier than its window start, plus a safety margin of
/// a twentieth of the travel time (at least `TRANSPORT_BUFFER`). Needs a
/// transport, an activity and a located job place.
pub open spec fn transport_estimate(
    acts: Seq<Activity>,
    job: Job,
    transport: Option<SimpleTransportCost>,
) -> Option<int> {
    match transport {
        Some(t) => if acts.len() > 0 && job.places@.len() > 0 && job.places@[0].location is Some {
            let from = acts.last();
            let travel = matrix_at(t.durations@, t.size, from.location, job.places@[0].location.unwrap());
            let arrival = from.schedule.departure + travel;
            let service = match job_start_time(job) {
                Some(s) => later(arrival, s as int),
                None => arrival,
            };
            Some(service + later(div_trunc(travel, 20), TRANSPORT_BUFFER as int))
        } else {
            None
        },
        None => None,
    }
}

/// When the job would start service in the route: its actual start if
/// placed, else the first estimate that applies.
pub open spec fn estimated_start(route: Route, job: Job, transport: Option<SimpleTransportCost>) -> int {
    let acts = route.activities@;
    match scheduled_time_in(acts, job) {
        Some(t) => t as int,
        None => match transport_estimate(acts, job, transport) {
            Some(t) => t,
            None => match structure_estimate(acts, job) {
            Some(t) => t,
            None => match statistical_estimate(acts, job) {
                Some(t) => t,
                None => fallback_estimate(acts, job),
            },
            },
        },
    }
}

fn transport_estimate_of(route: &Route, job: &Job, transport: &Option<SimpleTransportCost>) -> (r:
    Option<i128>)
    ensures
        r matches Some(x) ==> transport_estimate(route.activities@, *job, *transport) == Some(
            x as int,
        ),
        r is None ==> transport_estimate(route.activities@, *job, *transport) is None,
{
    let t = match transport {
        Some(t) => t,
        None => return None,
    };
    let acts = &route.activities;
    if acts.len() == 0 || job.places.len() == 0 {
        return None;
    }
    let to = match job.places[0].location {
        Some(l) => l,
        None => return None,
    };
    let from = &acts[acts.len() - 1];
    let travel = t.duration_approx(from.location, to) as i128;
    let arrival = from.schedule.departure as i128 + travel;
    let service = match extract_job_start_time(job) {
        Some(s) => if arrival >= s as i128 {
            arrival
        } else {
            s as i128
        },
        None => arrival,
    };
    let margin = travel / 20;
    let margin = if margin >= TRANSPORT_BUFFER as i128 {
        margin
    } else {
        TRANSPORT_BUFFER as i128
    };
    Some(service + margin)
}

fn midpoint(a: Timestamp, b: Timestamp) -> (r: i128)
    ensures
        r == div_trunc(a + b, 2),
{
    (a as i128 + b as i128) / 2
}

fn structure_estimate_of(route: &Route, job: &Job) -> (r: Option<i128>)
    ensures
        r matches Some(t) ==> structure_estimate(route.activities@, *job) == Some(t as int),
        r is None ==> structure_estimate(route.activities@, *job) is None,
{
    let acts = &route.activities;
    if job.places.len() == 0 || acts.len() < 2 {
        return None;
    }
    let start = extract_job_start_time(job);
    let mut best: usize = 0;
    let mut best_disruption: i128 = 0;
    let mut best_estimate: i128 = 0;
    let mut i: usize = 0;
    while i + 1 < acts.len()
        invariant
            acts == &route.activities,
            acts@.len() >= 2,
            0 <= i < acts@.len(),
            start == job_start_time(*job),
            i > 0 ==> best == best_gap(acts@, *job, i as int),
            i > 0 ==> best < i,
            i > 0 ==> best_disruption == gap_disruption(acts@, *job, best as int),
            i > 0 ==> best_estimate == gap_estimate(acts@, *job, best as int),
        decreases acts.len() - i,
    {
        let mid = midpoint(acts[i].schedule.departure, acts[i + 1].schedule.arrival);
        let estimate: i128 = match start {
            Some(s) => if mid >= s as i128 {
                mid
            } else {
                s as i128
            },
            None => mid,
        };
        let disruption = estimate - mid;
        if i == 0 || disruption < best_disruption {
            best = i;
            best_disruption = disruption;
            best_estimate = estimate;
        }
        i = i + 1;
    }
    Some(best_estimate)
}

fn statistical_estimate_of(route: &Route, job: &Job) -> (r: Option<i128>)
    ensures
        r matches Some(t) ==> statistical_estimate(route.activities@, *job) == Some(t as int),
        r is None ==> statistical_estimate(route.activities@, *job) is None,
{
    let acts = &route.activities;
    let n = acts.len();
    if n < 2 || job.places.len() == 0 {
        return None;
    }
    let end = acts[n - 1].schedule.departure as i128;
    let total = end - acts[0].schedule.arrival as i128;
    let avg = total / (n as i128);
    proof {
        assert(-0x1_0000_0000_0000_0000 <= avg <= 0x1_0000_0000_0000_0000) by (nonlinear_arith)
            requires
                avg == div_trunc(total as int, n as int),
                -0x1_0000_0000_0000_0000 <= total <= 0x1_0000_0000_0000_0000,
                n >= 2,
        ;
    }
    let t = end + avg;
    match extract_job_start_time(job) {
        Some(s) => Some(
            if t >= s as i128 {
                t
            } else {
                s as i128
            },
        ),
        None => Some(t),
    }
}

fn fallback_estimate_of(route: &Route, job: &Job) -> (r: i128)
    ensures
        r == fallback_estimate(route.activities@, *job),
{
    let acts = &route.activities;
    let end: i128 = if acts.len() > 0 {
        acts[acts.len() - 1].schedule.departure as i128
    } else {
        0
    };
    let start: i128 = match extract_job_start_time(job) {
        Some(s) => s as i128,
        None => end,
    };
    (if end >= start {
        end
    } else {
        start
    }) + CONSERVATIVE_BUFFER as i128
}

/// Estimates when `job` would start service in the route: its actual start
/// if placed; else, with a transport, the travel from the route's end; else
/// the least disruptive gap between consecutive activities; else the route
/// end plus the average time per activity; else the later of the route end
/// and the job's window start, plus a buffer.
pub fn estimate_service_start_time(route: &Route, job: &Job, transport: &Option<SimpleTransportCost>) -> (r: i128)
    ensures
        r == estimated_start(*route, *job, *transport),
{
    if let Some(t) = scheduled_time_of(route, job) {
        return t as i128;
    }
    if let Some(t) = transport_estimate_of(route, job, transport) {
        return t;
    }
    if let Some(t) = structure_estimate_of(route, job) {
        return t;
    }
    if let Some(t) = statistical_estimate_of(route, job) {
        return t;
    }
    fallback_estimate_of(route, job)
}


/// The sync groups of a solution (empty before the first build).
pub open spec fn sync_table_of(s: SolutionContext) -> Seq<(Seq<char>, SyncGroupView)> {
    match s.state.sync_groups {
        Some(t) => table_view(t@),
        None => Seq::empty(),
    }
}

/// Whether member `index` is among the placed members.
pub open spec fn index_assigned(a: Seq<SyncAssignment>, index: u32) -> bool {
    exists|i: int| 0 <= i < a.len() && a[i].1 == index
}

/// Two optional attributes agree when either is absent or both are equal.
pub open spec fn dims_agree(x: Option<String>, y: Option<String>) -> bool {
    match (x, y) {
        (Some(a), Some(b)) => a@ == b@,
        _ => true,
    }
}

/// Whether two members share job group, affinity and compatibility class
/// wherever both have them (skills may differ).
pub open spec fn members_compatible(e: Job, job: Job) -> bool {
    dims_agree(e.dimens.job_group, job.dimens.job_group) && dims_agree(
        e.dimens.affinity,
        job.dimens.affinity,
    ) && dims_agree(e.dimens.compatibility, job.dimens.compatibility)
}

/// Index of the first activity serving a member of group `g`, or -1.
pub open spec fn first_member(acts: Seq<Activity>, g: Seq<char>) -> int
    decreases acts.len(),
{
    if acts.len() == 0 {
        -1
    } else {
        let i = first_member(acts.drop_last(), g);
        if i >= 0 {
            i
        } else if activity_group(acts.last()) == Some(g) {
            acts.len() - 1
        } else {
            -1
        }
    }
}

/// Whether `job` agrees with the placed members of group `g`: for each,
/// the first member of `g` found in its route.
pub open spec fn compatible_with_group(s: SolutionContext, g: Seq<char>, job: Job) -> bool {
    match lookup(sync_table_of(s), g) {
        None => true,
        Some(info) => forall|i: int|
            0 <= i < info.assignments.len() ==> {
                let ri = #[trigger] info.assignments[i].0;
                ri < s.routes@.len() ==> {
                    let acts = s.routes@[ri as int].route.activities@;
                    let m = first_member(acts, g);
                    m >= 0 ==> members_compatible(acts[m].job.unwrap(), job)
                }
            },
    }
}

/// The tolerance of a member (fifteen minutes by default).
pub open spec fn tolerance_of(job: Job) -> i64 {
    match job.dimens.sync_tolerance {
        Some(t) => t,
        None => DEFAULT_SYNC_TOLERANCE,
    }
}

/// Whether inserting `job` into the route breaks a sync rule: a group of
/// fewer than two, an index out of range, a second member in one route, an
/// incompatible member, a full group, a taken index, or a start that
/// deviates from a placed member by more than their tightest tolerance.
pub open spec fn sync_refused(
    s: SolutionContext,
    rc: RouteContext,
    job: Job,
    transport: Option<SimpleTransportCost>,
) -> bool {
    match (job.dimens.sync_group, job.dimens.sync_size, job.dimens.sync_index) {
        (Some(g), Some(size), Some(index)) => size < 2 || index >= size || (
        rc.state.sync_groups matches Some(l) && names(l@, g@)) || !compatible_with_group(
            s,
            g@,
            job,
        ) || match lookup(sync_table_of(s), g@) {
            None => false,
            Some(info) => info.assignments.len() >= info.required_size || index_assigned(
                info.assignments,
                index,
            ) || (info.assignments.len() > 0 && !timing_ok(
                info.assignments,
                estimated_start(rc.route, job, transport),
                tolerance_of(job) as int,
            )),
        },
        _ => false,
    }
}

/// Whether two jobs may be merged: neither synchronised, or both the same
/// member of the same group.
pub open spec fn sync_merge_allowed(source: Job, candidate: Job) -> bool {
    match (
        source.dimens.sync_group,
        candidate.dimens.sync_group,
        source.dimens.sync_index,
        candidate.dimens.sync_index,
    ) {
        (None, None, None, None) => true,
        (Some(a), Some(b), Some(i), Some(j)) => a@ == b@ && i == j,
        _ => false,
    }
}

fn find_first_member(acts: &Vec<Activity>, g: &String) -> (r: Option<usize>)
    ensures
        r matches Some(i) ==> i < acts@.len() && i as int == first_member(acts@, g@)
            && acts@[i as int].job is Some,
        r is None ==> first_member(acts@, g@) == -1,
{
    let mut i: usize = 0;
    while i < acts.len()
        invariant
            0 <= i <= acts.len(),
            first_member(acts@.subrange(0, i as int), g@) == -1,
        decreases acts.len() - i,
    {
        let ghost sub = acts@.subrange(0, i as int + 1);
        assert(sub.drop_last() =~= acts@.subrange(0, i as int));
        assert(sub.last() == acts@[i as int]);
        if let Some(j) = &acts[i].job {
            if let Some(k) = &j.dimens.sync_group {
                if k.eq(g) {
                    proof {
                        lemma_first_member_prefix(acts@, g@, i as int + 1);
                    }
                    return Some(i);
                }
            }
        }
        i = i + 1;
    }
    assert(acts@.subrange(0, i as int) =~= acts@);
    None
}

/// A member found in a prefix is the first member of the whole list.
proof fn lemma_first_member_prefix(acts: Seq<Activity>, g: Seq<char>, n: int)
    requires
        0 <= n <= acts.len(),
        first_member(acts.subrange(0, n), g) >= 0,
    ensures
        first_member(acts, g) == first_member(acts.subrange(0, n), g),
    decreases acts.len() - n,
{
    if n < acts.len() {
        let sub = acts.subrange(0, n + 1);
        assert(sub.drop_last() =~= acts.subrange(0, n));
        lemma_first_member_prefix(acts, g, n + 1);
    } else {
        assert(acts.subrange(0, n) =~= acts);
    }
}

fn agree(x: &Option<String>, y: &Option<String>) -> (r: bool)
    ensures
        r == dims_agree(*x, *y),
{
    match (x, y) {
        (Some(a), Some(b)) => a.eq(b),
        _ => true,
    }
}

/// Whether `job` agrees with every placed member of group `g`.
fn validate_feature_compatibility(solution_ctx: &SolutionContext, g: &String, job: &Job) -> (r: bool)
    ensures
        r == compatible_with_group(*solution_ctx, g@, *job),
{
    let table = match &solution_ctx.state.sync_groups {
        Some(t) => t,
        None => return true,
    };
    let gi = match find_key(table, g) {
        Some(i) => i,
        None => return true,
    };
    let info = &table[gi].1;
    assert(lookup(sync_table_of(*solution_ctx), g@) == Some(info@));
    let mut i: usize = 0;
    while i < info.assignments.len()
        invariant
            0 <= i <= info.assignments.len(),
            lookup(sync_table_of(*solution_ctx), g@) == Some(info@),
            forall|k: int|
                0 <= k < i ==> {
                    let ri = #[trigger] info@.assignments[k].0;
                    ri < solution_ctx.routes@.len() ==> {
                        let acts = solution_ctx.routes@[ri as int].route.activities@;
                        let m = first_member(acts, g@);
                        m >= 0 ==> members_compatible(acts[m].job.unwrap(), *job)
                    }
                },
        decreases info.assignments.len() - i,
    {
        let ri = info.assignments[i].0;
        if ri < solution_ctx.routes.len() {
            let acts = &solution_ctx.routes[ri].route.activities;
            if let Some(m) = find_first_member(acts, g) {
                let e = &acts[m];
                if let Some(ej) = &e.job {
                    if !(agree(&ej.dimens.job_group, &job.dimens.job_group) && agree(
                        &ej.dimens.affinity,
                        &job.dimens.affinity,
                    ) && agree(&ej.dimens.compatibility, &job.dimens.compatibility)) {
                        assert(info@.assignments[i as int].0 == ri);
                        return false;
                    }
                }
            }
        }
        i = i + 1;
    }
    true
}

fn find_index(a: &Vec<SyncAssignment>, index: u32) -> (r: bool)
    ensures
        r == index_assigned(a@, index),
{
    let mut i: usize = 0;
    while i < a.len()
        invariant
            0 <= i <= a.len(),
            forall|k: int| 0 <= k < i ==> a@[k].1 != index,
        decreases a.len() - i,
    {
        if a[i].1 == index {
            return true;
        }
        i = i + 1;
    }
    false
}

/// Several vehicles serving the members of one group at the same time.
#[derive(Clone, Debug)]
pub struct JobSyncFeature {
    pub name: String,
    pub code: ViolationCode,
    /// Travel times used to estimate when an unplaced member would start.
    pub transport: Option<SimpleTransportCost>,
}

/// Creates the sync feature.
pub fn create_job_sync_feature(name: &str, code: ViolationCode) -> (r: Result<
    JobSyncFeature,
    String,
>)
    ensures
        r matches Ok(f) && f.name@ == name@ && f.code == code && f.transport is None,
{
    Ok(JobSyncFeature { name: name.to_owned(), code, transport: None })
}

/// Creates the sync feature with travel times for estimating start times.
pub fn create_job_sync_feature_with_costs(
    name: &str,
    code: ViolationCode,
    transport: SimpleTransportCost,
) -> (r: Result<JobSyncFeature, String>)
    ensures
        r matches Ok(f) && f.name@ == name@ && f.code == code && f.transport == Some(transport),
{
    Ok(JobSyncFeature { name: name.to_owned(), code, transport: Some(transport) })
}

impl JobSyncFeature {
    /// Refuses `job` in the route when a sync rule forbids it.
    pub fn evaluate(&self, solution_ctx: &SolutionContext, route_ctx: &RouteContext, job: &Job) -> (r:
        Option<ConstraintViolation>)
        ensures
            r == if sync_refused(*solution_ctx, *route_ctx, *job, self.transport) {
                Some(ConstraintViolation { code: self.code, stopped: true })
            } else {
                None::<ConstraintViolation>
            },
    {
        let (g, size, index) = match (
            &job.dimens.sync_group,
            job.dimens.sync_size,
            job.dimens.sync_index,
        ) {
            (Some(g), Some(size), Some(index)) => (g, size, index),
            _ => return None,
        };
        if size < 2 || index >= size {
            return ConstraintViolation::fail(self.code);
        }
        if let Some(groups) = &route_ctx.state.sync_groups {
            if contains_group(groups, g) {
                return ConstraintViolation::fail(self.code);
            }
        }
        if !validate_feature_compatibility(solution_ctx, g, job) {
            return ConstraintViolation::fail(self.code);
        }
        let table = match &solution_ctx.state.sync_groups {
            Some(t) => t,
            None => return None,
        };
        let gi = match find_key(table, g) {
            Some(i) => i,
            None => return None,
        };
        let info = &table[gi].1;
        assert(lookup(sync_table_of(*solution_ctx), g@) == Some(info@));
        if info.assignments.len() >= info.required_size as usize {
            return ConstraintViolation::fail(self.code);
        }
        if find_index(&info.assignments, index) {
            return ConstraintViolation::fail(self.code);
        }
        if info.assignments.len() > 0 {
            let t = estimate_service_start_time(&route_ctx.route, job, &self.transport);
            let tolerance = match job.dimens.sync_tolerance {
                Some(t) => t,
                None => DEFAULT_SYNC_TOLERANCE,
            };
            if !validate_sync_timing_with_tolerance(&info.assignments, t, tolerance) {
                return ConstraintViolation::fail(self.code);
            }
        }
        None
    }

    /// Merges two clustered jobs: keeps `source` when neither is
    /// synchronised or both are the same member of the same group.
    pub fn merge(&self, source: Job, candidate: &Job) -> (r: Result<Job, ViolationCode>)
        ensures
            sync_merge_allowed(source, *candidate) ==> r == Ok::<Job, ViolationCode>(source),
            !sync_merge_allowed(source, *candidate) ==> r == Err::<Job, ViolationCode>(self.code),
    {
        let allowed = match (
            &source.dimens.sync_group,
            &candidate.dimens.sync_group,
            source.dimens.sync_index,
            candidate.dimens.sync_index,
        ) {
            (None, None, None, None) => true,
            (Some(a), Some(b), Some(i), Some(j)) => a.eq(b) && i == j,
            _ => false,
        };
        if allowed {
            Ok(source)
        } else {
            Err(self.code)
        }
    }
}


/// The table after adding member `a` to group `g`; a new group requires
/// `size` members.
pub open spec fn sync_record(
    t: Seq<(Seq<char>, SyncGroupView)>,
    g: Seq<char>,
    size: u32,
    a: SyncAssignment,
) -> Seq<(Seq<char>, SyncGroupView)> {
    let info = match lookup(t, g) {
        Some(i) => i,
        None => SyncGroupView { required_size: size, assignments: Seq::empty() },
    };
    upsert(
        t,
        g,
        SyncGroupView { required_size: info.required_size, assignments: info.assignments.push(a) },
    )
}

/// Whether `accept_insertion` records `job` in route `route_index`: it is a
/// sync member and the route gives its service start.
pub open spec fn records(s: SolutionContext, route_index: usize, job: Job) -> bool {
    route_index < s.routes@.len() && job.dimens.sync_group is Some && job.dimens.sync_size is Some
        && job.dimens.sync_index is Some && scheduled_time_in(
        s.routes@[route_index as int].route.activities@,
        job,
    ) is Some
}

/// The member record that `accept_insertion` adds for `job`.
pub open spec fn member_record(s: SolutionContext, route_index: usize, job: Job) -> SyncAssignment {
    (
        route_index,
        job.dimens.sync_index.unwrap(),
        scheduled_time_in(s.routes@[route_index as int].route.activities@, job).unwrap(),
        tolerance_of(job),
    )
}

/// The groups a route state lists (none when not built).
pub open spec fn listed(groups: Option<Vec<String>>) -> Seq<String> {
    match groups {
        Some(l) => l@,
        None => Seq::empty(),
    }
}

/// The sync group of a job.
pub open spec fn job_group_of(job: Job) -> Option<Seq<char>> {
    match job.dimens.sync_group {
        Some(k) => Some(k@),
        None => None,
    }
}

/// Some job of the list belongs to group `g`.
pub open spec fn named(jobs: Seq<Job>, g: Seq<char>) -> bool {
    exists|i: int| 0 <= i < jobs.len() && job_group_of(#[trigger] jobs[i]) == Some(g)
}

/// Started but not complete.
pub open spec fn sync_partial(info: SyncGroupView) -> bool {
    0 < info.assignments.len() < info.required_size
}

/// Whether entry `e` is cleared by a failure of `jobs`.
pub open spec fn cleared(e: (Seq<char>, SyncGroupView), jobs: Seq<Job>) -> bool {
    named(jobs, e.0) && sync_partial(e.1)
}

/// The table after a failure of `jobs`: every partial group named by one of
/// them loses all its members.
pub open spec fn clear_failed(t: Seq<(Seq<char>, SyncGroupView)>, jobs: Seq<Job>) -> Seq<
    (Seq<char>, SyncGroupView),
> {
    t.map_values(
        |e: (Seq<char>, SyncGroupView)|
            if cleared(e, jobs) {
                (e.0, SyncGroupView { required_size: e.1.required_size, assignments: Seq::empty() })
            } else {
                e
            },
    )
}

/// Whether one of the first `n` entries is cleared and had a member in
/// route `r` under group `h`.
pub open spec fn dropped_from_route(
    t: Seq<(Seq<char>, SyncGroupView)>,
    jobs: Seq<Job>,
    n: int,
    r: int,
    h: Seq<char>,
) -> bool {
    exists|k: int|
        0 <= k < n && #[trigger] t[k].0 == h && cleared(t[k], jobs) && exists|a: int|
            0 <= a < t[k].1.assignments.len() && t[k].1.assignments[a].0 == r
}

/// What `notify_failure` leaves, returning `modified`: partial groups named
/// by the failed jobs are emptied and dropped from the states of the routes
/// that held their members; nothing else changes. `modified` tells whether
/// any group was emptied.
pub open spec fn failure_handled(
    before: SolutionContext,
    after: SolutionContext,
    jobs: Seq<Job>,
    modified: bool,
) -> bool {
    let t = sync_table_of(before);
    &&& modified == exists|i: int| 0 <= i < t.len() && cleared(#[trigger] t[i], jobs)
    &&& after.required == before.required
    &&& after.ignored == before.ignored
    &&& after.state.sequence_groups == before.state.sequence_groups
    &&& after.state.assignees == before.state.assignees
    &&& after.state.affinities == before.state.affinities
    &&& after.state.affinity_groups == before.state.affinity_groups
    &&& after.routes@.len() == before.routes@.len()
    &&& !modified ==> after.routes == before.routes && after.state.sync_groups
        == before.state.sync_groups
    &&& modified ==> after.state.sync_groups is Some && sync_table_of(after) == clear_failed(
        t,
        jobs,
    )
    &&& keys_unique(t) ==> keys_unique(sync_table_of(after))
    &&& forall|r: int|
        0 <= r < before.routes@.len() ==> {
            let b = #[trigger] before.routes@[r];
            let a = after.routes@[r];
            &&& a.route == b.route
            &&& (b.state.sync_groups is None <==> a.state.sync_groups is None)
            &&& forall|h: Seq<char>|
                names(listed(a.state.sync_groups), h) <==> (names(listed(b.state.sync_groups), h)
                    && !dropped_from_route(t, jobs, t.len() as int, r, h))
        }
}

/// Whether some job of the list belongs to group `g`.
fn names_group(jobs: &Vec<Job>, g: &String) -> (r: bool)
    ensures
        r == named(jobs@, g@),
{
    let mut i: usize = 0;
    while i < jobs.len()
        invariant
            0 <= i <= jobs.len(),
            forall|k: int| 0 <= k < i ==> job_group_of(#[trigger] jobs@[k]) != Some(g@),
        decreases jobs.len() - i,
    {
        if let Some(k) = &jobs[i].dimens.sync_group {
            if k.eq(g) {
                assert(job_group_of(jobs@[i as int]) == Some(g@));
                return true;
            }
        }
        i = i + 1;
    }
    false
}

/// The list without group `g`.
fn without_group(list: &Vec<String>, g: &String) -> (r: Vec<String>)
    ensures
        forall|h: Seq<char>| names(r@, h) <==> (names(list@, h) && h != g@),
{
    let mut out: Vec<String> = Vec::new();
    let mut i: usize = 0;
    while i < list.len()
        invariant
            0 <= i <= list.len(),
            forall|h: Seq<char>|
                names(out@, h) <==> (h != g@ && exists|k: int| 0 <= k < i && list@[k]@ == h),
        decreases list.len() - i,
    {
        let ghost before = out@;
        if !list[i].eq(g) {
            out.push(list[i].clone());
        }
        proof {
            assert forall|h: Seq<char>|
                names(out@, h) <==> (h != g@ && exists|k: int| 0 <= k < i + 1 && list@[k]@ == h) by {
                if names(out@, h) {
                    let w = choose|w: int| 0 <= w < out@.len() && out@[w]@ == h;
                    if w < before.len() {
                        assert(out@[w] == before[w]);
                        assert(names(before, h));
                    }
                }
                if h != g@ && exists|k: int| 0 <= k < i + 1 && list@[k]@ == h {
                    let k = choose|k: int| 0 <= k < i + 1 && list@[k]@ == h;
                    if k < i {
                        assert(names(before, h));
                        let w = choose|w: int| 0 <= w < before.len() && before[w]@ == h;
                        assert(out@[w] == before[w]);
                    } else {
                        assert(out@[out@.len() - 1]@ == h);
                    }
                }
            }
        }
        i = i + 1;
    }
    out
}

impl JobSyncFeature {
    /// Refreshes the list of sync groups a route holds.
    pub fn accept_route_state(&self, route_ctx: &mut RouteContext)
        ensures
            final(route_ctx).route == old(route_ctx).route,
            final(route_ctx).state.sync_groups is Some,
            forall|h: Seq<char>|
                names(listed(final(route_ctx).state.sync_groups), h) <==> group_seen(
                    old(route_ctx).route.activities@,
                    h,
                ),
    {
        let groups = get_route_sync_groups(route_ctx);
        route_ctx.state.sync_groups = Some(groups);
    }

    /// Records a member just committed to route `route_index`, when the
    /// route gives its service start.
    pub fn accept_insertion(&self, solution_ctx: &mut SolutionContext, route_index: usize, job: &Job)
        ensures
            final(solution_ctx).required == old(solution_ctx).required,
            final(solution_ctx).ignored == old(solution_ctx).ignored,
            final(solution_ctx).state.sequence_groups == old(solution_ctx).state.sequence_groups,
            final(solution_ctx).state.assignees == old(solution_ctx).state.assignees,
            final(solution_ctx).state.affinities == old(solution_ctx).state.affinities,
            final(solution_ctx).state.affinity_groups == old(solution_ctx).state.affinity_groups,
            final(solution_ctx).routes@.len() == old(solution_ctx).routes@.len(),
            forall|r: int|
                0 <= r < old(solution_ctx).routes@.len()
                    ==> (#[trigger] final(solution_ctx).routes@[r]).route
                    == old(solution_ctx).routes@[r].route,
            !records(*old(solution_ctx), route_index, *job) ==> *final(solution_ctx) == *old(
                solution_ctx),
            records(*old(solution_ctx), route_index, *job) ==> final(solution_ctx).state.sync_groups is Some,
            records(*old(solution_ctx), route_index, *job) ==> sync_table_of(*final(solution_ctx))
                == sync_record(
                sync_table_of(*old(solution_ctx)),
                job.dimens.sync_group.unwrap()@,
                job.dimens.sync_size.unwrap(),
                member_record(*old(solution_ctx), route_index, *job),
            ),
            records(*old(solution_ctx), route_index, *job) ==> final(solution_ctx).routes@[route_index as int].state.sync_groups is Some,
            records(*old(solution_ctx), route_index, *job) ==> forall|h: Seq<char>|
                names(listed(final(solution_ctx).routes@[route_index as int].state.sync_groups), h)
                    <==> (names(listed(old(solution_ctx).routes@[route_index as int].state.sync_groups), h)
                    || h == job.dimens.sync_group.unwrap()@),
            records(*old(solution_ctx), route_index, *job) ==> forall|r: int|
                0 <= r < old(solution_ctx).routes@.len() && r != route_index
                    ==> (#[trigger] final(solution_ctx).routes@[r]) == old(solution_ctx).routes@[r],
            keys_unique(sync_table_of(*old(solution_ctx))) ==> keys_unique(
                sync_table_of(*final(solution_ctx)),
            ),
    {
        let (g, size, index) = match (
            &job.dimens.sync_group,
            job.dimens.sync_size,
            job.dimens.sync_index,
        ) {
            (Some(g), Some(size), Some(index)) => (g, size, index),
            _ => return ,
        };
        if route_index >= solution_ctx.routes.len() {
            return ;
        }
        let time = match extract_scheduled_time(&solution_ctx.routes[route_index], job) {
            Some(t) => t,
            None => return ,
        };
        let tolerance = match job.dimens.sync_tolerance {
            Some(t) => t,
            None => DEFAULT_SYNC_TOLERANCE,
        };
        let a: SyncAssignment = (route_index, index, time, tolerance);
        let mut table = match solution_ctx.state.sync_groups.take() {
            Some(t) => t,
            None => Vec::new(),
        };
        let ghost tv = table_view(table@);
        assert(tv == sync_table_of(*old(solution_ctx)));
        match find_key(&table, g) {
            Some(gi) => {
                proof {
                    lemma_key_index_bounds(tv, g@);
                }
                let ghost old_t = table@;
                let (k, mut info) = table.remove(gi);
                info.assignments.push(a);
                table.insert(gi, (k, info));
                assert(table@ =~= old_t.update(gi as int, (k, info)));
                assert(table_view(table@) =~= tv.update(gi as int, (g@, info@)));
                proof {
                    if keys_unique(tv) {
                        crate::group_table::lemma_upsert_unique(tv, g@, info@);
                        assert(table_view(table@) == upsert(tv, g@, info@));
                    }
                }
            },
            None => {
                let mut assignments: Vec<SyncAssignment> = Vec::new();
                assignments.push(a);
                let info = SyncGroupInfo { required_size: size, assignments };
                assert(info@.assignments =~= Seq::<SyncAssignment>::empty().push(a));
                table.push((g.clone(), info));
                assert(table_view(table@) =~= tv.push((g@, info@)));
                proof {
                    if keys_unique(tv) {
                        crate::group_table::lemma_upsert_unique(tv, g@, info@);
                        assert(table_view(table@) == upsert(tv, g@, info@));
                    }
                }
            },
        }
        solution_ctx.state.sync_groups = Some(table);
        let ghost routes_before = solution_ctx.routes@;
        let mut rc = solution_ctx.routes.remove(route_index);
        let ghost old_list = listed(rc.state.sync_groups);
        let list = match rc.state.sync_groups.take() {
            Some(l) => l,
            None => Vec::new(),
        };
        let mut list = list;
        assert(list@ =~= old_list);
        let present = contains_group(&list, g);
        if !present {
            list.push(g.clone());
            proof {
                let l = list@;
                assert(l.drop_last() =~= old_list);
                assert forall|h: Seq<char>| names(l, h) <==> (names(l.drop_last(), h) || h == g@) by {
                    if names(l, h) {
                        let w = choose|w: int| 0 <= w < l.len() && l[w]@ == h;
                        if w < l.len() - 1 {
                            assert(l.drop_last()[w] == l[w]);
                        }
                    }
                    if names(l.drop_last(), h) {
                        let w = choose|w: int| 0 <= w < l.len() - 1 && l.drop_last()[w]@ == h;
                        assert(l[w] == l.drop_last()[w]);
                    }
                    if h == g@ {
                        assert(l[l.len() - 1]@ == h);
                    }
                }
            }
        }
        proof {
            if present {
                assert(list@ == old_list);
                assert(names(old_list, g@));
            }
        }
        assert(forall|h: Seq<char>| names(list@, h) <==> (names(old_list, h) || h == g@));
        rc.state.sync_groups = Some(list);
        solution_ctx.routes.insert(route_index, rc);
        assert(solution_ctx.routes@ =~= routes_before.update(route_index as int, rc));
    }
}


/// Route `r`'s group list after dropping group `h` from the routes that
/// held the first `q` members of `a`.
pub open spec fn route_lists_after_drop(
    before: Seq<RouteContext>,
    after: Seq<RouteContext>,
    a: Seq<SyncAssignment>,
    q: int,
    g: Seq<char>,
) -> bool {
    &&& after.len() == before.len()
    &&& forall|r: int|
        0 <= r < before.len() ==> {
            let b = #[trigger] before[r];
            let x = after[r];
            &&& x.route == b.route
            &&& (b.state.sync_groups is None <==> x.state.sync_groups is None)
            &&& forall|h: Seq<char>|
                names(listed(x.state.sync_groups), h) <==> (names(listed(b.state.sync_groups), h)
                    && !(h == g && exists|k: int| 0 <= k < q && a[k].0 == r))
        }
}

/// Drops group `g` from the state of every route that held one of `a`.
fn drop_group_from_routes(routes: &mut Vec<RouteContext>, a: &Vec<SyncAssignment>, g: &String)
    ensures
        route_lists_after_drop(old(routes)@, final(routes)@, a@, a@.len() as int, g@),
{
    let ghost start = routes@;
    let mut q: usize = 0;
    while q < a.len()
        invariant
            0 <= q <= a.len(),
            route_lists_after_drop(start, routes@, a@, q as int, g@),
        decreases a.len() - q,
    {
        let ri = a[q].0;
        let ghost mid = routes@;
        if ri < routes.len() {
            let mut rc = routes.remove(ri);
            let ghost before_list = listed(rc.state.sync_groups);
            match rc.state.sync_groups.take() {
                Some(list) => {
                    let l = without_group(&list, g);
                    rc.state.sync_groups = Some(l);
                },
                None => {},
            }
            routes.insert(ri, rc);
            assert(routes@ =~= mid.update(ri as int, rc));
        }
        proof {
            assert forall|r: int| 0 <= r < start.len() implies {
                let b = #[trigger] start[r];
                let x = routes@[r];
                &&& x.route == b.route
                &&& (b.state.sync_groups is None <==> x.state.sync_groups is None)
                &&& forall|h: Seq<char>|
                    names(listed(x.state.sync_groups), h) <==> (names(listed(b.state.sync_groups), h)
                        && !(h == g@ && exists|k: int| 0 <= k < q + 1 && a@[k].0 == r))
            } by {
                assert(mid[r] == routes@[r] || r == ri);
                assert forall|h: Seq<char>|
                    names(listed(routes@[r].state.sync_groups), h) <==> (names(
                        listed(start[r].state.sync_groups),
                        h,
                    ) && !(h == g@ && exists|k: int| 0 <= k < q + 1 && a@[k].0 == r)) by {
                    if h == g@ && r == ri {
                        assert(a@[q as int].0 == r);
                    }
                    if exists|k: int| 0 <= k < q + 1 && a@[k].0 == r {
                        let k = choose|k: int| 0 <= k < q + 1 && a@[k].0 == r;
                        if k == q {
                            assert(r == ri);
                        } else {
                            assert(exists|k: int| 0 <= k < q && a@[k].0 == r);
                        }
                    } else {
                        assert(!exists|k: int| 0 <= k < q && a@[k].0 == r);
                    }
                }
            }
        }
        q = q + 1;
    }
}

impl JobSyncFeature {
    /// After jobs failed to be placed, empties every partial group that one of
    /// them belongs to, so that the search can start the group afresh.
    /// Returns whether any group was emptied.
    pub fn notify_failure(
        &self,
        solution_ctx: &mut SolutionContext,
        route_indices: &Vec<usize>,
        jobs: &Vec<Job>,
    ) -> (modified: bool)
        ensures
            failure_handled(*old(solution_ctx), *final(solution_ctx), jobs@, modified),
    {
        let ghost t0 = sync_table_of(*solution_ctx);
        let ghost routes0 = solution_ctx.routes@;
        let mut table = match solution_ctx.state.sync_groups.take() {
            Some(t) => t,
            None => {
                assert(t0.len() == 0);
                return false;
            },
        };
        let ghost orig = table;
        assert(table_view(table@) == t0);
        let mut modified = false;
        let mut i: usize = 0;
        while i < table.len()
            invariant
                0 <= i <= table.len(),
                table@.len() == t0.len(),
                t0 == table_view(orig@),
                forall|k: int|
                    0 <= k < t0.len() ==> #[trigger] table_view(table@)[k] == if k < i {
                        clear_failed(t0, jobs@)[k]
                    } else {
                        t0[k]
                    },
                modified == exists|k: int| 0 <= k < i && cleared(#[trigger] t0[k], jobs@),
                !modified ==> table == orig && solution_ctx.routes == old(solution_ctx).routes,
                routes0 == old(solution_ctx).routes@,
                solution_ctx.required == old(solution_ctx).required,
                solution_ctx.ignored == old(solution_ctx).ignored,
                solution_ctx.state.sequence_groups == old(solution_ctx).state.sequence_groups,
                solution_ctx.state.assignees == old(solution_ctx).state.assignees,
                solution_ctx.state.affinities == old(solution_ctx).state.affinities,
                solution_ctx.state.affinity_groups == old(solution_ctx).state.affinity_groups,
                solution_ctx.routes@.len() == routes0.len(),
                forall|r: int|
                    0 <= r < routes0.len() ==> {
                        let b = #[trigger] routes0[r];
                        let a = solution_ctx.routes@[r];
                        &&& a.route == b.route
                        &&& (b.state.sync_groups is None <==> a.state.sync_groups is None)
                        &&& forall|h: Seq<char>|
                            names(listed(a.state.sync_groups), h) <==> (names(
                                listed(b.state.sync_groups),
                                h,
                            ) && !dropped_from_route(t0, jobs@, i as int, r, h))
                    },
            decreases table.len() - i,
        {
            let hit = names_group(jobs, &table[i].0) && {
                let n = table[i].1.assignments.len();
                0 < n && n < table[i].1.required_size as usize
            };
            assert(table_view(table@)[i as int] == t0[i as int]);
            assert(hit == cleared(t0[i as int], jobs@));
            let ghost before_routes = solution_ctx.routes@;
            let ghost before_table = table@;
            if hit {
                let ghost before_t = table@;
                let (k, old_info) = table.remove(i);
                let SyncGroupInfo { required_size, assignments: members } = old_info;
                let info = SyncGroupInfo { required_size, assignments: Vec::new() };
                assert(members@ == t0[i as int].1.assignments);
                drop_group_from_routes(&mut solution_ctx.routes, &members, &k);
                table.insert(i, (k, info));
                assert(table@ =~= before_t.update(i as int, (k, info)));
                assert(info@.assignments =~= Seq::<SyncAssignment>::empty());
                assert(table_view(table@)[i as int] == clear_failed(t0, jobs@)[i as int]);
                assert(forall|kk: int|
                    0 <= kk < t0.len() && kk != i ==> table_view(table@)[kk] == table_view(before_t)[kk]);
                modified = true;
                proof {
                    assert forall|r: int| 0 <= r < routes0.len() implies {
                        let b = #[trigger] routes0[r];
                        let a = solution_ctx.routes@[r];
                        forall|h: Seq<char>|
                            names(listed(a.state.sync_groups), h) <==> (names(
                                listed(b.state.sync_groups),
                                h,
                            ) && !dropped_from_route(t0, jobs@, i as int + 1, r, h))
                    } by {
                        assert(before_routes[r] == before_routes[r]);
                        assert forall|h: Seq<char>|
                            names(listed(solution_ctx.routes@[r].state.sync_groups), h) <==> (names(
                                listed(routes0[r].state.sync_groups),
                                h,
                            ) && !dropped_from_route(t0, jobs@, i as int + 1, r, h)) by {
                            if dropped_from_route(t0, jobs@, i as int + 1, r, h) {
                                let kk = choose|kk: int|
                                    0 <= kk < i + 1 && #[trigger] t0[kk].0 == h && cleared(
                                        t0[kk],
                                        jobs@,
                                    ) && exists|a: int|
                                        0 <= a < t0[kk].1.assignments.len()
                                            && t0[kk].1.assignments[a].0 == r;
                                if kk < i {
                                    assert(dropped_from_route(t0, jobs@, i as int, r, h));
                                } else {
                                    let a = choose|a: int|
                                        0 <= a < t0[kk].1.assignments.len()
                                            && t0[kk].1.assignments[a].0 == r;
                                    assert(members@[a].0 == r);
                                }
                            } else {
                                assert(!dropped_from_route(t0, jobs@, i as int, r, h));
                                if h == k@ && exists|q: int|
                                    0 <= q < members@.len() && members@[q].0 == r {
                                    let q = choose|q: int|
                                        0 <= q < members@.len() && members@[q].0 == r;
                                    assert(t0[i as int].0 == h);
                                    assert(dropped_from_route(t0, jobs@, i as int + 1, r, h));
                                }
                            }
                        }
                    }
                }
            } else {
                assert(table_view(table@)[i as int] == clear_failed(t0, jobs@)[i as int]);
                proof {
                    assert forall|r: int, h: Seq<char>|
                        0 <= r < routes0.len() implies dropped_from_route(t0, jobs@, i as int + 1, r, h)
                        == dropped_from_route(t0, jobs@, i as int, r, h) by {
                        if dropped_from_route(t0, jobs@, i as int + 1, r, h) {
                            let kk = choose|kk: int|
                                0 <= kk < i + 1 && #[trigger] t0[kk].0 == h && cleared(t0[kk], jobs@)
                                    && exists|a: int|
                                    0 <= a < t0[kk].1.assignments.len()
                                        && t0[kk].1.assignments[a].0 == r;
                            assert(kk != i);
                        }
                    }
                }
            }
            assert forall|kk: int| 0 <= kk < t0.len() implies #[trigger] table_view(table@)[kk] == if kk
                < i + 1 {
                clear_failed(t0, jobs@)[kk]
            } else {
                t0[kk]
            } by {
                if kk != i {
                    assert(table_view(table@)[kk] == table_view(before_table)[kk]);
                }
            }
            i = i + 1;
        }
        assert(table_view(table@) =~= clear_failed(t0, jobs@));
        proof {
            if keys_unique(t0) {
                lemma_clear_failed_unique(t0, jobs@);
            }
        }
        solution_ctx.state.sync_groups = Some(table);
        modified
    }
}


/// A failure that names no partial group changes nothing and reports so;
/// handling the same failure twice in a row, the second time changes
/// nothing and reports so.
pub proof fn lemma_failure_recovery_idempotent(
    s0: SolutionContext,
    s1: SolutionContext,
    s2: SolutionContext,
    jobs: Seq<Job>,
    m1: bool,
    m2: bool,
)
    requires
        failure_handled(s0, s1, jobs, m1),
        failure_handled(s1, s2, jobs, m2),
    ensures
        (forall|i: int|
            0 <= i < sync_table_of(s0).len() ==> !cleared(#[trigger] sync_table_of(s0)[i], jobs))
            ==> !m1 && s1.routes == s0.routes && s1.state.sync_groups == s0.state.sync_groups,
        !m2,
        s2.routes == s1.routes,
        s2.state.sync_groups == s1.state.sync_groups,
{
    let t0 = sync_table_of(s0);
    let t1 = sync_table_of(s1);
    assert forall|i: int| 0 <= i < t1.len() implies !cleared(#[trigger] t1[i], jobs) by {
        if m1 {
            assert(t1 == clear_failed(t0, jobs));
            if cleared(t0[i], jobs) {
                assert(t1[i].1.assignments.len() == 0);
            } else {
                assert(t1[i] == t0[i]);
            }
        } else {
            assert(t1 == t0);
        }
    }
}

/// Whether the job names a sync group with a size and an index.
pub open spec fn sync_member(job: Job) -> bool {
    job.dimens.sync_group is Some && job.dimens.sync_size is Some && job.dimens.sync_index is Some
}

/// A group that already has its required number of members refuses one
/// more; and a member that the constraint admits leaves its group with at
/// most the required number of members once recorded.
pub proof fn lemma_sync_cardinality(
    s: SolutionContext,
    rc: RouteContext,
    job: Job,
    transport: Option<SimpleTransportCost>,
    a: SyncAssignment,
)
    requires
        sync_member(job),
    ensures
        ({
            let g = job.dimens.sync_group.unwrap()@;
            lookup(sync_table_of(s), g) matches Some(info) && info.assignments.len()
                >= info.required_size ==> sync_refused(s, rc, job, transport)
        }),
        ({
            let g = job.dimens.sync_group.unwrap()@;
            let after = sync_record(sync_table_of(s), g, job.dimens.sync_size.unwrap(), a);
            !sync_refused(s, rc, job, transport) ==> (lookup(after, g) matches Some(info)
                && info.assignments.len() <= info.required_size)
        }),
{
    let g = job.dimens.sync_group.unwrap()@;
    let t = sync_table_of(s);
    let info = match lookup(t, g) {
        Some(i) => i,
        None => SyncGroupView { required_size: job.dimens.sync_size.unwrap(), assignments: Seq::empty() },
    };
    lemma_lookup_upsert(
        t,
        g,
        SyncGroupView { required_size: info.required_size, assignments: info.assignments.push(a) },
    );
}


/// Each of `jobs` tagged with the index and the route that serves it.
pub open spec fn tagged(ri: int, r: Route, jobs: Seq<Job>) -> Seq<(int, Route, Job)> {
    jobs.map_values(|j: Job| (ri, r, j))
}

/// Every routed job with its route index and route, route by route.
pub open spec fn indexed_jobs(routes: Seq<RouteContext>) -> Seq<(int, Route, Job)>
    decreases routes.len(),
{
    if routes.len() == 0 {
        Seq::empty()
    } else {
        let n = routes.len() - 1;
        indexed_jobs(routes.drop_last()) + tagged(n, routes[n].route, activity_jobs(
            routes[n].route.activities@,
        ))
    }
}

/// One step of the full rebuild: a member's group is created if new, and the
/// member is added when its route gives its service start.
pub open spec fn rebuild_step(t: Seq<(Seq<char>, SyncGroupView)>, item: (int, Route, Job)) -> Seq<
    (Seq<char>, SyncGroupView),
> {
    let job = item.2;
    if sync_member(job) {
        let g = job.dimens.sync_group.unwrap()@;
        let info = match lookup(t, g) {
            Some(i) => i,
            None => SyncGroupView {
                required_size: job.dimens.sync_size.unwrap(),
                assignments: Seq::empty(),
            },
        };
        let added = match scheduled_time_in(item.1.activities@, job) {
            Some(time) => info.assignments.push(
                (item.0 as usize, job.dimens.sync_index.unwrap(), time, tolerance_of(job)),
            ),
            None => info.assignments,
        };
        upsert(t, g, SyncGroupView { required_size: info.required_size, assignments: added })
    } else {
        t
    }
}

/// The sync groups rebuilt from scratch out of the given routed jobs.
pub open spec fn sync_rebuild(items: Seq<(int, Route, Job)>) -> Seq<(Seq<char>, SyncGroupView)>
    decreases items.len(),
{
    if items.len() == 0 {
        Seq::empty()
    } else {
        rebuild_step(sync_rebuild(items.drop_last()), items.last())
    }
}

/// Whether activity `a` serves member `index` of group `g`.
pub open spec fn serves_member(a: Activity, g: Seq<char>, index: u32) -> bool {
    activity_group(a) == Some(g) && a.job.unwrap().dimens.sync_index == Some(index)
}

/// Index of the first activity serving member `index` of group `g`, or -1.
pub open spec fn member_at(acts: Seq<Activity>, g: Seq<char>, index: u32) -> int
    decreases acts.len(),
{
    if acts.len() == 0 {
        -1
    } else {
        let i = member_at(acts.drop_last(), g, index);
        if i >= 0 {
            i
        } else if serves_member(acts.last(), g, index) {
            acts.len() - 1
        } else {
            -1
        }
    }
}

/// The placed members of group `g` that the routes still serve, with
/// their service starts refreshed.
pub open spec fn refresh(a: Seq<SyncAssignment>, g: Seq<char>, routes: Seq<RouteContext>) -> Seq<
    SyncAssignment,
>
    decreases a.len(),
{
    if a.len() == 0 {
        Seq::empty()
    } else {
        let rest = refresh(a.drop_last(), g, routes);
        let x = a.last();
        if x.0 < routes.len() {
            let acts = routes[x.0 as int].route.activities@;
            let m = member_at(acts, g, x.1);
            if m >= 0 {
                match scheduled_time_in(acts, acts[m].job.unwrap()) {
                    Some(t) => rest.push((x.0, x.1, t, x.3)),
                    None => rest,
                }
            } else {
                rest
            }
        } else {
            rest
        }
    }
}

/// The table corrected against the routes: members refreshed, and groups
/// left without members dropped.
pub open spec fn corrected(t: Seq<(Seq<char>, SyncGroupView)>, routes: Seq<RouteContext>) -> Seq<
    (Seq<char>, SyncGroupView),
>
    decreases t.len(),
{
    if t.len() == 0 {
        Seq::empty()
    } else {
        let rest = corrected(t.drop_last(), routes);
        let e = t.last();
        let a = refresh(e.1.assignments, e.0, routes);
        if a.len() > 0 {
            rest.push((e.0, SyncGroupView { required_size: e.1.required_size, assignments: a }))
        } else {
            rest
        }
    }
}

/// What `accept_solution_state` leaves: every route lists exactly the sync
/// groups it serves, and the groups are exactly those a full rebuild from the
/// routes gives.
pub open spec fn sync_state_reconciled(before: SolutionContext, after: SolutionContext) -> bool {
    &&& after.required == before.required
    &&& after.ignored == before.ignored
    &&& after.state.sequence_groups == before.state.sequence_groups
    &&& after.state.assignees == before.state.assignees
    &&& after.state.affinities == before.state.affinities
    &&& after.state.affinity_groups == before.state.affinity_groups
    &&& after.routes@.len() == before.routes@.len()
    &&& forall|r: int|
        0 <= r < before.routes@.len() ==> {
            let b = #[trigger] before.routes@[r];
            let a = after.routes@[r];
            &&& a.route == b.route
            &&& a.state.sync_groups is Some
            &&& forall|h: Seq<char>|
                names(listed(a.state.sync_groups), h) <==> group_seen(b.route.activities@, h)
        }
    &&& after.state.sync_groups is Some
    &&& sync_table_of(after) == sync_rebuild(indexed_jobs(before.routes@))
    &&& keys_unique(sync_table_of(after))
}

/// A rebuilt table has one entry per sync group.
pub proof fn lemma_sync_rebuild_unique(items: Seq<(int, Route, Job)>)
    ensures
        keys_unique(sync_rebuild(items)),
    decreases items.len(),
{
    if items.len() > 0 {
        lemma_sync_rebuild_unique(items.drop_last());
        lemma_upsert_unique_all(sync_rebuild(items.drop_last()));
    }
}

/// Emptying failed groups keeps every key in place.
pub proof fn lemma_clear_failed_unique(t: Seq<(Seq<char>, SyncGroupView)>, jobs: Seq<Job>)
    requires
        keys_unique(t),
    ensures
        keys_unique(clear_failed(t, jobs)),
{
    let c = clear_failed(t, jobs);
    assert forall|i: int, j: int| 0 <= i < j < c.len() implies c[i].0 != c[j].0 by {
        assert(c[i].0 == t[i].0 && c[j].0 == t[j].0);
    }
}

fn assignments_equal(a: &Vec<SyncAssignment>, b: &Vec<SyncAssignment>) -> (r: bool)
    ensures
        r == (a@ == b@),
{
    if a.len() != b.len() {
        return false;
    }
    let mut i: usize = 0;
    while i < a.len()
        invariant
            a@.len() == b@.len(),
            0 <= i <= a.len(),
            forall|j: int| 0 <= j < i ==> a@[j] == b@[j],
        decreases a.len() - i,
    {
        if a[i].0 != b[i].0 || a[i].1 != b[i].1 || a[i].2 != b[i].2 || a[i].3 != b[i].3 {
            return false;
        }
        i = i + 1;
    }
    assert(a@ =~= b@);
    true
}

/// Whether two tables hold the same groups in the same order.
fn sync_tables_equal(a: &Vec<(String, SyncGroupInfo)>, b: &Vec<(String, SyncGroupInfo)>) -> (r: bool)
    ensures
        r == (table_view(a@) == table_view(b@)),
{
    if a.len() != b.len() {
        assert(table_view(a@).len() != table_view(b@).len());
        return false;
    }
    let mut i: usize = 0;
    while i < a.len()
        invariant
            a@.len() == b@.len(),
            0 <= i <= a.len(),
            forall|j: int| 0 <= j < i ==> table_view(a@)[j] == table_view(b@)[j],
        decreases a.len() - i,
    {
        let same = a[i].0.eq(&b[i].0) && a[i].1.required_size == b[i].1.required_size
            && assignments_equal(&a[i].1.assignments, &b[i].1.assignments);
        if !same {
            assert(table_view(a@)[i as int] != table_view(b@)[i as int]);
            return false;
        }
        assert(table_view(a@)[i as int] == table_view(b@)[i as int]);
        i = i + 1;
    }
    assert(table_view(a@) =~= table_view(b@));
    true
}

fn find_member_at(acts: &Vec<Activity>, g: &String, index: u32) -> (r: Option<usize>)
    ensures
        r matches Some(i) ==> i < acts@.len() && i as int == member_at(acts@, g@, index)
            && acts@[i as int].job is Some,
        r is None ==> member_at(acts@, g@, index) == -1,
{
    let mut i: usize = 0;
    while i < acts.len()
        invariant
            0 <= i <= acts.len(),
            member_at(acts@.subrange(0, i as int), g@, index) == -1,
        decreases acts.len() - i,
    {
        let ghost sub = acts@.subrange(0, i as int + 1);
        assert(sub.drop_last() =~= acts@.subrange(0, i as int));
        assert(sub.last() == acts@[i as int]);
        if let Some(j) = &acts[i].job {
            if let Some(k) = &j.dimens.sync_group {
                if k.eq(g) && j.dimens.sync_index == Some(index) {
                    proof {
                        lemma_member_at_prefix(acts@, g@, index, i as int + 1);
                    }
                    return Some(i);
                }
            }
        }
        i = i + 1;
    }
    assert(acts@.subrange(0, i as int) =~= acts@);
    None
}

proof fn lemma_member_at_prefix(acts: Seq<Activity>, g: Seq<char>, index: u32, n: int)
    requires
        0 <= n <= acts.len(),
        member_at(acts.subrange(0, n), g, index) >= 0,
    ensures
        member_at(acts, g, index) == member_at(acts.subrange(0, n), g, index),
    decreases acts.len() - n,
{
    if n < acts.len() {
        let sub = acts.subrange(0, n + 1);
        assert(sub.drop_last() =~= acts.subrange(0, n));
        lemma_member_at_prefix(acts, g, index, n + 1);
    } else {
        assert(acts.subrange(0, n) =~= acts);
    }
}

fn refresh_members(a: &Vec<SyncAssignment>, g: &String, routes: &Vec<RouteContext>) -> (r: Vec<
    SyncAssignment,
>)
    ensures
        r@ == refresh(a@, g@, routes@),
{
    let mut out: Vec<SyncAssignment> = Vec::new();
    let mut q: usize = 0;
    while q < a.len()
        invariant
            0 <= q <= a.len(),
            out@ == refresh(a@.subrange(0, q as int), g@, routes@),
        decreases a.len() - q,
    {
        let ghost sub = a@.subrange(0, q as int + 1);
        assert(sub.drop_last() =~= a@.subrange(0, q as int));
        assert(sub.last() == a@[q as int]);
        let x = a[q];
        if x.0 < routes.len() {
            let acts = &routes[x.0].route.activities;
            if let Some(m) = find_member_at(acts, g, x.1) {
                if let Some(j) = &acts[m].job {
                    if let Some(t) = extract_scheduled_time(&routes[x.0], j) {
                        out.push((x.0, x.1, t, x.3));
                    }
                }
            }
        }
        q = q + 1;
    }
    assert(a@.subrange(0, q as int) =~= a@);
    out
}

impl JobSyncFeature {
    /// Makes the sync aggregates agree with what the routes hold: a full
    /// rebuild when none exist; otherwise the existing groups are corrected
    /// against the routes and replaced by a full rebuild when the correction
    /// still disagrees with the routes.
    pub fn accept_solution_state(&self, solution_ctx: &mut SolutionContext)
        ensures
            sync_state_reconciled(*old(solution_ctx), *final(solution_ctx)),
    {
        let rebuilt = self.rebuild_solution_state(&solution_ctx.routes);
        proof {
            lemma_sync_rebuild_unique(indexed_jobs(solution_ctx.routes@));
        }
        let table = match solution_ctx.state.sync_groups.take() {
            None => rebuilt,
            Some(t) => {
                // keep the corrected groups only when they agree with the routes
                let fixed = Self::correct_solution_state(&t, &solution_ctx.routes);
                if sync_tables_equal(&fixed, &rebuilt) {
                    fixed
                } else {
                    rebuilt
                }
            },
        };
        self.refresh_route_states(&mut solution_ctx.routes);
        solution_ctx.state.sync_groups = Some(table);
    }

    fn refresh_route_states(&self, routes: &mut Vec<RouteContext>)
        ensures
            final(routes)@.len() == old(routes)@.len(),
            forall|r: int|
                0 <= r < old(routes)@.len() ==> {
                    let b = #[trigger] old(routes)@[r];
                    let a = final(routes)@[r];
                    &&& a.route == b.route
                    &&& a.state.sync_groups is Some
                    &&& forall|h: Seq<char>|
                        names(listed(a.state.sync_groups), h) <==> group_seen(
                            b.route.activities@,
                            h,
                        )
                },
    {
        let ghost start = routes@;
        let mut i: usize = 0;
        while i < routes.len()
            invariant
                0 <= i <= routes.len(),
                routes@.len() == start.len(),
                forall|r: int| i <= r < start.len() ==> #[trigger] routes@[r] == start[r],
                forall|r: int|
                    0 <= r < i ==> {
                        let b = #[trigger] start[r];
                        let a = routes@[r];
                        &&& a.route == b.route
                        &&& a.state.sync_groups is Some
                        &&& forall|h: Seq<char>|
                            names(listed(a.state.sync_groups), h) <==> group_seen(
                                b.route.activities@,
                                h,
                            )
                    },
            decreases routes.len() - i,
        {
            let ghost mid = routes@;
            let mut rc = routes.remove(i);
            self.accept_route_state(&mut rc);
            routes.insert(i, rc);
            assert(routes@ =~= mid.update(i as int, rc));
            i = i + 1;
        }
    }

    /// Builds the sync groups from scratch out of the routes.
    fn rebuild_solution_state(&self, routes: &Vec<RouteContext>) -> (r: Vec<(String, SyncGroupInfo)>)
        ensures
            table_view(r@) == sync_rebuild(indexed_jobs(routes@)),
    {
        let mut table: Vec<(String, SyncGroupInfo)> = Vec::new();
        let mut i: usize = 0;
        assert(indexed_jobs(routes@.subrange(0, 0)) =~= Seq::<(int, Route, Job)>::empty());
        while i < routes.len()
            invariant
                0 <= i <= routes.len(),
                table_view(table@) == sync_rebuild(indexed_jobs(routes@.subrange(0, i as int))),
            decreases routes.len() - i,
        {
            let route = &routes[i].route;
            let acts = &route.activities;
            let ghost done = indexed_jobs(routes@.subrange(0, i as int));
            let ghost r = *route;
            let mut j: usize = 0;
            assert(activity_jobs(acts@.subrange(0, 0)) =~= Seq::<Job>::empty());
            assert(done + tagged(i as int, r, activity_jobs(acts@.subrange(0, 0))) =~= done);
            while j < acts.len()
                invariant
                    0 <= j <= acts.len(),
                    acts == &route.activities,
                    r == *route,
                    r == routes@[i as int].route,
                    i < routes.len(),
                    table_view(table@) == sync_rebuild(
                        done + tagged(i as int, r, activity_jobs(acts@.subrange(0, j as int))),
                    ),
                decreases acts.len() - j,
            {
                let ghost before = done + tagged(
                    i as int,
                    r,
                    activity_jobs(acts@.subrange(0, j as int)),
                );
                assert(acts@.subrange(0, j as int + 1).drop_last() =~= acts@.subrange(0, j as int));
                if let Some(job) = &acts[j].job {
                    let ghost after = done + tagged(
                        i as int,
                        r,
                        activity_jobs(acts@.subrange(0, j as int + 1)),
                    );
                    assert(after =~= before.push((i as int, r, *job)));
                    assert(after.drop_last() =~= before);
                    assert(after.last() == (i as int, r, *job));
                    self.rebuild_record(&mut table, i, &routes[i], job);
                } else {
                    assert(activity_jobs(acts@.subrange(0, j as int + 1)) =~= activity_jobs(
                        acts@.subrange(0, j as int),
                    ));
                    assert(done + tagged(i as int, r, activity_jobs(acts@.subrange(0, j as int + 1)))
                        =~= before);
                }
                j = j + 1;
            }
            assert(acts@.subrange(0, j as int) =~= acts@);
            assert(routes@.subrange(0, i as int + 1).drop_last() =~= routes@.subrange(0, i as int));
            assert(routes@.subrange(0, i as int + 1)[i as int] == routes@[i as int]);
            i = i + 1;
        }
        assert(routes@.subrange(0, i as int) =~= routes@);
        table
    }

    fn rebuild_record(
        &self,
        table: &mut Vec<(String, SyncGroupInfo)>,
        route_index: usize,
        route_ctx: &RouteContext,
        job: &Job,
    )
        ensures
            table_view(final(table)@) == rebuild_step(
                table_view(old(table)@),
                (route_index as int, route_ctx.route, *job),
            ),
    {
        let (g, size, index) = match (
            &job.dimens.sync_group,
            job.dimens.sync_size,
            job.dimens.sync_index,
        ) {
            (Some(g), Some(size), Some(index)) => (g, size, index),
            _ => return ,
        };
        let tolerance = match job.dimens.sync_tolerance {
            Some(t) => t,
            None => DEFAULT_SYNC_TOLERANCE,
        };
        let time = extract_scheduled_time(route_ctx, job);
        let ghost tv = table_view(table@);
        match find_key(table, g) {
            Some(gi) => {
                proof {
                    lemma_key_index_bounds(tv, g@);
                }
                let ghost old_t = table@;
                let (k, mut info) = table.remove(gi);
                if let Some(t) = time {
                    info.assignments.push((route_index, index, t, tolerance));
                }
                table.insert(gi, (k, info));
                assert(table@ =~= old_t.update(gi as int, (k, info)));
                assert(table_view(table@) =~= tv.update(gi as int, (g@, info@)));
            },
            None => {
                let mut assignments: Vec<SyncAssignment> = Vec::new();
                if let Some(t) = time {
                    assignments.push((route_index, index, t, tolerance));
                }
                let info = SyncGroupInfo { required_size: size, assignments };
                table.push((g.clone(), info));
                assert(table_view(table@) =~= tv.push((g@, info@)));
            },
        }
    }

    /// Refreshes the members of each group against the routes and drops the
    /// groups left without members.
    fn correct_solution_state(table: &Vec<(String, SyncGroupInfo)>, routes: &Vec<RouteContext>) -> (r:
        Vec<(String, SyncGroupInfo)>)
        ensures
            table_view(r@) == corrected(table_view(table@), routes@),
    {
        let ghost tv = table_view(table@);
        let mut out: Vec<(String, SyncGroupInfo)> = Vec::new();
        let mut i: usize = 0;
        while i < table.len()
            invariant
                0 <= i <= table.len(),
                tv == table_view(table@),
                table_view(out@) == corrected(tv.subrange(0, i as int), routes@),
            decreases table.len() - i,
        {
            let ghost sub = tv.subrange(0, i as int + 1);
            assert(sub.drop_last() =~= tv.subrange(0, i as int));
            assert(sub.last() == tv[i as int]);
            let a = refresh_members(&table[i].1.assignments, &table[i].0, routes);
            if a.len() > 0 {
                let info = SyncGroupInfo { required_size: table[i].1.required_size, assignments: a };
                let ghost before = out@;
                out.push((table[i].0.clone(), info));
                assert(table_view(out@) =~= table_view(before).push((tv[i as int].0, info@)));
            }
            i = i + 1;
        }
        assert(tv.subrange(0, i as int) =~= tv);
        out
    }
}


/// The routed jobs depend only on the routes, not on their bookkeeping.
proof fn lemma_indexed_jobs_same_routes(a: Seq<RouteContext>, b: Seq<RouteContext>)
    requires
        a.len() == b.len(),
        forall|r: int| 0 <= r < a.len() ==> #[trigger] a[r].route == b[r].route,
    ensures
        indexed_jobs(a) == indexed_jobs(b),
    decreases a.len(),
{
    if a.len() > 0 {
        let da = a.drop_last();
        let db = b.drop_last();
        assert forall|r: int| 0 <= r < da.len() implies #[trigger] da[r].route == db[r].route by {
            assert(da[r] == a[r] && db[r] == b[r]);
        }
        lemma_indexed_jobs_same_routes(da, db);
        assert(a.last().route == b.last().route);
    }
}

/// Reconciling the sync aggregates twice in a row, starting from none,
/// gives the same groups as reconciling once, and every route lists the same
/// groups.
pub proof fn lemma_sync_rebuild_converges(s0: SolutionContext, s1: SolutionContext, s2: SolutionContext)
    requires
        s0.state.sync_groups is None,
        sync_state_reconciled(s0, s1),
        sync_state_reconciled(s1, s2),
    ensures
        sync_table_of(s2) == sync_table_of(s1),
        forall|r: int, h: Seq<char>|
            0 <= r < s1.routes@.len() ==> (names(listed(s2.routes@[r].state.sync_groups), h)
                <==> #[trigger] names(listed(s1.routes@[r].state.sync_groups), h)),
{
    let r0 = s0.routes@;
    let r1 = s1.routes@;
    assert forall|r: int| 0 <= r < r0.len() implies #[trigger] r0[r].route == r1[r].route by {
        assert(r1[r].route == r0[r].route);
    }
    lemma_indexed_jobs_same_routes(r0, r1);
    assert forall|r: int, h: Seq<char>| 0 <= r < r1.len() implies (names(
        listed(s2.routes@[r].state.sync_groups),
        h,
    ) <==> #[trigger] names(listed(r1[r].state.sync_groups), h)) by {
        assert(r1[r].route == r0[r].route);
    }
}

} // verus!
