//! Caps on what one tour may hold.
use vstd::prelude::*;
use crate::costs::{matrix_at, route_totals, SimpleTransportCost};
use crate::model::{Activity, Actor, Job, Place, RouteContext, TimeWindow};
use crate::solution::{ConstraintViolation, SolutionContext, ViolationCode};

verus! {

/// Number of activities that serve a job.
pub open spec fn job_activity_count(acts: Seq<Activity>) -> int
    decreases acts.len(),
{
    if acts.len() == 0 {
        0
    } else {
        job_activity_count(acts.drop_last()) + if acts.last().job is Some {
            1int
        } else {
            0
        }
    }
}

/// The activity cap of the vehicle `id`: the first entry for it, if any.
pub open spec fn limit_of(limits: Seq<(usize, usize)>, id: usize) -> Option<usize>
    decreases limits.len(),
{
    if limits.len() == 0 {
        None
    } else if limits[0].0 == id {
        Some(limits[0].1)
    } else {
        limit_of(limits.drop_first(), id)
    }
}

fn find_limit(limits: &Vec<(usize, usize)>, id: usize) -> (r: Option<usize>)
    ensures
        r == limit_of(limits@, id),
{
    let mut i: usize = 0;
    assert(limits@.subrange(0, limits@.len() as int) =~= limits@);
    while i < limits.len()
        invariant
            0 <= i <= limits.len(),
            limit_of(limits@, id) == limit_of(limits@.subrange(i as int, limits@.len() as int), id),
        decreases limits.len() - i,
    {
        assert(limits@.subrange(i as int, limits@.len() as int).drop_first() =~= limits@.subrange(
            i as int + 1,
            limits@.len() as int,
        ));
        if limits[i].0 == id {
            return Some(limits[i].1);
        }
        i = i + 1;
    }
    None
}

/// Limits how many job activities a tour may hold, per vehicle.
#[derive(Clone, Debug)]
pub struct ActivityLimitFeature {
    pub name: String,
    pub code: ViolationCode,
    /// `(vehicle id, most activities)`; vehicles not listed have no cap.
    pub limits: Vec<(usize, usize)>,
}

/// Creates the activity limit feature.
pub fn create_activity_limit_feature(
    name: &str,
    code: ViolationCode,
    limits: Vec<(usize, usize)>,
) -> (r: Result<ActivityLimitFeature, String>)
    ensures
        r matches Ok(f) && f.name@ == name@ && f.code == code && f.limits@ == limits@,
{
    Ok(ActivityLimitFeature { name: name.to_owned(), code, limits })
}

impl ActivityLimitFeature {
    /// Refuses `job` when the tour would exceed its vehicle's cap.
    pub fn evaluate(&self, route_ctx: &RouteContext, job: &Job) -> (r: Option<ConstraintViolation>)
        ensures
            r == match limit_of(self.limits@, route_ctx.route.actor.vehicle.id) {
                Some(limit) => if job_activity_count(route_ctx.route.activities@) + job.activities
                    > limit {
                    Some(ConstraintViolation { code: self.code, stopped: true })
                } else {
                    None::<ConstraintViolation>
                },
                None => None::<ConstraintViolation>,
            },
    {
        let limit = match find_limit(&self.limits, route_ctx.route.actor.vehicle.id) {
            Some(l) => l,
            None => return None,
        };
        let acts = &route_ctx.route.activities;
        let mut count: usize = 0;
        let mut j: usize = 0;
        while j < acts.len()
            invariant
                0 <= j <= acts.len(),
                count == job_activity_count(acts@.subrange(0, j as int)),
                count <= j,
            decreases acts.len() - j,
        {
            assert(acts@.subrange(0, j as int + 1).drop_last() =~= acts@.subrange(0, j as int));
            if acts[j].job.is_some() {
                count = count + 1;
            }
            j = j + 1;
        }
        assert(acts@.subrange(0, j as int) =~= acts@);
        if count as u128 + job.activities as u128 > limit as u128 {
            ConstraintViolation::fail(self.code)
        } else {
            None
        }
    }
}


/// An activity about to be inserted between `prev` and `next` of a route.
#[derive(Clone, Debug)]
pub struct ActivityContext {
    pub index: usize,
    pub prev: Activity,
    pub target: Activity,
    pub next: Option<Activity>,
}

/// Caps of one vehicle: tour distance, tour duration, and the span from the
/// first job activity's arrival to the last one's departure.
#[derive(Clone, Copy, Debug, PartialEq, Eq, Structural)]
pub struct TravelLimits {
    pub vehicle: usize,
    pub distance: Option<i64>,
    pub duration: Option<i64>,
    pub activity_duration: Option<i64>,
}

/// Limits tour distance, duration and job-activity span, per vehicle.
#[derive(Clone, Debug)]
pub struct TravelLimitFeature {
    pub name: String,
    pub transport: SimpleTransportCost,
    pub distance_code: ViolationCode,
    pub duration_code: ViolationCode,
    pub activity_duration_code: ViolationCode,
    /// The first entry for a vehicle applies; vehicles not listed have no cap.
    pub limits: Vec<TravelLimits>,
}

/// Creates the travel limit feature.
pub fn create_travel_limit_feature(
    name: &str,
    transport: SimpleTransportCost,
    distance_code: ViolationCode,
    duration_code: ViolationCode,
    activity_duration_code: ViolationCode,
    limits: Vec<TravelLimits>,
) -> (r: Result<TravelLimitFeature, String>)
    ensures
        r matches Ok(f) && f.name@ == name@ && f.transport == transport && f.distance_code
            == distance_code && f.duration_code == duration_code && f.activity_duration_code
            == activity_duration_code && f.limits@ == limits@,
{
    Ok(
        TravelLimitFeature {
            name: name.to_owned(),
            transport,
            distance_code,
            duration_code,
            activity_duration_code,
            limits,
        },
    )
}

/// The caps of vehicle `id`: the first entry for it.
pub open spec fn travel_limits_of(limits: Seq<TravelLimits>, id: usize) -> Option<TravelLimits>
    decreases limits.len(),
{
    if limits.len() == 0 {
        None
    } else if limits[0].vehicle == id {
        Some(limits[0])
    } else {
        travel_limits_of(limits.drop_first(), id)
    }
}

/// Matrix entry for travelling between two activities.
pub open spec fn leg(m: Seq<i64>, size: usize, a: Activity, b: Activity) -> int {
    matrix_at(m, size, a.location, b.location)
}

/// What inserting the target adds to one matrix's total.
pub open spec fn travel_delta(m: Seq<i64>, size: usize, ctx: ActivityContext) -> int {
    match ctx.next {
        Some(n) => leg(m, size, ctx.prev, ctx.target) + leg(m, size, ctx.target, n) - leg(
            m,
            size,
            ctx.prev,
            n,
        ),
        None => leg(m, size, ctx.prev, ctx.target),
    }
}

/// Arrival of the first and departure of the last job activity, if any.
pub open spec fn job_span(acts: Seq<Activity>) -> Option<(int, int)>
    decreases acts.len(),
{
    if acts.len() == 0 {
        None
    } else {
        let a = acts.last();
        let rest = job_span(acts.drop_last());
        if a.job is Some {
            match rest {
                Some(p) => Some((p.0, a.schedule.departure as int)),
                None => Some((a.schedule.arrival as int, a.schedule.departure as int)),
            }
        } else {
            rest
        }
    }
}

/// The tour's current job-activity span (zero without job activities).
pub open spec fn current_activity_duration(acts: Seq<Activity>) -> int {
    match job_span(acts) {
        Some(p) => p.1 - p.0,
        None => 0,
    }
}

/// How inserting the target changes the job-activity span: it starts no
/// earlier than the travel from `prev` and its window allow; at the end of
/// the jobs it sets the last departure, elsewhere it shifts it by the
/// travel time it adds.
pub open spec fn activity_duration_delta(t: SimpleTransportCost, acts: Seq<Activity>, ctx: ActivityContext) -> int {
    let estimated = ctx.prev.schedule.departure + leg(t.durations@, t.size, ctx.prev, ctx.target);
    let arrival = if estimated >= ctx.target.time_start {
        estimated
    } else {
        ctx.target.time_start as int
    };
    let departure = arrival + ctx.target.duration;
    match job_span(acts) {
        None => departure - arrival,
        Some(p) => {
            let first = if p.0 <= arrival {
                p.0
            } else {
                arrival
            };
            let at_end = match ctx.next {
                None => true,
                Some(n) => n.job is None,
            };
            let last = if at_end {
                departure
            } else {
                p.1 + travel_delta(t.durations@, t.size, ctx)
            };
            (last - first) - (p.1 - p.0)
        },
    }
}

/// The verdict on inserting the target: the first cap it would exceed,
/// checked in the order distance, duration, job-activity span.
pub open spec fn travel_verdict(f: TravelLimitFeature, rc: RouteContext, ctx: ActivityContext) -> Option<
    ConstraintViolation,
> {
    match travel_limits_of(f.limits@, rc.route.actor.vehicle.id) {
        None => None,
        Some(l) => {
            let totals = route_totals(f.transport, rc.route);
            let acts = rc.route.activities@;
            if l.distance matches Some(d) && d < totals.0 + travel_delta(
                f.transport.distances@,
                f.transport.size,
                ctx,
            ) {
                Some(ConstraintViolation { code: f.distance_code, stopped: false })
            } else if l.duration matches Some(d) && d < totals.1 + travel_delta(
                f.transport.durations@,
                f.transport.size,
                ctx,
            ) {
                Some(ConstraintViolation { code: f.duration_code, stopped: false })
            } else if l.activity_duration matches Some(d) && d < current_activity_duration(acts)
                + activity_duration_delta(f.transport, acts, ctx) {
                Some(ConstraintViolation { code: f.activity_duration_code, stopped: false })
            } else {
                None
            }
        },
    }
}

fn find_travel_limits(limits: &Vec<TravelLimits>, id: usize) -> (r: Option<TravelLimits>)
    ensures
        r == travel_limits_of(limits@, id),
{
    let mut i: usize = 0;
    assert(limits@.subrange(0, limits@.len() as int) =~= limits@);
    while i < limits.len()
        invariant
            0 <= i <= limits.len(),
            travel_limits_of(limits@, id) == travel_limits_of(
                limits@.subrange(i as int, limits@.len() as int),
                id,
            ),
        decreases limits.len() - i,
    {
        assert(limits@.subrange(i as int, limits@.len() as int).drop_first() =~= limits@.subrange(
            i as int + 1,
            limits@.len() as int,
        ));
        if limits[i].vehicle == id {
            return Some(limits[i]);
        }
        i = i + 1;
    }
    None
}

fn job_span_of(acts: &Vec<Activity>) -> (r: Option<(i64, i64)>)
    ensures
        match r {
            Some(p) => job_span(acts@) == Some((p.0 as int, p.1 as int)),
            None => job_span(acts@) is None,
        },
{
    let mut span: Option<(i64, i64)> = None;
    let mut i: usize = 0;
    while i < acts.len()
        invariant
            0 <= i <= acts.len(),
            match span {
                Some(p) => job_span(acts@.subrange(0, i as int)) == Some((p.0 as int, p.1 as int)),
                None => job_span(acts@.subrange(0, i as int)) is None,
            },
        decreases acts.len() - i,
    {
        assert(acts@.subrange(0, i as int + 1).drop_last() =~= acts@.subrange(0, i as int));
        assert(acts@.subrange(0, i as int + 1).last() == acts@[i as int]);
        if acts[i].job.is_some() {
            span = match span {
                Some(p) => Some((p.0, acts[i].schedule.departure)),
                None => Some((acts[i].schedule.arrival, acts[i].schedule.departure)),
            };
        }
        i = i + 1;
    }
    assert(acts@.subrange(0, i as int) =~= acts@);
    span
}

impl TravelLimitFeature {
    fn delta(&self, m: &Vec<i64>, ctx: &ActivityContext) -> (r: i128)
        ensures
            r == travel_delta(m@, self.transport.size, *ctx),
    {
        let size = self.transport.size;
        let there = matrix_entry(m, size, ctx.prev.location, ctx.target.location) as i128;
        match &ctx.next {
            Some(n) => there + matrix_entry(m, size, ctx.target.location, n.location) as i128
                - matrix_entry(m, size, ctx.prev.location, n.location) as i128,
            None => there,
        }
    }

    /// Refuses inserting the target activity when the tour would exceed one
    /// of its vehicle's caps; another position may still fit.
    pub fn evaluate(&self, route_ctx: &RouteContext, activity_ctx: &ActivityContext) -> (r: Option<
        ConstraintViolation,
    >)
        ensures
            r == travel_verdict(*self, *route_ctx, *activity_ctx),
    {
        let l = match find_travel_limits(&self.limits, route_ctx.route.actor.vehicle.id) {
            Some(l) => l,
            None => return None,
        };
        let (total_distance, total_duration) = self.transport.get_route_totals(&route_ctx.route);
        if let Some(d) = l.distance {
            let delta = self.delta(&self.transport.distances, activity_ctx);
            if (d as i128) - delta < total_distance {
                return Some(ConstraintViolation { code: self.distance_code, stopped: false });
            }
        }
        if let Some(d) = l.duration {
            let delta = self.delta(&self.transport.durations, activity_ctx);
            if (d as i128) - delta < total_duration {
                return Some(ConstraintViolation { code: self.duration_code, stopped: false });
            }
        }
        if let Some(d) = l.activity_duration {
            let ctx = activity_ctx;
            let to_target = matrix_entry(
                &self.transport.durations,
                self.transport.size,
                ctx.prev.location,
                ctx.target.location,
            ) as i128;
            let estimated = ctx.prev.schedule.departure as i128 + to_target;
            let arrival = if estimated >= ctx.target.time_start as i128 {
                estimated
            } else {
                ctx.target.time_start as i128
            };
            let departure = arrival + ctx.target.duration as i128;
            let (current, delta): (i128, i128) = match job_span_of(&route_ctx.route.activities) {
                None => (0, departure - arrival),
                Some((f, last)) => {
                    let first = if (f as i128) <= arrival {
                        f as i128
                    } else {
                        arrival
                    };
                    let at_end = match &ctx.next {
                        None => true,
                        Some(n) => n.job.is_none(),
                    };
                    let new_last = if at_end {
                        departure
                    } else {
                        last as i128 + self.delta(&self.transport.durations, ctx)
                    };
                    let current = last as i128 - f as i128;
                    (current, (new_last - first) - current)
                },
            };
            if (d as i128) < current + delta {
                return Some(
                    ConstraintViolation { code: self.activity_duration_code, stopped: false },
                );
            }
        }
        None
    }
}

fn matrix_entry(m: &Vec<i64>, size: usize, from: usize, to: usize) -> (r: i64)
    ensures
        r == matrix_at(m@, size, from, to),
{
    assert(from * size <= 0xffff_ffff_ffff_ffff * 0xffff_ffff_ffff_ffff) by (nonlinear_arith)
        requires
            from <= 0xffff_ffff_ffff_ffff,
            size <= 0xffff_ffff_ffff_ffff,
    ;
    let i = from as u128 * size as u128 + to as u128;
    if i < m.len() as u128 {
        m[i as usize]
    } else {
        0
    }
}


/// A window that does not restrict time at all.
pub open spec fn unbounded(w: TimeWindow) -> bool {
    w.start == 0 && w.end == i64::MAX
}

/// The restricting windows of a place, with its location.
pub open spec fn windows_at(ws: Seq<TimeWindow>, loc: usize) -> Seq<(TimeWindow, usize)>
    decreases ws.len(),
{
    if ws.len() == 0 {
        Seq::empty()
    } else {
        let r = windows_at(ws.drop_last(), loc);
        if unbounded(ws.last()) {
            r
        } else {
            r.push((ws.last(), loc))
        }
    }
}

/// The restricting windows of the located places, place by place.
pub open spec fn place_windows(ps: Seq<Place>) -> Seq<(TimeWindow, usize)>
    decreases ps.len(),
{
    if ps.len() == 0 {
        Seq::empty()
    } else {
        place_windows(ps.drop_last()) + match ps.last().location {
            Some(l) => windows_at(ps.last().times@, l),
            None => Seq::empty(),
        }
    }
}

/// The restricting windows of the jobs' located places, job by job.
pub open spec fn job_windows(jobs: Seq<Job>) -> Seq<(TimeWindow, usize)>
    decreases jobs.len(),
{
    if jobs.len() == 0 {
        Seq::empty()
    } else {
        job_windows(jobs.drop_last()) + place_windows(jobs.last().places@)
    }
}

/// Whether `t` lies in the window.
pub open spec fn in_window(w: TimeWindow, t: int) -> bool {
    w.start <= t <= w.end
}

/// Whether leaving the depot at `c` suits the actor and reaches the place
/// within the window.
pub open spec fn departure_ok(actor: Actor, w: TimeWindow, travel: int, c: int) -> bool {
    let sp = actor.detail.start.unwrap();
    let start_latest: int = match sp.time.latest {
        Some(t) => t as int,
        None => i64::MAX as int,
    };
    let end_latest: int = match actor.detail.end {
        Some(e) => match e.time.latest {
            Some(t) => t as int,
            None => i64::MAX as int,
        },
        None => i64::MAX as int,
    };
    let start_earliest: int = match sp.time.earliest {
        Some(t) => t as int,
        None => 0,
    };
    let leave = if start_earliest >= c {
        start_earliest
    } else {
        c
    };
    i64::MIN <= c && c <= start_latest && c <= end_latest && leave + travel <= w.end
}

/// The departure that serves window `w` at `loc`: the latest possible, the
/// earliest possible, or the middle one, whichever suits first; none when
/// the window does not meet the actor's working time.
pub open spec fn window_departure(actor: Actor, t: SimpleTransportCost, w: TimeWindow, loc: usize) -> Option<int> {
    let sp = actor.detail.start.unwrap();
    let travel = matrix_at(t.durations@, t.size, sp.location, loc);
    let latest = w.end - travel;
    let earliest = w.start - travel;
    let middle = w.start - travel + (w.end - w.start) / 2;
    if !(in_window(actor.detail.time, w.start as int) || in_window(actor.detail.time, w.end as int)) {
        None
    } else if departure_ok(actor, w, travel, latest) {
        Some(latest)
    } else if departure_ok(actor, w, travel, earliest) {
        Some(earliest)
    } else if departure_ok(actor, w, travel, middle) {
        Some(middle)
    } else {
        None
    }
}

/// The first departure that serves one of the windows, in order.
pub open spec fn first_departure(actor: Actor, t: SimpleTransportCost, pairs: Seq<(TimeWindow, usize)>) -> Option<int>
    decreases pairs.len(),
{
    if pairs.len() == 0 {
        None
    } else {
        match window_departure(actor, t, pairs[0].0, pairs[0].1) {
            Some(d) => Some(d),
            None => first_departure(actor, t, pairs.drop_first()),
        }
    }
}

fn windows_of_jobs(jobs: &Vec<Job>) -> (r: Vec<(TimeWindow, usize)>)
    ensures
        r@ == job_windows(jobs@),
{
    let mut out: Vec<(TimeWindow, usize)> = Vec::new();
    let mut i: usize = 0;
    assert(job_windows(jobs@.subrange(0, 0)) =~= Seq::<(TimeWindow, usize)>::empty());
    while i < jobs.len()
        invariant
            0 <= i <= jobs.len(),
            out@ == job_windows(jobs@.subrange(0, i as int)),
        decreases jobs.len() - i,
    {
        let places = &jobs[i].places;
        let ghost done = out@;
        let mut p: usize = 0;
        assert(place_windows(places@.subrange(0, 0)) =~= Seq::<(TimeWindow, usize)>::empty());
        assert(done + place_windows(places@.subrange(0, 0)) =~= done);
        while p < places.len()
            invariant
                0 <= p <= places.len(),
                places == &jobs@[i as int].places,
                out@ == done + place_windows(places@.subrange(0, p as int)),
            decreases places.len() - p,
        {
            let ghost before = out@;
            assert(places@.subrange(0, p as int + 1).drop_last() =~= places@.subrange(0, p as int));
            assert(places@.subrange(0, p as int + 1).last() == places@[p as int]);
            if let Some(loc) = places[p].location {
                let ws = &places[p].times;
                let mut w: usize = 0;
                assert(windows_at(ws@.subrange(0, 0), loc) =~= Seq::<(TimeWindow, usize)>::empty());
                assert(before + windows_at(ws@.subrange(0, 0), loc) =~= before);
                while w < ws.len()
                    invariant
                        0 <= w <= ws.len(),
                        out@ == before + windows_at(ws@.subrange(0, w as int), loc),
                    decreases ws.len() - w,
                {
                    assert(ws@.subrange(0, w as int + 1).drop_last() =~= ws@.subrange(0, w as int));
                    assert(ws@.subrange(0, w as int + 1).last() == ws@[w as int]);
                    let tw = ws[w];
                    if !(tw.start == 0 && tw.end == i64::MAX) {
                        out.push((tw, loc));
                        assert(out@ =~= before + windows_at(ws@.subrange(0, w as int + 1), loc));
                    }
                    w = w + 1;
                }
                assert(ws@.subrange(0, w as int) =~= ws@);
                assert(out@ =~= done + place_windows(places@.subrange(0, p as int + 1)));
            } else {
                assert(out@ =~= done + place_windows(places@.subrange(0, p as int + 1)));
            }
            p = p + 1;
        }
        assert(places@.subrange(0, p as int) =~= places@);
        assert(jobs@.subrange(0, i as int + 1).drop_last() =~= jobs@.subrange(0, i as int));
        assert(jobs@.subrange(0, i as int + 1).last() == jobs@[i as int]);
        i = i + 1;
    }
    assert(jobs@.subrange(0, i as int) =~= jobs@);
    out
}

fn departure_suits(actor: &Actor, w: TimeWindow, travel: i128, c: i128) -> (r: bool)
    requires
        actor.detail.start is Some,
        i64::MIN <= travel <= i64::MAX,
    ensures
        r == departure_ok(*actor, w, travel as int, c as int),
{
    let sp = actor.detail.start.unwrap();
    let start_latest: i128 = match sp.time.latest {
        Some(t) => t as i128,
        None => i64::MAX as i128,
    };
    let end_latest: i128 = match actor.detail.end {
        Some(e) => match e.time.latest {
            Some(t) => t as i128,
            None => i64::MAX as i128,
        },
        None => i64::MAX as i128,
    };
    let start_earliest: i128 = match sp.time.earliest {
        Some(t) => t as i128,
        None => 0,
    };
    if c < i64::MIN as i128 || c > start_latest || c > end_latest {
        return false;
    }
    let leave = if start_earliest >= c {
        start_earliest
    } else {
        c
    };
    leave + travel <= w.end as i128
}

/// The departure from the actor's depot that serves window `w` at `loc`.
pub fn window_departure_of(actor: &Actor, t: &SimpleTransportCost, w: TimeWindow, loc: usize) -> (r: Option<i128>)
    requires
        actor.detail.start is Some,
    ensures
        match r {
            Some(d) => window_departure(*actor, *t, w, loc) == Some(d as int),
            None => window_departure(*actor, *t, w, loc) is None,
        },
{
    let sp = actor.detail.start.unwrap();
    let time = actor.detail.time;
    let meets = (time.start <= w.start && w.start <= time.end) || (time.start <= w.end && w.end
        <= time.end);
    if !meets {
        return None;
    }
    let travel = t.duration_approx(sp.location, loc) as i128;
    let latest = w.end as i128 - travel;
    let earliest = w.start as i128 - travel;
    let middle = w.start as i128 - travel + (w.end as i128 - w.start as i128) / 2;
    proof {
        assert((w.end - w.start) / 2 == (w.end as int - w.start as int) / 2);
    }
    if departure_suits(actor, w, travel, latest) {
        Some(latest)
    } else if departure_suits(actor, w, travel, earliest) {
        Some(earliest)
    } else if departure_suits(actor, w, travel, middle) {
        Some(middle)
    } else {
        None
    }
}

/// The first departure from the actor's depot that lets it serve one of the
/// jobs' restricting windows, job by job, place by place, window by window.
pub fn find_departure_time(actor: &Actor, t: &SimpleTransportCost, jobs: &Vec<Job>) -> (r: Option<i64>)
    requires
        actor.detail.start is Some,
    ensures
        match r {
            Some(d) => first_departure(*actor, *t, job_windows(jobs@)) == Some(d as int),
            None => first_departure(*actor, *t, job_windows(jobs@)) is None,
        },
{
    let pairs = windows_of_jobs(jobs);
    let mut i: usize = 0;
    assert(pairs@.subrange(0, pairs@.len() as int) =~= pairs@);
    while i < pairs.len()
        invariant
            0 <= i <= pairs.len(),
            pairs@ == job_windows(jobs@),
            actor.detail.start is Some,
            first_departure(*actor, *t, pairs@) == first_departure(
                *actor,
                *t,
                pairs@.subrange(i as int, pairs@.len() as int),
            ),
        decreases pairs.len() - i,
    {
        let ghost rest = pairs@.subrange(i as int, pairs@.len() as int);
        assert(rest.drop_first() =~= pairs@.subrange(i as int + 1, pairs@.len() as int));
        assert(rest[0] == pairs@[i as int]);
        let (w, loc) = pairs[i];
        if let Some(d) = window_departure_of(actor, t, w, loc) {
            return Some(d as i64);
        }
        i = i + 1;
    }
    None
}


/// Whether the route's vehicle has a tour-duration cap.
pub open spec fn duration_capped(limits: Seq<TravelLimits>, rc: RouteContext) -> bool {
    travel_limits_of(limits, rc.route.actor.vehicle.id) matches Some(l) && l.duration is Some
}

/// Whether the route's vehicle has a tour-duration or job-span cap.
pub open spec fn time_capped(limits: Seq<TravelLimits>, rc: RouteContext) -> bool {
    travel_limits_of(limits, rc.route.actor.vehicle.id) matches Some(l) && (l.duration is Some
        || l.activity_duration is Some)
}

/// Whether one of the failed routes is an empty route with a duration cap.
pub open spec fn empty_capped_route(limits: Seq<TravelLimits>, routes: Seq<RouteContext>, indices: Seq<usize>) -> bool {
    exists|k: int|
        0 <= k < indices.len() && duration_capped(limits, #[trigger] routes[indices[k] as int])
            && job_activity_count(routes[indices[k] as int].route.activities@) == 0
}

/// Whether a free route can be opened: its vehicle has a time cap and a
/// start place.
pub open spec fn openable(limits: Seq<TravelLimits>, rc: RouteContext) -> bool {
    time_capped(limits, rc) && rc.route.actor.detail.start is Some
}

/// Index of the first free route that can be opened, or -1.
pub open spec fn first_openable(limits: Seq<TravelLimits>, available: Seq<RouteContext>) -> int {
    if exists|k: int| 0 <= k < available.len() && openable(limits, available[k]) {
        choose|k: int|
            0 <= k < available.len() && openable(limits, available[k]) && forall|j: int|
                0 <= j < k ==> !openable(limits, available[j])
    } else {
        -1
    }
}

/// `after` is `before` with its first activity leaving at `d`.
pub open spec fn departs_at(before: RouteContext, after: RouteContext, d: int) -> bool {
    &&& after.state == before.state
    &&& after.route.actor == before.route.actor
    &&& after.route.activities@.len() == before.route.activities@.len()
    &&& forall|i: int|
        1 <= i < before.route.activities@.len() ==> #[trigger] after.route.activities@[i]
            == before.route.activities@[i]
    &&& before.route.activities@.len() > 0 ==> {
        let a = before.route.activities@[0];
        let b = after.route.activities@[0];
        &&& b.location == a.location && b.time_start == a.time_start && b.duration == a.duration
        &&& b.job == a.job && b.resource == a.resource
        &&& b.schedule.arrival == a.schedule.arrival && b.schedule.departure == d
    }
}

fn job_count_of(acts: &Vec<Activity>) -> (r: usize)
    ensures
        r == job_activity_count(acts@),
{
    let mut count: usize = 0;
    let mut j: usize = 0;
    while j < acts.len()
        invariant
            0 <= j <= acts.len(),
            count == job_activity_count(acts@.subrange(0, j as int)),
            count <= j,
        decreases acts.len() - j,
    {
        assert(acts@.subrange(0, j as int + 1).drop_last() =~= acts@.subrange(0, j as int));
        if acts[j].job.is_some() {
            count = count + 1;
        }
        j = j + 1;
    }
    assert(acts@.subrange(0, j as int) =~= acts@);
    count
}

impl TravelLimitFeature {
    fn can_open(&self, rc: &RouteContext) -> (r: bool)
        ensures
            r == openable(self.limits@, *rc),
    {
        let capped = match find_travel_limits(&self.limits, rc.route.actor.vehicle.id) {
            Some(l) => l.duration.is_some() || l.activity_duration.is_some(),
            None => false,
        };
        capped && rc.route.actor.detail.start.is_some()
    }

    /// After jobs failed to be placed, opens a free route whose vehicle has
    /// a time cap, leaving its depot at a time from which one of the jobs'
    /// windows can be reached; not when a failed route is already an empty
    /// route with a duration cap. `available` holds the routes not yet in
    /// the solution; the opened one moves into the solution. Returns whether
    /// a route was opened.
    pub fn notify_failure(
        &self,
        solution_ctx: &mut SolutionContext,
        route_indices: &Vec<usize>,
        jobs: &Vec<Job>,
        available: &mut Vec<RouteContext>,
    ) -> (r: bool)
        requires
            forall|k: int|
                0 <= k < route_indices@.len() ==> #[trigger] route_indices@[k]
                    < old(solution_ctx).routes@.len(),
        ensures
            ({
                let k = first_openable(self.limits@, old(available)@);
                r == (!empty_capped_route(self.limits@, old(solution_ctx).routes@, route_indices@)
                    && k >= 0 && first_departure(
                    old(available)@[k].route.actor,
                    self.transport,
                    job_windows(jobs@),
                ) is Some)
            }),
            final(solution_ctx).state == old(solution_ctx).state,
            final(solution_ctx).required == old(solution_ctx).required,
            final(solution_ctx).ignored == old(solution_ctx).ignored,
            !r ==> final(solution_ctx).routes == old(solution_ctx).routes && *final(available)
                == *old(available),
            r ==> ({
                let k = first_openable(self.limits@, old(available)@);
                let d = first_departure(
                    old(available)@[k].route.actor,
                    self.transport,
                    job_windows(jobs@),
                ).unwrap();
                &&& final(available)@ == old(available)@.remove(k)
                &&& final(solution_ctx).routes@.len() == old(solution_ctx).routes@.len() + 1
                &&& forall|i: int|
                    0 <= i < old(solution_ctx).routes@.len()
                        ==> #[trigger] final(solution_ctx).routes@[i]
                        == old(solution_ctx).routes@[i]
                &&& departs_at(
                    old(available)@[k],
                    final(solution_ctx).routes@[old(solution_ctx).routes@.len() as int],
                    d,
                )
            }),
    {
        let mut q: usize = 0;
        while q < route_indices.len()
            invariant
                0 <= q <= route_indices.len(),
                forall|k: int|
                    0 <= k < route_indices@.len() ==> #[trigger] route_indices@[k]
                        < solution_ctx.routes@.len(),
                forall|k: int|
                    0 <= k < q ==> !(duration_capped(
                        self.limits@,
                        #[trigger] solution_ctx.routes@[route_indices@[k] as int],
                    ) && job_activity_count(
                        solution_ctx.routes@[route_indices@[k] as int].route.activities@,
                    ) == 0),
            decreases route_indices.len() - q,
        {
            let idx = route_indices[q];
            assert(route_indices@[q as int] == idx);
            let rc = &solution_ctx.routes[idx];
            let capped = match find_travel_limits(&self.limits, rc.route.actor.vehicle.id) {
                Some(l) => l.duration.is_some(),
                None => false,
            };
            if capped && job_count_of(&rc.route.activities) == 0 {
                return false;
            }
            q = q + 1;
        }
        let mut k: usize = 0;
        while k < available.len() && !self.can_open(&available[k])
            invariant
                0 <= k <= available.len(),
                forall|j: int| 0 <= j < k ==> !openable(self.limits@, #[trigger] available@[j]),
            decreases available.len() - k,
        {
            k = k + 1;
        }
        if k == available.len() {
            return false;
        }
        proof {
            assert(openable(self.limits@, available@[k as int]));
            let c = first_openable(self.limits@, available@);
            if c < k {
            } else if c > k {
                assert(!openable(self.limits@, available@[k as int]));
            }
        }
        let d = match find_departure_time(&available[k].route.actor, &self.transport, jobs) {
            Some(d) => d,
            None => return false,
        };
        let ghost before_available = available@;
        let mut rc = available.remove(k);
        let ghost rc0 = rc;
        if rc.route.activities.len() > 0 {
            let mut first = rc.route.activities.remove(0);
            first.schedule.departure = d;
            rc.route.activities.insert(0, first);
            assert forall|i: int| 1 <= i < rc0.route.activities@.len() implies #[trigger] rc.route.activities@[i]
                == rc0.route.activities@[i] by {}
        }
        solution_ctx.routes.push(rc);
        true
    }
}

} // verus!
