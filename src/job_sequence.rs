//! Jobs that share a sequence key run in strict order (0, 1, 2, ...) with a
//! gap between neighbours: counted in shifts when both are on one vehicle, in
//! calendar days (with a tolerance) otherwise. A sequence is assigned whole or
//! not at all: the objective penalises every missing member of a started one.
use vstd::prelude::*;
use vstd::set_lib::{lemma_int_range, lemma_len_subset, lemma_subset_equality, set_int_range};
use crate::group_table::{
    find_key, keys_unique, lemma_key_index_bounds, lemma_upsert_unique_all, lookup, table_view, upsert,
};
use crate::model::{
    extract_job_start_time, extract_scheduled_departure, get_shift_index, job_start_time,
    route_departure_of, shift_index, Job, Route, RouteContext, Timestamp,
    SECONDS_PER_DAY,
};
use crate::solution::{
    activity_jobs, all_jobs, paired_with, route_job_list, routed_jobs, ConstraintViolation, SolutionContext,
    ViolationCode,
};

verus! {

/// Settings of the sequence feature.
#[derive(Clone, Copy, Debug, PartialEq, Eq, Structural)]
pub struct JobSequenceConfig {
    /// Slack allowed on calendar gaps between different vehicles, in seconds.
    pub calendar_tolerance: i64,
    /// Penalty for each missing member of a started sequence.
    pub penalty_per_missing_job: u32,
    /// Largest gap bound a job may ask for.
    pub max_reasonable_gap: u32,
}

/// Six hours: the default slack on calendar gaps.
pub const DEFAULT_CALENDAR_TOLERANCE: i64 = 21600;

/// The default penalty for a missing member of a started sequence.
pub const DEFAULT_PENALTY_PER_MISSING_JOB: u32 = 100000;

/// The default largest gap bound, in days.
pub const DEFAULT_MAX_REASONABLE_GAP: u32 = 365;

impl Default for JobSequenceConfig {
    fn default() -> (r: Self)
        ensures
            r == (JobSequenceConfig {
                calendar_tolerance: DEFAULT_CALENDAR_TOLERANCE,
                penalty_per_missing_job: DEFAULT_PENALTY_PER_MISSING_JOB,
                max_reasonable_gap: DEFAULT_MAX_REASONABLE_GAP,
            }),
    {
        JobSequenceConfig {
            calendar_tolerance: DEFAULT_CALENDAR_TOLERANCE,
            penalty_per_missing_job: DEFAULT_PENALTY_PER_MISSING_JOB,
            max_reasonable_gap: DEFAULT_MAX_REASONABLE_GAP,
        }
    }
}

/// A member of a sequence placed in a route.
#[derive(Clone, Copy, Debug, PartialEq, Eq, Structural)]
pub struct SequenceJobAssignment {
    pub scheduled_time: Option<Timestamp>,
    pub order: u32,
    /// Identity of the vehicle that serves it.
    pub vehicle: usize,
    /// Which shift of that vehicle.
    pub shift_index: usize,
    /// Start of that shift, used when no scheduled time is known.
    pub shift_start: Timestamp,
}

/// The members of one sequence placed so far.
#[derive(Clone, Debug)]
pub struct SequenceGroupState {
    /// Number of members: orders `0..expected_size` are expected.
    pub expected_size: u32,
    /// At most one assignment per order.
    pub assignments: Vec<SequenceJobAssignment>,
}

/// What a sequence group holds.
pub struct SequenceGroupView {
    pub expected_size: u32,
    pub assignments: Seq<SequenceJobAssignment>,
}

impl View for SequenceGroupState {
    type V = SequenceGroupView;

    open spec fn view(&self) -> SequenceGroupView {
        SequenceGroupView { expected_size: self.expected_size, assignments: self.assignments@ }
    }
}

/// Index of the first assignment of `order`, or -1.
pub open spec fn order_index(s: Seq<SequenceJobAssignment>, order: u32) -> int
    decreases s.len(),
{
    if s.len() == 0 {
        -1
    } else {
        let i = order_index(s.drop_last(), order);
        if i >= 0 {
            i
        } else if s.last().order == order {
            s.len() - 1
        } else {
            -1
        }
    }
}

pub open spec fn has_order(s: Seq<SequenceJobAssignment>, order: u32) -> bool {
    order_index(s, order) >= 0
}

/// `s` with the assignment of `a.order` replaced by `a`, or `a` appended.
pub open spec fn insert_assignment(s: Seq<SequenceJobAssignment>, a: SequenceJobAssignment) -> Seq<
    SequenceJobAssignment,
> {
    let i = order_index(s, a.order);
    if i >= 0 {
        s.update(i, a)
    } else {
        s.push(a)
    }
}

/// Every expected order is assigned and nothing else is.
pub open spec fn group_complete(g: SequenceGroupView) -> bool {
    g.assignments.len() == g.expected_size && forall|o: u32|
        o < g.expected_size ==> has_order(g.assignments, o)
}

/// Started but not complete.
pub open spec fn group_partial(g: SequenceGroupView) -> bool {
    g.assignments.len() > 0 && !group_complete(g)
}

proof fn lemma_order_index_bounds(s: Seq<SequenceJobAssignment>, order: u32)
    ensures
        -1 <= order_index(s, order) < s.len(),
        order_index(s, order) >= 0 ==> s[order_index(s, order)].order == order,
        order_index(s, order) == -1 ==> forall|j: int| 0 <= j < s.len() ==> s[j].order != order,
    decreases s.len(),
{
    if s.len() > 0 {
        lemma_order_index_bounds(s.drop_last(), order);
        let d = s.drop_last();
        assert(forall|j: int| 0 <= j < d.len() ==> #[trigger] d[j] == s[j]);
        assert(s.last() == s[s.len() - 1]);
        if order_index(s, order) == -1 {
            assert forall|j: int| 0 <= j < s.len() implies s[j].order != order by {
                if j < d.len() {
                    assert(d[j] == s[j]);
                }
            }
        }
    }
}

proof fn lemma_order_index_first(s: Seq<SequenceJobAssignment>, order: u32, i: int)
    requires
        0 <= i < s.len(),
        s[i].order == order,
        forall|j: int| 0 <= j < i ==> s[j].order != order,
    ensures
        order_index(s, order) == i,
    decreases s.len(),
{
    lemma_order_index_bounds(s, order);
    if i < s.len() - 1 {
        lemma_order_index_first(s.drop_last(), order, i);
    } else {
        lemma_order_index_bounds(s.drop_last(), order);
    }
}

/// Finds the first assignment of `order`.
fn find_order(s: &Vec<SequenceJobAssignment>, order: u32) -> (r: Option<usize>)
    ensures
        r matches Some(i) ==> i < s@.len() && i as int == order_index(s@, order),
        r is None ==> order_index(s@, order) == -1,
{
    let mut i: usize = 0;
    while i < s.len()
        invariant
            0 <= i <= s.len(),
            forall|j: int| 0 <= j < i ==> s@[j].order != order,
        decreases s.len() - i,
    {
        if s[i].order == order {
            proof {
                lemma_order_index_first(s@, order, i as int);
            }
            return Some(i);
        }
        i = i + 1;
    }
    proof {
        lemma_order_index_bounds(s@, order);
    }
    None
}

impl SequenceGroupState {
    /// A group of `expected_size` members with none placed.
    pub fn new(expected_size: u32) -> (r: Self)
        ensures
            r@.expected_size == expected_size,
            r@.assignments.len() == 0,
    {
        SequenceGroupState { expected_size, assignments: Vec::new() }
    }

    /// Whether `order` is assigned.
    pub fn contains_order(&self, order: u32) -> (r: bool)
        ensures
            r == has_order(self@.assignments, order),
    {
        find_order(&self.assignments, order).is_some()
    }

    /// Whether every expected order is assigned and nothing else is.
    pub fn is_complete(&self) -> (r: bool)
        ensures
            r == group_complete(self@),
    {
        if self.assignments.len() != self.expected_size as usize {
            return false;
        }
        let mut o: u32 = 0;
        while o < self.expected_size
            invariant
                0 <= o <= self.expected_size,
                forall|p: u32| p < o ==> has_order(self@.assignments, p),
            decreases self.expected_size - o,
        {
            if !self.contains_order(o) {
                return false;
            }
            o = o + 1;
        }
        true
    }

    /// Whether the group is started but not complete.
    pub fn is_partial(&self) -> (r: bool)
        ensures
            r == group_partial(self@),
    {
        self.assignments.len() > 0 && !self.is_complete()
    }

    /// Records `a`, replacing an earlier assignment of the same order.
    pub fn assign(&mut self, a: SequenceJobAssignment)
        ensures
            final(self)@.expected_size == old(self)@.expected_size,
            final(self)@.assignments == insert_assignment(old(self)@.assignments, a),
    {
        match find_order(&self.assignments, a.order) {
            Some(i) => {
                self.assignments.set(i, a);
            },
            None => {
                self.assignments.push(a);
            },
        }
    }
}

/// Shifts from `from` to `to`, zero when `to` comes first.
pub open spec fn shift_gap(from: int, to: int) -> int {
    if to >= from {
        to - from
    } else {
        0
    }
}

/// Whether `earlier` and `later`, placed as neighbours of a sequence, are as
/// far apart as `[min_gap, max_gap]` asks: in shifts on one vehicle; across
/// vehicles, the absolute time between them in days, give or take
/// `tolerance` seconds.
pub open spec fn gap_ok(
    earlier_vehicle: usize,
    earlier_shift: int,
    earlier_time: int,
    later_vehicle: usize,
    later_shift: int,
    later_time: int,
    min_gap: u32,
    max_gap: u32,
    tolerance: i64,
) -> bool {
    if earlier_vehicle == later_vehicle {
        min_gap <= shift_gap(earlier_shift, later_shift) <= max_gap
    } else {
        let d = if later_time >= earlier_time {
            later_time - earlier_time
        } else {
            earlier_time - later_time
        };
        min_gap * SECONDS_PER_DAY - tolerance <= d <= max_gap * SECONDS_PER_DAY + tolerance
    }
}

/// The time of an assignment, or the start of its shift when unknown.
pub open spec fn assignment_time(a: SequenceJobAssignment) -> int {
    match a.scheduled_time {
        Some(t) => t as int,
        None => a.shift_start as int,
    }
}

fn check_gap(
    earlier_vehicle: usize,
    earlier_shift: usize,
    earlier_time: Timestamp,
    later_vehicle: usize,
    later_shift: usize,
    later_time: Timestamp,
    min_gap: u32,
    max_gap: u32,
    tolerance: i64,
) -> (r: bool)
    ensures
        r == gap_ok(
            earlier_vehicle,
            earlier_shift as int,
            earlier_time as int,
            later_vehicle,
            later_shift as int,
            later_time as int,
            min_gap,
            max_gap,
            tolerance,
        ),
{
    if earlier_vehicle == later_vehicle {
        let gap: usize = if later_shift >= earlier_shift {
            later_shift - earlier_shift
        } else {
            0
        };
        return min_gap as usize <= gap && gap <= max_gap as usize;
    }
    let d = if later_time >= earlier_time {
        later_time as i128 - earlier_time as i128
    } else {
        earlier_time as i128 - later_time as i128
    };
    let day = SECONDS_PER_DAY as i128;
    let low = min_gap as i128 * day - tolerance as i128;
    let high = max_gap as i128 * day + tolerance as i128;
    low <= d && d <= high
}

impl SequenceJobAssignment {
    /// Whether a job placed after this one, on the given vehicle and shift at
    /// the given time, keeps the gap.
    pub fn validate_gap_to(
        &self,
        next_vehicle: usize,
        next_shift_index: usize,
        next_time: Timestamp,
        min_gap: u32,
        max_gap: u32,
        tolerance: i64,
    ) -> (r: bool)
        ensures
            r == gap_ok(
                self.vehicle,
                self.shift_index as int,
                assignment_time(*self),
                next_vehicle,
                next_shift_index as int,
                next_time as int,
                min_gap,
                max_gap,
                tolerance,
            ),
    {
        let t = match self.scheduled_time {
            Some(t) => t,
            None => self.shift_start,
        };
        check_gap(
            self.vehicle,
            self.shift_index,
            t,
            next_vehicle,
            next_shift_index,
            next_time,
            min_gap,
            max_gap,
            tolerance,
        )
    }

    /// Whether a job placed before this one, on the given vehicle and shift at
    /// the given time, keeps the gap.
    pub fn validate_gap_from(
        &self,
        prev_vehicle: usize,
        prev_shift_index: usize,
        prev_time: Timestamp,
        min_gap: u32,
        max_gap: u32,
        tolerance: i64,
    ) -> (r: bool)
        ensures
            r == gap_ok(
                prev_vehicle,
                prev_shift_index as int,
                prev_time as int,
                self.vehicle,
                self.shift_index as int,
                assignment_time(*self),
                min_gap,
                max_gap,
                tolerance,
            ),
    {
        let t = match self.scheduled_time {
            Some(t) => t,
            None => self.shift_start,
        };
        check_gap(
            prev_vehicle,
            prev_shift_index,
            prev_time,
            self.vehicle,
            self.shift_index,
            t,
            min_gap,
            max_gap,
            tolerance,
        )
    }
}


/// Smallest gap in the job's dimensions (one by default).
pub open spec fn gap_min(job: Job) -> u32 {
    match job.dimens.sequence_days_between_min {
        Some(m) => m,
        None => 1,
    }
}

/// Largest gap in the job's dimensions (one by default).
pub open spec fn gap_max(job: Job) -> u32 {
    match job.dimens.sequence_days_between_max {
        Some(m) => m,
        None => 1,
    }
}

/// A sequence job without an order, with `min > max`, or with a gap beyond
/// the configured bound.
pub open spec fn input_invalid(cfg: JobSequenceConfig, job: Job) -> bool {
    job.dimens.sequence_order is None || gap_min(job) > gap_max(job) || gap_max(job)
        > cfg.max_reasonable_gap
}

/// When the job would be served in the route: its own time window start,
/// else its departure if already in the route, else the shift start.
pub open spec fn evaluation_time(route: Route, job: Job) -> Timestamp {
    match job_start_time(job) {
        Some(t) => t,
        None => match route_departure_of(route.activities@, job) {
            Some(t) => t,
            None => route.actor.detail.time.start,
        },
    }
}

/// The sequence groups of a solution (empty before the first build).
pub open spec fn groups_of(s: SolutionContext) -> Seq<(Seq<char>, SequenceGroupView)> {
    match s.state.sequence_groups {
        Some(t) => table_view(t@),
        None => Seq::empty(),
    }
}

/// Whether placing order `order` of group `g` in `route` breaks a rule:
/// taken, unexpected, predecessor missing, or a gap to the placed
/// predecessor or successor out of bounds.
pub open spec fn order_refused(
    cfg: JobSequenceConfig,
    g: SequenceGroupView,
    route: Route,
    job: Job,
    order: u32,
) -> bool {
    let a = g.assignments;
    let veh = route.actor.vehicle.id;
    let sh = shift_index(route.actor);
    let t = evaluation_time(route, job) as int;
    let prev = a[order_index(a, (order - 1) as u32)];
    let next = a[order_index(a, (order + 1) as u32)];
    has_order(a, order) || order >= g.expected_size || (order > 0 && !has_order(
        a,
        (order - 1) as u32,
    )) || (order > 0 && !gap_ok(
        prev.vehicle,
        prev.shift_index as int,
        assignment_time(prev),
        veh,
        sh,
        t,
        gap_min(job),
        gap_max(job),
        cfg.calendar_tolerance,
    )) || (has_order(a, (order + 1) as u32) && !gap_ok(
        veh,
        sh,
        t,
        next.vehicle,
        next.shift_index as int,
        assignment_time(next),
        gap_min(job),
        gap_max(job),
        cfg.calendar_tolerance,
    ))
}

/// Whether inserting `job` into `route` breaks a sequence rule. A group
/// with no state yet can only be started by order 0.
pub open spec fn sequence_refused(
    cfg: JobSequenceConfig,
    s: SolutionContext,
    route: Route,
    job: Job,
) -> bool {
    match job.dimens.sequence_key {
        None => false,
        Some(k) => input_invalid(cfg, job) || {
            let order = job.dimens.sequence_order.unwrap();
            match lookup(groups_of(s), k@) {
                None => order != 0,
                Some(g) => order_refused(cfg, g, route, job, order),
            }
        },
    }
}

/// Whether two jobs may be merged: neither in a sequence, or both in the
/// same one with different orders and equal gap bounds.
pub open spec fn merge_allowed(source: Job, candidate: Job) -> bool {
    match (source.dimens.sequence_key, candidate.dimens.sequence_key) {
        (None, None) => true,
        (Some(a), Some(b)) => a@ == b@ && source.dimens.sequence_order
            != candidate.dimens.sequence_order && source.dimens.sequence_days_between_min
            == candidate.dimens.sequence_days_between_min
            && source.dimens.sequence_days_between_max
            == candidate.dimens.sequence_days_between_max,
        _ => false,
    }
}

/// Members a group still misses.
pub open spec fn missing_count(g: SequenceGroupView) -> int {
    if g.assignments.len() < g.expected_size {
        g.expected_size - g.assignments.len()
    } else {
        0
    }
}

/// Sum of `missing × penalty` over the partial groups of a table.
pub open spec fn partial_penalty(t: Seq<(Seq<char>, SequenceGroupView)>, penalty: u32) -> int
    decreases t.len(),
{
    if t.len() == 0 {
        0
    } else {
        partial_penalty(t.drop_last(), penalty) + if group_partial(t.last().1) {
            missing_count(t.last().1) * penalty
        } else {
            0
        }
    }
}

/// The reward for inserting `job`: the whole sequence's penalty when it
/// completes the group, a tenth of one penalty when it extends a started one.
pub open spec fn estimate_spec(cfg: JobSequenceConfig, s: SolutionContext, job: Job) -> int {
    match job.dimens.sequence_key {
        None => 0,
        Some(k) => match lookup(groups_of(s), k@) {
            None => 0,
            Some(g) => if g.assignments.len() + 1 == g.expected_size {
                -(g.expected_size * cfg.penalty_per_missing_job)
            } else if g.assignments.len() > 0 {
                -(cfg.penalty_per_missing_job / 10)
            } else {
                0
            },
        },
    }
}

/// The greatest order of group `key` among `jobs`.
pub open spec fn max_order(jobs: Seq<Job>, key: Seq<char>) -> Option<u32>
    decreases jobs.len(),
{
    if jobs.len() == 0 {
        None
    } else {
        let rest = max_order(jobs.drop_last(), key);
        let j = jobs.last();
        if j.dimens.sequence_key matches Some(k) && k@ == key && j.dimens.sequence_order is Some {
            let o = j.dimens.sequence_order.unwrap();
            match rest {
                Some(m) => if m >= o {
                    Some(m)
                } else {
                    Some(o)
                },
                None => Some(o),
            }
        } else {
            rest
        }
    }
}

/// Expected size of group `key`: one more than its greatest order seen
/// (saturating), one when none is seen.
pub open spec fn detected_size(jobs: Seq<Job>, key: Seq<char>) -> u32 {
    match max_order(jobs, key) {
        Some(m) => if m < u32::MAX {
            (m + 1) as u32
        } else {
            u32::MAX
        },
        None => 1,
    }
}

/// The assignment recorded for `job` placed in `route`.
pub open spec fn assignment_for(route: Route, job: Job, order: u32) -> SequenceJobAssignment {
    SequenceJobAssignment {
        scheduled_time: Some(evaluation_time(route, job)),
        order,
        vehicle: route.actor.vehicle.id,
        shift_index: shift_index(route.actor) as usize,
        shift_start: route.actor.detail.time.start,
    }
}

/// The table after recording `job` placed in `route`; a new group gets the
/// size detected among `jobs`.
pub open spec fn record_member(
    t: Seq<(Seq<char>, SequenceGroupView)>,
    route: Route,
    job: Job,
    jobs: Seq<Job>,
) -> Seq<(Seq<char>, SequenceGroupView)> {
    match (job.dimens.sequence_key, job.dimens.sequence_order) {
        (Some(k), Some(o)) => {
            let size = match lookup(t, k@) {
                Some(g) => g.expected_size,
                None => detected_size(jobs, k@),
            };
            let before = match lookup(t, k@) {
                Some(g) => g.assignments,
                None => Seq::empty(),
            };
            upsert(
                t,
                k@,
                SequenceGroupView {
                    expected_size: size,
                    assignments: insert_assignment(before, assignment_for(route, job, o)),
                },
            )
        },
        _ => t,
    }
}

/// The table built from scratch by recording each routed job in turn.
pub open spec fn rebuild(items: Seq<(Route, Job)>, jobs: Seq<Job>) -> Seq<
    (Seq<char>, SequenceGroupView),
>
    decreases items.len(),
{
    if items.len() == 0 {
        Seq::empty()
    } else {
        record_member(rebuild(items.drop_last(), jobs), items.last().0, items.last().1, jobs)
    }
}


/// When the job would be served in the route.
fn evaluation_time_of(route: &Route, job: &Job) -> (r: Timestamp)
    ensures
        r == evaluation_time(*route, *job),
{
    match extract_job_start_time(job) {
        Some(t) => t,
        None => match extract_scheduled_departure(route, job) {
            Some(t) => t,
            None => route.actor.detail.time.start,
        },
    }
}

/// Strict ordering of jobs that share a sequence key, with gap rules and an
/// all-or-nothing objective.
#[derive(Clone, Debug)]
pub struct JobSequenceFeature {
    pub name: String,
    pub code: ViolationCode,
    pub config: JobSequenceConfig,
}

/// Creates the sequence feature with the default settings.
pub fn create_job_sequence_feature(name: &str, code: ViolationCode) -> (r: Result<
    JobSequenceFeature,
    String,
>)
    ensures
        r matches Ok(f) && f.name@ == name@ && f.code == code && f.config == (JobSequenceConfig {
            calendar_tolerance: DEFAULT_CALENDAR_TOLERANCE,
            penalty_per_missing_job: DEFAULT_PENALTY_PER_MISSING_JOB,
            max_reasonable_gap: DEFAULT_MAX_REASONABLE_GAP,
        }),
{
    create_job_sequence_feature_with_config(name, code, JobSequenceConfig::default())
}

/// Creates the sequence feature with the given settings.
pub fn create_job_sequence_feature_with_config(
    name: &str,
    code: ViolationCode,
    config: JobSequenceConfig,
) -> (r: Result<JobSequenceFeature, String>)
    ensures
        r matches Ok(f) && f.name@ == name@ && f.code == code && f.config == config,
{
    Ok(JobSequenceFeature { name: name.to_owned(), code, config })
}

impl JobSequenceFeature {
    /// Refuses `job` in `route` when a sequence rule forbids it.
    pub fn evaluate(&self, solution_ctx: &SolutionContext, route_ctx: &RouteContext, job: &Job) -> (r:
        Option<ConstraintViolation>)
        ensures
            r == if sequence_refused(self.config, *solution_ctx, route_ctx.route, *job) {
                Some(ConstraintViolation { code: self.code, stopped: true })
            } else {
                None::<ConstraintViolation>
            },
    {
        let key = match &job.dimens.sequence_key {
            Some(k) => k,
            None => return None,
        };
        let min_gap = match job.dimens.sequence_days_between_min {
            Some(m) => m,
            None => 1,
        };
        let max_gap = match job.dimens.sequence_days_between_max {
            Some(m) => m,
            None => 1,
        };
        let order = match job.dimens.sequence_order {
            Some(o) => o,
            None => return ConstraintViolation::fail(self.code),
        };
        if min_gap > max_gap || max_gap > self.config.max_reasonable_gap {
            return ConstraintViolation::fail(self.code);
        }
        let table = match &solution_ctx.state.sequence_groups {
            Some(t) => t,
            None => {
                return if order != 0 {
                    ConstraintViolation::fail(self.code)
                } else {
                    None
                };
            },
        };
        let gi = match find_key(table, key) {
            Some(i) => i,
            None => {
                return if order != 0 {
                    ConstraintViolation::fail(self.code)
                } else {
                    None
                };
            },
        };
        let g = &table[gi].1;
        assert(lookup(groups_of(*solution_ctx), key@) == Some(g@));
        if g.contains_order(order) || order >= g.expected_size {
            return ConstraintViolation::fail(self.code);
        }
        if order > 0 && !g.contains_order(order - 1) {
            return ConstraintViolation::fail(self.code);
        }
        let vehicle = route_ctx.route.actor.vehicle.id;
        let shift = get_shift_index(&route_ctx.route.actor);
        let t = evaluation_time_of(&route_ctx.route, job);
        let tolerance = self.config.calendar_tolerance;
        if order > 0 {
            if let Some(pi) = find_order(&g.assignments, order - 1) {
                if !g.assignments[pi].validate_gap_to(
                    vehicle,
                    shift,
                    t,
                    min_gap,
                    max_gap,
                    tolerance,
                ) {
                    return ConstraintViolation::fail(self.code);
                }
            }
        }
        if let Some(ni) = find_order(&g.assignments, order + 1) {
            if !g.assignments[ni].validate_gap_from(
                vehicle,
                shift,
                t,
                min_gap,
                max_gap,
                tolerance,
            ) {
                return ConstraintViolation::fail(self.code);
            }
        }
        None
    }

    /// Merges two clustered jobs: keeps `source` when both are outside any
    /// sequence, or in the same one with different orders and equal gaps.
    pub fn merge(&self, source: Job, candidate: &Job) -> (r: Result<Job, ViolationCode>)
        ensures
            merge_allowed(source, *candidate) ==> r == Ok::<Job, ViolationCode>(source),
            !merge_allowed(source, *candidate) ==> r == Err::<Job, ViolationCode>(self.code),
    {
        let allowed = match (&source.dimens.sequence_key, &candidate.dimens.sequence_key) {
            (None, None) => true,
            (Some(a), Some(b)) => {
                a.eq(b) && source.dimens.sequence_order != candidate.dimens.sequence_order
                    && source.dimens.sequence_days_between_min
                    == candidate.dimens.sequence_days_between_min
                    && source.dimens.sequence_days_between_max
                    == candidate.dimens.sequence_days_between_max
            },
            _ => false,
        };
        if allowed {
            Ok(source)
        } else {
            Err(self.code)
        }
    }

    /// Penalty of the solution: `missing × penalty` for every started but
    /// incomplete sequence.
    pub fn fitness(&self, solution_ctx: &SolutionContext) -> (r: u128)
        ensures
            r == partial_penalty(groups_of(*solution_ctx), self.config.penalty_per_missing_job),
    {
        let table = match &solution_ctx.state.sequence_groups {
            Some(t) => t,
            None => return 0,
        };
        let ghost tv = table_view(table@);
        let penalty = self.config.penalty_per_missing_job;
        let mut total: u128 = 0;
        let mut i: usize = 0;
        while i < table.len()
            invariant
                0 <= i <= table.len(),
                tv == table_view(table@),
                total == partial_penalty(tv.subrange(0, i as int), penalty),
                total <= i * 0x1_0000_0000_0000_0000,
            decreases table.len() - i,
        {
            let g = &table[i].1;
            assert(tv.subrange(0, i as int + 1).drop_last() =~= tv.subrange(0, i as int));
            assert(tv.subrange(0, i as int + 1).last() == tv[i as int]);
            if g.is_partial() {
                let len = g.assignments.len();
                let missing: u64 = if len < g.expected_size as usize {
                    (g.expected_size as usize - len) as u64
                } else {
                    0
                };
                assert(missing <= u32::MAX);
                assert(missing * penalty < 0x1_0000_0000_0000_0000) by (nonlinear_arith)
                    requires
                        missing <= u32::MAX,
                        penalty <= u32::MAX,
                ;
                let term = missing as u128 * penalty as u128;
                assert(total + term <= (i + 1) * 0x1_0000_0000_0000_0000) by (nonlinear_arith)
                    requires
                        total <= i * 0x1_0000_0000_0000_0000,
                        term < 0x1_0000_0000_0000_0000,
                ;
                assert((i + 1) * 0x1_0000_0000_0000_0000 <= u128::MAX) by (nonlinear_arith)
                    requires
                        i < usize::MAX,
                ;
                total = total + term;
            } else {
                assert(total <= (i + 1) * 0x1_0000_0000_0000_0000) by (nonlinear_arith)
                    requires
                        total <= i * 0x1_0000_0000_0000_0000,
                ;
            }
            i = i + 1;
        }
        assert(tv.subrange(0, table.len() as int) =~= tv);
        total
    }

    /// Marginal reward for inserting `job`: negative when it completes or
    /// extends a started sequence.
    pub fn estimate(&self, solution_ctx: &SolutionContext, job: &Job) -> (r: i128)
        ensures
            r == estimate_spec(self.config, *solution_ctx, *job),
    {
        let key = match &job.dimens.sequence_key {
            Some(k) => k,
            None => return 0,
        };
        let table = match &solution_ctx.state.sequence_groups {
            Some(t) => t,
            None => return 0,
        };
        let gi = match find_key(table, key) {
            Some(i) => i,
            None => return 0,
        };
        let g = &table[gi].1;
        assert(lookup(groups_of(*solution_ctx), key@) == Some(g@));
        let penalty = self.config.penalty_per_missing_job as i128;
        let current = g.assignments.len();
        assert(g.expected_size * penalty <= 0xffff_ffff * 0xffff_ffff) by (nonlinear_arith)
            requires
                0 <= g.expected_size <= 0xffff_ffff,
                0 <= penalty <= 0xffff_ffff,
        ;
        if current as u128 + 1 == g.expected_size as u128 {
            -(g.expected_size as i128 * penalty)
        } else if current > 0 {
            -(penalty / 10)
        } else {
            0
        }
    }
}


/// The greatest order after looking at one more job.
fn max_order_step(m: Option<u32>, job: &Job, key: &String) -> (r: Option<u32>)
    ensures
        forall|prefix: Seq<Job>|
            max_order(prefix, key@) == m ==> #[trigger] max_order(prefix.push(*job), key@) == r,
{
    let r = match (&job.dimens.sequence_key, job.dimens.sequence_order) {
        (Some(k), Some(o)) => {
            if k.eq(key) {
                match m {
                    Some(x) => if x >= o {
                        Some(x)
                    } else {
                        Some(o)
                    },
                    None => Some(o),
                }
            } else {
                m
            }
        },
        _ => m,
    };
    proof {
        assert forall|prefix: Seq<Job>| max_order(prefix, key@) == m implies #[trigger] max_order(
            prefix.push(*job),
            key@,
        ) == r by {
            assert(prefix.push(*job).drop_last() =~= prefix);
        }
    }
    r
}

/// Expected size of sequence `key`: one more than the greatest order among
/// the required, ignored and routed jobs.
pub fn detect_sequence_size(solution_ctx: &SolutionContext, key: &String) -> (r: u32)
    ensures
        r == detected_size(all_jobs(*solution_ctx), key@),
{
    let mut m: Option<u32> = None;
    let mut i: usize = 0;
    while i < solution_ctx.required.len()
        invariant
            0 <= i <= solution_ctx.required.len(),
            m == max_order(solution_ctx.required@.subrange(0, i as int), key@),
        decreases solution_ctx.required.len() - i,
    {
        assert(solution_ctx.required@.subrange(0, i as int + 1) =~= solution_ctx.required@.subrange(
            0,
            i as int,
        ).push(solution_ctx.required@[i as int]));
        m = max_order_step(m, &solution_ctx.required[i], key);
        i = i + 1;
    }
    assert(solution_ctx.required@.subrange(0, i as int) =~= solution_ctx.required@);
    let ghost base = solution_ctx.required@;
    let mut i: usize = 0;
    while i < solution_ctx.ignored.len()
        invariant
            0 <= i <= solution_ctx.ignored.len(),
            base == solution_ctx.required@,
            m == max_order(base + solution_ctx.ignored@.subrange(0, i as int), key@),
        decreases solution_ctx.ignored.len() - i,
    {
        assert(base + solution_ctx.ignored@.subrange(0, i as int + 1) =~= (base
            + solution_ctx.ignored@.subrange(0, i as int)).push(solution_ctx.ignored@[i as int]));
        m = max_order_step(m, &solution_ctx.ignored[i], key);
        i = i + 1;
    }
    assert(solution_ctx.ignored@.subrange(0, i as int) =~= solution_ctx.ignored@);
    let ghost base = solution_ctx.required@ + solution_ctx.ignored@;
    let routes = &solution_ctx.routes;
    let mut i: usize = 0;
    assert(route_job_list(routes@.subrange(0, 0)) =~= Seq::<Job>::empty());
    assert(base + route_job_list(routes@.subrange(0, 0)) =~= base);
    while i < routes.len()
        invariant
            0 <= i <= routes.len(),
            routes == &solution_ctx.routes,
            base == solution_ctx.required@ + solution_ctx.ignored@,
            m == max_order(base + route_job_list(routes@.subrange(0, i as int)), key@),
        decreases routes.len() - i,
    {
        let acts = &routes[i].route.activities;
        let ghost done = base + route_job_list(routes@.subrange(0, i as int));
        let mut j: usize = 0;
        assert(activity_jobs(acts@.subrange(0, 0)) =~= Seq::<Job>::empty());
        assert(done + activity_jobs(acts@.subrange(0, 0)) =~= done);
        while j < acts.len()
            invariant
                0 <= j <= acts.len(),
                m == max_order(done + activity_jobs(acts@.subrange(0, j as int)), key@),
            decreases acts.len() - j,
        {
            assert(acts@.subrange(0, j as int + 1).drop_last() =~= acts@.subrange(0, j as int));
            if let Some(job) = &acts[j].job {
                assert(done + activity_jobs(acts@.subrange(0, j as int + 1)) =~= (done
                    + activity_jobs(acts@.subrange(0, j as int))).push(*job));
                m = max_order_step(m, job, key);
            } else {
                assert(done + activity_jobs(acts@.subrange(0, j as int + 1)) =~= done
                    + activity_jobs(acts@.subrange(0, j as int)));
            }
            j = j + 1;
        }
        assert(acts@.subrange(0, j as int) =~= acts@);
        assert(routes@.subrange(0, i as int + 1).drop_last() =~= routes@.subrange(0, i as int));
        assert(base + route_job_list(routes@.subrange(0, i as int + 1)) =~= done + activity_jobs(
            acts@,
        ));
        i = i + 1;
    }
    assert(routes@.subrange(0, i as int) =~= routes@);
    assert(base + route_job_list(routes@) =~= all_jobs(*solution_ctx));
    match m {
        Some(x) => if x < u32::MAX {
            x + 1
        } else {
            u32::MAX
        },
        None => 1,
    }
}


/// Records `job`, placed in `route`, in the table; a new group gets the size
/// detected in the solution.
fn record(
    table: &mut Vec<(String, SequenceGroupState)>,
    route: &Route,
    job: &Job,
    solution_ctx: &SolutionContext,
)
    ensures
        table_view(final(table)@) == record_member(
            table_view(old(table)@),
            *route,
            *job,
            all_jobs(*solution_ctx),
        ),
{
    let key = match &job.dimens.sequence_key {
        Some(k) => k,
        None => return ,
    };
    let order = match job.dimens.sequence_order {
        Some(o) => o,
        None => return ,
    };
    let a = SequenceJobAssignment {
        scheduled_time: Some(evaluation_time_of(route, job)),
        order,
        vehicle: route.actor.vehicle.id,
        shift_index: get_shift_index(&route.actor),
        shift_start: route.actor.detail.time.start,
    };
    assert(a == assignment_for(*route, *job, order));
    let ghost tv = table_view(table@);
    match find_key(table, key) {
        Some(gi) => {
            proof {
                lemma_key_index_bounds(tv, key@);
            }
            let ghost old_t = table@;
            let (k, mut g) = table.remove(gi);
            g.assign(a);
            table.insert(gi, (k, g));
            assert(table@ =~= old_t.update(gi as int, (k, g)));
            assert(table_view(table@) =~= tv.update(gi as int, (key@, g@)));
        },
        None => {
            let size = detect_sequence_size(solution_ctx, key);
            let mut g = SequenceGroupState::new(size);
            g.assign(a);
            assert(g@.assignments =~= insert_assignment(Seq::empty(), a));
            table.push((key.clone(), g));
            assert(table_view(table@) =~= tv.push((key@, g@)));
        },
    }
}

impl JobSequenceFeature {
    /// Records a job just committed to route `route_index` in its sequence
    /// group, creating the group (sized from all known jobs) if needed.
    pub fn accept_insertion(&self, solution_ctx: &mut SolutionContext, route_index: usize, job: &Job)
        requires
            route_index < old(solution_ctx).routes.len(),
        ensures
            final(solution_ctx).routes == old(solution_ctx).routes,
            final(solution_ctx).required == old(solution_ctx).required,
            final(solution_ctx).ignored == old(solution_ctx).ignored,
            final(solution_ctx).state.sync_groups == old(solution_ctx).state.sync_groups,
            final(solution_ctx).state.affinities == old(solution_ctx).state.affinities,
            final(solution_ctx).state.affinity_groups == old(solution_ctx).state.affinity_groups,
            final(solution_ctx).state.assignees == old(solution_ctx).state.assignees,
            job.dimens.sequence_key is Some && job.dimens.sequence_order is Some ==> (
            final(solution_ctx).state.sequence_groups is Some && groups_of(*final(solution_ctx))
                == record_member(
                groups_of(*old(solution_ctx)),
                old(solution_ctx).routes@[route_index as int].route,
                *job,
                all_jobs(*old(solution_ctx)),
            )),
            !(job.dimens.sequence_key is Some && job.dimens.sequence_order is Some)
                ==> final(solution_ctx).state.sequence_groups
                == old(solution_ctx).state.sequence_groups,
            keys_unique(groups_of(*old(solution_ctx))) ==> keys_unique(groups_of(*final(solution_ctx))),
    {
        proof {
            if keys_unique(groups_of(*solution_ctx)) {
                lemma_upsert_unique_all(groups_of(*solution_ctx));
            }
        }
        if job.dimens.sequence_key.is_none() || job.dimens.sequence_order.is_none() {
            return ;
        }
        let mut table = match solution_ctx.state.sequence_groups.take() {
            Some(t) => t,
            None => Vec::new(),
        };
        assert(table_view(table@) =~= groups_of(*old(solution_ctx)));
        record(&mut table, &solution_ctx.routes[route_index].route, job, solution_ctx);
        solution_ctx.state.sequence_groups = Some(table);
    }

    /// Rebuilds every sequence group from what the routes hold.
    pub fn accept_solution_state(&self, solution_ctx: &mut SolutionContext)
        ensures
            sequence_state_rebuilt(*old(solution_ctx), *final(solution_ctx)),
    {
        let mut table: Vec<(String, SequenceGroupState)> = Vec::new();
        let routes = &solution_ctx.routes;
        let ghost jobs = all_jobs(*solution_ctx);
        let mut i: usize = 0;
        assert(routed_jobs(routes@.subrange(0, 0)) =~= Seq::<(Route, Job)>::empty());
        while i < routes.len()
            invariant
                0 <= i <= routes.len(),
                routes == &solution_ctx.routes,
                jobs == all_jobs(*solution_ctx),
                table_view(table@) == rebuild(routed_jobs(routes@.subrange(0, i as int)), jobs),
            decreases routes.len() - i,
        {
            let route = &routes[i].route;
            let acts = &route.activities;
            let ghost done = routed_jobs(routes@.subrange(0, i as int));
            let ghost r = *route;
            let mut j: usize = 0;
            assert(activity_jobs(acts@.subrange(0, 0)) =~= Seq::<Job>::empty());
            assert(done + paired_with(r, activity_jobs(acts@.subrange(0, 0))) =~= done);
            while j < acts.len()
                invariant
                    0 <= j <= acts.len(),
                    acts == &route.activities,
                    r == *route,
                    jobs == all_jobs(*solution_ctx),
                    table_view(table@) == rebuild(
                        done + paired_with(r, activity_jobs(acts@.subrange(0, j as int))),
                        jobs,
                    ),
                decreases acts.len() - j,
            {
                let ghost before = done + paired_with(r, activity_jobs(acts@.subrange(0, j as int)));
                assert(acts@.subrange(0, j as int + 1).drop_last() =~= acts@.subrange(0, j as int));
                if let Some(job) = &acts[j].job {
                    let ghost after = done + paired_with(
                        r,
                        activity_jobs(acts@.subrange(0, j as int + 1)),
                    );
                    assert(after =~= before.push((r, *job)));
                    assert(after.drop_last() =~= before);
                    assert(after.last() == (r, *job));
                    record(&mut table, route, job, solution_ctx);
                } else {
                    assert(activity_jobs(acts@.subrange(0, j as int + 1)) =~= activity_jobs(
                        acts@.subrange(0, j as int),
                    ));
                    assert(done + paired_with(r, activity_jobs(acts@.subrange(0, j as int + 1)))
                        =~= before);
                }
                j = j + 1;
            }
            assert(acts@.subrange(0, j as int) =~= acts@);
            assert(routes@.subrange(0, i as int + 1).drop_last() =~= routes@.subrange(0, i as int));
            assert(routes@.subrange(0, i as int + 1).last() == routes@[i as int]);
            i = i + 1;
        }
        assert(routes@.subrange(0, i as int) =~= routes@);
        proof {
            lemma_rebuild_unique(routed_jobs(routes@), jobs);
        }
        solution_ctx.state.sequence_groups = Some(table);
    }
}

/// What `accept_solution_state` leaves: the jobs and routes untouched, the
/// other aggregates untouched, and the sequence groups rebuilt from the routes.
pub open spec fn sequence_state_rebuilt(before: SolutionContext, after: SolutionContext) -> bool {
    &&& after.routes == before.routes
    &&& after.required == before.required
    &&& after.ignored == before.ignored
    &&& after.state.sync_groups == before.state.sync_groups
    &&& after.state.assignees == before.state.assignees
    &&& after.state.affinities == before.state.affinities
    &&& after.state.affinity_groups == before.state.affinity_groups
    &&& after.state.sequence_groups is Some
    &&& groups_of(after) == rebuild(routed_jobs(before.routes@), all_jobs(before))
    &&& keys_unique(groups_of(after))
}

/// A rebuilt table has one entry per sequence key.
pub proof fn lemma_rebuild_unique(items: Seq<(Route, Job)>, jobs: Seq<Job>)
    ensures
        keys_unique(rebuild(items, jobs)),
    decreases items.len(),
{
    if items.len() > 0 {
        lemma_rebuild_unique(items.drop_last(), jobs);
        lemma_upsert_unique_all(rebuild(items.drop_last(), jobs));
    }
}

/// Rebuilding the sequence groups twice in a row gives the same groups as
/// rebuilding once.
pub proof fn lemma_sequence_rebuild_converges(
    s0: SolutionContext,
    s1: SolutionContext,
    s2: SolutionContext,
)
    requires
        sequence_state_rebuilt(s0, s1),
        sequence_state_rebuilt(s1, s2),
    ensures
        groups_of(s2) == groups_of(s1),
{
    assert(all_jobs(s1) == all_jobs(s0));
}


/// Orders of the group's assignments are distinct and all expected.
pub open spec fn orders_valid(g: SequenceGroupView) -> bool {
    &&& forall|i: int| 0 <= i < g.assignments.len() ==> g.assignments[i].order < g.expected_size
    &&& forall|i: int, j: int|
        0 <= i < j < g.assignments.len() ==> g.assignments[i].order != g.assignments[j].order
}

proof fn lemma_orders_fill(g: SequenceGroupView)
    requires
        orders_valid(g),
    ensures
        g.assignments.len() <= g.expected_size,
        g.assignments.len() == g.expected_size ==> group_complete(g),
{
    let a = g.assignments;
    let o = a.map_values(|x: SequenceJobAssignment| x.order as int);
    let range = set_int_range(0, g.expected_size as int);
    assert(o.no_duplicates()) by {
        assert forall|i: int, j: int| 0 <= i < o.len() && 0 <= j < o.len() && i != j implies o[i]
            != o[j] by {
            if i < j {
            } else {
            }
        }
    }
    o.unique_seq_to_set();
    lemma_int_range(0, g.expected_size as int);
    assert(o.to_set().subset_of(range)) by {
        assert forall|v: int| o.to_set().contains(v) implies range.contains(v) by {
            let i = choose|i: int| 0 <= i < o.len() && o[i] == v;
        }
    }
    lemma_len_subset(o.to_set(), range);
    if a.len() == g.expected_size {
        lemma_subset_equality(o.to_set(), range);
        assert forall|p: u32| p < g.expected_size implies has_order(a, p) by {
            assert(range.contains(p as int));
            assert(o.to_set().contains(p as int));
            let i = choose|i: int| 0 <= i < o.len() && o[i] == p as int;
            lemma_order_index_bounds(a, p);
            assert(a[i].order == p);
        }
    }
}

/// A started sequence group with distinct, expected orders costs nothing
/// exactly when every order is assigned; otherwise it costs
/// `(expected size − assigned) × penalty`.
pub proof fn lemma_sequence_all_or_nothing(key: Seq<char>, g: SequenceGroupView, penalty: u32)
    requires
        penalty > 0,
        g.assignments.len() > 0,
        orders_valid(g),
    ensures
        partial_penalty(seq![(key, g)], penalty) == 0 <==> group_complete(g),
        !group_complete(g) ==> partial_penalty(seq![(key, g)], penalty) == (g.expected_size
            - g.assignments.len()) * penalty,
{
    lemma_orders_fill(g);
    let t = seq![(key, g)];
    assert(t.drop_last() =~= Seq::<(Seq<char>, SequenceGroupView)>::empty());
    assert(t.last() == (key, g));
    assert(partial_penalty(Seq::<(Seq<char>, SequenceGroupView)>::empty(), penalty) == 0);
    assert(partial_penalty(t, penalty) == if group_partial(g) {
        missing_count(g) * penalty
    } else {
        0
    });
    if !group_complete(g) {
        assert(g.assignments.len() < g.expected_size);
        assert((g.expected_size - g.assignments.len()) * penalty > 0) by (nonlinear_arith)
            requires
                g.expected_size - g.assignments.len() > 0,
                penalty > 0,
        ;
    }
}


/// Inserting order `k > 0` of a sequence whose order `k − 1` is not placed
/// is always refused (and `evaluate` then reports the feature's code);
/// order 0 of a sequence with no state yet is never refused when the job's
/// own inputs are sound.
pub proof fn lemma_sequence_ordering(
    cfg: JobSequenceConfig,
    s: SolutionContext,
    route: Route,
    job: Job,
)
    requires
        job.dimens.sequence_key is Some,
        job.dimens.sequence_order is Some,
    ensures
        ({
            let k = job.dimens.sequence_key.unwrap();
            let o = job.dimens.sequence_order.unwrap();
            o > 0 && (match lookup(groups_of(s), k@) {
                None => true,
                Some(g) => !has_order(g.assignments, (o - 1) as u32),
            }) ==> sequence_refused(cfg, s, route, job)
        }),
        ({
            let k = job.dimens.sequence_key.unwrap();
            let o = job.dimens.sequence_order.unwrap();
            o == 0 && !input_invalid(cfg, job) && lookup(groups_of(s), k@) is None
                ==> !sequence_refused(cfg, s, route, job)
        }),
{
}


/// Merging two jobs of one sequence with different orders and equal gap
/// bounds succeeds; with the same order it fails; jobs of different
/// sequences never merge.
pub proof fn lemma_sequence_merge_rules(source: Job, candidate: Job)
    requires
        source.dimens.sequence_key is Some,
        candidate.dimens.sequence_key is Some,
    ensures
        ({
            let a = source.dimens.sequence_key.unwrap();
            let b = candidate.dimens.sequence_key.unwrap();
            &&& a@ == b@ && source.dimens.sequence_order != candidate.dimens.sequence_order
                && source.dimens.sequence_days_between_min
                == candidate.dimens.sequence_days_between_min
                && source.dimens.sequence_days_between_max
                == candidate.dimens.sequence_days_between_max ==> merge_allowed(source, candidate)
            &&& a@ == b@ && source.dimens.sequence_order == candidate.dimens.sequence_order
                ==> !merge_allowed(source, candidate)
            &&& a@ != b@ ==> !merge_allowed(source, candidate)
        }),
{
}


/// Over a table of started groups with distinct, expected orders, the
/// fitness is never negative, and it is zero exactly when every group has
/// all its orders assigned.
pub proof fn lemma_sequence_fitness_all_or_nothing(
    t: Seq<(Seq<char>, SequenceGroupView)>,
    penalty: u32,
)
    requires
        penalty > 0,
        forall|i: int|
            0 <= i < t.len() ==> (#[trigger] t[i]).1.assignments.len() > 0 && orders_valid(t[i].1),
    ensures
        partial_penalty(t, penalty) >= 0,
        partial_penalty(t, penalty) == 0 <==> forall|i: int|
            0 <= i < t.len() ==> group_complete(#[trigger] t[i].1),
    decreases t.len(),
{
    if t.len() > 0 {
        let d = t.drop_last();
        assert forall|i: int| 0 <= i < d.len() implies (#[trigger] d[i]).1.assignments.len() > 0
            && orders_valid(d[i].1) by {
            assert(d[i] == t[i]);
        }
        lemma_sequence_fitness_all_or_nothing(d, penalty);
        let g = t[t.len() - 1].1;
        assert(t.last().1 == g);
        lemma_orders_fill(g);
        if !group_complete(g) {
            assert((g.expected_size - g.assignments.len()) * penalty > 0) by (nonlinear_arith)
                requires
                    g.expected_size - g.assignments.len() > 0,
                    penalty > 0,
            ;
        }
        if forall|i: int| 0 <= i < t.len() ==> group_complete(#[trigger] t[i].1) {
            assert forall|i: int| 0 <= i < d.len() implies group_complete(#[trigger] d[i].1) by {
                assert(d[i] == t[i]);
                assert(group_complete(t[i].1));
            }
        }
        if partial_penalty(t, penalty) == 0 {
            assert forall|i: int| 0 <= i < t.len() implies group_complete(#[trigger] t[i].1) by {
                if i < d.len() {
                    assert(d[i] == t[i]);
                    assert(group_complete(d[i].1));
                }
            }
        }
    }
}

} // verus!
