//! Jobs that share an affinity key are bound to one vehicle; jobs of a
//! multi-day affinity group (sequence `0..duration_days`) run on consecutive
//! days, each on the group's day grid within a tolerance.
use std::collections::HashMap;
use vstd::prelude::*;
use vstd::set_lib::lemma_subset_equality;
use crate::group_table::{
    find_key, keys_unique, lemma_key_index_bounds, lemma_lookup_without, lemma_upsert_unique_all,
    lemma_without_twice, lemma_without_unique, lookup, remove_key, table_view, upsert, without_keys,
};
use crate::model::{
    extract_job_start_time, job_start_time, Job, Route, RouteContext, Timestamp, SECONDS_PER_DAY,
};
use crate::solution::{
    activity_jobs, paired_with, routed_jobs, ConstraintViolation, SolutionContext, ViolationCode,
};

verus! {

broadcast use vstd::std_specs::hash::group_hash_axioms;

/// Default slack on the day grid: four hours.
pub const DEFAULT_AFFINITY_TOLERANCE: i64 = 14400;

/// The state of one multi-day affinity group.
#[derive(Clone, Debug)]
pub struct AffinityGroupState {
    /// Id of the vehicle the group is bound to.
    pub assigned_vehicle: Option<usize>,
    /// Sequences `0..duration_days`.
    pub expected_sequences: Vec<u32>,
    /// Placed sequences with their start times.
    pub assigned_sequences: HashMap<u32, Timestamp>,
    pub duration_days: u32,
    /// Start of sequence 0, once known.
    pub base_timestamp: Option<i128>,
}

/// What an affinity group holds.
pub struct AffinityGroupView {
    pub assigned_vehicle: Option<usize>,
    pub expected_sequences: Seq<u32>,
    pub assigned_sequences: Map<u32, Timestamp>,
    pub duration_days: u32,
    pub base_timestamp: Option<i128>,
}

impl View for AffinityGroupState {
    type V = AffinityGroupView;

    open spec fn view(&self) -> AffinityGroupView {
        AffinityGroupView {
            assigned_vehicle: self.assigned_vehicle,
            expected_sequences: self.expected_sequences@,
            assigned_sequences: self.assigned_sequences@,
            duration_days: self.duration_days,
            base_timestamp: self.base_timestamp,
        }
    }
}

/// The expected sequences are `0..duration_days` in order.
pub open spec fn affinity_wf(g: AffinityGroupView) -> bool {
    g.expected_sequences.len() == g.duration_days && forall|i: int|
        0 <= i < g.duration_days ==> g.expected_sequences[i] == i
}

/// A group of `d` sequences with none placed.
pub open spec fn fresh_group(d: u32) -> AffinityGroupView {
    AffinityGroupView {
        assigned_vehicle: None,
        expected_sequences: Seq::new(d as nat, |i: int| i as u32),
        assigned_sequences: Map::empty(),
        duration_days: d,
        base_timestamp: None,
    }
}

/// Every expected sequence is placed and nothing else is.
pub open spec fn affinity_complete(g: AffinityGroupView) -> bool {
    g.assigned_sequences.len() == g.duration_days && forall|s: u32|
        s < g.duration_days ==> g.assigned_sequences.contains_key(s)
}

impl AffinityGroupState {
    /// A group of `duration_days` sequences with none placed.
    pub fn new(duration_days: u32) -> (r: Self)
        ensures
            affinity_wf(r@),
            r@ == fresh_group(duration_days),
            r@.duration_days == duration_days,
            r@.assigned_sequences.len() == 0,
            r@.assigned_sequences == Map::<u32, Timestamp>::empty(),
            r@.assigned_vehicle is None,
            r@.base_timestamp is None,
    {
        let mut expected: Vec<u32> = Vec::new();
        let mut s: u32 = 0;
        while s < duration_days
            invariant
                0 <= s <= duration_days,
                expected@.len() == s,
                forall|i: int| 0 <= i < s ==> expected@[i] == i,
            decreases duration_days - s,
        {
            expected.push(s);
            s = s + 1;
        }
        assert(expected@ =~= Seq::new(duration_days as nat, |i: int| i as u32));
        let assigned: HashMap<u32, Timestamp> = HashMap::new();
        AffinityGroupState {
            assigned_vehicle: None,
            expected_sequences: expected,
            assigned_sequences: assigned,
            duration_days,
            base_timestamp: None,
        }
    }

    /// Whether every sequence of the group is placed.
    pub fn is_complete(&self) -> (r: bool)
        ensures
            r == affinity_complete(self@),
    {
        if self.assigned_sequences.len() != self.duration_days as usize {
            return false;
        }
        let mut s: u32 = 0;
        while s < self.duration_days
            invariant
                0 <= s <= self.duration_days,
                forall|x: u32| x < s ==> self@.assigned_sequences.contains_key(x),
            decreases self.duration_days - s,
        {
            if !self.assigned_sequences.contains_key(&s) {
                return false;
            }
            s = s + 1;
        }
        true
    }

    /// Whether the group is started but not complete.
    pub fn is_partial(&self) -> (r: bool)
        ensures
            r == (self@.assigned_sequences.len() > 0 && !affinity_complete(self@)),
    {
        self.assigned_sequences.len() > 0 && !self.is_complete()
    }
}

/// Length of the job's day: its first window's span, or a calendar day.
pub open spec fn day_duration(job: Job) -> int {
    if job.places@.len() > 0 && job.places@[0].times@.len() > 0 {
        job.places@[0].times@[0].end - job.places@[0].times@[0].start
    } else {
        SECONDS_PER_DAY as int
    }
}

/// Slack on the day grid for the job.
pub open spec fn affinity_tolerance_of(job: Job) -> int {
    match job.dimens.affinity_tolerance {
        Some(t) => t as int,
        None => DEFAULT_AFFINITY_TOLERANCE as int,
    }
}

/// Whether the job, as sequence `sequence`, starts on the grid of a group
/// whose sequence 0 starts at `base`. A job without a time window fits.
pub open spec fn on_grid(base: int, sequence: u32, job: Job) -> bool {
    match job_start_time(job) {
        None => true,
        Some(t) => {
            let d = t - (base + sequence * day_duration(job));
            -affinity_tolerance_of(job) <= d <= affinity_tolerance_of(job)
        },
    }
}

/// Sequence and duration must come together, with the sequence in range.
pub open spec fn affinity_input_invalid(job: Job) -> bool {
    match (job.dimens.affinity_sequence, job.dimens.affinity_duration_days) {
        (Some(s), Some(d)) => s >= d,
        (None, None) => false,
        _ => true,
    }
}

/// The affinity bindings of a solution.
pub open spec fn affinity_table(s: SolutionContext) -> Seq<(Seq<char>, usize)> {
    match s.state.affinities {
        Some(t) => table_view(t@),
        None => Seq::empty(),
    }
}

/// The affinity groups of a solution.
pub open spec fn affinity_groups_of(s: SolutionContext) -> Seq<(Seq<char>, AffinityGroupView)> {
    match s.state.affinity_groups {
        Some(t) => table_view(t@),
        None => Seq::empty(),
    }
}

/// Whether inserting `job` into the route breaks an affinity rule: bad
/// input, a key bound to another vehicle, or a sequence that is unexpected,
/// taken, or off the group's day grid.
pub open spec fn affinity_refused(s: SolutionContext, route: Route, job: Job) -> bool {
    match job.dimens.affinity {
        None => false,
        Some(a) => affinity_input_invalid(job) || bound_elsewhere(s, route, a@) || (
        job.dimens.affinity_sequence is Some && job.dimens.affinity_duration_days is Some
            && sequence_refused_in_group(s, a@, job)),
    }
}

/// Whether the affinity is bound to a vehicle other than the route's.
pub open spec fn bound_elsewhere(s: SolutionContext, route: Route, a: Seq<char>) -> bool {
    match lookup(affinity_table(s), a) {
        Some(v) => v != route.actor.vehicle.id,
        None => false,
    }
}

/// Whether the job's sequence is unexpected, taken or off the day grid in
/// its affinity group.
pub open spec fn sequence_refused_in_group(s: SolutionContext, a: Seq<char>, job: Job) -> bool {
    match lookup(affinity_groups_of(s), a) {
        None => false,
        Some(g) => {
            let seq = job.dimens.affinity_sequence.unwrap();
            !g.expected_sequences.contains(seq) || g.assigned_sequences.contains_key(seq)
                || match g.base_timestamp {
                Some(b) => !on_grid(b as int, seq, job),
                None => false,
            }
        },
    }
}

/// Whether two jobs may be merged: neither has an affinity, or both the same
/// one with equal durations and different sequences.
pub open spec fn affinity_merge_allowed(source: Job, candidate: Job) -> bool {
    match (source.dimens.affinity, candidate.dimens.affinity) {
        (None, None) => true,
        (Some(a), Some(b)) => a@ == b@ && source.dimens.affinity_duration_days
            == candidate.dimens.affinity_duration_days && source.dimens.affinity_sequence
            != candidate.dimens.affinity_sequence,
        _ => false,
    }
}

fn contains_sequence(v: &Vec<u32>, x: u32) -> (r: bool)
    ensures
        r == v@.contains(x),
{
    let mut i: usize = 0;
    while i < v.len()
        invariant
            0 <= i <= v.len(),
            forall|k: int| 0 <= k < i ==> v@[k] != x,
        decreases v.len() - i,
    {
        if v[i] == x {
            assert(v@[i as int] == x);
            return true;
        }
        i = i + 1;
    }
    false
}

fn check_on_grid(base: i128, sequence: u32, job: &Job) -> (r: bool)
    ensures
        r == on_grid(base as int, sequence, *job),
{
    let t = match crate::model::extract_job_start_time(job) {
        Some(t) => t,
        None => return true,
    };
    let day: i128 = if job.places.len() > 0 && job.places[0].times.len() > 0 {
        job.places[0].times[0].end as i128 - job.places[0].times[0].start as i128
    } else {
        SECONDS_PER_DAY as i128
    };
    let tolerance: i128 = match job.dimens.affinity_tolerance {
        Some(x) => x as i128,
        None => DEFAULT_AFFINITY_TOLERANCE as i128,
    };
    assert(-0x1_0000_0000_0000_0000_0000_0000 <= sequence * day <= 0x1_0000_0000_0000_0000_0000_0000)
        by (nonlinear_arith)
        requires
            0 <= sequence <= 0xffff_ffff,
            -0x1_0000_0000_0000_0000 <= day <= 0x1_0000_0000_0000_0000,
    ;
    let expected = match base.checked_add(sequence as i128 * day) {
        Some(e) => e,
        None => return false,
    };
    // so far from any i64 time that no tolerance reaches it
    if expected > 0x4000_0000_0000_0000_0000_0000_0000_0000 || expected < -0x4000_0000_0000_0000_0000_0000_0000_0000 {
        return false;
    }
    let d = t as i128 - expected;
    -tolerance <= d && d <= tolerance
}

/// Binds jobs with one affinity key to one vehicle and keeps multi-day
/// groups on consecutive days.
#[derive(Clone, Debug)]
pub struct VehicleAffinityFeature {
    pub name: String,
    pub code: ViolationCode,
}

/// Creates the vehicle affinity feature.
pub fn create_vehicle_affinity_feature(name: &str, code: ViolationCode) -> (r: Result<
    VehicleAffinityFeature,
    String,
>)
    ensures
        r matches Ok(f) && f.name@ == name@ && f.code == code,
{
    Ok(VehicleAffinityFeature { name: name.to_owned(), code })
}

impl VehicleAffinityFeature {
    /// Refuses `job` in the route when an affinity rule forbids it.
    pub fn evaluate(&self, solution_ctx: &SolutionContext, route_ctx: &RouteContext, job: &Job) -> (r:
        Option<ConstraintViolation>)
        ensures
            r == if affinity_refused(*solution_ctx, route_ctx.route, *job) {
                Some(ConstraintViolation { code: self.code, stopped: true })
            } else {
                None::<ConstraintViolation>
            },
    {
        let a = match &job.dimens.affinity {
            Some(a) => a,
            None => return None,
        };
        let bad = match (job.dimens.affinity_sequence, job.dimens.affinity_duration_days) {
            (Some(s), Some(d)) => s >= d,
            (None, None) => false,
            _ => true,
        };
        if bad {
            return ConstraintViolation::fail(self.code);
        }
        if let Some(t) = &solution_ctx.state.affinities {
            if let Some(i) = find_key(t, a) {
                assert(lookup(affinity_table(*solution_ctx), a@) == Some(t@[i as int].1));
                if t[i].1 != route_ctx.route.actor.vehicle.id {
                    return ConstraintViolation::fail(self.code);
                }
            }
        }
        let seq = match (job.dimens.affinity_sequence, job.dimens.affinity_duration_days) {
            (Some(s), Some(_)) => s,
            _ => return None,
        };
        let groups = match &solution_ctx.state.affinity_groups {
            Some(g) => g,
            None => return None,
        };
        let gi = match find_key(groups, a) {
            Some(i) => i,
            None => return None,
        };
        let g = &groups[gi].1;
        assert(lookup(affinity_groups_of(*solution_ctx), a@) == Some(g@));
        if !contains_sequence(&g.expected_sequences, seq) || g.assigned_sequences.contains_key(&seq) {
            return ConstraintViolation::fail(self.code);
        }
        if let Some(b) = g.base_timestamp {
            if !check_on_grid(b, seq, job) {
                return ConstraintViolation::fail(self.code);
            }
        }
        None
    }

    /// Merges two clustered jobs of one affinity with equal durations and
    /// different sequences, or two jobs without affinity.
    pub fn merge(&self, source: Job, candidate: &Job) -> (r: Result<Job, ViolationCode>)
        ensures
            affinity_merge_allowed(source, *candidate) ==> r == Ok::<Job, ViolationCode>(source),
            !affinity_merge_allowed(source, *candidate) ==> r == Err::<Job, ViolationCode>(
                self.code,
            ),
    {
        let allowed = match (&source.dimens.affinity, &candidate.dimens.affinity) {
            (None, None) => true,
            (Some(a), Some(b)) => a.eq(b) && source.dimens.affinity_duration_days
                == candidate.dimens.affinity_duration_days && source.dimens.affinity_sequence
                != candidate.dimens.affinity_sequence,
            _ => false,
        };
        if allowed {
            Ok(source)
        } else {
            Err(self.code)
        }
    }
}


/// The group after sequence `seq` of `job` is placed at `t` by vehicle `v`:
/// the first placement fixes the vehicle and the start of sequence 0.
pub open spec fn group_record(g: AffinityGroupView, v: usize, seq: u32, t: Timestamp, job: Job) -> AffinityGroupView {
    AffinityGroupView {
        assigned_vehicle: if g.assigned_vehicle is None {
            Some(v)
        } else {
            g.assigned_vehicle
        },
        expected_sequences: g.expected_sequences,
        assigned_sequences: g.assigned_sequences.insert(seq, t),
        duration_days: g.duration_days,
        base_timestamp: if g.base_timestamp is None {
            Some((t - seq * day_duration(job)) as i128)
        } else {
            g.base_timestamp
        },
    }
}

/// The bindings after `job` is served by the route's vehicle.
pub open spec fn bind_affinity(t: Seq<(Seq<char>, usize)>, route: Route, job: Job) -> Seq<(Seq<char>, usize)> {
    match job.dimens.affinity {
        Some(a) => upsert(t, a@, route.actor.vehicle.id),
        None => t,
    }
}

/// The groups after `job` is served by the route's vehicle: a multi-day
/// member with a time window is recorded in its group.
pub open spec fn group_step(g: Seq<(Seq<char>, AffinityGroupView)>, route: Route, job: Job) -> Seq<
    (Seq<char>, AffinityGroupView),
> {
    match (
        job.dimens.affinity,
        job.dimens.affinity_sequence,
        job.dimens.affinity_duration_days,
        job_start_time(job),
    ) {
        (Some(a), Some(seq), Some(d), Some(t)) => {
            let cur = match lookup(g, a@) {
                Some(x) => x,
                None => fresh_group(d),
            };
            upsert(g, a@, group_record(cur, route.actor.vehicle.id, seq, t, job))
        },
        _ => g,
    }
}

/// The bindings rebuilt from the routed jobs in turn.
pub open spec fn affinity_rebind(items: Seq<(Route, Job)>) -> Seq<(Seq<char>, usize)>
    decreases items.len(),
{
    if items.len() == 0 {
        Seq::empty()
    } else {
        bind_affinity(affinity_rebind(items.drop_last()), items.last().0, items.last().1)
    }
}

/// The groups rebuilt from the routed jobs in turn.
pub open spec fn affinity_regroup(items: Seq<(Route, Job)>) -> Seq<(Seq<char>, AffinityGroupView)>
    decreases items.len(),
{
    if items.len() == 0 {
        Seq::empty()
    } else {
        group_step(affinity_regroup(items.drop_last()), items.last().0, items.last().1)
    }
}

/// Rebuilt bindings and groups have one entry per affinity key.
pub proof fn lemma_affinity_rebuild_unique(items: Seq<(Route, Job)>)
    ensures
        keys_unique(affinity_rebind(items)),
        keys_unique(affinity_regroup(items)),
    decreases items.len(),
{
    if items.len() > 0 {
        lemma_affinity_rebuild_unique(items.drop_last());
        lemma_upsert_unique_all(affinity_rebind(items.drop_last()));
        lemma_upsert_unique_all(affinity_regroup(items.drop_last()));
    }
}

/// The placements of group `a` that the routed jobs show.
pub open spec fn placed(items: Seq<(Route, Job)>, a: Seq<char>) -> Map<u32, Timestamp>
    decreases items.len(),
{
    if items.len() == 0 {
        Map::empty()
    } else {
        let m = placed(items.drop_last(), a);
        let job = items.last().1;
        match (job.dimens.affinity, job.dimens.affinity_sequence, job_start_time(job)) {
            (Some(k), Some(seq), Some(t)) => if k@ == a {
                m.insert(seq, t)
            } else {
                m
            },
            _ => m,
        }
    }
}

/// Every group's placements agree with the routes.
pub open spec fn groups_consistent(g: Seq<(Seq<char>, AffinityGroupView)>, items: Seq<(Route, Job)>) -> bool {
    forall|i: int| 0 <= i < g.len() ==> placed(items, #[trigger] g[i].0) == g[i].1.assigned_sequences
}

fn bind_affinity_in(table: &mut Vec<(String, usize)>, route: &Route, job: &Job)
    ensures
        table_view(final(table)@) == bind_affinity(table_view(old(table)@), *route, *job),
{
    let key = match &job.dimens.affinity {
        Some(k) => k,
        None => return ,
    };
    let vehicle = route.actor.vehicle.id;
    let ghost tv = table_view(table@);
    match find_key(table, key) {
        Some(i) => {
            proof {
                lemma_key_index_bounds(tv, key@);
            }
            let ghost old_t = table@;
            let (k, _) = table.remove(i);
            table.insert(i, (k, vehicle));
            assert(table@ =~= old_t.update(i as int, (k, vehicle)));
            assert(table_view(table@) =~= tv.update(i as int, (key@, vehicle)));
        },
        None => {
            table.push((key.clone(), vehicle));
            assert(table_view(table@) =~= tv.push((key@, vehicle)));
        },
    }
}

fn day_duration_of(job: &Job) -> (r: i128)
    ensures
        r == day_duration(*job),
{
    if job.places.len() > 0 && job.places[0].times.len() > 0 {
        job.places[0].times[0].end as i128 - job.places[0].times[0].start as i128
    } else {
        SECONDS_PER_DAY as i128
    }
}

fn record_in_group(g: &mut AffinityGroupState, v: usize, seq: u32, t: Timestamp, job: &Job)
    ensures
        final(g)@ == group_record(old(g)@, v, seq, t, *job),
{
    if g.assigned_vehicle.is_none() {
        g.assigned_vehicle = Some(v);
    }
    if g.base_timestamp.is_none() {
        let day = day_duration_of(job);
        assert(-0x1_0000_0000_0000_0000_0000_0000 <= seq * day <= 0x1_0000_0000_0000_0000_0000_0000)
            by (nonlinear_arith)
            requires
                0 <= seq <= 0xffff_ffff,
                -0x1_0000_0000_0000_0000 <= day <= 0x1_0000_0000_0000_0000,
        ;
        g.base_timestamp = Some(t as i128 - seq as i128 * day);
    }
    g.assigned_sequences.insert(seq, t);
}

fn group_step_in(table: &mut Vec<(String, AffinityGroupState)>, route: &Route, job: &Job)
    ensures
        table_view(final(table)@) == group_step(table_view(old(table)@), *route, *job),
{
    let (key, seq, d) = match (
        &job.dimens.affinity,
        job.dimens.affinity_sequence,
        job.dimens.affinity_duration_days,
    ) {
        (Some(k), Some(s), Some(d)) => (k, s, d),
        _ => return ,
    };
    let t = match extract_job_start_time(job) {
        Some(t) => t,
        None => return ,
    };
    let vehicle = route.actor.vehicle.id;
    let ghost tv = table_view(table@);
    match find_key(table, key) {
        Some(i) => {
            proof {
                lemma_key_index_bounds(tv, key@);
            }
            let ghost old_t = table@;
            let (k, mut g) = table.remove(i);
            record_in_group(&mut g, vehicle, seq, t, job);
            table.insert(i, (k, g));
            assert(table@ =~= old_t.update(i as int, (k, g)));
            assert(table_view(table@) =~= tv.update(i as int, (key@, g@)));
        },
        None => {
            let mut g = AffinityGroupState::new(d);
            record_in_group(&mut g, vehicle, seq, t, job);
            table.push((key.clone(), g));
            assert(table_view(table@) =~= tv.push((key@, g@)));
        },
    }
}

/// What `accept_insertion` leaves: the job's affinity bound to the route's
/// vehicle and, for a multi-day member with a time window, its group updated.
pub open spec fn affinity_inserted(before: SolutionContext, after: SolutionContext, route: Route, job: Job) -> bool {
    &&& after.routes == before.routes
    &&& after.required == before.required
    &&& after.ignored == before.ignored
    &&& after.state.sequence_groups == before.state.sequence_groups
    &&& after.state.sync_groups == before.state.sync_groups
    &&& after.state.assignees == before.state.assignees
    &&& job.dimens.affinity is None ==> after.state == before.state
    &&& job.dimens.affinity is Some ==> {
        &&& after.state.affinities is Some
        &&& affinity_table(after) == bind_affinity(affinity_table(before), route, job)
        &&& affinity_groups_of(after) == group_step(affinity_groups_of(before), route, job)
    }
    &&& keys_unique(affinity_table(before)) ==> keys_unique(affinity_table(after))
    &&& keys_unique(affinity_groups_of(before)) ==> keys_unique(affinity_groups_of(after))
}

/// What `accept_solution_state` leaves: the routes and other aggregates
/// untouched; the bindings and groups rebuilt from the routes when no groups
/// existed or some group disagrees with the routes, untouched otherwise.
pub open spec fn affinity_reconciled(before: SolutionContext, after: SolutionContext) -> bool {
    let items = routed_jobs(before.routes@);
    &&& after.routes == before.routes
    &&& after.required == before.required
    &&& after.ignored == before.ignored
    &&& after.state.sequence_groups == before.state.sequence_groups
    &&& after.state.sync_groups == before.state.sync_groups
    &&& after.state.assignees == before.state.assignees
    &&& if before.state.affinity_groups is Some && groups_consistent(affinity_groups_of(before), items) {
        after.state == before.state
    } else {
        &&& after.state.affinities is Some
        &&& after.state.affinity_groups is Some
        &&& affinity_table(after) == affinity_rebind(items)
        &&& affinity_groups_of(after) == affinity_regroup(items)
        &&& keys_unique(affinity_table(after))
        &&& keys_unique(affinity_groups_of(after))
    }
}

impl VehicleAffinityFeature {
    /// Binds the affinity of a job just committed to route `route_index` to
    /// that route's vehicle and records a multi-day member in its group.
    pub fn accept_insertion(&self, solution_ctx: &mut SolutionContext, route_index: usize, job: &Job)
        requires
            route_index < old(solution_ctx).routes.len(),
        ensures
            affinity_inserted(
                *old(solution_ctx),
                *final(solution_ctx),
                old(solution_ctx).routes@[route_index as int].route,
                *job,
            ),
    {
        proof {
            if keys_unique(affinity_table(*solution_ctx)) {
                lemma_upsert_unique_all(affinity_table(*solution_ctx));
            }
            if keys_unique(affinity_groups_of(*solution_ctx)) {
                lemma_upsert_unique_all(affinity_groups_of(*solution_ctx));
            }
        }
        if job.dimens.affinity.is_none() {
            return ;
        }
        let mut affinities = match solution_ctx.state.affinities.take() {
            Some(t) => t,
            None => Vec::new(),
        };
        assert(table_view(affinities@) =~= affinity_table(*old(solution_ctx)));
        bind_affinity_in(&mut affinities, &solution_ctx.routes[route_index].route, job);
        solution_ctx.state.affinities = Some(affinities);
        let needs_group = job.dimens.affinity_sequence.is_some()
            && job.dimens.affinity_duration_days.is_some() && extract_job_start_time(job).is_some();
        if needs_group {
            let mut groups = match solution_ctx.state.affinity_groups.take() {
                Some(t) => t,
                None => Vec::new(),
            };
            assert(table_view(groups@) =~= affinity_groups_of(*old(solution_ctx)));
            group_step_in(&mut groups, &solution_ctx.routes[route_index].route, job);
            solution_ctx.state.affinity_groups = Some(groups);
        }
    }

    /// Builds the bindings and groups from scratch out of the routes.
    fn rebuild(&self, routes: &Vec<RouteContext>) -> (r: (
        Vec<(String, usize)>,
        Vec<(String, AffinityGroupState)>,
    ))
        ensures
            table_view(r.0@) == affinity_rebind(routed_jobs(routes@)),
            table_view(r.1@) == affinity_regroup(routed_jobs(routes@)),
    {
        let mut affinities: Vec<(String, usize)> = Vec::new();
        let mut groups: Vec<(String, AffinityGroupState)> = Vec::new();
        let mut i: usize = 0;
        assert(routed_jobs(routes@.subrange(0, 0)) =~= Seq::<(Route, Job)>::empty());
        while i < routes.len()
            invariant
                0 <= i <= routes.len(),
                table_view(affinities@) == affinity_rebind(routed_jobs(routes@.subrange(0, i as int))),
                table_view(groups@) == affinity_regroup(routed_jobs(routes@.subrange(0, i as int))),
            decreases routes.len() - i,
        {
            let route = &routes[i].route;
            let acts = &route.activities;
            let ghost done = routed_jobs(routes@.subrange(0, i as int));
            let ghost r = *route;
            let mut j: usize = 0;
            assert(activity_jobs(acts@.subrange(0, 0)) =~= Seq::<Job>::empty());
            assert(done + paired_with(r, activity_jobs(acts@.subrange(0, 0))) =~= done);
            while j < acts.len()
                invariant
                    0 <= j <= acts.len(),
                    acts == &route.activities,
                    r == *route,
                    table_view(affinities@) == affinity_rebind(
                        done + paired_with(r, activity_jobs(acts@.subrange(0, j as int))),
                    ),
                    table_view(groups@) == affinity_regroup(
                        done + paired_with(r, activity_jobs(acts@.subrange(0, j as int))),
                    ),
                decreases acts.len() - j,
            {
                let ghost before = done + paired_with(r, activity_jobs(acts@.subrange(0, j as int)));
                assert(acts@.subrange(0, j as int + 1).drop_last() =~= acts@.subrange(0, j as int));
                if let Some(job) = &acts[j].job {
                    let ghost after = done + paired_with(
                        r,
                        activity_jobs(acts@.subrange(0, j as int + 1)),
                    );
                    assert(after =~= before.push((r, *job)));
                    assert(after.drop_last() =~= before);
                    assert(after.last() == (r, *job));
                    bind_affinity_in(&mut affinities, route, job);
                    group_step_in(&mut groups, route, job);
                } else {
                    assert(activity_jobs(acts@.subrange(0, j as int + 1)) =~= activity_jobs(
                        acts@.subrange(0, j as int),
                    ));
                    assert(done + paired_with(r, activity_jobs(acts@.subrange(0, j as int + 1)))
                        =~= before);
                }
                j = j + 1;
            }
            assert(acts@.subrange(0, j as int) =~= acts@);
            assert(routes@.subrange(0, i as int + 1).drop_last() =~= routes@.subrange(0, i as int));
            assert(routes@.subrange(0, i as int + 1).last() == routes@[i as int]);
            i = i + 1;
        }
        assert(routes@.subrange(0, i as int) =~= routes@);
        (affinities, groups)
    }
}


/// The placements of group `key` in the routes, and the sequences seen.
fn placed_of(key: &String, routes: &Vec<RouteContext>) -> (r: (HashMap<u32, Timestamp>, Vec<u32>))
    ensures
        r.0@ == placed(routed_jobs(routes@), key@),
        forall|k: u32| r.0@.contains_key(k) <==> r.1@.contains(k),
{
    let mut m: HashMap<u32, Timestamp> = HashMap::new();
    let mut seen: Vec<u32> = Vec::new();
    let mut i: usize = 0;
    assert(routed_jobs(routes@.subrange(0, 0)) =~= Seq::<(Route, Job)>::empty());
    assert(m@ =~= Map::<u32, Timestamp>::empty());
    while i < routes.len()
        invariant
            0 <= i <= routes.len(),
            m@ == placed(routed_jobs(routes@.subrange(0, i as int)), key@),
            forall|k: u32| m@.contains_key(k) <==> seen@.contains(k),
        decreases routes.len() - i,
    {
        let route = &routes[i].route;
        let acts = &route.activities;
        let ghost done = routed_jobs(routes@.subrange(0, i as int));
        let ghost r = *route;
        let mut j: usize = 0;
        assert(activity_jobs(acts@.subrange(0, 0)) =~= Seq::<Job>::empty());
        assert(done + paired_with(r, activity_jobs(acts@.subrange(0, 0))) =~= done);
        while j < acts.len()
            invariant
                0 <= j <= acts.len(),
                acts == &route.activities,
                r == *route,
                m@ == placed(done + paired_with(r, activity_jobs(acts@.subrange(0, j as int))), key@),
                forall|k: u32| m@.contains_key(k) <==> seen@.contains(k),
            decreases acts.len() - j,
        {
            let ghost before = done + paired_with(r, activity_jobs(acts@.subrange(0, j as int)));
            assert(acts@.subrange(0, j as int + 1).drop_last() =~= acts@.subrange(0, j as int));
            if let Some(job) = &acts[j].job {
                let ghost after = done + paired_with(r, activity_jobs(acts@.subrange(0, j as int + 1)));
                assert(after =~= before.push((r, *job)));
                assert(after.drop_last() =~= before);
                assert(after.last() == (r, *job));
                if let (Some(k), Some(seq)) = (&job.dimens.affinity, job.dimens.affinity_sequence) {
                    if let Some(t) = extract_job_start_time(job) {
                        if k.eq(key) {
                            m.insert(seq, t);
                            let ghost seen_before = seen@;
                            seen.push(seq);
                            assert forall|x: u32| m@.contains_key(x) <==> seen@.contains(x) by {
                                if seen@.contains(x) && x != seq {
                                    let w = choose|w: int| 0 <= w < seen@.len() && seen@[w] == x;
                                    assert(seen_before[w] == x);
                                }
                                if x == seq {
                                    assert(seen@[seen@.len() - 1] == x);
                                }
                                if seen_before.contains(x) {
                                    let w = choose|w: int| 0 <= w < seen_before.len() && seen_before[w] == x;
                                    assert(seen@[w] == x);
                                }
                            }
                        }
                    }
                }
            } else {
                assert(activity_jobs(acts@.subrange(0, j as int + 1)) =~= activity_jobs(
                    acts@.subrange(0, j as int),
                ));
                assert(done + paired_with(r, activity_jobs(acts@.subrange(0, j as int + 1))) =~= before);
            }
            j = j + 1;
        }
        assert(acts@.subrange(0, j as int) =~= acts@);
        assert(routes@.subrange(0, i as int + 1).drop_last() =~= routes@.subrange(0, i as int));
        assert(routes@.subrange(0, i as int + 1).last() == routes@[i as int]);
        i = i + 1;
    }
    assert(routes@.subrange(0, i as int) =~= routes@);
    (m, seen)
}

/// Whether the placements stored for group `key` are those the routes show.
fn group_matches(key: &String, stored: &HashMap<u32, Timestamp>, routes: &Vec<RouteContext>) -> (r: bool)
    ensures
        r == (placed(routed_jobs(routes@), key@) == stored@),
{
    let (actual, seen) = placed_of(key, routes);
    if actual.len() != stored.len() {
        assert(actual@.len() != stored@.len());
        return false;
    }
    let mut q: usize = 0;
    while q < seen.len()
        invariant
            0 <= q <= seen.len(),
            actual@ == placed(routed_jobs(routes@), key@),
            actual@.len() == stored@.len(),
            forall|k: u32| actual@.contains_key(k) <==> seen@.contains(k),
            forall|w: int|
                0 <= w < q ==> stored@.contains_key(#[trigger] seen@[w]) && actual@.contains_key(
                    seen@[w],
                ) && stored@[seen@[w]] == actual@[seen@[w]],
        decreases seen.len() - q,
    {
        let k = seen[q];
        assert(seen@.contains(k));
        let a = actual.get(&k);
        let b = stored.get(&k);
        assert(actual@.contains_key(k));
        match (a, b) {
            (Some(x), Some(y)) => {
                assert(actual@[k] == *x);
                assert(stored@.contains_key(k) && stored@[k] == *y);
                if *x != *y {
                    assert(actual@ != stored@);
                    return false;
                }
            },
            _ => {
                assert(a is Some);
                assert(!stored@.contains_key(k));
                assert(actual@ != stored@);
                return false;
            },
        }
        q = q + 1;
    }
    proof {
        assert(actual@.dom().subset_of(stored@.dom())) by {
            assert forall|k: u32| actual@.dom().contains(k) implies stored@.dom().contains(k) by {
                assert(seen@.contains(k));
                let w = choose|w: int| 0 <= w < seen@.len() && seen@[w] == k;
            }
        }
        lemma_subset_equality(actual@.dom(), stored@.dom());
        assert forall|k: u32| #[trigger] stored@.contains_key(k) implies actual@[k] == stored@[k] by {
            assert(actual@.dom().contains(k));
            assert(seen@.contains(k));
            let w = choose|w: int| 0 <= w < seen@.len() && seen@[w] == k;
        }
        assert(actual@ =~= stored@);
    }
    true
}

impl VehicleAffinityFeature {
    /// Whether every group's placements are those the routes show.
    fn groups_match_routes(&self, groups: &Vec<(String, AffinityGroupState)>, routes: &Vec<RouteContext>) -> (r: bool)
        ensures
            r == groups_consistent(table_view(groups@), routed_jobs(routes@)),
    {
        let ghost tv = table_view(groups@);
        let mut i: usize = 0;
        while i < groups.len()
            invariant
                0 <= i <= groups.len(),
                tv == table_view(groups@),
                forall|k: int|
                    0 <= k < i ==> placed(routed_jobs(routes@), #[trigger] tv[k].0)
                        == tv[k].1.assigned_sequences,
            decreases groups.len() - i,
        {
            if !group_matches(&groups[i].0, &groups[i].1.assigned_sequences, routes) {
                assert(!(placed(routed_jobs(routes@), tv[i as int].0) == tv[i as int].1.assigned_sequences));
                return false;
            }
            i = i + 1;
        }
        true
    }

    /// Makes the affinity aggregates agree with the routes: a full rebuild
    /// when no groups exist yet or some group disagrees with the routes.
    pub fn accept_solution_state(&self, solution_ctx: &mut SolutionContext)
        ensures
            affinity_reconciled(*old(solution_ctx), *final(solution_ctx)),
    {
        let consistent = match &solution_ctx.state.affinity_groups {
            Some(groups) => self.groups_match_routes(groups, &solution_ctx.routes),
            None => false,
        };
        if consistent {
            return ;
        }
        let (affinities, groups) = self.rebuild(&solution_ctx.routes);
        proof {
            lemma_affinity_rebuild_unique(routed_jobs(solution_ctx.routes@));
        }
        solution_ctx.state.affinities = Some(affinities);
        solution_ctx.state.affinity_groups = Some(groups);
    }
}


/// Started but not complete.
pub open spec fn affinity_partial(g: AffinityGroupView) -> bool {
    g.assigned_sequences.len() > 0 && !affinity_complete(g)
}

/// Whether the job belongs to the multi-day affinity group `k`.
pub open spec fn names_affinity(job: Job, k: Seq<char>) -> bool {
    job.dimens.affinity matches Some(a) && a@ == k && job.dimens.affinity_duration_days is Some
}

/// Whether a failure of the first `n` jobs clears group `k`: one of them
/// belongs to it and it is partial.
pub open spec fn cleared_by(s: SolutionContext, jobs: Seq<Job>, n: int, k: Seq<char>) -> bool {
    (exists|i: int| 0 <= i < n && names_affinity(#[trigger] jobs[i], k)) && match lookup(
        affinity_groups_of(s),
        k,
    ) {
        Some(g) => affinity_partial(g),
        None => false,
    }
}

/// The groups that a failure of the first `n` jobs clears.
pub open spec fn cleared_groups(s: SolutionContext, jobs: Seq<Job>, n: int) -> Set<Seq<char>> {
    Set::new(|k: Seq<char>| cleared_by(s, jobs, n, k))
}

/// What `notify_failure` leaves: every partial multi-day group that a failed
/// job belongs to is dropped with its binding; nothing else changes.
/// `modified` tells whether any was dropped.
pub open spec fn affinity_failure_handled(
    before: SolutionContext,
    after: SolutionContext,
    jobs: Seq<Job>,
    modified: bool,
) -> bool {
    let gone = cleared_groups(before, jobs, jobs.len() as int);
    &&& after.routes == before.routes
    &&& after.required == before.required
    &&& after.ignored == before.ignored
    &&& after.state.sequence_groups == before.state.sequence_groups
    &&& after.state.sync_groups == before.state.sync_groups
    &&& after.state.assignees == before.state.assignees
    &&& modified == exists|k: Seq<char>| gone.contains(k)
    &&& !modified ==> after.state == before.state
    &&& modified ==> affinity_table(after) == without_keys(affinity_table(before), gone)
        && affinity_groups_of(after) == without_keys(affinity_groups_of(before), gone)
    &&& keys_unique(affinity_table(before)) ==> keys_unique(affinity_table(after))
    &&& keys_unique(affinity_groups_of(before)) ==> keys_unique(affinity_groups_of(after))
}

impl VehicleAffinityFeature {
    /// After jobs failed to be placed, drops every partial multi-day group
    /// that one of them belongs to, with its vehicle binding, so that the
    /// search can start the group afresh. Returns whether any was dropped.
    pub fn notify_failure(
        &self,
        solution_ctx: &mut SolutionContext,
        route_indices: &Vec<usize>,
        jobs: &Vec<Job>,
    ) -> (modified: bool)
        ensures
            affinity_failure_handled(*old(solution_ctx), *final(solution_ctx), jobs@, modified),
    {
        let ghost s0 = *solution_ctx;
        let mut modified = false;
        let mut i: usize = 0;
        assert(cleared_groups(s0, jobs@, 0) =~= Set::<Seq<char>>::empty());
        assert(without_keys(affinity_table(s0), Set::<Seq<char>>::empty()) == affinity_table(s0)) by {
            lemma_without_none(affinity_table(s0));
        }
        assert(without_keys(affinity_groups_of(s0), Set::<Seq<char>>::empty()) == affinity_groups_of(s0)) by {
            lemma_without_none(affinity_groups_of(s0));
        }
        while i < jobs.len()
            invariant
                0 <= i <= jobs.len(),
                s0 == *old(solution_ctx),
                solution_ctx.routes == s0.routes,
                solution_ctx.required == s0.required,
                solution_ctx.ignored == s0.ignored,
                solution_ctx.state.sequence_groups == s0.state.sequence_groups,
                solution_ctx.state.sync_groups == s0.state.sync_groups,
                solution_ctx.state.assignees == s0.state.assignees,
                modified == exists|k: Seq<char>| cleared_groups(s0, jobs@, i as int).contains(k),
                !modified ==> solution_ctx.state == s0.state,
                affinity_table(*solution_ctx) == without_keys(
                    affinity_table(s0),
                    cleared_groups(s0, jobs@, i as int),
                ),
                affinity_groups_of(*solution_ctx) == without_keys(
                    affinity_groups_of(s0),
                    cleared_groups(s0, jobs@, i as int),
                ),
            decreases jobs.len() - i,
        {
            let ghost k_i = cleared_groups(s0, jobs@, i as int);
            let job = &jobs[i];
            let mut cleared = false;
            if let (Some(key), Some(_)) = (&job.dimens.affinity, job.dimens.affinity_duration_days) {
                proof {
                    lemma_lookup_without(affinity_groups_of(s0), k_i, key@);
                }
                let partial = match &solution_ctx.state.affinity_groups {
                    Some(groups) => match find_key(groups, key) {
                        Some(gi) => {
                            assert(lookup(affinity_groups_of(*solution_ctx), key@) == Some(groups@[gi as int].1@));
                            groups[gi].1.is_partial()
                        },
                        None => false,
                    },
                    None => false,
                };
                if partial {
                    let ghost single = set![key@];
                    let mut groups = match solution_ctx.state.affinity_groups.take() {
                        Some(g) => g,
                        None => Vec::new(),
                    };
                    remove_key(&mut groups, key);
                    solution_ctx.state.affinity_groups = Some(groups);
                    let mut affinities = match solution_ctx.state.affinities.take() {
                        Some(a) => a,
                        None => Vec::new(),
                    };
                    remove_key(&mut affinities, key);
                    solution_ctx.state.affinities = Some(affinities);
                    modified = true;
                    cleared = true;
                    proof {
                        lemma_without_twice(affinity_groups_of(s0), k_i, single);
                        lemma_without_twice(affinity_table(s0), k_i, single);
                        assert(cleared_groups(s0, jobs@, i as int + 1) =~= k_i.union(single)) by {
                            assert forall|k: Seq<char>|
                                cleared_groups(s0, jobs@, i as int + 1).contains(k) <==> k_i.union(
                                    single,
                                ).contains(k) by {
                                if k == key@ {
                                    assert(names_affinity(jobs@[i as int], k));
                                }
                                if cleared_by(s0, jobs@, i as int + 1, k) && k != key@ {
                                    let j = choose|j: int|
                                        0 <= j < i + 1 && names_affinity(#[trigger] jobs@[j], k);
                                    assert(j != i);
                                    assert(cleared_by(s0, jobs@, i as int, k));
                                }
                            }
                        }
                        assert(cleared_groups(s0, jobs@, i as int + 1).contains(key@));
                    }
                }
            }
            proof {
                if !cleared {
                    assert(cleared_groups(s0, jobs@, i as int + 1) =~= k_i) by {
                        assert forall|k: Seq<char>|
                            cleared_groups(s0, jobs@, i as int + 1).contains(k) <==> k_i.contains(k) by {
                            if cleared_by(s0, jobs@, i as int + 1, k) && !k_i.contains(k) {
                                let j = choose|j: int|
                                    0 <= j < i + 1 && names_affinity(#[trigger] jobs@[j], k);
                                if j < i {
                                    assert(cleared_by(s0, jobs@, i as int, k));
                                } else {
                                    lemma_lookup_without(affinity_groups_of(s0), k_i, k);
                                }
                            }
                            if k_i.contains(k) {
                                let j = choose|j: int|
                                    0 <= j < i && names_affinity(#[trigger] jobs@[j], k);
                                assert(0 <= j < i + 1 && names_affinity(jobs@[j], k));
                            }
                        }
                    }
                }
            }
            i = i + 1;
        }
        proof {
            let gone = cleared_groups(s0, jobs@, jobs@.len() as int);
            if keys_unique(affinity_table(s0)) {
                lemma_without_unique(affinity_table(s0), gone);
            }
            if keys_unique(affinity_groups_of(s0)) {
                lemma_without_unique(affinity_groups_of(s0), gone);
            }
        }
        modified
    }
}

/// Dropping no key keeps the table.
proof fn lemma_without_none<V>(t: Seq<(Seq<char>, V)>)
    ensures
        without_keys(t, Set::<Seq<char>>::empty()) == t,
    decreases t.len(),
{
    if t.len() > 0 {
        lemma_without_none(t.drop_last());
        assert(t.drop_last().push(t.last()) =~= t);
    }
}

} // verus!
