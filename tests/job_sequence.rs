use vrp_features::job_sequence::{
    create_job_sequence_feature, create_job_sequence_feature_with_config, JobSequenceConfig,
    JobSequenceFeature, SequenceGroupState, SequenceJobAssignment,
};
use vrp_features::model::{
    Activity, Actor, ActorDetail, Costs, Dimensions, Driver, Job, Place, Route, RouteContext,
    RouteState, Schedule, TimeInterval, TimeWindow, Vehicle, VehicleDetail, VehiclePlace,
};
use vrp_features::solution::{ConstraintViolation, SolutionContext, SolutionState, ViolationCode};

const CODE: ViolationCode = ViolationCode(7);
const DAY: i64 = 86400;

fn costs() -> Costs {
    Costs { fixed: 0, per_distance: 0, per_driving_time: 0, per_waiting_time: 0, per_service_time: 0 }
}

fn vehicle(id: usize, shifts: &[(i64, i64)]) -> Vehicle {
    let details = shifts
        .iter()
        .map(|&(start, end)| VehicleDetail {
            start: Some(VehiclePlace { location: 0, time: TimeInterval { earliest: Some(start), latest: None } }),
            end: Some(VehiclePlace { location: 0, time: TimeInterval { earliest: None, latest: Some(end) } }),
        })
        .collect();
    Vehicle { id, profile: 0, costs: costs(), tiered_costs: None, details }
}

fn actor(v: &Vehicle, shift: usize) -> Actor {
    let d = v.details[shift];
    let start = d.start.unwrap().time.earliest.unwrap();
    let end = d.end.unwrap().time.latest.unwrap();
    Actor {
        vehicle: v.clone(),
        driver: Driver { costs: costs(), tiered_costs: None, details: vec![] },
        detail: ActorDetail { start: d.start, end: d.end, time: TimeWindow { start, end } },
    }
}

fn route(v: &Vehicle, shift: usize) -> RouteContext {
    RouteContext { route: Route { actor: actor(v, shift), activities: vec![] }, state: RouteState { sync_groups: None, resource_intervals: vec![], resource_available: vec![] } }
}

fn seq_job(id: &str, key: &str, order: u32, min: u32, max: u32) -> Job {
    let mut dimens = Dimensions::empty();
    dimens.job_id = Some(id.to_string());
    dimens.sequence_key = Some(key.to_string());
    dimens.sequence_order = Some(order);
    dimens.sequence_days_between_min = Some(min);
    dimens.sequence_days_between_max = Some(max);
    Job { dimens, places: vec![Place { location: Some(1), duration: 100, times: vec![] }], activities: 1 }
}

fn with_window(mut job: Job, start: i64, end: i64) -> Job {
    job.places[0].times = vec![TimeWindow { start, end }];
    job
}

fn solution(required: Vec<Job>, routes: Vec<RouteContext>) -> SolutionContext {
    SolutionContext { required, ignored: vec![], routes, state: SolutionState::empty() }
}

fn feature() -> JobSequenceFeature {
    create_job_sequence_feature("job_sequence", CODE).unwrap()
}

fn fail() -> Option<ConstraintViolation> {
    Some(ConstraintViolation { code: CODE, stopped: true })
}

/// Places `job` at the end of route `ri` (departing at the shift start) and
/// records it, as the search does after a successful evaluation.
fn commit(f: &JobSequenceFeature, s: &mut SolutionContext, ri: usize, job: &Job) {
    let start = s.routes[ri].route.actor.detail.time.start;
    s.routes[ri].route.activities.push(Activity {
        location: 1,
        time_start: start,
        duration: 100,
        schedule: Schedule { arrival: start, departure: start + 100 },
        job: Some(job.clone()),
        resource: None,
    });
    s.required.retain(|j| j.dimens.job_id != job.dimens.job_id);
    f.accept_insertion(s, ri, job);
}

fn try_insert(f: &JobSequenceFeature, s: &mut SolutionContext, ri: usize, job: &Job) -> bool {
    if f.evaluate(s, &s.routes[ri], job).is_none() {
        commit(f, s, ri, job);
        true
    } else {
        false
    }
}

fn group<'a>(s: &'a SolutionContext, key: &str) -> &'a SequenceGroupState {
    &s.state.sequence_groups.as_ref().unwrap().iter().find(|(k, _)| k == key).unwrap().1
}

#[test]
fn sequence_group_completes_over_consecutive_shifts() {
    let f = feature();
    let v = vehicle(1, &[(0, 36000), (DAY, DAY + 36000), (2 * DAY, 2 * DAY + 36000)]);
    let jobs: Vec<Job> = (0..3).map(|o| seq_job(&format!("j{o}"), "seq1", o, 1, 2)).collect();
    let mut s = solution(jobs.clone(), vec![route(&v, 0), route(&v, 1), route(&v, 2)]);

    for (i, job) in jobs.iter().enumerate() {
        assert!(try_insert(&f, &mut s, i, job), "order {i} should be admitted");
    }
    f.accept_solution_state(&mut s);

    let g = group(&s, "seq1");
    assert!(g.is_complete());
    assert!(!g.is_partial());
    assert_eq!(f.fitness(&s), 0);
}

#[test]
fn partial_sequence_is_penalised_per_missing_job() {
    let f = feature();
    let v = vehicle(1, &[(0, 36000), (DAY, DAY + 36000), (2 * DAY, 2 * DAY + 36000)]);
    let jobs: Vec<Job> = (0..3).map(|o| seq_job(&format!("j{o}"), "seq1", o, 1, 2)).collect();
    let mut s = solution(jobs.clone(), vec![route(&v, 0), route(&v, 1), route(&v, 2)]);

    assert!(try_insert(&f, &mut s, 0, &jobs[0]));
    assert!(try_insert(&f, &mut s, 1, &jobs[1]));
    // order 2 is still required elsewhere
    f.accept_solution_state(&mut s);

    let g = group(&s, "seq1");
    assert_eq!(g.expected_size, 3);
    assert!(g.is_partial());
    assert_eq!(f.fitness(&s), 100000);
}

#[test]
fn fitness_counts_every_missing_member() {
    let f = feature();
    let v = vehicle(1, &[(0, 36000)]);
    let jobs: Vec<Job> = (0..5).map(|o| seq_job(&format!("j{o}"), "five", o, 0, 5)).collect();
    let mut s = solution(jobs.clone(), vec![route(&v, 0)]);
    assert!(try_insert(&f, &mut s, 0, &jobs[0]));
    assert!(try_insert(&f, &mut s, 0, &jobs[1]));
    assert_eq!(f.fitness(&s), 3 * 100000);

    let cfg = JobSequenceConfig { calendar_tolerance: 0, penalty_per_missing_job: 7, max_reasonable_gap: 10 };
    let g = create_job_sequence_feature_with_config("custom", CODE, cfg).unwrap();
    assert_eq!(g.fitness(&s), 3 * 7);
}

#[test]
fn order_before_its_predecessor_is_refused() {
    let f = feature();
    let v = vehicle(1, &[(0, 36000), (DAY, DAY + 36000)]);
    let j0 = seq_job("a", "s", 0, 1, 1);
    let j1 = seq_job("b", "s", 1, 1, 1);
    let j2 = seq_job("c", "s", 2, 1, 1);
    let mut s = solution(vec![j0.clone(), j1.clone(), j2.clone()], vec![route(&v, 0), route(&v, 1)]);

    // a fresh group can only start at order 0
    assert_eq!(f.evaluate(&s, &s.routes[0], &j1), fail());
    assert_eq!(f.evaluate(&s, &s.routes[0], &j0), None);

    commit(&f, &mut s, 0, &j0);
    // order 2 while order 1 is missing
    assert_eq!(f.evaluate(&s, &s.routes[1], &j2), fail());
    // order 0 again
    assert_eq!(f.evaluate(&s, &s.routes[1], &j0), fail());
    assert_eq!(f.evaluate(&s, &s.routes[1], &j1), None);
}

#[test]
fn invalid_sequence_input_is_refused() {
    let f = feature();
    let v = vehicle(1, &[(0, 36000)]);
    let s = solution(vec![], vec![route(&v, 0)]);

    let mut no_order = seq_job("x", "s", 0, 1, 1);
    no_order.dimens.sequence_order = None;
    assert_eq!(f.evaluate(&s, &s.routes[0], &no_order), fail());

    assert_eq!(f.evaluate(&s, &s.routes[0], &seq_job("y", "s", 0, 3, 2)), fail());
    assert_eq!(f.evaluate(&s, &s.routes[0], &seq_job("z", "s", 0, 1, 366)), fail());
    assert_eq!(f.evaluate(&s, &s.routes[0], &seq_job("w", "s", 0, 1, 365)), None);

    let mut plain = seq_job("p", "s", 0, 1, 1);
    plain.dimens.sequence_key = None;
    assert_eq!(f.evaluate(&s, &s.routes[0], &plain), None);
}

#[test]
fn calendar_gap_applies_across_vehicles() {
    let f = feature();
    let a = vehicle(1, &[(0, 36000)]);
    let b = vehicle(2, &[(DAY, DAY + 36000), (3 * DAY, 3 * DAY + 36000)]);
    let j0 = with_window(seq_job("a", "s", 0, 1, 1), 9 * 3600, 10 * 3600);
    // 25 hours later is within a day plus six hours; 48 hours later is not
    let ok = with_window(seq_job("b", "s", 1, 1, 1), DAY + 10 * 3600, DAY + 11 * 3600);
    let late = with_window(seq_job("c", "s", 1, 1, 1), 2 * DAY + 9 * 3600, 2 * DAY + 10 * 3600);
    let mut s = solution(vec![j0.clone(), ok.clone(), late.clone()], vec![route(&a, 0), route(&b, 0), route(&b, 1)]);
    commit(&f, &mut s, 0, &j0);

    assert_eq!(f.evaluate(&s, &s.routes[1], &ok), None);
    assert_eq!(f.evaluate(&s, &s.routes[1], &late), fail());
}

#[test]
fn merge_accepts_only_distinct_orders_of_one_sequence() {
    let f = feature();
    let a0 = seq_job("a", "k", 0, 1, 1);
    let a1 = seq_job("b", "k", 1, 1, 1);
    let other = seq_job("c", "other", 1, 1, 1);
    let wide = seq_job("d", "k", 2, 1, 3);

    assert!(f.merge(a0.clone(), &a1).is_ok());
    assert_eq!(f.merge(a0.clone(), &a1).unwrap().dimens.job_id, Some("a".to_string()));
    assert_eq!(f.merge(a0.clone(), &a0.clone()).err(), Some(CODE));
    assert_eq!(f.merge(a0.clone(), &other).err(), Some(CODE));
    assert_eq!(f.merge(a0.clone(), &wide).err(), Some(CODE));

    let mut plain = seq_job("e", "k", 0, 1, 1);
    plain.dimens.sequence_key = None;
    assert!(f.merge(plain.clone(), &plain.clone()).is_ok());
    assert_eq!(f.merge(plain, &a0).err(), Some(CODE));
}

#[test]
fn rebuilding_twice_gives_the_same_groups() {
    let f = feature();
    let v = vehicle(1, &[(0, 36000), (DAY, DAY + 36000)]);
    let jobs: Vec<Job> = (0..3).map(|o| seq_job(&format!("j{o}"), "s", o, 1, 1)).collect();
    let mut s = solution(jobs.clone(), vec![route(&v, 0), route(&v, 1)]);
    commit(&f, &mut s, 0, &jobs[0]);
    commit(&f, &mut s, 1, &jobs[1]);
    s.state = SolutionState::empty();

    f.accept_solution_state(&mut s);
    let first = format!("{:?}", s.state.sequence_groups);
    f.accept_solution_state(&mut s);
    let second = format!("{:?}", s.state.sequence_groups);
    assert_eq!(first, second);
    assert!(first.contains("expected_size: 3"));
}

#[test]
fn estimate_rewards_completion_and_extension() {
    let f = feature();
    let v = vehicle(1, &[(0, 36000)]);
    let jobs: Vec<Job> = (0..3).map(|o| seq_job(&format!("j{o}"), "s", o, 0, 1)).collect();
    let mut s = solution(jobs.clone(), vec![route(&v, 0)]);

    assert_eq!(f.estimate(&s, &jobs[0]), 0);
    commit(&f, &mut s, 0, &jobs[0]);
    assert_eq!(f.estimate(&s, &jobs[1]), -10000);
    commit(&f, &mut s, 0, &jobs[1]);
    assert_eq!(f.estimate(&s, &jobs[2]), -300000);
}

#[test]
fn assignment_gap_checks() {
    let a = SequenceJobAssignment { scheduled_time: Some(0), order: 0, vehicle: 1, shift_index: 0, shift_start: 0 };
    // same vehicle: shifts
    assert!(a.validate_gap_to(1, 1, 0, 1, 1, 21600));
    assert!(!a.validate_gap_to(1, 0, 0, 1, 1, 21600));
    assert!(!a.validate_gap_to(1, 2, 0, 1, 1, 21600));
    // other vehicle: days with tolerance
    assert!(a.validate_gap_to(2, 0, DAY + 21600, 1, 1, 21600));
    assert!(!a.validate_gap_to(2, 0, DAY + 21601, 1, 1, 21600));
    let next = SequenceJobAssignment { scheduled_time: None, order: 1, vehicle: 2, shift_index: 0, shift_start: DAY };
    assert!(next.validate_gap_from(1, 0, 0, 1, 1, 0));
    assert!(!next.validate_gap_from(1, 0, 1, 1, 1, 0));
}

#[test]
fn group_state_tracks_orders() {
    let mut g = SequenceGroupState::new(2);
    assert!(!g.is_complete() && !g.is_partial());
    let a = SequenceJobAssignment { scheduled_time: None, order: 1, vehicle: 1, shift_index: 0, shift_start: 0 };
    g.assign(a);
    g.assign(a);
    assert_eq!(g.assignments.len(), 1);
    assert!(g.contains_order(1) && !g.contains_order(0));
    assert!(g.is_partial());
    g.assign(SequenceJobAssignment { order: 0, ..a });
    assert!(g.is_complete());
}

#[test]
fn can_assign_sequence_jobs_on_same_shift_when_days_between_min_is_zero() {
    let f = feature();
    let v = vehicle(1, &[(0, 36000)]);
    let jobs: Vec<Job> = (0..3).map(|o| seq_job(&format!("task{}", o + 1), "same_shift_sequence", o, 0, 0)).collect();
    let mut s = solution(jobs.clone(), vec![route(&v, 0)]);

    for job in &jobs {
        assert!(try_insert(&f, &mut s, 0, job), "All jobs should be assigned");
    }
    assert_eq!(s.routes.len(), 1, "All jobs should be on ONE tour (same shift)");
    let ids: Vec<String> =
        s.routes[0].route.activities.iter().filter_map(|a| a.job.as_ref()?.dimens.job_id.clone()).collect();
    assert_eq!(ids.len(), 3);
    assert!(ids.contains(&"task1".to_string()));
    assert!(ids.contains(&"task2".to_string()));
    assert!(ids.contains(&"task3".to_string()));
}

#[test]
fn requires_different_shifts_when_days_between_min_is_one() {
    let f = feature();
    let v = vehicle(1, &[(0, 36000), (DAY, 122400)]);
    let jobs: Vec<Job> = (0..2).map(|o| seq_job(&format!("task{}", o + 1), "consecutive", o, 1, 1)).collect();
    let mut s = solution(jobs.clone(), vec![route(&v, 0), route(&v, 1)]);

    assert!(try_insert(&f, &mut s, 0, &jobs[0]));
    // same shift is refused, the next shift is accepted
    assert!(f.evaluate(&s, &s.routes[0], &jobs[1]).is_some());
    assert!(try_insert(&f, &mut s, 1, &jobs[1]));

    let used: Vec<usize> = (0..2).filter(|&i| !s.routes[i].route.activities.is_empty()).collect();
    assert_eq!(used.len(), 2, "Jobs should be on TWO different tours (different shifts)");
    assert!(used.contains(&0));
    assert!(used.contains(&1));
}

#[test]
fn can_handle_weekend_gap_with_same_assignee_no_time_windows() {
    let f = feature();
    // Thursday, Friday and Monday shifts of one technician
    let v = vehicle(1, &[(0, 36000), (DAY, 122400), (4 * DAY, 381600)]);
    let names = ["thursday_service", "friday_service", "monday_service"];
    let jobs: Vec<Job> = (0..3).map(|o| seq_job(names[o as usize], "three_day_service", o, 0, 2)).collect();
    let mut s = solution(jobs.clone(), vec![route(&v, 0), route(&v, 1), route(&v, 2)]);

    for (i, job) in jobs.iter().enumerate() {
        assert!(try_insert(&f, &mut s, i, job), "Expected all jobs to be assigned");
    }
    let ids: Vec<String> = s
        .routes
        .iter()
        .flat_map(|r| r.route.activities.iter())
        .filter_map(|a| a.job.as_ref()?.dimens.job_id.clone())
        .collect();
    assert_eq!(ids.len(), 3);
    for n in names {
        assert!(ids.contains(&n.to_string()));
    }
    assert!(s.routes.iter().all(|r| r.route.actor.vehicle.id == 1));
    assert!(group(&s, "three_day_service").is_complete());
}

#[test]
fn can_handle_weekly_tutoring_with_calendar_constraints() {
    let f = feature();
    let week = 7 * DAY;
    let v = vehicle(1, &[(0, 36000), (week, week + 36000), (2 * week, 2 * week + 36000), (3 * week, 3 * week + 36000)]);
    let jobs: Vec<Job> = (0..4).map(|o| seq_job(&format!("lesson{}", o + 1), "tutoring_sessions", o, 0, 10)).collect();
    let mut s = solution(jobs.clone(), (0..4).map(|i| route(&v, i)).collect());

    for (i, job) in jobs.iter().enumerate() {
        assert!(try_insert(&f, &mut s, i, job), "Expected all lessons to be assigned");
    }
    let ids: Vec<String> = s
        .routes
        .iter()
        .flat_map(|r| r.route.activities.iter())
        .filter_map(|a| a.job.as_ref()?.dimens.job_id.clone())
        .collect();
    assert_eq!(ids.len(), 4);
    for n in ["lesson1", "lesson2", "lesson3", "lesson4"] {
        assert!(ids.contains(&n.to_string()));
    }
    assert!(group(&s, "tutoring_sessions").is_complete());
}

#[test]
fn can_handle_multi_day_equipment_check_different_technicians() {
    let f = feature();
    // two technicians, one shift a day each
    let t1 = vehicle(1, &[(0, 36000), (DAY, DAY + 36000)]);
    let t2 = vehicle(2, &[(DAY, DAY + 36000), (2 * DAY, 2 * DAY + 36000)]);
    let jobs: Vec<Job> = (0..3).map(|o| seq_job(&format!("check_day{}", o + 1), "equipment_check", o, 0, 2)).collect();
    let mut s = solution(jobs.clone(), vec![route(&t1, 0), route(&t2, 0), route(&t2, 1)]);

    for (i, job) in jobs.iter().enumerate() {
        assert!(try_insert(&f, &mut s, i, job), "Expected all checks to be assigned");
    }
    let ids: Vec<String> = s
        .routes
        .iter()
        .flat_map(|r| r.route.activities.iter())
        .filter_map(|a| a.job.as_ref()?.dimens.job_id.clone())
        .collect();
    assert_eq!(ids.len(), 3);
    assert!(group(&s, "equipment_check").is_complete());
    assert_eq!(f.fitness(&s), 0);
}

#[test]
fn calendar_gap_counts_in_either_direction() {
    let a = SequenceJobAssignment { scheduled_time: Some(DAY), order: 0, vehicle: 1, shift_index: 0, shift_start: 0 };
    // the next member one day earlier on another vehicle still keeps a one-day gap
    assert!(a.validate_gap_to(2, 0, 0, 1, 1, 0));
    assert!(!a.validate_gap_to(2, 0, DAY / 2, 1, 1, 0));
}
