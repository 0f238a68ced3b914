use vrp_features::fleet::Fleet;
use vrp_features::model::{
    Activity, Actor, ActorDetail, Costs, Dimensions, Driver, Job, Place, Route, RouteContext,
    RouteState, Schedule, TimeInterval, TimeWindow, Vehicle, VehicleDetail, VehiclePlace,
};
use vrp_features::same_assignee::create_same_assignee_feature;
use vrp_features::solution::{ConstraintViolation, SolutionContext, SolutionState, ViolationCode};
use vrp_features::tour_limits::create_activity_limit_feature;
use vrp_features::vehicle_affinity::{create_vehicle_affinity_feature, AffinityGroupState};

const CODE: ViolationCode = ViolationCode(3);
const DAY: i64 = 86400;

fn costs() -> Costs {
    Costs { fixed: 0, per_distance: 0, per_driving_time: 0, per_waiting_time: 0, per_service_time: 0 }
}

fn detail(start: i64, end: i64) -> VehicleDetail {
    VehicleDetail {
        start: Some(VehiclePlace { location: 0, time: TimeInterval { earliest: Some(start), latest: None } }),
        end: Some(VehiclePlace { location: 0, time: TimeInterval { earliest: None, latest: Some(end) } }),
    }
}

fn vehicle(id: usize, profile: usize, details: Vec<VehicleDetail>) -> Vehicle {
    Vehicle { id, profile, costs: costs(), tiered_costs: None, details }
}

fn driver() -> Driver {
    Driver { costs: costs(), tiered_costs: None, details: vec![] }
}

fn route(id: usize) -> RouteContext {
    let d = detail(0, 36000);
    let actor = Actor {
        vehicle: vehicle(id, 0, vec![d]),
        driver: driver(),
        detail: ActorDetail { start: d.start, end: d.end, time: TimeWindow { start: 0, end: 36000 } },
    };
    RouteContext { route: Route { actor, activities: vec![] }, state: RouteState { sync_groups: None, resource_intervals: vec![], resource_available: vec![] } }
}

fn job(id: &str) -> Job {
    let mut dimens = Dimensions::empty();
    dimens.job_id = Some(id.to_string());
    Job { dimens, places: vec![Place { location: Some(1), duration: 10, times: vec![] }], activities: 1 }
}

fn activity(job: Job) -> Activity {
    Activity { location: 1, time_start: 0, duration: 10, schedule: Schedule { arrival: 0, departure: 10 }, job: Some(job), resource: None }
}

fn solution(routes: Vec<RouteContext>) -> SolutionContext {
    SolutionContext { required: vec![], ignored: vec![], routes, state: SolutionState::empty() }
}

fn fail() -> Option<ConstraintViolation> {
    Some(ConstraintViolation { code: CODE, stopped: true })
}

fn affinity_job(id: &str, affinity: &str, sequence: Option<u32>, duration: Option<u32>) -> Job {
    let mut j = job(id);
    j.dimens.affinity = Some(affinity.to_string());
    j.dimens.affinity_sequence = sequence;
    j.dimens.affinity_duration_days = duration;
    j
}

#[test]
fn affinity_group_state_creation() {
    let state = AffinityGroupState::new(3);

    assert_eq!(state.duration_days, 3);
    assert_eq!(state.expected_sequences.len(), 3);
    assert!(state.expected_sequences.contains(&0));
    assert!(state.expected_sequences.contains(&1));
    assert!(state.expected_sequences.contains(&2));
    assert!(state.assigned_sequences.is_empty());
    assert!(state.assigned_vehicle.is_none());
    assert!(state.base_timestamp.is_none());
}

#[test]
fn affinity_group_state_completeness_check() {
    let mut state = AffinityGroupState::new(2);

    assert!(!state.is_complete());
    assert!(!state.is_partial());

    state.assigned_sequences.insert(0, 1000);
    assert!(!state.is_complete());
    assert!(state.is_partial());

    state.assigned_sequences.insert(1, 1100);
    assert!(state.is_complete());
    assert!(!state.is_partial());
}

#[test]
fn affinity_group_state_with_gaps() {
    let mut state = AffinityGroupState::new(3);

    state.assigned_sequences.insert(0, 1000);
    state.assigned_sequences.insert(2, 1200);
    assert!(!state.is_complete());
    assert!(state.is_partial());

    state.assigned_sequences.insert(1, 1100);
    assert!(state.is_complete());
    assert!(!state.is_partial());
}

#[test]
fn affinity_group_state_methods() {
    let mut state = AffinityGroupState::new(3);

    assert!(!state.is_complete());
    assert!(!state.is_partial());

    state.assigned_sequences.insert(0, 1000);
    assert!(!state.is_complete());
    assert!(state.is_partial());

    state.assigned_sequences.insert(1, 1100);
    assert!(!state.is_complete());
    assert!(state.is_partial());

    state.assigned_sequences.insert(2, 1200);
    assert!(state.is_complete());
    assert!(!state.is_partial());
}

#[test]
fn affinity_binds_a_key_to_one_vehicle() {
    let f = create_vehicle_affinity_feature("affinity", CODE).unwrap();
    let mut s = solution(vec![route(1), route(2)]);
    let j = affinity_job("job1", "affinity1", None, None);
    assert_eq!(f.evaluate(&s, &s.routes[1], &j), None);

    s.state.affinities = Some(vec![("affinity1".to_string(), 1)]);
    assert_eq!(f.evaluate(&s, &s.routes[0], &j), None);
    assert_eq!(f.evaluate(&s, &s.routes[1], &j), fail());
}

#[test]
fn affinity_checks_sequences_and_day_grid() {
    let f = create_vehicle_affinity_feature("affinity", CODE).unwrap();
    let mut s = solution(vec![route(1)]);

    // sequence and duration come together, the sequence within the duration
    assert_eq!(f.evaluate(&s, &s.routes[0], &affinity_job("a", "k", Some(0), None)), fail());
    assert_eq!(f.evaluate(&s, &s.routes[0], &affinity_job("a", "k", Some(3), Some(3))), fail());

    let mut g = AffinityGroupState::new(3);
    g.assigned_sequences.insert(0, 9 * 3600);
    g.base_timestamp = Some(9 * 3600);
    s.state.affinity_groups = Some(vec![("k".to_string(), g)]);

    // sequence 0 is taken
    assert_eq!(f.evaluate(&s, &s.routes[0], &affinity_job("a", "k", Some(0), Some(3))), fail());

    // sequence 1 one day after the base, within four hours
    let mut on_time = affinity_job("b", "k", Some(1), Some(3));
    on_time.places[0].times = vec![TimeWindow { start: DAY + 11 * 3600, end: 2 * DAY + 11 * 3600 }];
    assert_eq!(f.evaluate(&s, &s.routes[0], &on_time), None);

    let mut off_grid = affinity_job("c", "k", Some(1), Some(3));
    off_grid.places[0].times = vec![TimeWindow { start: DAY + 14 * 3600, end: 2 * DAY + 14 * 3600 }];
    assert_eq!(f.evaluate(&s, &s.routes[0], &off_grid), fail());

    // without a time window the grid does not apply
    assert_eq!(f.evaluate(&s, &s.routes[0], &affinity_job("d", "k", Some(2), Some(3))), None);
}

#[test]
fn affinity_merge_rules() {
    let f = create_vehicle_affinity_feature("affinity", CODE).unwrap();
    let a0 = affinity_job("a", "k", Some(0), Some(2));
    let a1 = affinity_job("b", "k", Some(1), Some(2));
    assert!(f.merge(a0.clone(), &a1).is_ok());
    assert_eq!(f.merge(a0.clone(), &a0.clone()).err(), Some(CODE));
    assert_eq!(f.merge(a0.clone(), &affinity_job("c", "k", Some(1), Some(3))).err(), Some(CODE));
    assert_eq!(f.merge(a0.clone(), &affinity_job("d", "other", Some(1), Some(2))).err(), Some(CODE));
    assert!(f.merge(job("x"), &job("y")).is_ok());
}

#[test]
fn same_assignee_keeps_one_vehicle() {
    let f = create_same_assignee_feature("assignee", CODE).unwrap();
    let mut s = solution(vec![route(1), route(2)]);
    let mut j1 = job("j1");
    j1.dimens.same_assignee_key = Some("alice".to_string());
    let mut j2 = job("j2");
    j2.dimens.same_assignee_key = Some("alice".to_string());

    assert_eq!(f.evaluate(&s, &s.routes[1], &j1), None);
    s.routes[0].route.activities.push(activity(j1.clone()));
    f.accept_insertion(&mut s, 0, &j1);
    assert_eq!(s.state.assignees, Some(vec![("alice".to_string(), 1)]));
    assert_eq!(f.evaluate(&s, &s.routes[1], &j2), fail());
    assert_eq!(f.evaluate(&s, &s.routes[0], &j2), None);

    s.state.assignees = None;
    f.accept_solution_state(&mut s);
    assert_eq!(s.state.assignees, Some(vec![("alice".to_string(), 1)]));

    assert!(f.merge(j1.clone(), &j2).is_ok());
    assert_eq!(f.merge(j1, &job("j3")).err(), Some(CODE));
}

#[test]
fn activity_limit_caps_job_activities() {
    let f = create_activity_limit_feature("limit", CODE, vec![(1, 2)]).unwrap();
    let mut r = route(1);
    assert_eq!(f.evaluate(&r, &job("a")), None);
    r.route.activities.push(activity(job("a")));
    r.route.activities.push(activity(job("b")));
    assert_eq!(f.evaluate(&r, &job("c")), fail());
    // vehicles without a cap take any number
    let mut free = route(2);
    free.route.activities.push(activity(job("a")));
    free.route.activities.push(activity(job("b")));
    assert_eq!(f.evaluate(&free, &job("c")), None);
}

#[test]
fn fleet_has_one_actor_per_shift() {
    let v1 = vehicle(1, 2, vec![detail(0, 100), detail(DAY, DAY + 100)]);
    let v2 = vehicle(2, 0, vec![VehicleDetail { start: None, end: None }]);
    let v3 = vehicle(3, 2, vec![detail(5, 50)]);
    let fleet = Fleet::new(vec![driver()], vec![v1, v2, v3]);

    assert_eq!(fleet.actors.len(), 4);
    assert_eq!(fleet.profiles, vec![0, 2]);
    assert_eq!(fleet.actors[1].vehicle.id, 1);
    assert_eq!(fleet.actors[1].detail.time, TimeWindow { start: DAY, end: DAY + 100 });
    assert_eq!(fleet.actors[2].detail.time, TimeWindow { start: 0, end: i64::MAX });
    assert_eq!(fleet.actors[3].vehicle.id, 3);
}

#[test]
fn incremental_state_validation_detects_inconsistencies() {
    let f = create_vehicle_affinity_feature("affinity", CODE).unwrap();
    let mut s = solution(vec![]);

    // the group claims placements that no route holds
    let mut group_state = AffinityGroupState::new(2);
    group_state.assigned_sequences.insert(0, 1000);
    group_state.assigned_sequences.insert(1, 1100);
    s.state.affinity_groups = Some(vec![("affinity1".to_string(), group_state)]);

    f.accept_solution_state(&mut s);

    let updated = s.state.affinity_groups.as_ref().unwrap();
    let found = updated.iter().find(|(k, _)| k == "affinity1");
    assert!(found.is_none() || found.unwrap().1.assigned_sequences.is_empty());
}

#[test]
fn affinity_state_follows_insertions_and_routes() {
    let f = create_vehicle_affinity_feature("affinity", CODE).unwrap();
    let mut s = solution(vec![route(4)]);
    let mut first = affinity_job("a", "k", Some(1), Some(3));
    first.places[0].times = vec![TimeWindow { start: DAY + 9 * 3600, end: 2 * DAY + 9 * 3600 }];

    s.routes[0].route.activities.push(activity(first.clone()));
    f.accept_insertion(&mut s, 0, &first);
    assert_eq!(s.state.affinities, Some(vec![("k".to_string(), 4)]));
    let g = &s.state.affinity_groups.as_ref().unwrap()[0].1;
    assert_eq!(g.assigned_vehicle, Some(4));
    // sequence 1 at day one, 9:00 puts sequence 0 at day zero, 9:00
    assert_eq!(g.base_timestamp, Some(9 * 3600));
    assert_eq!(g.assigned_sequences.get(&1), Some(&(DAY + 9 * 3600)));

    // the routes agree with the groups: nothing changes
    let before = format!("{:?}", s.state.affinity_groups);
    f.accept_solution_state(&mut s);
    assert_eq!(before, format!("{:?}", s.state.affinity_groups));

    // without groups, everything is rebuilt from the routes
    s.state.affinity_groups = None;
    s.state.affinities = None;
    f.accept_solution_state(&mut s);
    assert_eq!(s.state.affinities, Some(vec![("k".to_string(), 4)]));
    assert_eq!(before, format!("{:?}", s.state.affinity_groups));
}

#[test]
fn failure_drops_partial_affinity_groups() {
    let f = create_vehicle_affinity_feature("affinity", CODE).unwrap();
    let mut s = solution(vec![route(1)]);
    let mut partial = AffinityGroupState::new(3);
    partial.assigned_sequences.insert(0, 100);
    let mut complete = AffinityGroupState::new(1);
    complete.assigned_sequences.insert(0, 100);
    s.state.affinity_groups = Some(vec![("p".to_string(), partial), ("c".to_string(), complete)]);
    s.state.affinities = Some(vec![("p".to_string(), 1), ("c".to_string(), 1)]);

    // a failed job of the complete group changes nothing
    assert!(!f.notify_failure(&mut s, &vec![0], &vec![affinity_job("x", "c", Some(0), Some(1))]));
    assert_eq!(s.state.affinities.as_ref().unwrap().len(), 2);

    // a failed job of the partial group drops it and its binding
    assert!(f.notify_failure(&mut s, &vec![0], &vec![affinity_job("y", "p", Some(1), Some(3))]));
    let groups: Vec<&String> = s.state.affinity_groups.as_ref().unwrap().iter().map(|(k, _)| k).collect();
    assert_eq!(groups, vec![&"c".to_string()]);
    assert_eq!(s.state.affinities, Some(vec![("c".to_string(), 1)]));

    // again: nothing left to drop
    assert!(!f.notify_failure(&mut s, &vec![0], &vec![affinity_job("y", "p", Some(1), Some(3))]));
}

#[test]
fn fleet_groups_actors_by_key() {
    let v1 = vehicle(1, 0, vec![detail(0, 100), detail(DAY, DAY + 100)]);
    let v2 = vehicle(2, 0, vec![detail(0, 100)]);
    let fleet = Fleet::new(vec![driver()], vec![v1, v2]);
    // keyed by vehicle id
    let keys: Vec<usize> = fleet.actors.iter().map(|a| a.vehicle.id).collect();
    let groups = fleet.group_actors(&keys);
    assert_eq!(groups, vec![(1, vec![0, 1]), (2, vec![2])]);
    assert_eq!(fleet.actors[2].driver.costs, driver().costs);
}
