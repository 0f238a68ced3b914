use vrp_features::costs::SimpleTransportCost;
use vrp_features::model::{
    Activity, Actor, ActorDetail, Costs, Dimensions, Driver, Job, Place, Route, RouteContext,
    RouteState, Schedule, TimeInterval, TimeWindow, Vehicle, VehicleDetail, VehiclePlace,
};
use vrp_features::solution::{ConstraintViolation, SolutionContext, SolutionState, ViolationCode};
use vrp_features::sync::{
    create_job_sync_feature, estimate_service_start_time, extract_scheduled_time, get_route_sync_groups,
    validate_sync_timing_with_tolerance, JobSyncFeature, SyncAssignment, SyncGroupInfo,
};

const CODE: ViolationCode = ViolationCode(11);

fn costs() -> Costs {
    Costs { fixed: 0, per_distance: 0, per_driving_time: 0, per_waiting_time: 0, per_service_time: 0 }
}

fn test_actor(id: usize) -> Actor {
    let start = VehiclePlace { location: 0, time: TimeInterval { earliest: Some(0), latest: None } };
    let end = VehiclePlace { location: 0, time: TimeInterval { earliest: None, latest: Some(1000) } };
    Actor {
        vehicle: Vehicle {
            id,
            profile: 0,
            costs: costs(),
            tiered_costs: None,
            details: vec![VehicleDetail { start: Some(start), end: Some(end) }],
        },
        driver: Driver { costs: costs(), tiered_costs: None, details: vec![] },
        detail: ActorDetail { start: Some(start), end: Some(end), time: TimeWindow { start: 0, end: 1000 } },
    }
}

fn empty_route(id: usize) -> RouteContext {
    RouteContext { route: Route { actor: test_actor(id), activities: vec![] }, state: RouteState { sync_groups: None, resource_intervals: vec![], resource_available: vec![] } }
}

fn sync_job(id: &str, group: &str, index: u32, size: u32) -> Job {
    let mut dimens = Dimensions::empty();
    dimens.job_id = Some(id.to_string());
    dimens.sync_group = Some(group.to_string());
    dimens.sync_index = Some(index);
    dimens.sync_size = Some(size);
    Job {
        dimens,
        places: vec![Place { location: Some(0), duration: 10, times: vec![TimeWindow { start: 0, end: 1000 }] }],
        activities: 1,
    }
}

fn activity(job: Option<Job>, arrival: i64, departure: i64) -> Activity {
    Activity { location: 0, time_start: 0, duration: 10, schedule: Schedule { arrival, departure }, job, resource: None }
}

fn route_with(id: usize, acts: Vec<Activity>) -> RouteContext {
    RouteContext { route: Route { actor: test_actor(id), activities: acts }, state: RouteState { sync_groups: None, resource_intervals: vec![], resource_available: vec![] } }
}

fn solution(routes: Vec<RouteContext>) -> SolutionContext {
    SolutionContext { required: vec![], ignored: vec![], routes, state: SolutionState::empty() }
}

fn info(required_size: u32, assignments: Vec<SyncAssignment>) -> SyncGroupInfo {
    SyncGroupInfo { required_size, assignments }
}

fn feature() -> JobSyncFeature {
    create_job_sync_feature("sync", CODE).unwrap()
}

fn fail() -> Option<ConstraintViolation> {
    Some(ConstraintViolation { code: CODE, stopped: true })
}

fn group<'a>(s: &'a SolutionContext, key: &str) -> &'a SyncGroupInfo {
    &s.state.sync_groups.as_ref().unwrap().iter().find(|(k, _)| k == key).unwrap().1
}

#[test]
fn test_route_state_consistency() {
    let f = feature();
    let mut route = empty_route(0);
    assert!(route.state.sync_groups.is_none());

    f.accept_route_state(&mut route);

    let sync_groups = route.state.sync_groups.as_ref();
    assert!(sync_groups.is_some(), "Route sync groups should be initialized");
    assert!(sync_groups.unwrap().is_empty(), "Empty route should have no sync groups");
}

#[test]
fn test_get_route_sync_groups() {
    let route = empty_route(0);
    let sync_groups = get_route_sync_groups(&route);
    assert!(sync_groups.is_empty(), "Empty route should have no sync groups");
}

#[test]
fn test_extract_scheduled_time_behavior() {
    let job = sync_job("job1", "group1", 0, 2);
    let empty_route = empty_route(0);
    let scheduled = extract_scheduled_time(&empty_route, &job);
    assert!(scheduled.is_none(), "Job not in route should return None for scheduled time");
}

#[test]
fn route_sync_groups_are_listed_once() {
    let route = route_with(
        0,
        vec![
            activity(Some(sync_job("a", "g1", 0, 2)), 10, 20),
            activity(None, 30, 40),
            activity(Some(sync_job("b", "g2", 0, 2)), 50, 60),
            activity(Some(sync_job("c", "g1", 1, 2)), 70, 80),
        ],
    );
    let groups = get_route_sync_groups(&route);
    assert_eq!(groups, vec!["g1".to_string(), "g2".to_string()]);
}

#[test]
fn scheduled_time_is_the_service_start() {
    let job = sync_job("a", "g", 0, 2);
    let mut act = activity(Some(job.clone()), 50, 70);
    act.time_start = 60;
    let route = route_with(0, vec![activity(None, 0, 10), act]);
    assert_eq!(extract_scheduled_time(&route, &job), Some(60));
    let mut early = activity(Some(job.clone()), 80, 90);
    early.time_start = 60;
    assert_eq!(extract_scheduled_time(&route_with(0, vec![early]), &job), Some(80));
}

#[test]
fn test_tolerance_precedence() {
    let existing_assignments = vec![(0, 0, 100, 300), (1, 1, 105, 600)];

    // 350s from the first, 345s from the second: the first member's 300s wins
    assert!(!validate_sync_timing_with_tolerance(&existing_assignments, 450, 900));
    assert!(validate_sync_timing_with_tolerance(&existing_assignments, 250, 900));
}

#[test]
fn test_validate_sync_timing_edge_cases() {
    assert!(validate_sync_timing_with_tolerance(&vec![], 100, 900));

    let single_assignment = vec![(0, 0, 100, 900)];
    assert!(validate_sync_timing_with_tolerance(&single_assignment, 150, 900));
    assert!(!validate_sync_timing_with_tolerance(&single_assignment, 1100, 900));

    let zero_tolerance_assignments = vec![(0, 0, 100, 0)];
    assert!(validate_sync_timing_with_tolerance(&zero_tolerance_assignments, 100, 900));
    assert!(!validate_sync_timing_with_tolerance(&zero_tolerance_assignments, 101, 900));
}

#[test]
fn test_sync_constraint_one_job_per_route() {
    let f = feature();
    let s = solution(vec![empty_route(0)]);
    let mut route = route_with(0, vec![activity(Some(sync_job("a", "group1", 0, 2)), 10, 20)]);
    f.accept_route_state(&mut route);
    assert_eq!(f.evaluate(&s, &route, &sync_job("b", "group1", 1, 2)), fail());
}

#[test]
fn test_sync_constraint_multiple_groups_per_route_allowed() {
    let f = feature();
    let s = solution(vec![empty_route(0)]);
    let mut route = route_with(0, vec![activity(Some(sync_job("a", "group1", 0, 2)), 10, 20)]);
    f.accept_route_state(&mut route);
    assert_eq!(f.evaluate(&s, &route, &sync_job("b", "group2", 0, 2)), None);
}

#[test]
fn test_sync_constraint_index_validation() {
    let f = feature();
    let s = solution(vec![empty_route(0)]);
    let r = empty_route(0);
    assert_eq!(f.evaluate(&s, &r, &sync_job("a", "g", 2, 2)), fail());
    assert_eq!(f.evaluate(&s, &r, &sync_job("a", "g", 1, 2)), None);
}

#[test]
fn test_sync_constraint_group_size_validation() {
    let f = feature();
    let s = solution(vec![empty_route(0)]);
    let r = empty_route(0);
    assert_eq!(f.evaluate(&s, &r, &sync_job("a", "g", 0, 1)), fail());
    assert_eq!(f.evaluate(&s, &r, &sync_job("a", "g", 0, 2)), None);
}

#[test]
fn full_group_refuses_another_member() {
    let f = feature();
    let mut s = solution(vec![empty_route(0), empty_route(1), empty_route(2)]);
    s.state.sync_groups = Some(vec![("g".to_string(), info(2, vec![(0, 0, 100, 900), (1, 1, 100, 900)]))]);
    // required size 2 reached: a third member is refused whatever its index
    assert_eq!(f.evaluate(&s, &s.routes[2], &sync_job("c", "g", 1, 2)), fail());
    let mut three = sync_job("c", "g", 2, 3);
    three.places[0].times = vec![TimeWindow { start: 100, end: 200 }];
    assert_eq!(f.evaluate(&s, &s.routes[2], &three), fail());
}

#[test]
fn taken_index_and_late_start_are_refused() {
    let f = feature();
    let mut s = solution(vec![empty_route(0), empty_route(1)]);
    s.state.sync_groups = Some(vec![("g".to_string(), info(3, vec![(0, 0, 100, 900)]))]);
    let r = empty_route(1);
    assert_eq!(f.evaluate(&s, &r, &sync_job("b", "g", 0, 3)), fail());

    // an empty route: the estimate is route end (0) or window start, plus 900
    let mut late = sync_job("b", "g", 1, 3);
    late.places[0].times = vec![TimeWindow { start: 5000, end: 6000 }];
    assert_eq!(estimate_service_start_time(&r.route, &late, &None), 5900);
    assert_eq!(f.evaluate(&s, &r, &late), fail());

    let near = sync_job("c", "g", 1, 3);
    assert_eq!(estimate_service_start_time(&r.route, &near, &None), 900);
    assert_eq!(f.evaluate(&s, &r, &near), None);
}

#[test]
fn estimate_uses_least_disruptive_gap() {
    let job = sync_job("x", "g", 0, 2);
    let route = route_with(
        0,
        vec![activity(None, 0, 0), activity(None, 100, 200), activity(None, 400, 500)],
    );
    // midpoints are 50 and 300; the window starts at 0, so the first gap wins
    assert_eq!(estimate_service_start_time(&route.route, &job, &None), 50);
    let mut later = job.clone();
    later.places[0].times = vec![TimeWindow { start: 250, end: 1000 }];
    assert_eq!(estimate_service_start_time(&route.route, &later, &None), 300);
}

#[test]
fn test_job_group_compatibility() {
    let f = feature();
    let mut a = sync_job("a", "sync1", 0, 2);
    a.dimens.job_group = Some("groupA".to_string());
    let mut b = sync_job("b", "sync1", 1, 2);
    b.dimens.job_group = Some("groupB".to_string());
    let mut s = solution(vec![route_with(0, vec![activity(Some(a.clone()), 0, 10)]), empty_route(1)]);
    // First job should be accepted
    assert!(f.evaluate(&s, &s.routes[1], &a).is_none());

    s.state.sync_groups = Some(vec![("sync1".to_string(), info(2, vec![(0, 0, 0, 900)]))]);
    assert_eq!(f.evaluate(&s, &s.routes[1], &b), fail());
    let mut same = b.clone();
    same.dimens.job_group = Some("groupA".to_string());
    assert_eq!(f.evaluate(&s, &s.routes[1], &same), None);
}

#[test]
fn test_skills_independence() {
    let f = feature();
    let a = sync_job("a", "sync1", 0, 2);
    let mut s = solution(vec![route_with(0, vec![activity(Some(a), 0, 10)]), empty_route(1)]);
    s.state.sync_groups = Some(vec![("sync1".to_string(), info(2, vec![(0, 0, 0, 900)]))]);
    // no skills are compared: a member without group, affinity or class fits
    assert_eq!(f.evaluate(&s, &s.routes[1], &sync_job("b", "sync1", 1, 2)), None);
}

#[test]
fn test_partial_assignment_cleanup() {
    let f = feature();
    let failed_job = sync_job("job3", "group1", 2, 3);
    let mut s = solution(vec![empty_route(0), empty_route(1), empty_route(2)]);
    s.state.sync_groups = Some(vec![("group1".to_string(), info(3, vec![(0, 0, 100, 900), (1, 1, 105, 900)]))]);
    for i in 0..2 {
        s.routes[i].state.sync_groups = Some(vec!["group1".to_string()]);
    }

    let modified = f.notify_failure(&mut s, &vec![2], &vec![failed_job.clone()]);
    assert!(modified, "Failure notification should modify state");
    assert_eq!(group(&s, "group1").assignments.len(), 0, "Partial assignments should be cleared");
    assert!(s.routes[0].state.sync_groups.as_ref().unwrap().is_empty());
    assert!(s.routes[1].state.sync_groups.as_ref().unwrap().is_empty());

    // a second call in a row changes nothing
    let before = format!("{:?}", s.state.sync_groups);
    assert!(!f.notify_failure(&mut s, &vec![2], &vec![failed_job]));
    assert_eq!(before, format!("{:?}", s.state.sync_groups));
}

#[test]
fn test_complete_group_preservation() {
    let f = feature();
    let failed_job = sync_job("job_other", "group2", 0, 2);
    let mut s = solution(vec![empty_route(0), empty_route(1), empty_route(2)]);
    s.state.sync_groups = Some(vec![
        ("group1".to_string(), info(2, vec![(0, 0, 100, 900), (1, 1, 105, 900)])),
        ("group2".to_string(), info(2, vec![(2, 0, 200, 900)])),
    ]);

    let modified = f.notify_failure(&mut s, &vec![3], &vec![failed_job]);
    assert!(modified, "Should modify state for partial group cleanup");
    assert_eq!(group(&s, "group1").assignments.len(), 2, "Complete group should be preserved");
    assert_eq!(group(&s, "group2").assignments.len(), 0, "Partial group should be cleared");
}

#[test]
fn test_non_sync_job_failure_ignored() {
    let f = feature();
    let mut plain = sync_job("plain", "x", 0, 2);
    plain.dimens.sync_group = None;
    let mut s = solution(vec![empty_route(0)]);
    s.state.sync_groups = Some(vec![("group1".to_string(), info(3, vec![(0, 0, 100, 900)]))]);
    let before = format!("{:?}", s.state.sync_groups);
    assert!(!f.notify_failure(&mut s, &vec![0], &vec![plain]));
    assert_eq!(before, format!("{:?}", s.state.sync_groups));
}

#[test]
fn failure_without_state_changes_nothing() {
    let f = feature();
    let mut s = solution(vec![empty_route(0)]);
    assert!(!f.notify_failure(&mut s, &vec![0], &vec![sync_job("a", "g", 0, 2)]));
    assert!(s.state.sync_groups.is_none());
}

#[test]
fn test_constraint_merge_behavior() {
    let f = feature();
    let a = sync_job("a", "g", 0, 2);
    let same_member = sync_job("b", "g", 0, 2);
    let other_index = sync_job("c", "g", 1, 2);
    let other_group = sync_job("d", "h", 0, 2);
    let mut plain = sync_job("e", "g", 0, 2);
    plain.dimens.sync_group = None;
    plain.dimens.sync_index = None;

    assert!(f.merge(a.clone(), &same_member).is_ok());
    assert_eq!(f.merge(a.clone(), &other_index).err(), Some(CODE));
    assert_eq!(f.merge(a.clone(), &other_group).err(), Some(CODE));
    assert!(f.merge(plain.clone(), &plain.clone()).is_ok());
    assert_eq!(f.merge(plain, &a).err(), Some(CODE));
}

#[test]
fn test_optimized_accept_insertion() {
    let f = feature();
    let job = sync_job("job1", "group1", 0, 2);
    let mut s = solution(vec![empty_route(0)]);
    // no timing in an empty route: nothing is recorded
    f.accept_insertion(&mut s, 0, &job);
    assert!(s.state.sync_groups.is_none());

    let mut act = activity(Some(job.clone()), 120, 130);
    act.time_start = 100;
    s.routes[0].route.activities.push(act);
    f.accept_insertion(&mut s, 0, &job);
    assert_eq!(group(&s, "group1").assignments, vec![(0, 0, 120, 900)]);
    assert_eq!(group(&s, "group1").required_size, 2);
    assert_eq!(s.routes[0].state.sync_groups, Some(vec!["group1".to_string()]));
}

#[test]
fn test_full_state_rebuild() {
    let f = feature();
    let a = sync_job("a", "g", 0, 2);
    let b = sync_job("b", "g", 1, 2);
    let mut s = solution(vec![
        route_with(0, vec![activity(Some(a), 100, 110)]),
        route_with(1, vec![activity(Some(b), 105, 115)]),
    ]);
    f.accept_solution_state(&mut s);
    assert_eq!(group(&s, "g").assignments, vec![(0, 0, 100, 900), (1, 1, 105, 900)]);
    assert_eq!(s.routes[0].state.sync_groups, Some(vec!["g".to_string()]));

    // the second pass corrects against the routes and changes nothing here
    let before = format!("{:?}", s.state.sync_groups);
    f.accept_solution_state(&mut s);
    assert_eq!(before, format!("{:?}", s.state.sync_groups));
}

#[test]
fn test_incremental_state_updates() {
    let f = feature();
    let a = sync_job("a", "g", 0, 2);
    let mut s = solution(vec![route_with(0, vec![activity(Some(a), 100, 110)]), empty_route(1)]);
    s.state.sync_groups = Some(vec![
        ("g".to_string(), info(2, vec![(0, 0, 50, 900), (1, 1, 60, 900)])),
        ("gone".to_string(), info(2, vec![(1, 0, 70, 900)])),
    ]);
    f.accept_solution_state(&mut s);
    // the member of route 0 is refreshed, the one of route 1 is dropped,
    // and the group left without members disappears
    assert_eq!(s.state.sync_groups.as_ref().unwrap().len(), 1);
    assert_eq!(group(&s, "g").assignments, vec![(0, 0, 100, 900)]);
}

#[test]
fn sync_feature_has_its_name() {
    let f = feature();
    assert_eq!(f.name, "sync");
    assert_eq!(f.code, CODE);
}

#[test]
fn transport_estimate_travels_from_the_route_end() {
    // 3 locations, durations 10 * |i - j|
    let mut durations = vec![];
    for i in 0..3i64 {
        for j in 0..3i64 {
            durations.push(10 * (i - j).abs());
        }
    }
    let t = SimpleTransportCost::new(durations.clone(), durations).unwrap();
    let route = route_with(0, vec![activity(None, 80, 100)]);
    let mut job = sync_job("x", "g", 0, 2);
    job.places[0].location = Some(2);
    // leave at 100, travel 20, margin at least 30
    assert_eq!(estimate_service_start_time(&route.route, &job, &Some(t.clone())), 150);
    job.places[0].times = vec![TimeWindow { start: 200, end: 300 }];
    assert_eq!(estimate_service_start_time(&route.route, &job, &Some(t.clone())), 230);

    let f = vrp_features::sync::create_job_sync_feature_with_costs("sync", CODE, t).unwrap();
    assert!(f.transport.is_some());
}

#[test]
fn reconciliation_adds_members_missing_from_the_groups() {
    let f = feature();
    let a = sync_job("a", "g", 0, 2);
    let mut s = solution(vec![route_with(0, vec![activity(Some(a), 100, 110)])]);
    // an existing but empty aggregate
    s.state.sync_groups = Some(vec![]);
    f.accept_solution_state(&mut s);
    assert_eq!(group(&s, "g").assignments, vec![(0, 0, 100, 900)]);
}
