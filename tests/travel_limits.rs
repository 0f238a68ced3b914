use vrp_features::costs::SimpleTransportCost;
use vrp_features::model::{
    Activity, Actor, ActorDetail, Costs, Dimensions, Driver, Job, Place, Route, RouteContext,
    RouteState, Schedule, TimeWindow, Vehicle,
};
use vrp_features::solution::{ConstraintViolation, ViolationCode};
use vrp_features::tour_limits::{create_travel_limit_feature, ActivityContext, TravelLimitFeature, TravelLimits};

const DISTANCE: ViolationCode = ViolationCode(1);
const DURATION: ViolationCode = ViolationCode(2);
const WORK: ViolationCode = ViolationCode(3);

fn costs() -> Costs {
    Costs { fixed: 0, per_distance: 0, per_driving_time: 0, per_waiting_time: 0, per_service_time: 0 }
}

fn depot(at: i64) -> Activity {
    Activity { location: 0, time_start: 0, duration: 0, schedule: Schedule { arrival: at, departure: at }, job: None, resource: None }
}

fn job_at(location: usize, duration: i64, arrival: i64) -> Activity {
    let mut dimens = Dimensions::empty();
    dimens.job_id = Some(format!("job{location}"));
    let job = Job { dimens, places: vec![Place { location: Some(location), duration, times: vec![] }], activities: 1 };
    Activity {
        location,
        time_start: 0,
        duration,
        schedule: Schedule { arrival, departure: arrival + duration },
        job: Some(job),
        resource: None,
    }
}

fn route(acts: Vec<Activity>) -> RouteContext {
    RouteContext {
        route: Route {
            actor: Actor {
                vehicle: Vehicle { id: 1, profile: 0, costs: costs(), tiered_costs: None, details: vec![] },
                driver: Driver { costs: costs(), tiered_costs: None, details: vec![] },
                detail: ActorDetail { start: None, end: None, time: TimeWindow { start: 0, end: 100000 } },
            },
            activities: acts,
        },
        state: RouteState { sync_groups: None, resource_intervals: vec![], resource_available: vec![] },
    }
}

fn feature(durations: Vec<i64>, distances: Vec<i64>, limits: TravelLimits) -> TravelLimitFeature {
    let t = SimpleTransportCost::new(durations, distances).unwrap();
    create_travel_limit_feature("limits", t, DISTANCE, DURATION, WORK, vec![limits]).unwrap()
}

fn work_limit(limit: i64) -> TravelLimits {
    TravelLimits { vehicle: 1, distance: None, duration: None, activity_duration: Some(limit) }
}

fn insert_before_end(r: &RouteContext, target: Activity) -> ActivityContext {
    let n = r.route.activities.len();
    ActivityContext {
        index: n - 1,
        prev: r.route.activities[n - 2].clone(),
        target,
        next: Some(r.route.activities[n - 1].clone()),
    }
}

#[test]
fn can_limit_one_job_by_max_work_duration() {
    let f = feature(vec![1, 100, 100, 1], vec![1, 1, 1, 1], work_limit(9));
    let r = route(vec![depot(0), depot(0)]);
    let v = f.evaluate(&r, &insert_before_end(&r, job_at(1, 15, 0)));
    assert_eq!(v, Some(ConstraintViolation { code: WORK, stopped: false }));
}

#[test]
fn can_serve_job_when_work_duration_within_limit() {
    let f = feature(vec![1, 100, 100, 1], vec![1, 1, 1, 1], work_limit(11));
    let r = route(vec![depot(0), depot(0)]);
    assert_eq!(f.evaluate(&r, &insert_before_end(&r, job_at(1, 1, 0))), None);
}

#[test]
fn can_skip_jobs_when_work_duration_exceeds_limit() {
    // depot at 0, jobs at 1, 2, 3 on a line: travel time is the distance
    let mut m = vec![];
    for i in 0..4i64 {
        for j in 0..4i64 {
            m.push((i - j).abs());
        }
    }
    let f = feature(m.clone(), m, work_limit(15));
    let mut r = route(vec![depot(0), depot(0)]);
    assert_eq!(f.evaluate(&r, &insert_before_end(&r, job_at(1, 5, 1))), None);
    r.route.activities.insert(1, job_at(1, 5, 1));
    // second job: from the first job's arrival at 1 to departure at 12
    assert_eq!(f.evaluate(&r, &insert_before_end(&r, job_at(2, 5, 7))), None);
    r.route.activities.insert(2, job_at(2, 5, 7));
    // a third would run until 18: 17 > 15
    let v = f.evaluate(&r, &insert_before_end(&r, job_at(3, 5, 13)));
    assert_eq!(v, Some(ConstraintViolation { code: WORK, stopped: false }));
}

#[test]
fn work_duration_limit_does_not_include_depot_travel() {
    let f = feature(vec![1, 50, 50, 1], vec![1, 1, 1, 1], work_limit(10));
    let r = route(vec![depot(0), depot(0)]);
    assert_eq!(f.evaluate(&r, &insert_before_end(&r, job_at(1, 10, 0))), None);
}

#[test]
fn distance_and_duration_caps_use_route_totals() {
    let limits = TravelLimits { vehicle: 1, distance: Some(40), duration: Some(1000), activity_duration: None };
    // distances 10 * |i - j| over 3 locations
    let mut d = vec![];
    for i in 0..3i64 {
        for j in 0..3i64 {
            d.push(10 * (i - j).abs());
        }
    }
    let f = feature(d.clone(), d, limits);
    let r = route(vec![depot(0), depot(0)]);
    // detour 0 -> 2 -> 0 adds 40: exactly the cap
    assert_eq!(f.evaluate(&r, &insert_before_end(&r, job_at(2, 0, 0))), None);
    let mut longer = route(vec![depot(0), job_at(1, 0, 0), depot(0)]);
    longer.route.activities[1].schedule = Schedule { arrival: 10, departure: 10 };
    // current 20, detour 1 -> 2 -> 0 adds 10 + 20 - 10 = 20: 40 again
    assert_eq!(f.evaluate(&longer, &insert_before_end(&longer, job_at(2, 0, 0))), None);
    let tight = TravelLimits { vehicle: 1, distance: Some(39), duration: None, activity_duration: None };
    let g = create_travel_limit_feature("limits", f.transport.clone(), DISTANCE, DURATION, WORK, vec![tight]).unwrap();
    assert_eq!(
        g.evaluate(&longer, &insert_before_end(&longer, job_at(2, 0, 0))),
        Some(ConstraintViolation { code: DISTANCE, stopped: false })
    );
    // vehicles without caps are never refused
    let other = create_travel_limit_feature("limits", f.transport.clone(), DISTANCE, DURATION, WORK, vec![]).unwrap();
    assert_eq!(other.evaluate(&longer, &insert_before_end(&longer, job_at(2, 0, 0))), None);
}

fn capped_route(vehicle: usize, start: bool) -> RouteContext {
    let mut r = route(vec![depot(0), depot(0)]);
    r.route.actor.vehicle.id = vehicle;
    if start {
        let place = vrp_features::model::VehiclePlace {
            location: 0,
            time: vrp_features::model::TimeInterval { earliest: Some(0), latest: None },
        };
        r.route.actor.detail.start = Some(place);
        r.route.actor.detail.time = TimeWindow { start: 0, end: 1000 };
    }
    r
}

fn windowed_job(location: usize, start: i64, end: i64) -> Job {
    let mut dimens = Dimensions::empty();
    dimens.job_id = Some("late".to_string());
    Job { dimens, places: vec![Place { location: Some(location), duration: 5, times: vec![TimeWindow { start, end }] }], activities: 1 }
}

#[test]
fn failure_opens_a_route_that_reaches_a_window() {
    let mut m = vec![];
    for i in 0..3i64 {
        for j in 0..3i64 {
            m.push(10 * (i - j).abs());
        }
    }
    let limits = vec![
        TravelLimits { vehicle: 1, distance: None, duration: Some(500), activity_duration: None },
        TravelLimits { vehicle: 2, distance: None, duration: None, activity_duration: Some(500) },
    ];
    let t = SimpleTransportCost::new(m.clone(), m).unwrap();
    let f = create_travel_limit_feature("limits", t, DISTANCE, DURATION, WORK, limits).unwrap();
    let mut s = vrp_features::solution::SolutionContext {
        required: vec![],
        ignored: vec![],
        routes: vec![route(vec![depot(0), job_at(1, 5, 10), depot(0)])],
        state: vrp_features::solution::SolutionState::empty(),
    };
    // vehicle 3 has no cap; vehicle 2 has one and a depot
    let mut available = vec![capped_route(3, true), capped_route(2, true)];
    let jobs = vec![windowed_job(2, 100, 200)];

    assert!(f.notify_failure(&mut s, &vec![0], &jobs, &mut available));
    assert_eq!(s.routes.len(), 2);
    assert_eq!(available.len(), 1);
    assert_eq!(s.routes[1].route.actor.vehicle.id, 2);
    // the latest departure that still reaches the window: 200 - 20
    assert_eq!(s.routes[1].route.activities[0].schedule.departure, 180);

    // an empty failed route with a duration cap blocks opening another one
    s.routes[0].route.activities = vec![depot(0), depot(0)];
    s.routes[0].route.actor.vehicle.id = 1;
    let mut more = vec![capped_route(2, true)];
    assert!(!f.notify_failure(&mut s, &vec![0], &jobs, &mut more));
    assert_eq!(more.len(), 1);
    assert_eq!(s.routes.len(), 2);
}
