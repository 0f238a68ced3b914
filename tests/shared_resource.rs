use vrp_features::model::{
    Activity, Actor, ActorDetail, Costs, Dimensions, Driver, Job, Place, Route, RouteContext,
    RouteState, Schedule, TimeWindow, Vehicle,
};
use vrp_features::shared_resource::SharedResourceModule;
use vrp_features::solution::{ConstraintViolation, SolutionContext, SolutionState, ViolationCode};

const CODE: ViolationCode = ViolationCode(5);

fn costs() -> Costs {
    Costs { fixed: 0, per_distance: 0, per_driving_time: 0, per_waiting_time: 0, per_service_time: 0 }
}

fn actor(id: usize) -> Actor {
    Actor {
        vehicle: Vehicle { id, profile: 0, costs: costs(), tiered_costs: None, details: vec![] },
        driver: Driver { costs: costs(), tiered_costs: None, details: vec![] },
        detail: ActorDetail { start: None, end: None, time: TimeWindow { start: 0, end: 1000 } },
    }
}

fn act(demand: Option<u64>, resource: Option<(u64, usize)>) -> Activity {
    let job = demand.map(|d| {
        let mut dimens = Dimensions::empty();
        dimens.resource_demand = Some(d);
        Job { dimens, places: vec![Place { location: None, duration: 0, times: vec![] }], activities: 1 }
    });
    Activity { location: 0, time_start: 0, duration: 0, schedule: Schedule { arrival: 0, departure: 0 }, job, resource }
}

fn route(id: usize, acts: Vec<Activity>, intervals: Vec<(usize, usize)>) -> RouteContext {
    RouteContext {
        route: Route { actor: actor(id), activities: acts },
        state: RouteState { sync_groups: None, resource_intervals: intervals, resource_available: vec![] },
    }
}

#[test]
fn shared_resource_is_counted_across_routes() {
    let module = SharedResourceModule::new(CODE);
    let a = route(1, vec![act(None, Some((10, 7))), act(Some(3), None), act(Some(4), None)], vec![(0, 2)]);
    let b = route(2, vec![act(Some(2), Some((10, 7))), act(Some(5), None)], vec![(0, 0)]);
    let mut s = SolutionContext { required: vec![], ignored: vec![], routes: vec![a, b], state: SolutionState::empty() };

    module.update_resource_consumption(&mut s);

    // demand 3 + 4 in the first route and 2 in the second: 1 of 10 is left
    assert_eq!(s.routes[0].state.resource_available, vec![(0, 1)]);
    assert_eq!(s.routes[1].state.resource_available, vec![(0, 1)]);

    assert_eq!(module.evaluate_activity(&s.routes[0], 2), Some(ConstraintViolation { code: CODE, stopped: false }));
    assert_eq!(module.evaluate_activity(&s.routes[0], 0), None);
    // past every interval nothing is checked
    assert_eq!(module.evaluate_activity(&s.routes[1], 1), None);
}

#[test]
fn separate_resources_have_separate_totals() {
    let module = SharedResourceModule::new(CODE);
    let a = route(1, vec![act(None, Some((10, 1))), act(Some(6), None)], vec![(0, 1)]);
    let b = route(2, vec![act(None, Some((5, 2))), act(Some(6), None)], vec![(0, 5)]);
    let mut s = SolutionContext { required: vec![], ignored: vec![], routes: vec![a, b], state: SolutionState::empty() };

    module.update_resource_consumption(&mut s);

    assert_eq!(s.routes[0].state.resource_available, vec![(0, 4)]);
    assert_eq!(s.routes[1].state.resource_available, vec![(0, -1)]);
    assert!(module.evaluate_activity(&s.routes[0], 1).is_some());

    // running it again keeps the same amounts
    module.update_resource_consumption(&mut s);
    assert_eq!(s.routes[0].state.resource_available, vec![(0, 4)]);
    assert_eq!(s.routes[1].state.resource_available, vec![(0, -1)]);
}
