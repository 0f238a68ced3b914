use vrp_features::costs::{
    create_matrix_transport_cost, CoordinatedCostCalculator, MatrixData, MatrixError, SimpleTransportCost,
};
use vrp_features::model::{
    Activity, Actor, ActorDetail, Costs, Driver, Route, Schedule, TimeWindow, Vehicle,
};
use vrp_features::tiered_costs::{CostTier, TieredCost, TieredCosts};

fn costs(per_distance: i64, per_driving_time: i64, per_waiting_time: i64, per_service_time: i64) -> Costs {
    Costs { fixed: 0, per_distance, per_driving_time, per_waiting_time, per_service_time }
}

fn stop(location: usize, time_start: i64, duration: i64) -> Activity {
    Activity { location, time_start, duration, schedule: Schedule { arrival: 0, departure: 0 }, job: None, resource: None }
}

fn route(vehicle_costs: Costs, vehicle_tiers: Option<TieredCosts>, driver_costs: Costs, acts: Vec<Activity>) -> Route {
    Route {
        actor: Actor {
            vehicle: Vehicle { id: 1, profile: 0, costs: vehicle_costs, tiered_costs: vehicle_tiers, details: vec![] },
            driver: Driver { costs: driver_costs, tiered_costs: None, details: vec![] },
            detail: ActorDetail { start: None, end: None, time: TimeWindow { start: 0, end: 1000 } },
        },
        activities: acts,
    }
}

// 3 locations: durations d(i, j) = 10 * |i - j|, distances = 100 * |i - j|
fn matrix() -> SimpleTransportCost {
    let mut durations = vec![];
    let mut distances = vec![];
    for i in 0..3i64 {
        for j in 0..3i64 {
            durations.push(10 * (i - j).abs());
            distances.push(100 * (i - j).abs());
        }
    }
    SimpleTransportCost::new(durations, distances).unwrap()
}

#[test]
fn matrix_size_is_the_rounded_root() {
    assert_eq!(matrix().size(), 3);
    assert_eq!(SimpleTransportCost::new(vec![1; 10], vec![1; 8]).unwrap().size, 3);
    assert_eq!(SimpleTransportCost::new(vec![], vec![]).unwrap().size, 0);
    assert!(matches!(SimpleTransportCost::new(vec![1; 4], vec![1; 9]), Err(MatrixError::SizeMismatch)));
}

#[test]
fn matrix_lookups() {
    let t = matrix();
    assert_eq!(t.duration_approx(0, 2), 20);
    assert_eq!(t.distance_approx(2, 1), 100);
    assert_eq!(t.distance_approx(1, 1), 0);
    // outside the matrix
    assert_eq!(t.duration_approx(5, 5), 0);
}

#[test]
fn route_totals_sum_the_legs() {
    let t = matrix();
    let r = route(costs(1, 1, 0, 0), None, costs(0, 0, 0, 0), vec![stop(0, 0, 0), stop(2, 0, 0), stop(1, 0, 0)]);
    assert_eq!(t.get_route_totals(&r), (300, 30));
}

#[test]
fn fixed_rates_price_a_leg() {
    let t = matrix();
    let r = route(costs(2, 3, 0, 0), None, costs(1, 1, 0, 0), vec![stop(0, 0, 0), stop(2, 0, 0)]);
    // distance 200 at 2 + 1, duration 20 at 3 + 1
    assert_eq!(t.cost(&r, 0, 2), 200 * 3 + 20 * 4);
}

#[test]
fn tiered_rates_follow_route_totals() {
    let t = matrix();
    let tiers = TieredCosts::with_highest_tier_mode(
        TieredCost::tiered(vec![CostTier { threshold: 0, cost: 1 }, CostTier { threshold: 250, cost: 5 }]).unwrap(),
        TieredCost::fixed(2).unwrap(),
    );
    let short = route(costs(9, 9, 0, 0), Some(tiers.clone()), costs(0, 0, 0, 0), vec![stop(0, 0, 0), stop(2, 0, 0)]);
    let long = route(costs(9, 9, 0, 0), Some(tiers), costs(0, 0, 0, 0), vec![stop(0, 0, 0), stop(2, 0, 0), stop(1, 0, 0)]);
    // route distance 200 keeps the first tier, 300 reaches the second
    assert_eq!(t.cost(&short, 0, 1), 100 * 1 + 10 * 2);
    assert_eq!(t.cost(&long, 0, 1), 100 * 5 + 10 * 2);
}

#[test]
fn activity_cost_counts_waiting_and_service() {
    let t = matrix();
    let r = route(costs(0, 0, 2, 3), None, costs(0, 0, 1, 1), vec![]);
    let a = stop(0, 100, 30);
    // 40 waiting at 2 + 1, 30 service at 3 + 1
    assert_eq!(t.activity_cost(&r, &a, 60), 40 * 3 + 30 * 4);
    // arriving late: no waiting
    assert_eq!(t.activity_cost(&r, &a, 150), 30 * 4);
}

#[test]
fn coordinated_calculator_remembers_route_totals() {
    let tiers = TieredCosts::with_highest_tier_mode(
        TieredCost::tiered(vec![CostTier { threshold: 0, cost: 1 }, CostTier { threshold: 250, cost: 5 }]).unwrap(),
        TieredCost::fixed(2).unwrap(),
    );
    let short = route(costs(9, 9, 1, 1), Some(tiers.clone()), costs(0, 0, 0, 0), vec![stop(0, 0, 0), stop(2, 0, 0)]);
    let long = route(costs(9, 9, 1, 1), Some(tiers), costs(0, 0, 0, 0), vec![stop(0, 0, 0), stop(2, 0, 0), stop(1, 0, 0)]);

    let mut calc = CoordinatedCostCalculator::new(matrix());
    assert_eq!(calc.cache_size(), 0);
    assert_eq!(calc.cost(&short, 0, 1), matrix().cost(&short, 0, 1));
    assert_eq!(calc.cache_size(), 1);
    assert_eq!(calc.cost(&short, 0, 1), 100 + 20);
    assert_eq!(calc.cache_size(), 1);
    assert_eq!(calc.cost(&long, 0, 1), 100 * 5 + 10 * 2);
    assert_eq!(calc.cache_size(), 2);
    assert_eq!(calc.get_route_totals(&long), (300, 30));
    let a = stop(0, 100, 30);
    assert_eq!(calc.activity_cost(&long, &a, 60), matrix().activity_cost(&long, &a, 60));
    calc.clear_cache();
    assert_eq!(calc.cache_size(), 0);
    assert_eq!(calc.cost(&long, 0, 1), 100 * 5 + 10 * 2);
}

#[test]
fn profile_matrices_are_ordered_by_profile() {
    let car = MatrixData::new(1, None, vec![0, 7, 7, 0], vec![0, 70, 70, 0]);
    let bike = MatrixData::new(0, None, vec![0, 20, 20, 0], vec![0, 60, 60, 0]);
    let t = create_matrix_transport_cost(vec![car, bike]).unwrap();
    assert_eq!(t.size, 2);
    assert_eq!(t.duration_approx(0, 0, 1), Some(20));
    assert_eq!(t.distance_approx(1, 1, 0), Some(70));
    assert_eq!(t.duration_approx(2, 0, 1), None);
    assert_eq!(t.duration_approx(0, 3, 3), None);
}

#[test]
fn profile_matrices_are_validated() {
    let ok = |i: usize| MatrixData::new(i, None, vec![1; 4], vec![1; 4]);
    assert!(matches!(create_matrix_transport_cost(vec![]), Err(MatrixError::NoMatrix)));
    assert!(matches!(
        create_matrix_transport_cost(vec![MatrixData::new(0, None, vec![1; 4], vec![1; 9])]),
        Err(MatrixError::LengthMismatch)
    ));
    assert!(matches!(
        create_matrix_transport_cost(vec![ok(0), MatrixData::new(1, None, vec![1; 9], vec![1; 9])]),
        Err(MatrixError::SizeMismatch)
    ));
    assert!(matches!(
        create_matrix_transport_cost(vec![MatrixData::new(0, Some(0), vec![1; 4], vec![1; 4])]),
        Err(MatrixError::TimeAware)
    ));
    assert!(matches!(create_matrix_transport_cost(vec![ok(0), ok(0)]), Err(MatrixError::DuplicateProfiles)));
    assert!(matches!(create_matrix_transport_cost(vec![ok(1)]), Err(MatrixError::DuplicateProfiles)));
    assert!(create_matrix_transport_cost(vec![ok(1), ok(0)]).is_ok());
}
