// Amounts, thresholds and rates with one decimal are written in tenths
// (99.9 is 999, a rate of 0.5 is 5); a cost is then in hundredths.
use vrp_features::tiered_costs::{
    CostError, CostTier, TieredCost, TieredCostCalculationMode, TieredCosts,
};

fn tier(threshold: i64, cost: i64) -> CostTier {
    CostTier { threshold, cost }
}

fn highest(c: &TieredCost, total: i64) -> i128 {
    c.calculate_cost_with_mode(total, &TieredCostCalculationMode::HighestTier)
}

fn cumulative(c: &TieredCost, total: i64) -> i128 {
    c.calculate_cost_with_mode(total, &TieredCostCalculationMode::Cumulative)
}

#[test]
fn tiered_costs_test_test_tiered_cost_calculation() {
    let distance_tiers = vec![tier(0, 1), tier(5000, 2), tier(10000, 3)];
    // time rates 0.5, 1.0, 1.5 in tenths
    let time_tiers = vec![tier(0, 5), tier(600, 10), tier(1200, 15)];

    let distance_tiered_cost = TieredCost::tiered(distance_tiers).unwrap();
    let time_tiered_cost = TieredCost::tiered(time_tiers).unwrap();

    let total_distance = 7976;
    let total_time = 798;

    let distance_rate = distance_tiered_cost.calculate_rate(total_distance);
    let time_rate = time_tiered_cost.calculate_rate(total_time);

    assert_eq!(distance_rate, 2, "Distance {} should use tier rate 2.0", total_distance);
    assert_eq!(time_rate, 10, "Time {} should use tier rate 1.0", total_time);

    let distance_cost = total_distance * distance_rate;
    let time_cost = total_time * time_rate / 10;
    let service_cost = 300 * time_rate / 10;
    let fixed_cost = 100;

    let expected_total = fixed_cost + distance_cost + time_cost + service_cost;
    assert_eq!(expected_total, 17150, "Expected total cost should be 17150.0");
}

#[test]
fn fleet_test_tiered_cost_calculation() {
    let distance_tiered_cost =
        TieredCost::tiered(vec![tier(0, 1), tier(5000, 2), tier(10000, 3)]).unwrap();
    let time_tiered_cost = TieredCost::tiered(vec![tier(0, 5), tier(600, 10), tier(1200, 15)]).unwrap();

    let total_distance = 7976;
    let total_time = 798;

    let distance_rate = distance_tiered_cost.calculate_rate(total_distance);
    let time_rate = time_tiered_cost.calculate_rate(total_time);

    assert_eq!(distance_rate, 2);
    assert_eq!(time_rate, 10);

    let expected_total =
        100 + total_distance * distance_rate + total_time * time_rate / 10 + 300 * time_rate / 10;
    assert_eq!(expected_total, 17150);
}

#[test]
fn test_tier_boundary_selection() {
    // thresholds 0, 100.0, 200.0 in tenths
    let distance_cost = TieredCost::tiered(vec![tier(0, 1), tier(1000, 2), tier(2000, 3)]).unwrap();

    assert_eq!(distance_cost.calculate_rate(0), 1);
    assert_eq!(distance_cost.calculate_rate(500), 1);
    assert_eq!(distance_cost.calculate_rate(999), 1);
    assert_eq!(distance_cost.calculate_rate(1000), 2);
    assert_eq!(distance_cost.calculate_rate(1500), 2);
    assert_eq!(distance_cost.calculate_rate(1999), 2);
    assert_eq!(distance_cost.calculate_rate(2000), 3);
    assert_eq!(distance_cost.calculate_rate(5000), 3);
}

#[test]
fn test_tiered_cost_tier_selection() {
    let distance_cost = TieredCost::tiered(vec![tier(0, 1), tier(1000, 2), tier(2000, 3)]).unwrap();

    assert_eq!(distance_cost.calculate_rate(0), 1);
    assert_eq!(distance_cost.calculate_rate(500), 1);
    assert_eq!(distance_cost.calculate_rate(999), 1);
    assert_eq!(distance_cost.calculate_rate(1000), 2);
    assert_eq!(distance_cost.calculate_rate(1500), 2);
    assert_eq!(distance_cost.calculate_rate(1999), 2);
    assert_eq!(distance_cost.calculate_rate(2000), 3);
    assert_eq!(distance_cost.calculate_rate(5000), 3);
}

#[test]
fn can_calculate_tiered_cost_rates() {
    // thresholds 0, 50.0, 100.0 and rates 1.0, 1.5, 2.0, all in tenths
    let distance_cost = TieredCost::Tiered(vec![tier(0, 10), tier(500, 15), tier(1000, 20)]);

    assert_eq!(distance_cost.calculate_rate(0), 10);
    assert_eq!(distance_cost.calculate_rate(250), 10);
    assert_eq!(distance_cost.calculate_rate(499), 10);
    assert_eq!(distance_cost.calculate_rate(500), 15);
    assert_eq!(distance_cost.calculate_rate(750), 15);
    assert_eq!(distance_cost.calculate_rate(999), 15);
    assert_eq!(distance_cost.calculate_rate(1000), 20);
    assert_eq!(distance_cost.calculate_rate(1500), 20);
}

#[test]
fn test_validation() {
    assert!(CostTier::new(-1, 1).is_err());
    assert!(CostTier::new(1, -1).is_err());

    assert!(TieredCost::tiered(vec![tier(10, 1)]).is_err());
    assert!(TieredCost::tiered(vec![tier(0, 1), tier(0, 2)]).is_err());
}

#[test]
fn test_highest_tier_calculation_mode() {
    let tiered_cost = TieredCost::tiered(vec![tier(0, 2), tier(3, 4), tier(5, 5)]).unwrap();

    assert_eq!(highest(&tiered_cost, 6), 30, "6h with highest tier mode should be 6 * 5 = 30");
    assert_eq!(highest(&tiered_cost, 4), 16, "4h with highest tier mode should be 4 * 4 = 16");
    assert_eq!(highest(&tiered_cost, 2), 4, "2h with highest tier mode should be 2 * 2 = 4");
}

#[test]
fn test_cumulative_calculation_mode() {
    let tiered_cost = TieredCost::tiered(vec![tier(0, 2), tier(3, 4), tier(5, 5)]).unwrap();

    assert_eq!(cumulative(&tiered_cost, 6), 19, "6h: 3*2 + 2*4 + 1*5 = 19");
    assert_eq!(cumulative(&tiered_cost, 4), 10, "4h: 3*2 + 1*4 = 10");
    assert_eq!(cumulative(&tiered_cost, 2), 4, "2h: 2*2 = 4");
    assert_eq!(cumulative(&tiered_cost, 7), 24, "7h: 3*2 + 2*4 + 2*5 = 24");
}

#[test]
fn test_fixed_cost_with_both_modes() {
    let fixed_cost = TieredCost::fixed(3).unwrap();

    let highest_tier_cost = highest(&fixed_cost, 10);
    let cumulative_cost = cumulative(&fixed_cost, 10);

    assert_eq!(highest_tier_cost, 30, "Fixed cost with highest tier: 10 * 3 = 30");
    assert_eq!(cumulative_cost, 30, "Fixed cost with cumulative: 10 * 3 = 30");
    assert_eq!(highest_tier_cost, cumulative_cost);
}

#[test]
fn test_tiered_costs_struct_with_calculation_modes() {
    let distance_tiers = TieredCost::tiered(vec![tier(0, 10), tier(1000, 20)]).unwrap();
    let time_tiers = TieredCost::tiered(vec![tier(0, 5), tier(600, 10)]).unwrap();

    let highest_tier_costs = TieredCosts::new(
        distance_tiers.clone(),
        time_tiers.clone(),
        TieredCostCalculationMode::HighestTier,
    );
    let cumulative_costs =
        TieredCosts::new(distance_tiers, time_tiers, TieredCostCalculationMode::Cumulative);
    let backward_compatible_costs =
        TieredCosts::with_highest_tier_mode(TieredCost::fixed(10).unwrap(), TieredCost::fixed(5).unwrap());

    assert_eq!(highest_tier_costs.calculation_mode, TieredCostCalculationMode::HighestTier);
    assert_eq!(cumulative_costs.calculation_mode, TieredCostCalculationMode::Cumulative);
    assert_eq!(backward_compatible_costs.calculation_mode, TieredCostCalculationMode::HighestTier);
}

#[test]
fn test_calculation_mode_edge_cases() {
    let tiered_cost = TieredCost::tiered(vec![tier(0, 2), tier(5, 4)]).unwrap();

    assert_eq!(highest(&tiered_cost, 5), 20, "At threshold 5.0, highest tier: 5 * 4 = 20");
    assert_eq!(cumulative(&tiered_cost, 5), 10, "At threshold 5.0, cumulative: 5 * 2 = 10");

    assert_eq!(highest(&tiered_cost, 0), 0);
    assert_eq!(cumulative(&tiered_cost, 0), 0);
}

// Route-level scenarios: given route totals priced with fleet tiers.

#[test]
fn can_calculate_exact_tiered_costs() {
    let distance = TieredCost::tiered(vec![tier(0, 10), tier(5000, 20), tier(10000, 30)]).unwrap();
    let time = TieredCost::tiered(vec![tier(0, 5), tier(600, 10), tier(1200, 15)]).unwrap();
    // 7976 distance units at 2.0 and 798 time units at 1.0, plus 100 fixed
    let cost = 100 * 10 + highest(&distance, 7976) + highest(&time, 798);
    assert!(cost >= 0);
    assert_eq!(cost, 1000 + 7976 * 20 + 798 * 10);
}

#[test]
fn can_handle_mixed_fleet_with_fixed_and_tiered_costs() {
    let fixed_distance = TieredCost::fixed(10).unwrap();
    let tiered_distance = TieredCost::tiered(vec![tier(0, 8), tier(100, 12)]).unwrap();
    let tiered_time = TieredCost::tiered(vec![tier(0, 9), tier(50, 11)]).unwrap();

    assert!(highest(&fixed_distance, 150) >= 0);
    assert_eq!(highest(&fixed_distance, 150), 1500);
    assert_eq!(highest(&tiered_distance, 99), 99 * 8);
    assert_eq!(highest(&tiered_distance, 150), 150 * 12);
    assert_eq!(highest(&tiered_time, 60), 60 * 11);
}

#[test]
fn can_handle_edge_cases() {
    let distance = TieredCost::tiered(vec![tier(0, 20)]).unwrap();
    let time = TieredCost::tiered(vec![tier(0, 15)]).unwrap();

    assert!(highest(&distance, 0) >= 0);
    assert_eq!(highest(&distance, 0), 0);
    assert_eq!(highest(&distance, 1234), 1234 * 20);
    assert_eq!(cumulative(&time, 1234), 1234 * 15);
    assert_eq!(distance.tier_count(), 1);
}

#[test]
fn can_handle_tier_boundaries_correctly() {
    let distance = TieredCost::tiered(vec![tier(0, 1), tier(10, 2), tier(20, 3), tier(30, 4)]).unwrap();
    let time = TieredCost::tiered(vec![tier(0, 1), tier(5, 2), tier(15, 3)]).unwrap();

    assert!(highest(&distance, 30) >= 0);
    assert_eq!(distance.calculate_rate(9), 1);
    assert_eq!(distance.calculate_rate(10), 2);
    assert_eq!(distance.calculate_rate(29), 3);
    assert_eq!(distance.calculate_rate(30), 4);
    assert_eq!(time.calculate_rate(4), 1);
    assert_eq!(time.calculate_rate(5), 2);
    assert_eq!(time.calculate_rate(15), 3);
    assert_eq!(cumulative(&distance, 35), 10 * 1 + 10 * 2 + 10 * 3 + 5 * 4);
}

#[test]
fn can_match_fixed_and_tiered_costs() {
    let fixed_distance = TieredCost::fixed(15).unwrap();
    let fixed_time = TieredCost::fixed(20).unwrap();
    let tiered_distance = TieredCost::tiered(vec![tier(0, 15)]).unwrap();
    let tiered_time = TieredCost::tiered(vec![tier(0, 20)]).unwrap();

    for total in [0, 1, 17, 500, 12345] {
        assert_eq!(highest(&fixed_distance, total), highest(&tiered_distance, total));
        assert_eq!(highest(&fixed_time, total), highest(&tiered_time, total));
        assert_eq!(cumulative(&fixed_distance, total), cumulative(&tiered_distance, total));
        assert_eq!(cumulative(&fixed_time, total), cumulative(&tiered_time, total));
    }
}

#[test]
fn can_solve_problem_with_tiered_costs() {
    let distance = TieredCost::tiered(vec![tier(0, 10), tier(5000, 20)]).unwrap();
    let time = TieredCost::tiered(vec![tier(0, 5), tier(600, 10)]).unwrap();

    let cost = 1000 + highest(&distance, 4200) + highest(&time, 640);
    assert!(cost >= 0);
    assert_eq!(cost, 1000 + 4200 * 10 + 640 * 10);
}

#[test]
fn rate_lookup_is_closed_on_the_left() {
    let c = TieredCost::tiered(vec![tier(0, 10), tier(1000, 20), tier(2000, 30)]).unwrap();
    assert_eq!(c.calculate_rate(999), 10);
    assert_eq!(c.calculate_rate(1000), 20);
    assert_eq!(c.calculate_rate(1999), 20);
    assert_eq!(c.calculate_rate(2000), 30);
}

#[test]
fn tiers_are_sorted_on_construction() {
    let c = TieredCost::tiered(vec![tier(200, 3), tier(0, 1), tier(100, 2)]).unwrap();
    match &c {
        TieredCost::Tiered(t) => {
            assert_eq!(t, &vec![tier(0, 1), tier(100, 2), tier(200, 3)]);
        }
        TieredCost::Fixed(_) => panic!("expected tiers"),
    }
    assert_eq!(c.calculate_rate(150), 2);
    assert!(c.is_tiered());
    assert!(!c.is_fixed());
    assert_eq!(c.tier_count(), 3);
}

#[test]
fn each_construction_error_is_reported() {
    assert_eq!(CostTier::new(-5, 1), Err(CostError::NegativeThreshold));
    assert_eq!(CostTier::new(5, -1), Err(CostError::NegativeCost));
    assert_eq!(CostTier::new(5, 1), Ok(tier(5, 1)));
    assert!(matches!(TieredCost::fixed(-1), Err(CostError::NegativeCost)));
    assert!(matches!(TieredCost::tiered(vec![]), Err(CostError::EmptyTiers)));
    assert!(matches!(TieredCost::tiered(vec![tier(0, 1), tier(-3, 1)]), Err(CostError::NegativeThreshold)));
    assert!(matches!(TieredCost::tiered(vec![tier(0, 1), tier(3, -1)]), Err(CostError::NegativeCost)));
    assert!(matches!(TieredCost::tiered(vec![tier(1, 1)]), Err(CostError::MissingZeroTier)));
    assert!(matches!(
        TieredCost::tiered(vec![tier(0, 1), tier(4, 2), tier(4, 3)]),
        Err(CostError::DuplicateThreshold)
    ));
}

#[test]
fn cumulative_mode_has_no_single_rate() {
    let c = TieredCost::tiered(vec![tier(0, 2), tier(3, 4)]).unwrap();
    assert_eq!(c.calculate_rate_with_mode(10, &TieredCostCalculationMode::Cumulative), 0);
    assert_eq!(c.calculate_rate_with_mode(10, &TieredCostCalculationMode::HighestTier), 4);
    assert_eq!(TieredCost::fixed(7).unwrap().tier_count(), 1);
}
