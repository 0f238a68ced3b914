//! Progressive (tiered) cost rates.
//!
//! A rate is either fixed or looked up in a list of `(threshold, rate)` tiers
//! sorted by threshold. Amounts, thresholds and rates are integers in any unit
//! the caller chooses (for instance tenths of a kilometre); a cost is the
//! product of an amount and a rate.
use vstd::prelude::*;

verus! {

/// Determines how tiered costs are calculated.
#[derive(Clone, Copy, Debug, PartialEq, Eq, Structural)]
pub enum TieredCostCalculationMode {
    /// The rate of the highest tier reached applies to the whole amount.
    /// Example: 6 with tiers [(0,2), (3,4), (5,5)] costs 6 * 5 = 30.
    HighestTier,
    /// Each tier's rate applies to the part of the amount inside that tier.
    /// Example: 6 with tiers [(0,2), (3,4), (5,5)] costs 3*2 + 2*4 + 1*5 = 19.
    Cumulative,
}

/// A cost tier: from `threshold` on, `cost` is charged per unit.
#[derive(Clone, Copy, Debug, PartialEq, Eq, Structural)]
pub struct CostTier {
    /// The amount from which this tier applies.
    pub threshold: i64,
    /// The cost per unit in this tier.
    pub cost: i64,
}

/// Why a cost or a tier list was refused.
#[derive(Clone, Copy, Debug, PartialEq, Eq, Structural)]
pub enum CostError {
    NegativeThreshold,
    NegativeCost,
    EmptyTiers,
    MissingZeroTier,
    DuplicateThreshold,
}

impl CostTier {
    /// Creates a cost tier; both values must be non-negative.
    pub fn new(threshold: i64, cost: i64) -> (r: Result<Self, CostError>)
        ensures
            threshold < 0 ==> r == Err::<CostTier, CostError>(CostError::NegativeThreshold),
            threshold >= 0 && cost < 0 ==> r == Err::<CostTier, CostError>(CostError::NegativeCost),
            threshold >= 0 && cost >= 0 ==> r == Ok::<CostTier, CostError>(
                CostTier { threshold, cost },
            ),
    {
        if threshold < 0 {
            return Err(CostError::NegativeThreshold);
        }
        if cost < 0 {
            return Err(CostError::NegativeCost);
        }
        Ok(CostTier { threshold, cost })
    }
}

/// Thresholds never decrease along the list.
pub open spec fn tiers_sorted(tiers: Seq<CostTier>) -> bool {
    forall|i: int, j: int| 0 <= i < j < tiers.len() ==> tiers[i].threshold <= tiers[j].threshold
}

/// No tier holds a negative threshold or rate.
pub open spec fn tiers_non_negative(tiers: Seq<CostTier>) -> bool {
    forall|i: int| 0 <= i < tiers.len() ==> tiers[i].threshold >= 0 && tiers[i].cost >= 0
}

/// Some tier starts at zero.
pub open spec fn has_zero_tier(tiers: Seq<CostTier>) -> bool {
    exists|i: int| 0 <= i < tiers.len() && tiers[i].threshold == 0
}

/// Two different tiers share a threshold.
pub open spec fn has_duplicate_threshold(tiers: Seq<CostTier>) -> bool {
    exists|i: int, j: int|
        0 <= i < tiers.len() && 0 <= j < tiers.len() && i != j && tiers[i].threshold
            == tiers[j].threshold
}

/// Index of the last tier whose threshold does not exceed `total` (the first
/// tier when there is none).
pub open spec fn tier_index(tiers: Seq<CostTier>, total: int) -> int
    decreases tiers.len(),
{
    if tiers.len() <= 1 {
        0
    } else if tiers.last().threshold <= total {
        tiers.len() - 1
    } else {
        tier_index(tiers.drop_last(), total)
    }
}

/// The rate that the highest tier reached by `total` charges.
pub open spec fn tier_rate(tiers: Seq<CostTier>, total: int) -> int {
    if tiers.len() == 0 {
        0
    } else {
        tiers[tier_index(tiers, total)].cost as int
    }
}

/// How much of `total` falls inside tier `i`: from its threshold up to the next
/// tier's threshold (up to `total` itself for the last tier).
pub open spec fn tier_portion(tiers: Seq<CostTier>, total: int, i: int) -> int {
    let upper = if i + 1 < tiers.len() {
        if tiers[i + 1].threshold < total {
            tiers[i + 1].threshold as int
        } else {
            total
        }
    } else {
        total
    };
    if upper > tiers[i].threshold {
        upper - tiers[i].threshold
    } else {
        0
    }
}

/// Sum over the first `n` tiers of the portion in the tier times its rate.
pub open spec fn cumulative_cost_upto(tiers: Seq<CostTier>, total: int, n: int) -> int
    decreases n,
{
    if n <= 0 {
        0
    } else {
        cumulative_cost_upto(tiers, total, n - 1) + tier_portion(tiers, total, n - 1) * tiers[n
            - 1].cost
    }
}

/// Either a fixed cost per unit or a list of cost tiers sorted by threshold.
#[derive(Clone, Debug)]
pub enum TieredCost {
    /// Fixed cost per unit.
    Fixed(i64),
    /// Cost tiers, sorted by threshold in ascending order.
    Tiered(Vec<CostTier>),
}

impl TieredCost {
    /// A fixed cost is non-negative; tiers are non-negative, sorted, and the
    /// first starts at zero.
    pub open spec fn wf(&self) -> bool {
        match self {
            TieredCost::Fixed(c) => *c >= 0,
            TieredCost::Tiered(t) => tiers_sorted(t@) && tiers_non_negative(t@) && (t@.len() > 0
                ==> t@[0].threshold == 0),
        }
    }

    /// The rate charged for the whole of `total` in highest-tier mode.
    pub open spec fn rate_spec(&self, total: int) -> int {
        match self {
            TieredCost::Fixed(c) => *c as int,
            TieredCost::Tiered(t) => tier_rate(t@, total),
        }
    }

    /// The cost of `total` in the given mode.
    pub open spec fn cost_spec(&self, total: int, mode: TieredCostCalculationMode) -> int {
        match mode {
            TieredCostCalculationMode::HighestTier => total * self.rate_spec(total),
            TieredCostCalculationMode::Cumulative => match self {
                TieredCost::Fixed(c) => total * *c,
                TieredCost::Tiered(t) => cumulative_cost_upto(t@, total, t@.len() as int),
            },
        }
    }
}


/// Sum of the portions of `total` that the first `n` tiers cover.
pub open spec fn covered_upto(tiers: Seq<CostTier>, total: int, n: int) -> int
    decreases n,
{
    if n <= 0 {
        0
    } else {
        covered_upto(tiers, total, n - 1) + tier_portion(tiers, total, n - 1)
    }
}

/// Upper end of what the first `n` tiers can cover.
pub open spec fn covered_limit(tiers: Seq<CostTier>, total: int, n: int) -> int {
    let bound = if n < tiers.len() && tiers[n].threshold < total {
        tiers[n].threshold as int
    } else {
        total
    };
    if bound > 0 {
        bound
    } else {
        0
    }
}

proof fn lemma_covered(tiers: Seq<CostTier>, total: int, n: int)
    requires
        tiers_sorted(tiers),
        tiers_non_negative(tiers),
        tiers.len() > 0 ==> tiers[0].threshold == 0,
        0 <= n <= tiers.len(),
    ensures
        covered_upto(tiers, total, n) == if n == 0 {
            0
        } else {
            covered_limit(tiers, total, n)
        },
    decreases n,
{
    if n > 0 {
        lemma_covered(tiers, total, n - 1);
    }
}

proof fn lemma_cumulative_bound(tiers: Seq<CostTier>, total: int, n: int)
    requires
        tiers_non_negative(tiers),
        0 <= n <= tiers.len(),
        forall|i: int| 0 <= i < tiers.len() ==> tiers[i].cost <= i64::MAX,
    ensures
        0 <= cumulative_cost_upto(tiers, total, n) <= covered_upto(tiers, total, n) * (
        i64::MAX as int),
    decreases n,
{
    if n > 0 {
        lemma_cumulative_bound(tiers, total, n - 1);
        let p = tier_portion(tiers, total, n - 1);
        let c = tiers[n - 1].cost as int;
        assert(0 <= p * c <= p * (i64::MAX as int)) by (nonlinear_arith)
            requires
                0 <= p,
                0 <= c <= i64::MAX,
        ;
    }
}

proof fn lemma_product_fits(a: int, b: int)
    requires
        i64::MIN <= a <= i64::MAX,
        i64::MIN <= b <= i64::MAX,
    ensures
        i128::MIN <= a * b <= i128::MAX,
{
    assert(-0x4000_0000_0000_0000_0000_0000_0000_0000 <= a * b <= 0x4000_0000_0000_0000_0000_0000_0000_0000)
        by (nonlinear_arith)
        requires
            -0x8000_0000_0000_0000 <= a <= 0x7fff_ffff_ffff_ffff,
            -0x8000_0000_0000_0000 <= b <= 0x7fff_ffff_ffff_ffff,
    ;
}

proof fn lemma_tier_index(tiers: Seq<CostTier>, total: int, k: int)
    requires
        tiers_sorted(tiers),
        0 <= k < tiers.len(),
        k == 0 || tiers[k].threshold <= total,
        forall|j: int| k < j < tiers.len() ==> tiers[j].threshold > total,
    ensures
        tier_index(tiers, total) == k,
    decreases tiers.len(),
{
    if tiers.len() > 1 && tiers.last().threshold > total {
        let d = tiers.drop_last();
        assert(tiers_sorted(d));
        lemma_tier_index(d, total, k);
    }
}

proof fn lemma_insert_multiset<A>(s: Seq<A>, p: int, x: A)
    requires
        0 <= p <= s.len(),
    ensures
        s.insert(p, x).to_multiset() =~= s.to_multiset().insert(x),
{
    let t = s.insert(p, x);
    s.insert_ensures(p, x);
    t.to_multiset_ensures();
    assert(t.remove(p) =~= s);
    assert(t.contains(x)) by {
        assert(t[p] == x);
    }
}

impl TieredCost {
    /// The rate for `total` in highest-tier mode.
    pub fn calculate_rate(&self, total_value: i64) -> (r: i64)
        requires
            self.wf(),
        ensures
            r == self.rate_spec(total_value as int),
    {
        self.calculate_rate_with_mode(total_value, &TieredCostCalculationMode::HighestTier)
    }

    /// The cost of `total_value` in the given mode.
    pub fn calculate_cost_with_mode(&self, total_value: i64, mode: &TieredCostCalculationMode) -> (r:
        i128)
        requires
            self.wf(),
        ensures
            r == self.cost_spec(total_value as int, *mode),
    {
        match mode {
            TieredCostCalculationMode::HighestTier => {
                let rate = self.calculate_rate_with_mode(total_value, mode);
                proof {
                    lemma_product_fits(total_value as int, rate as int);
                }
                (total_value as i128) * (rate as i128)
            },
            TieredCostCalculationMode::Cumulative => self.calculate_cumulative_cost(total_value),
        }
    }

    /// The rate for `total_value`: the highest tier's in highest-tier mode;
    /// zero in cumulative mode, where no single rate applies.
    pub fn calculate_rate_with_mode(&self, total_value: i64, mode: &TieredCostCalculationMode) -> (r:
        i64)
        requires
            self.wf(),
        ensures
            *mode == TieredCostCalculationMode::HighestTier ==> r == self.rate_spec(
                total_value as int,
            ),
            *mode == TieredCostCalculationMode::Cumulative ==> r == 0,
    {
        match mode {
            TieredCostCalculationMode::HighestTier => match self {
                TieredCost::Fixed(cost) => *cost,
                TieredCost::Tiered(tiers) => {
                    if tiers.len() == 0 {
                        return 0;
                    }
                    let mut left: usize = 0;
                    let mut right: usize = tiers.len();
                    let mut result_idx: usize = 0;
                    while left < right
                        invariant
                            0 <= left <= right <= tiers.len(),
                            tiers_sorted(tiers@),
                            forall|j: int| 0 <= j < left ==> tiers@[j].threshold <= total_value,
                            forall|j: int|
                                right <= j < tiers.len() ==> tiers@[j].threshold > total_value,
                            result_idx == if left == 0 {
                                0
                            } else {
                                left - 1
                            },
                        decreases right - left,
                    {
                        let mid = left + (right - left) / 2;
                        if tiers[mid].threshold <= total_value {
                            result_idx = mid;
                            left = mid + 1;
                        } else {
                            right = mid;
                        }
                    }
                    proof {
                        lemma_tier_index(tiers@, total_value as int, result_idx as int);
                    }
                    tiers[result_idx].cost
                },
            },
            TieredCostCalculationMode::Cumulative => 0,
        }
    }

    /// The cost of `total_value` with each tier's rate applied to its own portion.
    fn calculate_cumulative_cost(&self, total_value: i64) -> (r: i128)
        requires
            self.wf(),
        ensures
            r == self.cost_spec(total_value as int, TieredCostCalculationMode::Cumulative),
    {
        match self {
            TieredCost::Fixed(cost) => {
                proof {
                    lemma_product_fits(total_value as int, *cost as int);
                }
                (total_value as i128) * (*cost as i128)
            },
            TieredCost::Tiered(tiers) => {
                let n = tiers.len();
                let mut total_cost: i128 = 0;
                let mut i: usize = 0;
                while i < n
                    invariant
                        n == tiers.len(),
                        0 <= i <= n,
                        self.wf(),
                        *self == TieredCost::Tiered(*tiers),
                        total_cost == cumulative_cost_upto(tiers@, total_value as int, i as int),
                    decreases n - i,
                {
                    proof {
                        lemma_cumulative_bound(tiers@, total_value as int, i as int + 1);
                        lemma_covered(tiers@, total_value as int, i as int + 1);
                    }
                    let upper: i64 = if i + 1 < n {
                        if tiers[i + 1].threshold < total_value {
                            tiers[i + 1].threshold
                        } else {
                            total_value
                        }
                    } else {
                        total_value
                    };
                    let threshold = tiers[i].threshold;
                    if upper > threshold {
                        let portion = (upper - threshold) as i128;
                        proof {
                            let covered = covered_upto(tiers@, total_value as int, i as int + 1);
                            assert(0 <= covered <= i64::MAX);
                            assert(covered * (i64::MAX as int) <= (i64::MAX as int) * (
                            i64::MAX as int)) by (nonlinear_arith)
                                requires
                                    0 <= covered <= i64::MAX,
                            ;
                            lemma_product_fits(portion as int, tiers@[i as int].cost as int);
                        }
                        total_cost = total_cost + portion * (tiers[i].cost as i128);
                    }
                    i = i + 1;
                }
                total_cost
            },
        }
    }
}


/// Sorts tiers by threshold, keeping every tier.
fn sort_tiers(tiers: Vec<CostTier>) -> (r: Vec<CostTier>)
    ensures
        tiers_sorted(r@),
        r@.to_multiset() =~= tiers@.to_multiset(),
{
    let mut sorted: Vec<CostTier> = Vec::new();
    let mut i: usize = 0;
    proof {
        assert(tiers@.subrange(0, 0) =~= Seq::<CostTier>::empty());
        sorted@.to_multiset_ensures();
        tiers@.subrange(0, 0).to_multiset_ensures();
        assert(sorted@ =~= tiers@.subrange(0, 0));
    }
    while i < tiers.len()
        invariant
            0 <= i <= tiers.len(),
            tiers_sorted(sorted@),
            sorted@.to_multiset() =~= tiers@.subrange(0, i as int).to_multiset(),
        decreases tiers.len() - i,
    {
        let x = tiers[i];
        let mut p: usize = 0;
        while p < sorted.len() && sorted[p].threshold <= x.threshold
            invariant
                0 <= p <= sorted.len(),
                forall|j: int| 0 <= j < p ==> sorted@[j].threshold <= x.threshold,
            decreases sorted.len() - p,
        {
            p = p + 1;
        }
        proof {
            lemma_insert_multiset(sorted@, p as int, x);
            sorted@.insert_ensures(p as int, x);
            tiers@.subrange(0, i as int).to_multiset_ensures();
            assert(tiers@.subrange(0, i as int + 1) =~= tiers@.subrange(0, i as int).push(x));
        }
        let ghost old_sorted = sorted@;
        sorted.insert(p, x);
        proof {
            assert forall|a: int, b: int| 0 <= a < b < sorted@.len() implies sorted@[a].threshold
                <= sorted@[b].threshold by {
                if b < p {
                } else if b == p {
                } else if a < p {
                    assert(old_sorted[b - 1].threshold > x.threshold || old_sorted[b - 1].threshold
                        >= old_sorted[a].threshold);
                } else if a == p {
                    assert(old_sorted[p as int].threshold > x.threshold);
                } else {
                }
            }
        }
        i = i + 1;
    }
    assert(tiers@.subrange(0, tiers.len() as int) =~= tiers@);
    sorted
}

proof fn lemma_sorted_keeps_values(r: Seq<CostTier>, t: Seq<CostTier>)
    requires
        r.to_multiset() =~= t.to_multiset(),
    ensures
        forall|i: int| 0 <= i < r.len() ==> t.contains(#[trigger] r[i]),
        forall|i: int| 0 <= i < t.len() ==> r.contains(#[trigger] t[i]),
{
    r.to_multiset_ensures();
    t.to_multiset_ensures();
    assert forall|i: int| 0 <= i < r.len() implies t.contains(#[trigger] r[i]) by {
        assert(r.contains(r[i]));
        assert(r.to_multiset().count(r[i]) > 0);
        assert(t.to_multiset().count(r[i]) > 0);
    }
    assert forall|i: int| 0 <= i < t.len() implies r.contains(#[trigger] t[i]) by {
        assert(t.contains(t[i]));
        assert(t.to_multiset().count(t[i]) > 0);
        assert(r.to_multiset().count(t[i]) > 0);
    }
}

impl TieredCost {
    /// Creates a fixed cost; it must be non-negative.
    pub fn fixed(cost: i64) -> (r: Result<Self, CostError>)
        ensures
            cost < 0 ==> r == Err::<TieredCost, CostError>(CostError::NegativeCost),
            cost >= 0 ==> (r matches Ok(TieredCost::Fixed(c)) && c == cost),
            r matches Ok(t) ==> t.wf(),
    {
        if cost < 0 {
            return Err(CostError::NegativeCost);
        }
        Ok(TieredCost::Fixed(cost))
    }

    /// Creates a tiered cost: the list must be non-empty, hold no negative
    /// value, have a tier at zero and no threshold twice. The tiers are then
    /// sorted by threshold.
    pub fn tiered(tiers: Vec<CostTier>) -> (r: Result<Self, CostError>)
        ensures
            tiers@.len() == 0 ==> r == Err::<TieredCost, CostError>(CostError::EmptyTiers),
            tiers@.len() > 0 && !tiers_non_negative(tiers@) ==> (r == Err::<TieredCost, CostError>(
                CostError::NegativeThreshold) || r == Err::<TieredCost, CostError>(
                CostError::NegativeCost)),
            tiers@.len() > 0 && tiers_non_negative(tiers@) && !has_zero_tier(tiers@) ==> r == Err::<
                TieredCost,
                CostError,
            >(CostError::MissingZeroTier),
            tiers@.len() > 0 && tiers_non_negative(tiers@) && has_zero_tier(tiers@)
                && has_duplicate_threshold(tiers@) ==> r == Err::<TieredCost, CostError>(
                CostError::DuplicateThreshold),
            tiers@.len() > 0 && tiers_non_negative(tiers@) && has_zero_tier(tiers@)
                && !has_duplicate_threshold(tiers@) ==> (r matches Ok(TieredCost::Tiered(s))
                && s@.to_multiset() =~= tiers@.to_multiset() && tiers_sorted(s@)),
            r matches Ok(t) ==> t.wf(),
    {
        if tiers.len() == 0 {
            return Err(CostError::EmptyTiers);
        }
        let mut i: usize = 0;
        while i < tiers.len()
            invariant
                0 <= i <= tiers.len(),
                forall|j: int| 0 <= j < i ==> tiers@[j].threshold >= 0 && tiers@[j].cost >= 0,
            decreases tiers.len() - i,
        {
            if tiers[i].threshold < 0 {
                return Err(CostError::NegativeThreshold);
            }
            if tiers[i].cost < 0 {
                return Err(CostError::NegativeCost);
            }
            i = i + 1;
        }
        let mut has_zero = false;
        let mut i: usize = 0;
        while i < tiers.len()
            invariant
                0 <= i <= tiers.len(),
                has_zero == exists|j: int| 0 <= j < i && tiers@[j].threshold == 0,
            decreases tiers.len() - i,
        {
            if tiers[i].threshold == 0 {
                has_zero = true;
            }
            i = i + 1;
        }
        if !has_zero {
            return Err(CostError::MissingZeroTier);
        }
        assert(tiers_non_negative(tiers@));
        let mut i: usize = 0;
        while i < tiers.len()
            invariant
                0 <= i <= tiers.len(),
                tiers_non_negative(tiers@),
                has_zero_tier(tiers@),
                forall|a: int, b: int|
                    0 <= a < i && 0 <= b < tiers.len() && a != b ==> tiers@[a].threshold
                        != tiers@[b].threshold,
            decreases tiers.len() - i,
        {
            let mut j: usize = 0;
            while j < tiers.len()
                invariant
                    0 <= i < tiers.len(),
                    0 <= j <= tiers.len(),
                    tiers_non_negative(tiers@),
                    has_zero_tier(tiers@),
                    forall|b: int| 0 <= b < j && b != i ==> tiers@[i as int].threshold
                        != tiers@[b].threshold,
                decreases tiers.len() - j,
            {
                if j != i && tiers[i].threshold == tiers[j].threshold {
                    return Err(CostError::DuplicateThreshold);
                }
                j = j + 1;
            }
            i = i + 1;
        }
        let ghost given = tiers@;
        let sorted = sort_tiers(tiers);
        proof {
            lemma_sorted_keeps_values(sorted@, given);
            let z = choose|j: int| 0 <= j < given.len() && given[j].threshold == 0;
            assert(sorted@.contains(given[z]));
            sorted@.to_multiset_ensures();
            given.to_multiset_ensures();
            assert(sorted@.len() > 0);
            assert(given.contains(sorted@[0]));
        }
        Ok(TieredCost::Tiered(sorted))
    }

    /// Wraps tiers that are already valid and sorted.
    pub fn tiered_unchecked(tiers: Vec<CostTier>) -> (r: Self)
        requires
            tiers_sorted(tiers@),
            tiers_non_negative(tiers@),
            tiers@.len() > 0 ==> tiers@[0].threshold == 0,
        ensures
            r == TieredCost::Tiered(tiers),
            r.wf(),
    {
        TieredCost::Tiered(tiers)
    }

    /// Whether this is a fixed cost.
    pub fn is_fixed(&self) -> (r: bool)
        ensures
            r == self is Fixed,
    {
        match self {
            TieredCost::Fixed(_) => true,
            TieredCost::Tiered(_) => false,
        }
    }

    /// Whether this is a tiered cost.
    pub fn is_tiered(&self) -> (r: bool)
        ensures
            r == self is Tiered,
    {
        match self {
            TieredCost::Fixed(_) => false,
            TieredCost::Tiered(_) => true,
        }
    }

    /// The number of tiers: one for a fixed cost.
    pub fn tier_count(&self) -> (r: usize)
        ensures
            self matches TieredCost::Fixed(_) ==> r == 1,
            self matches TieredCost::Tiered(t) ==> r == t@.len(),
    {
        match self {
            TieredCost::Fixed(_) => 1,
            TieredCost::Tiered(tiers) => tiers.len(),
        }
    }
}

/// Tiered operating costs of a driver or a vehicle.
#[derive(Clone, Debug)]
pub struct TieredCosts {
    /// Cost per distance unit.
    pub per_distance: TieredCost,
    /// Cost per driving time unit.
    pub per_driving_time: TieredCost,
    /// How the tiers apply.
    pub calculation_mode: TieredCostCalculationMode,
}

impl TieredCosts {
    /// Creates tiered costs with the given calculation mode.
    pub fn new(
        per_distance: TieredCost,
        per_driving_time: TieredCost,
        calculation_mode: TieredCostCalculationMode,
    ) -> (r: Self)
        ensures
            r == (TieredCosts { per_distance, per_driving_time, calculation_mode }),
    {
        TieredCosts { per_distance, per_driving_time, calculation_mode }
    }

    /// Creates tiered costs in highest-tier mode.
    pub fn with_highest_tier_mode(per_distance: TieredCost, per_driving_time: TieredCost) -> (r:
        Self)
        ensures
            r == (TieredCosts {
                per_distance,
                per_driving_time,
                calculation_mode: TieredCostCalculationMode::HighestTier,
            }),
    {
        Self::new(per_distance, per_driving_time, TieredCostCalculationMode::HighestTier)
    }
}

} // verus!
