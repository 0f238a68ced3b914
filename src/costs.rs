//! Transport and activity costs over a square travel matrix, with fixed or
//! tiered rates of drivers and vehicles. Tiered rates are looked up with the
//! route's totals. Costs saturate at the bounds of `i128`.
use vstd::prelude::*;
use crate::model::{Activity, Costs, Route};
use crate::tiered_costs::TieredCosts;
use crate::fleet::copy_details;

verus! {

/// `s` is the square root of `n` rounded to the nearest integer.
pub open spec fn is_round_sqrt(n: int, s: int) -> bool {
    s >= 0 && 4 * n < (2 * s + 1) * (2 * s + 1) && (s == 0 || (2 * s - 1) * (2 * s - 1) <= 4 * n)
}

/// A number has one rounded square root.
pub proof fn lemma_round_sqrt_unique(n: int, s: int, t: int)
    requires
        s < t,
    ensures
        !(is_round_sqrt(n, s) && is_round_sqrt(n, t)),
{
    if is_round_sqrt(n, s) && is_round_sqrt(n, t) {
        assert((2 * s + 1) * (2 * s + 1) <= (2 * t - 1) * (2 * t - 1)) by (nonlinear_arith)
            requires
                0 <= s,
                s < t,
        ;
    }
}

/// The square root of `n` rounded to the nearest integer.
fn round_sqrt(n: usize) -> (r: usize)
    ensures
        is_round_sqrt(n as int, r as int),
{
    let mut f: u128 = 0;
    while (f + 1) * (f + 1) <= n as u128
        invariant
            f * f <= n,
            f <= n,
            f < 0x1_0000_0000,
            (f + 1) * (f + 1) <= 0x1_0000_0000_0000_0000,
        decreases n - f,
    {
        proof {
            assert((f + 1) <= (f + 1) * (f + 1)) by (nonlinear_arith);
            assert(f + 1 < 0x1_0000_0000) by (nonlinear_arith)
                requires
                    (f + 1) * (f + 1) <= n,
                    n <= 0xffff_ffff_ffff_ffff,
            ;
            assert((f + 2) * (f + 2) <= 0x1_0000_0000_0000_0000) by (nonlinear_arith)
                requires
                    0 <= f,
                    f + 1 < 0x1_0000_0000,
            ;
        }
        f = f + 1;
    }
    let r = if n as u128 - f * f > f {
        f + 1
    } else {
        f
    };
    proof {
        let n = n as int;
        let f = f as int;
        if r == f {
            assert(is_round_sqrt(n, f)) by (nonlinear_arith)
                requires
                    f * f <= n,
                    n - f * f <= f,
                    f >= 0,
            ;
        } else {
            assert(is_round_sqrt(n, f + 1)) by (nonlinear_arith)
                requires
                    f * f <= n,
                    n < (f + 1) * (f + 1),
                    n - f * f > f,
                    f >= 0,
            ;
        }
    }
    assert(r <= n);
    r as usize
}

/// The value clamped to the range of `i128`.
pub open spec fn clamp(x: int) -> int {
    if x > i128::MAX {
        i128::MAX as int
    } else if x < i128::MIN {
        i128::MIN as int
    } else {
        x
    }
}

fn clamped_mul(a: i128, b: i128) -> (r: i128)
    ensures
        r == clamp(a * b),
{
    match a.checked_mul(b) {
        Some(p) => p,
        None => {
            if (a > 0) == (b > 0) {
                assert(a * b > 0) by (nonlinear_arith)
                    requires
                        (a > 0) == (b > 0),
                        a * b != 0 || (a * b < i128::MIN || a * b > i128::MAX),
                        a * b < i128::MIN || a * b > i128::MAX,
                ;
                i128::MAX
            } else {
                assert(a * b < 0) by (nonlinear_arith)
                    requires
                        (a > 0) != (b > 0),
                        a * b < i128::MIN || a * b > i128::MAX,
                ;
                i128::MIN
            }
        },
    }
}

fn clamped_add(a: i128, b: i128) -> (r: i128)
    ensures
        r == clamp(a + b),
{
    match a.checked_add(b) {
        Some(s) => s,
        None => if a > 0 {
            i128::MAX
        } else {
            i128::MIN
        },
    }
}

/// Why a matrix was refused.
#[derive(Clone, Copy, Debug, PartialEq, Eq, Structural)]
pub enum MatrixError {
    /// The duration and distance matrices have different sizes.
    SizeMismatch,
    /// No matrix was given.
    NoMatrix,
    /// A matrix holds a different number of durations and distances.
    LengthMismatch,
    /// A matrix carries a time of validity.
    TimeAware,
    /// The profile indices are not exactly `0..n`.
    DuplicateProfiles,
}

/// Travel durations and distances between locations, as two square
/// matrices stored row by row.
#[derive(Clone, Debug)]
pub struct SimpleTransportCost {
    pub durations: Vec<i64>,
    pub distances: Vec<i64>,
    /// Number of locations: the rounded square root of the matrix length.
    pub size: usize,
}

/// Entry `from, to` of a square matrix of `size` rows, zero outside it.
pub open spec fn matrix_at(m: Seq<i64>, size: usize, from: usize, to: usize) -> int {
    let i = from * size + to;
    if 0 <= i < m.len() {
        m[i] as int
    } else {
        0
    }
}

fn lookup(m: &Vec<i64>, size: usize, from: usize, to: usize) -> (r: i64)
    ensures
        r == matrix_at(m@, size, from, to),
{
    assert(from * size <= 0xffff_ffff_ffff_ffff * 0xffff_ffff_ffff_ffff) by (nonlinear_arith)
        requires
            from <= 0xffff_ffff_ffff_ffff,
            size <= 0xffff_ffff_ffff_ffff,
    ;
    let i = from as u128 * size as u128 + to as u128;
    if i < m.len() as u128 {
        m[i as usize]
    } else {
        0
    }
}

impl SimpleTransportCost {
    /// Creates the transport cost; both matrices must describe the same
    /// number of locations.
    pub fn new(durations: Vec<i64>, distances: Vec<i64>) -> (r: Result<Self, MatrixError>)
        ensures
            r matches Ok(t) ==> is_round_sqrt(durations@.len() as int, t.size as int)
                && is_round_sqrt(distances@.len() as int, t.size as int) && t.durations@
                == durations@ && t.distances@ == distances@,
            r is Err <==> !(exists|s: int|
                is_round_sqrt(durations@.len() as int, s) && is_round_sqrt(
                    distances@.len() as int,
                    s,
                )),
    {
        let size = round_sqrt(durations.len());
        let other = round_sqrt(distances.len());
        if size != other {
            proof {
                assert forall|s: int|
                    !(is_round_sqrt(durations@.len() as int, s) && is_round_sqrt(
                        distances@.len() as int,
                        s,
                    )) by {
                    if is_round_sqrt(durations@.len() as int, s) && is_round_sqrt(
                        distances@.len() as int,
                        s,
                    ) {
                        if s < size {
                            lemma_round_sqrt_unique(durations@.len() as int, s, size as int);
                        } else if s > size {
                            lemma_round_sqrt_unique(durations@.len() as int, size as int, s);
                        } else if s < other {
                            lemma_round_sqrt_unique(distances@.len() as int, s, other as int);
                        } else {
                            lemma_round_sqrt_unique(distances@.len() as int, other as int, s);
                        }
                    }
                }
            }
            return Err(MatrixError::SizeMismatch);
        }
        Ok(SimpleTransportCost { durations, distances, size })
    }

    /// Travel duration between two locations (zero outside the matrix).
    pub fn duration_approx(&self, from: usize, to: usize) -> (r: i64)
        ensures
            r == matrix_at(self.durations@, self.size, from, to),
    {
        lookup(&self.durations, self.size, from, to)
    }

    /// Travel distance between two locations (zero outside the matrix).
    pub fn distance_approx(&self, from: usize, to: usize) -> (r: i64)
        ensures
            r == matrix_at(self.distances@, self.size, from, to),
    {
        lookup(&self.distances, self.size, from, to)
    }

    /// Number of locations.
    pub fn size(&self) -> (r: usize)
        ensures
            r == self.size,
    {
        self.size
    }
}

/// The locations the activities visit, in order.
pub open spec fn locations_of(acts: Seq<Activity>) -> Seq<usize> {
    acts.map_values(|a: Activity| a.location)
}

/// Sum of one matrix over each pair of consecutive locations among the
/// first `n`.
pub open spec fn leg_sum(m: Seq<i64>, size: usize, locs: Seq<usize>, n: int) -> int
    decreases n,
{
    if n <= 1 {
        0
    } else {
        leg_sum(m, size, locs, n - 1) + matrix_at(m, size, locs[n - 2], locs[n - 1])
    }
}

/// The distance and duration totals over the legs between the locations.
pub open spec fn location_totals(t: SimpleTransportCost, locs: Seq<usize>) -> (int, int) {
    (
        leg_sum(t.distances@, t.size, locs, locs.len() as int),
        leg_sum(t.durations@, t.size, locs, locs.len() as int),
    )
}

/// The value clamped to the range of `i64`.
pub open spec fn clamp64(x: int) -> int {
    if x > i64::MAX {
        i64::MAX as int
    } else if x < i64::MIN {
        i64::MIN as int
    } else {
        x
    }
}

/// The rate that a party charges per distance unit.
pub open spec fn distance_rate(tc: Option<TieredCosts>, costs: Costs, total: int) -> int {
    match tc {
        Some(t) => t.per_distance.rate_spec(clamp64(total)),
        None => costs.per_distance as int,
    }
}

/// The rate that a party charges per driving time unit.
pub open spec fn time_rate(tc: Option<TieredCosts>, fixed: i64, total: int) -> int {
    match tc {
        Some(t) => t.per_driving_time.rate_spec(clamp64(total)),
        None => fixed as int,
    }
}

/// Tiered costs, where present, are valid.
pub open spec fn tiers_valid(tc: Option<TieredCosts>) -> bool {
    match tc {
        Some(t) => t.per_distance.wf() && t.per_driving_time.wf(),
        None => true,
    }
}

/// The route's distance and duration totals over its legs.
pub open spec fn route_totals(t: SimpleTransportCost, route: Route) -> (int, int) {
    location_totals(t, locations_of(route.activities@))
}

/// The cost of travelling from `from` to `to` in the route.
pub open spec fn transport_cost_spec(t: SimpleTransportCost, route: Route, from: usize, to: usize) -> int {
    let actor = route.actor;
    let (td, tt) = route_totals(t, route);
    let d = matrix_at(t.distances@, t.size, from, to);
    let u = matrix_at(t.durations@, t.size, from, to);
    let dr = distance_rate(actor.driver.tiered_costs, actor.driver.costs, td) + distance_rate(
        actor.vehicle.tiered_costs,
        actor.vehicle.costs,
        td,
    );
    let tr = time_rate(actor.driver.tiered_costs, actor.driver.costs.per_driving_time, tt)
        + time_rate(actor.vehicle.tiered_costs, actor.vehicle.costs.per_driving_time, tt);
    clamp(clamp(d * dr) + clamp(u * tr))
}

/// The cost of serving `activity` in the route on arrival at `arrival`:
/// waiting and service time at the parties' rates.
pub open spec fn activity_cost_spec(
    t: SimpleTransportCost,
    route: Route,
    activity: Activity,
    arrival: i64,
) -> int {
    let actor = route.actor;
    let (_, tt) = route_totals(t, route);
    let waiting: int = if activity.time_start > arrival {
        activity.time_start - arrival
    } else {
        0
    };
    let service = activity.duration as int;
    let wr = time_rate(actor.driver.tiered_costs, actor.driver.costs.per_waiting_time, tt)
        + time_rate(actor.vehicle.tiered_costs, actor.vehicle.costs.per_waiting_time, tt);
    let sr = time_rate(actor.driver.tiered_costs, actor.driver.costs.per_service_time, tt)
        + time_rate(actor.vehicle.tiered_costs, actor.vehicle.costs.per_service_time, tt);
    clamp(clamp(waiting * wr) + clamp(service * sr))
}

fn to_i64(x: i128) -> (r: i64)
    ensures
        r == clamp64(x as int),
{
    if x > i64::MAX as i128 {
        i64::MAX
    } else if x < i64::MIN as i128 {
        i64::MIN
    } else {
        x as i64
    }
}

fn distance_rate_of(tc: &Option<TieredCosts>, costs: &Costs, total: i128) -> (r: i64)
    requires
        tiers_valid(*tc),
    ensures
        r == distance_rate(*tc, *costs, total as int),
{
    match tc {
        Some(t) => t.per_distance.calculate_rate(to_i64(total)),
        None => costs.per_distance,
    }
}

fn time_rate_of(tc: &Option<TieredCosts>, fixed: i64, total: i128) -> (r: i64)
    requires
        tiers_valid(*tc),
    ensures
        r == time_rate(*tc, fixed, total as int),
{
    match tc {
        Some(t) => t.per_driving_time.calculate_rate(to_i64(total)),
        None => fixed,
    }
}

impl SimpleTransportCost {
    fn leg_total(&self, m: &Vec<i64>, acts: &Vec<Activity>) -> (r: i128)
        ensures
            r == leg_sum(m@, self.size, locations_of(acts@), acts@.len() as int),
    {
        let mut total: i128 = 0;
        let mut i: usize = 1;
        if acts.len() <= 1 {
            return 0;
        }
        while i < acts.len()
            invariant
                1 <= i <= acts.len(),
                total == leg_sum(m@, self.size, locations_of(acts@), i as int),
                -(i * 0x8000_0000_0000_0000) <= total <= i * 0x8000_0000_0000_0000,
            decreases acts.len() - i,
        {
            let d = lookup(m, self.size, acts[i - 1].location, acts[i].location);
            assert(-((i + 1) * 0x8000_0000_0000_0000) <= total + d <= (i + 1) * 0x8000_0000_0000_0000)
                by (nonlinear_arith)
                requires
                    -(i * 0x8000_0000_0000_0000) <= total <= i * 0x8000_0000_0000_0000,
                    -0x8000_0000_0000_0000 <= d <= 0x7fff_ffff_ffff_ffff,
            ;
            assert((i + 1) * 0x8000_0000_0000_0000 <= 0x7fff_ffff_ffff_ffff_8000_0000_0000_0000)
                by (nonlinear_arith)
                requires
                    i < usize::MAX,
            ;
            total = total + d as i128;
            i = i + 1;
        }
        total
    }

    /// The route's distance and duration totals over its legs.
    pub fn get_route_totals(&self, route: &Route) -> (r: (i128, i128))
        ensures
            (r.0 as int, r.1 as int) == route_totals(*self, *route),
    {
        (self.leg_total(&self.distances, &route.activities), self.leg_total(&self.durations, &route.activities))
    }

    /// The cost of travelling from `from` to `to` in the route: distance and
    /// duration at the driver's and the vehicle's rates, tiered by the
    /// route's totals where the party has tiers.
    pub fn cost(&self, route: &Route, from: usize, to: usize) -> (r: i128)
        requires
            tiers_valid(route.actor.driver.tiered_costs),
            tiers_valid(route.actor.vehicle.tiered_costs),
        ensures
            r == transport_cost_spec(*self, *route, from, to),
    {
        let (td, tt) = self.get_route_totals(route);
        self.cost_with_totals(route, from, to, td, tt)
    }

    /// The transport cost with the route's totals already known.
    fn cost_with_totals(&self, route: &Route, from: usize, to: usize, td: i128, tt: i128) -> (r: i128)
        requires
            tiers_valid(route.actor.driver.tiered_costs),
            tiers_valid(route.actor.vehicle.tiered_costs),
            (td as int, tt as int) == route_totals(*self, *route),
        ensures
            r == transport_cost_spec(*self, *route, from, to),
    {
        let actor = &route.actor;
        let d = self.distance_approx(from, to) as i128;
        let u = self.duration_approx(from, to) as i128;
        let dr = distance_rate_of(&actor.driver.tiered_costs, &actor.driver.costs, td) as i128
            + distance_rate_of(&actor.vehicle.tiered_costs, &actor.vehicle.costs, td) as i128;
        let tr = time_rate_of(&actor.driver.tiered_costs, actor.driver.costs.per_driving_time, tt)
            as i128 + time_rate_of(
            &actor.vehicle.tiered_costs,
            actor.vehicle.costs.per_driving_time,
            tt,
        ) as i128;
        clamped_add(clamped_mul(d, dr), clamped_mul(u, tr))
    }

    /// The cost of serving `activity` in the route on arrival at `arrival`:
    /// waiting and service time at the driver's and the vehicle's rates,
    /// tiered by the route's duration where the party has tiers.
    pub fn activity_cost(&self, route: &Route, activity: &Activity, arrival: i64) -> (r: i128)
        requires
            tiers_valid(route.actor.driver.tiered_costs),
            tiers_valid(route.actor.vehicle.tiered_costs),
        ensures
            r == activity_cost_spec(*self, *route, *activity, arrival),
    {
        let (_, tt) = self.get_route_totals(route);
        self.activity_cost_with_totals(route, activity, arrival, tt)
    }

    /// The activity cost with the route's duration total already known.
    fn activity_cost_with_totals(&self, route: &Route, activity: &Activity, arrival: i64, tt: i128) -> (r: i128)
        requires
            tiers_valid(route.actor.driver.tiered_costs),
            tiers_valid(route.actor.vehicle.tiered_costs),
            tt as int == route_totals(*self, *route).1,
        ensures
            r == activity_cost_spec(*self, *route, *activity, arrival),
    {
        let actor = &route.actor;
        let waiting: i128 = if activity.time_start > arrival {
            activity.time_start as i128 - arrival as i128
        } else {
            0
        };
        let service = activity.duration as i128;
        let wr = time_rate_of(&actor.driver.tiered_costs, actor.driver.costs.per_waiting_time, tt)
            as i128 + time_rate_of(
            &actor.vehicle.tiered_costs,
            actor.vehicle.costs.per_waiting_time,
            tt,
        ) as i128;
        let sr = time_rate_of(&actor.driver.tiered_costs, actor.driver.costs.per_service_time, tt)
            as i128 + time_rate_of(
            &actor.vehicle.tiered_costs,
            actor.vehicle.costs.per_service_time,
            tt,
        ) as i128;
        clamped_add(clamped_mul(waiting, wr), clamped_mul(service, sr))
    }
}


/// Most route totals a calculator keeps before it starts afresh.
pub const ROUTE_CACHE_LIMIT: usize = 1000;

/// Transport and activity costs that remember the route totals they have
/// computed, keyed by the route's locations. The memory is bounded: it is
/// emptied when it outgrows its limit, and it never changes a result.
#[derive(Clone, Debug)]
pub struct CoordinatedCostCalculator {
    transport: SimpleTransportCost,
    cache: Vec<(Vec<usize>, (i128, i128))>,
}

fn locations_key(acts: &Vec<Activity>) -> (r: Vec<usize>)
    ensures
        r@ == locations_of(acts@),
{
    let mut key: Vec<usize> = Vec::new();
    let mut i: usize = 0;
    while i < acts.len()
        invariant
            0 <= i <= acts.len(),
            key@ == locations_of(acts@).subrange(0, i as int),
        decreases acts.len() - i,
    {
        key.push(acts[i].location);
        assert(key@ =~= locations_of(acts@).subrange(0, i as int + 1));
        i = i + 1;
    }
    assert(locations_of(acts@).subrange(0, i as int) =~= locations_of(acts@));
    key
}

fn same_locations(a: &Vec<usize>, b: &Vec<usize>) -> (r: bool)
    ensures
        r == (a@ == b@),
{
    if a.len() != b.len() {
        return false;
    }
    let mut i: usize = 0;
    while i < a.len()
        invariant
            a@.len() == b@.len(),
            0 <= i <= a.len(),
            forall|j: int| 0 <= j < i ==> a@[j] == b@[j],
        decreases a.len() - i,
    {
        if a[i] != b[i] {
            return false;
        }
        i = i + 1;
    }
    assert(a@ =~= b@);
    true
}

impl CoordinatedCostCalculator {
    /// Every remembered total is the one the transport gives for its key,
    /// and the memory stays within its limit.
    pub closed spec fn wf(&self) -> bool {
        &&& self.cache@.len() <= ROUTE_CACHE_LIMIT + 1
        &&& forall|i: int|
            0 <= i < self.cache@.len() ==> {
                let (k, v) = #[trigger] self.cache@[i];
                (v.0 as int, v.1 as int) == location_totals(self.transport, k@)
            }
    }

    /// The transport that prices the routes.
    pub closed spec fn pricing(&self) -> SimpleTransportCost {
        self.transport
    }

    /// How many route totals are remembered.
    pub closed spec fn remembered(&self) -> nat {
        self.cache@.len()
    }

    /// A calculator over `transport` that remembers nothing yet.
    pub fn new(transport: SimpleTransportCost) -> (r: Self)
        ensures
            r.wf(),
            r.pricing() == transport,
            r.remembered() == 0,
    {
        CoordinatedCostCalculator { transport, cache: Vec::new() }
    }

    /// Forgets every remembered total.
    pub fn clear_cache(&mut self)
        ensures
            final(self).wf(),
            final(self).pricing() == old(self).pricing(),
            final(self).remembered() <= ROUTE_CACHE_LIMIT + 1,
            final(self).remembered() == 0,
    {
        self.cache = Vec::new();
    }

    /// How many route totals are remembered.
    pub fn cache_size(&self) -> (r: usize)
        ensures
            r == self.remembered(),
    {
        self.cache.len()
    }

    /// The route's distance and duration totals, remembered for next time.
    pub fn get_route_totals(&mut self, route: &Route) -> (r: (i128, i128))
        requires
            old(self).wf(),
        ensures
            final(self).wf(),
            final(self).pricing() == old(self).pricing(),
            final(self).remembered() <= ROUTE_CACHE_LIMIT + 1,
            (r.0 as int, r.1 as int) == route_totals(old(self).pricing(), *route),
    {
        let key = locations_key(&route.activities);
        let mut i: usize = 0;
        while i < self.cache.len()
            invariant
                0 <= i <= self.cache.len(),
                self.wf(),
                key@ == locations_of(route.activities@),
            decreases self.cache.len() - i,
        {
            if same_locations(&self.cache[i].0, &key) {
                let totals = self.cache[i].1;
                assert(self.cache@[i as int] == self.cache@[i as int]);
                return totals;
            }
            i = i + 1;
        }
        let totals = self.transport.get_route_totals(route);
        if self.cache.len() > ROUTE_CACHE_LIMIT {
            self.cache = Vec::new();
        }
        let ghost before = self.cache@;
        self.cache.push((key, totals));
        assert forall|j: int| 0 <= j < self.cache@.len() implies {
            let (k, v) = #[trigger] self.cache@[j];
            (v.0 as int, v.1 as int) == location_totals(self.transport, k@)
        } by {
            if j < before.len() {
                assert(self.cache@[j] == before[j]);
            }
        }
        totals
    }

    /// The cost of travelling from `from` to `to` in the route, as the
    /// transport prices it.
    pub fn cost(&mut self, route: &Route, from: usize, to: usize) -> (r: i128)
        requires
            old(self).wf(),
            tiers_valid(route.actor.driver.tiered_costs),
            tiers_valid(route.actor.vehicle.tiered_costs),
        ensures
            final(self).wf(),
            final(self).pricing() == old(self).pricing(),
            final(self).remembered() <= ROUTE_CACHE_LIMIT + 1,
            r == transport_cost_spec(old(self).pricing(), *route, from, to),
    {
        let (td, tt) = self.get_route_totals(route);
        self.transport.cost_with_totals(route, from, to, td, tt)
    }

    /// The cost of serving `activity` in the route on arrival at `arrival`.
    pub fn activity_cost(&mut self, route: &Route, activity: &Activity, arrival: i64) -> (r: i128)
        requires
            old(self).wf(),
            tiers_valid(route.actor.driver.tiered_costs),
            tiers_valid(route.actor.vehicle.tiered_costs),
        ensures
            final(self).wf(),
            final(self).pricing() == old(self).pricing(),
            final(self).remembered() <= ROUTE_CACHE_LIMIT + 1,
            r == activity_cost_spec(old(self).pricing(), *route, *activity, arrival),
    {
        let (_, tt) = self.get_route_totals(route);
        self.transport.activity_cost_with_totals(route, activity, arrival, tt)
    }
}


/// Travel matrices of one routing profile, optionally for one time.
#[derive(Clone, Debug)]
pub struct MatrixData {
    pub index: usize,
    pub timestamp: Option<i64>,
    pub durations: Vec<i64>,
    pub distances: Vec<i64>,
}

impl MatrixData {
    /// Creates matrix data.
    pub fn new(index: usize, timestamp: Option<i64>, durations: Vec<i64>, distances: Vec<i64>) -> (r:
        Self)
        ensures
            r.index == index && r.timestamp == timestamp && r.durations@ == durations@
                && r.distances@ == distances@,
    {
        MatrixData { index, timestamp, durations, distances }
    }
}

/// Time-independent matrices, one per routing profile.
#[derive(Clone, Debug)]
pub struct TimeAgnosticMatrixTransportCost {
    /// Durations of profile `p` at `durations[p]`.
    pub durations: Vec<Vec<i64>>,
    pub distances: Vec<Vec<i64>>,
    pub size: usize,
}

/// Whether some matrix serves profile `k`.
pub open spec fn has_profile(costs: Seq<MatrixData>, k: int) -> bool {
    exists|i: int| 0 <= i < costs.len() && costs[i].index == k
}

/// Index of the first matrix of profile `k`.
pub open spec fn profile_at(costs: Seq<MatrixData>, k: int) -> int {
    choose|i: int|
        0 <= i < costs.len() && costs[i].index == k && forall|j: int| 0 <= j < i ==> costs[j].index != k
}

/// Every profile `0..n` of `n` matrices is served.
pub open spec fn profiles_complete(costs: Seq<MatrixData>) -> bool {
    forall|k: int| 0 <= k < costs.len() ==> has_profile(costs, k)
}

/// Whether every matrix's durations and distances have the same length.
pub open spec fn lengths_agree(costs: Seq<MatrixData>) -> bool {
    forall|i: int| 0 <= i < costs.len() ==> costs[i].durations@.len() == costs[i].distances@.len()
}

/// Whether every matrix has `size` locations.
pub open spec fn sizes_agree(costs: Seq<MatrixData>, size: int) -> bool {
    forall|i: int|
        0 <= i < costs.len() ==> is_round_sqrt(costs[i].durations@.len() as int, size)
            && is_round_sqrt(costs[i].distances@.len() as int, size)
}

/// Whether some matrix carries a time.
pub open spec fn time_aware(costs: Seq<MatrixData>) -> bool {
    exists|i: int| 0 <= i < costs.len() && costs[i].timestamp is Some
}

fn find_profile(costs: &Vec<MatrixData>, k: usize) -> (r: Option<usize>)
    ensures
        r matches Some(i) ==> i < costs@.len() && i as int == profile_at(costs@, k as int)
            && has_profile(costs@, k as int),
        r is None ==> !has_profile(costs@, k as int),
{
    let mut i: usize = 0;
    while i < costs.len()
        invariant
            0 <= i <= costs.len(),
            forall|j: int| 0 <= j < i ==> costs@[j].index != k,
        decreases costs.len() - i,
    {
        if costs[i].index == k {
            proof {
                let c = profile_at(costs@, k as int);
                if c < i {
                } else if c > i {
                }
            }
            return Some(i);
        }
        i = i + 1;
    }
    None
}

/// Creates time-independent matrices from per-profile data: the data must
/// not be empty, each matrix must hold as many durations as distances, all
/// must describe the same number of locations, none may carry a time, and
/// the profiles must be exactly `0..n`.
pub fn create_matrix_transport_cost(costs: Vec<MatrixData>) -> (r: Result<
    TimeAgnosticMatrixTransportCost,
    MatrixError,
>)
    ensures
        costs@.len() == 0 ==> r == Err::<TimeAgnosticMatrixTransportCost, MatrixError>(
            MatrixError::NoMatrix,
        ),
        r is Ok ==> costs@.len() > 0 && lengths_agree(costs@) && !time_aware(costs@)
            && profiles_complete(costs@),
        r matches Ok(t) ==> sizes_agree(costs@, t.size as int) && t.durations@.len() == costs@.len()
            && forall|k: int|
            0 <= k < costs@.len() ==> t.durations@[k]@ == costs@[profile_at(costs@, k)].durations@
                && t.distances@[k]@ == costs@[profile_at(costs@, k)].distances@,
        costs@.len() > 0 && !lengths_agree(costs@) ==> r == Err::<
            TimeAgnosticMatrixTransportCost,
            MatrixError,
        >(MatrixError::LengthMismatch),
        costs@.len() > 0 && lengths_agree(costs@) && (exists|sz: int| sizes_agree(costs@, sz))
            && !time_aware(costs@) && profiles_complete(costs@) ==> r is Ok,
{
    if costs.len() == 0 {
        return Err(MatrixError::NoMatrix);
    }
    let size = round_sqrt(costs[0].durations.len());
    let mut i: usize = 0;
    while i < costs.len()
        invariant
            0 <= i <= costs.len(),
            forall|j: int| 0 <= j < i ==> costs@[j].durations@.len() == costs@[j].distances@.len(),
        decreases costs.len() - i,
    {
        if costs[i].distances.len() != costs[i].durations.len() {
            return Err(MatrixError::LengthMismatch);
        }
        i = i + 1;
    }
    let mut i: usize = 0;
    while i < costs.len()
        invariant
            0 <= i <= costs.len(),
            is_round_sqrt(costs@[0].durations@.len() as int, size as int),
            lengths_agree(costs@),
            forall|j: int|
                0 <= j < i ==> is_round_sqrt(costs@[j].durations@.len() as int, size as int)
                    && is_round_sqrt(costs@[j].distances@.len() as int, size as int),
        decreases costs.len() - i,
    {
        let s = round_sqrt(costs[i].distances.len());
        if s != size {
            proof {
                assert forall|sz: int| !sizes_agree(costs@, sz) by {
                    if sizes_agree(costs@, sz) {
                        let a = costs@[0].durations@.len() as int;
                        let b = costs@[i as int].distances@.len() as int;
                        assert(is_round_sqrt(a, sz) && is_round_sqrt(b, sz));
                        if sz < size {
                            lemma_round_sqrt_unique(a, sz, size as int);
                        } else if sz > size {
                            lemma_round_sqrt_unique(a, size as int, sz);
                        } else if sz < s {
                            lemma_round_sqrt_unique(b, sz, s as int);
                        } else {
                            lemma_round_sqrt_unique(b, s as int, sz);
                        }
                    }
                }
            }
            return Err(MatrixError::SizeMismatch);
        }
        i = i + 1;
    }
    assert(sizes_agree(costs@, size as int));
    let mut i: usize = 0;
    while i < costs.len()
        invariant
            0 <= i <= costs.len(),
            lengths_agree(costs@),
            forall|j: int| 0 <= j < i ==> costs@[j].timestamp is None,
        decreases costs.len() - i,
    {
        if costs[i].timestamp.is_some() {
            return Err(MatrixError::TimeAware);
        }
        i = i + 1;
    }
    assert(!time_aware(costs@));
    let ghost checked = lengths_agree(costs@) && !time_aware(costs@) && sizes_agree(
        costs@,
        size as int,
    );
    let mut durations: Vec<Vec<i64>> = Vec::new();
    let mut distances: Vec<Vec<i64>> = Vec::new();
    let mut k: usize = 0;
    while k < costs.len()
        invariant
            0 <= k <= costs.len(),
            checked,
            checked == (lengths_agree(costs@) && !time_aware(costs@) && sizes_agree(
                costs@,
                size as int,
            )),
            durations@.len() == k,
            distances@.len() == k,
            forall|q: int| 0 <= q < k ==> has_profile(costs@, q),
            forall|q: int|
                0 <= q < k ==> durations@[q]@ == costs@[profile_at(costs@, q)].durations@
                    && distances@[q]@ == costs@[profile_at(costs@, q)].distances@,
        decreases costs.len() - k,
    {
        let p = match find_profile(&costs, k) {
            Some(p) => p,
            None => return Err(MatrixError::DuplicateProfiles),
        };
        let ghost before_d = durations@;
        let ghost before_s = distances@;
        durations.push(copy_details(&costs[p].durations));
        distances.push(copy_details(&costs[p].distances));
        assert forall|q: int| 0 <= q < k + 1 implies durations@[q]@ == costs@[profile_at(costs@, q)].durations@
            && distances@[q]@ == costs@[profile_at(costs@, q)].distances@ by {
            if q < k {
                assert(durations@[q] == before_d[q]);
                assert(distances@[q] == before_s[q]);
            }
        }
        k = k + 1;
    }
    Ok(TimeAgnosticMatrixTransportCost { durations, distances, size })
}

impl TimeAgnosticMatrixTransportCost {
    /// Travel duration between two locations for profile `profile`; none
    /// when the matrix does not cover them.
    pub fn duration_approx(&self, profile: usize, from: usize, to: usize) -> (r: Option<i64>)
        ensures
            r == (if profile < self.durations@.len() && 0 <= from * self.size + to
                < self.durations@[profile as int]@.len() {
                Some(self.durations@[profile as int]@[from * self.size + to])
            } else {
                None
            }),
    {
        if profile >= self.durations.len() {
            return None;
        }
        let m = &self.durations[profile];
        assert(from * self.size <= 0xffff_ffff_ffff_ffff * 0xffff_ffff_ffff_ffff) by (nonlinear_arith)
            requires
                from <= 0xffff_ffff_ffff_ffff,
                self.size <= 0xffff_ffff_ffff_ffff,
        ;
        let i = from as u128 * self.size as u128 + to as u128;
        if i < m.len() as u128 {
            Some(m[i as usize])
        } else {
            None
        }
    }

    /// Travel distance between two locations for profile `profile`; none
    /// when the matrix does not cover them.
    pub fn distance_approx(&self, profile: usize, from: usize, to: usize) -> (r: Option<i64>)
        ensures
            r == (if profile < self.distances@.len() && 0 <= from * self.size + to
                < self.distances@[profile as int]@.len() {
                Some(self.distances@[profile as int]@[from * self.size + to])
            } else {
                None
            }),
    {
        if profile >= self.distances.len() {
            return None;
        }
        let m = &self.distances[profile];
        assert(from * self.size <= 0xffff_ffff_ffff_ffff * 0xffff_ffff_ffff_ffff) by (nonlinear_arith)
            requires
                from <= 0xffff_ffff_ffff_ffff,
                self.size <= 0xffff_ffff_ffff_ffff,
        ;
        let i = from as u128 * self.size as u128 + to as u128;
        if i < m.len() as u128 {
            Some(m[i as usize])
        } else {
            None
        }
    }
}

} // verus!
