//! A resource pool shared by several routes: an activity may offer a
//! resource with a capacity; the job activities of the interval that starts
//! there consume it, summed over all routes that draw on the same resource.
use vstd::prelude::*;
use crate::model::{Activity, RouteContext};
use crate::solution::{ConstraintViolation, SolutionContext, ViolationCode};

verus! {

/// Demand totals per resource id, held in a hashbrown map.
#[verifier::external_body]
pub struct ResourceTotals {
    totals: hashbrown::HashMap<usize, u64>,
}

/// What the totals map holds.
pub uninterp spec fn totals_of(t: ResourceTotals) -> Map<usize, u64>;

/// Relies on hashbrown::HashMap::new: a new map is empty.
#[verifier::external_body]
fn totals_new() -> (r: ResourceTotals)
    ensures
        totals_of(r).dom().len() == 0,
        forall|id: usize| !(#[trigger] totals_of(r).contains_key(id)),
{
    ResourceTotals { totals: hashbrown::HashMap::new() }
}

/// Relies on hashbrown::HashMap::get: the value stored under the key, if any.
#[verifier::external_body]
fn totals_get(t: &ResourceTotals, id: usize) -> (r: Option<u64>)
    ensures
        r == (if totals_of(*t).contains_key(id) {
            Some(totals_of(*t)[id])
        } else {
            None
        }),
{
    t.totals.get(&id).copied()
}

/// Relies on hashbrown::HashMap::insert: afterwards the key maps to the value.
#[verifier::external_body]
fn totals_insert(t: &mut ResourceTotals, id: usize, v: u64)
    ensures
        totals_of(*final(t)) == totals_of(*old(t)).insert(id, v),
{
    t.totals.insert(id, v);
}

/// How much the activity's job consumes (nothing without a job or demand).
pub open spec fn demand_of(a: Activity) -> int {
    match a.job {
        Some(j) => match j.dimens.resource_demand {
            Some(d) => d as int,
            None => 0,
        },
        None => 0,
    }
}

/// Demand of the activities with index in `[start, n)`.
pub open spec fn span_demand(acts: Seq<Activity>, start: int, n: int) -> int
    decreases n - start,
{
    if n <= start {
        0
    } else {
        span_demand(acts, start, n - 1) + demand_of(acts[n - 1])
    }
}

/// The larger of zero and the smaller of `x` and the largest `u64`.
pub open spec fn saturated(x: int) -> int {
    if x > u64::MAX {
        u64::MAX as int
    } else {
        x
    }
}

/// Demand of interval `[start, end]` of the activities (indices past the
/// end of the tour count nothing), saturating.
pub open spec fn interval_demand(acts: Seq<Activity>, start: int, end: int) -> int {
    let n = if end + 1 < acts.len() {
        end + 1
    } else {
        acts.len() as int
    };
    saturated(span_demand(acts, start, n))
}

/// What the intervals of one route add, in order: the resource id offered at
/// each interval's start and the interval's demand.
pub open spec fn route_contributions(rc: RouteContext, k: int) -> Seq<(usize, int)>
    decreases k,
{
    if k <= 0 {
        Seq::empty()
    } else {
        let rest = route_contributions(rc, k - 1);
        let acts = rc.route.activities@;
        let (s, e) = rc.state.resource_intervals@[k - 1];
        if s < acts.len() && acts[s as int].resource is Some {
            rest.push((acts[s as int].resource.unwrap().1, interval_demand(acts, s as int, e as int)))
        } else {
            rest
        }
    }
}

/// What all routes add, route by route.
pub open spec fn contributions(routes: Seq<RouteContext>) -> Seq<(usize, int)>
    decreases routes.len(),
{
    if routes.len() == 0 {
        Seq::empty()
    } else {
        let rc = routes.last();
        contributions(routes.drop_last()) + route_contributions(
            rc,
            rc.state.resource_intervals@.len() as int,
        )
    }
}

/// Demand per resource: each contribution added to its resource, saturating.
pub open spec fn totals(cs: Seq<(usize, int)>) -> Map<usize, u64>
    decreases cs.len(),
{
    if cs.len() == 0 {
        Map::empty()
    } else {
        let m = totals(cs.drop_last());
        let (id, d) = cs.last();
        let before: int = if m.contains_key(id) {
            m[id] as int
        } else {
            0
        };
        m.insert(id, saturated(before + d) as u64)
    }
}

/// The amount stored for activity index `x`: the first entry for it.
pub open spec fn available_at(v: Seq<(usize, i128)>, x: usize) -> Option<i128>
    decreases v.len(),
{
    if v.len() == 0 {
        None
    } else if v[0].0 == x {
        Some(v[0].1)
    } else {
        available_at(v.drop_first(), x)
    }
}

/// Whether `x` starts one of the first `k` intervals of the route and
/// offers a resource there.
pub open spec fn offers_at(rc: RouteContext, k: int, x: usize) -> bool {
    exists|j: int|
        0 <= j < k && #[trigger] rc.state.resource_intervals@[j].0 == x && x
            < rc.route.activities@.len() && rc.route.activities@[x as int].resource is Some
}

/// Resource left at a start activity offering `(capacity, id)`.
pub open spec fn left(t: Map<usize, u64>, offer: (u64, usize)) -> i128 {
    (offer.0 - t[offer.1]) as i128
}

/// Keeps a resource shared by several routes within its capacity.
#[derive(Clone, Debug)]
pub struct SharedResourceModule {
    pub code: ViolationCode,
}

fn interval_demand_of(acts: &Vec<Activity>, start: usize, end: usize) -> (r: u64)
    ensures
        r == interval_demand(acts@, start as int, end as int),
{
    let n: usize = if end < acts.len() {
        end + 1
    } else {
        acts.len()
    };
    let mut total: u64 = 0;
    let mut i: usize = start;
    if start >= n {
        return 0;
    }
    while i < n
        invariant
            start <= i <= n <= acts.len(),
            total == saturated(span_demand(acts@, start as int, i as int)),
            span_demand(acts@, start as int, i as int) >= 0,
        decreases n - i,
    {
        let d: u64 = match &acts[i].job {
            Some(j) => match j.dimens.resource_demand {
                Some(d) => d,
                None => 0,
            },
            None => 0,
        };
        total = total.saturating_add(d);
        i = i + 1;
    }
    total
}

fn put_available(v: &mut Vec<(usize, i128)>, x: usize, amount: i128)
    ensures
        available_at(final(v)@, x) == Some(amount),
        forall|y: usize| y != x ==> available_at(final(v)@, y) == available_at(old(v)@, y),
{
    let ghost start = v@;
    assert(start == old(v)@);
    let mut i: usize = 0;
    while i < v.len()
        invariant
            0 <= i <= v.len(),
            v@ == start,
            start == old(v)@,
            forall|j: int| 0 <= j < i ==> v@[j].0 != x,
        decreases v.len() - i,
    {
        if v[i].0 == x {
            v.set(i, (x, amount));
            proof {
                lemma_available_update(start, i as int, x, amount);
                assert(v@ == start.update(i as int, (x, amount)));
                assert forall|y: usize| y != x implies available_at(v@, y) == available_at(start, y) by {
                    assert(available_at(start.update(i as int, (x, amount)), y) == available_at(
                        start,
                        y,
                    ));
                }
            }
            return ;
        }
        i = i + 1;
    }
    v.push((x, amount));
    proof {
        lemma_available_push(start, x, amount);
    }
}

proof fn lemma_available_update(v: Seq<(usize, i128)>, i: int, x: usize, amount: i128)
    requires
        0 <= i < v.len(),
        v[i].0 == x,
        forall|j: int| 0 <= j < i ==> v[j].0 != x,
    ensures
        available_at(v.update(i, (x, amount)), x) == Some(amount),
        forall|y: usize| y != x ==> available_at(v.update(i, (x, amount)), y) == available_at(v, y),
    decreases i,
{
    let u = v.update(i, (x, amount));
    if i > 0 {
        lemma_available_update(v.drop_first(), i - 1, x, amount);
        assert(u.drop_first() =~= v.drop_first().update(i - 1, (x, amount)));
        assert(u[0] == v[0]);
    } else {
        assert(u.drop_first() =~= v.drop_first());
    }
    assert forall|y: usize| y != x implies available_at(u, y) == available_at(v, y) by {
        if u[0].0 != y {
            assert(available_at(u, y) == available_at(u.drop_first(), y));
            assert(available_at(v, y) == available_at(v.drop_first(), y));
            if i > 0 {
                assert(available_at(v.drop_first().update(i - 1, (x, amount)), y) == available_at(
                    v.drop_first(),
                    y,
                ));
            }
        }
    }
}

proof fn lemma_available_push(v: Seq<(usize, i128)>, x: usize, amount: i128)
    requires
        forall|j: int| 0 <= j < v.len() ==> v[j].0 != x,
    ensures
        available_at(v.push((x, amount)), x) == Some(amount),
        forall|y: usize| y != x ==> available_at(v.push((x, amount)), y) == available_at(v, y),
    decreases v.len(),
{
    let u = v.push((x, amount));
    if v.len() > 0 {
        lemma_available_push(v.drop_first(), x, amount);
        assert(u.drop_first() =~= v.drop_first().push((x, amount)));
        assert(u[0] == v[0]);
    } else {
        assert(u.drop_first() =~= Seq::<(usize, i128)>::empty());
    }
    assert forall|y: usize| y != x implies available_at(u, y) == available_at(v, y) by {
        if v.len() > 0 {
            if u[0].0 != y {
                assert(available_at(u, y) == available_at(u.drop_first(), y));
                assert(available_at(v, y) == available_at(v.drop_first(), y));
                assert(available_at(v.drop_first().push((x, amount)), y) == available_at(
                    v.drop_first(),
                    y,
                ));
            }
        } else {
            assert(available_at(u, y) == available_at(u.drop_first(), y));
            assert(available_at(u.drop_first(), y) == None::<i128>);
        }
    }
}

impl SharedResourceModule {
    /// Creates the module with the code it reports violations under.
    pub fn new(code: ViolationCode) -> (r: Self)
        ensures
            r.code == code,
    {
        SharedResourceModule { code }
    }

    /// Sums the demand on each resource over all routes.
    fn total_demand(&self, routes: &Vec<RouteContext>) -> (r: ResourceTotals)
        ensures
            totals_of(r) == totals(contributions(routes@)),
    {
        let mut t = totals_new();
        let mut i: usize = 0;
        assert(contributions(routes@.subrange(0, 0)) =~= Seq::<(usize, int)>::empty());
        while i < routes.len()
            invariant
                0 <= i <= routes.len(),
                totals_of(t) == totals(contributions(routes@.subrange(0, i as int))),
            decreases routes.len() - i,
        {
            let rc = &routes[i];
            let acts = &rc.route.activities;
            let intervals = &rc.state.resource_intervals;
            let ghost done = contributions(routes@.subrange(0, i as int));
            let mut k: usize = 0;
            assert(done + route_contributions(*rc, 0) =~= done);
            while k < intervals.len()
                invariant
                    0 <= k <= intervals.len(),
                    intervals == &rc.state.resource_intervals,
                    acts == &rc.route.activities,
                    totals_of(t) == totals(done + route_contributions(*rc, k as int)),
                decreases intervals.len() - k,
            {
                let (s, e) = intervals[k];
                let ghost before = done + route_contributions(*rc, k as int);
                if s < acts.len() {
                    if let Some((_, id)) = acts[s].resource {
                        let d = interval_demand_of(acts, s, e);
                        let prior: u64 = match totals_get(&t, id) {
                            Some(x) => x,
                            None => 0,
                        };
                        let after = prior.saturating_add(d);
                        totals_insert(&mut t, id, after);
                        proof {
                            let next = done + route_contributions(*rc, k as int + 1);
                            assert(next =~= before.push((id, d as int)));
                            assert(next.drop_last() =~= before);
                        }
                    } else {
                        assert(done + route_contributions(*rc, k as int + 1) =~= before);
                    }
                } else {
                    assert(done + route_contributions(*rc, k as int + 1) =~= before);
                }
                k = k + 1;
            }
            assert(routes@.subrange(0, i as int + 1).drop_last() =~= routes@.subrange(0, i as int));
            assert(routes@.subrange(0, i as int + 1).last() == routes@[i as int]);
            i = i + 1;
        }
        assert(routes@.subrange(0, i as int) =~= routes@);
        t
    }

    /// Stores, at the start of every interval that offers a resource, the
    /// capacity left once every route's demand on that resource is counted.
    pub fn update_resource_consumption(&self, solution_ctx: &mut SolutionContext)
        ensures
            resource_state_updated(*old(solution_ctx), *final(solution_ctx)),
    {
        let t = self.total_demand(&solution_ctx.routes);
        let ghost tm = totals_of(t);
        let ghost routes0 = solution_ctx.routes@;
        let mut i: usize = 0;
        while i < solution_ctx.routes.len()
            invariant
                0 <= i <= solution_ctx.routes.len(),
                solution_ctx.routes@.len() == routes0.len(),
                tm == totals_of(t),
                tm == totals(contributions(routes0)),
                solution_ctx.required == old(solution_ctx).required,
                solution_ctx.ignored == old(solution_ctx).ignored,
                solution_ctx.state == old(solution_ctx).state,
                routes0 == old(solution_ctx).routes@,
                forall|r: int| i <= r < routes0.len() ==> #[trigger] solution_ctx.routes@[r] == routes0[r],
                forall|r: int| 0 <= r < i ==> route_available_updated(routes0[r], #[trigger] solution_ctx.routes@[r], tm),
            decreases routes0.len() - i,
        {
            let ghost mid = solution_ctx.routes@;
            let mut rc = solution_ctx.routes.remove(i);
            let ghost rc0 = rc;
            let mut k: usize = 0;
            while k < rc.state.resource_intervals.len()
                invariant
                    0 <= k <= rc.state.resource_intervals.len(),
                    rc.route == rc0.route,
                    rc.state.sync_groups == rc0.state.sync_groups,
                    rc.state.resource_intervals == rc0.state.resource_intervals,
                    tm == totals_of(t),
                    tm == totals(contributions(routes0)),
                    i < routes0.len(),
                    rc0 == routes0[i as int],
                    forall|x: usize|
                        #[trigger] available_at(rc.state.resource_available@, x) == if offers_at(rc0, k as int, x) {
                            Some(left(tm, rc0.route.activities@[x as int].resource.unwrap()))
                        } else {
                            available_at(rc0.state.resource_available@, x)
                        },
                decreases rc.state.resource_intervals.len() - k,
            {
                let s = rc.state.resource_intervals[k].0;
                if s < rc.route.activities.len() {
                    if let Some((capacity, id)) = rc.route.activities[s].resource {
                        proof {
                            lemma_offered_resource_counted(routes0, i as int, k as int);
                        }
                        let total = match totals_get(&t, id) {
                            Some(x) => x,
                            None => 0,
                        };
                        put_available(&mut rc.state.resource_available, s, capacity as i128 - total as i128);
                    }
                }
                proof {
                    assert forall|x: usize| offers_at(rc0, k as int + 1, x) == (offers_at(rc0, k as int, x)
                        || (x == s && s < rc0.route.activities@.len()
                        && rc0.route.activities@[s as int].resource is Some)) by {
                        if offers_at(rc0, k as int + 1, x) {
                            let j = choose|j: int|
                                0 <= j < k + 1 && #[trigger] rc0.state.resource_intervals@[j].0 == x && x
                                    < rc0.route.activities@.len()
                                    && rc0.route.activities@[x as int].resource is Some;
                            if j < k {
                                assert(offers_at(rc0, k as int, x));
                            }
                        }
                        if x == s && s < rc0.route.activities@.len()
                            && rc0.route.activities@[s as int].resource is Some {
                            assert(rc0.state.resource_intervals@[k as int].0 == x);
                        }
                    }
                }
                k = k + 1;
            }
            solution_ctx.routes.insert(i, rc);
            assert(solution_ctx.routes@ =~= mid.update(i as int, rc));
            i = i + 1;
        }
    }

    /// Refuses an activity at `index` when the resource left at the start
    /// of the first interval reaching `index` is less than the demand of the
    /// activity found there.
    pub fn evaluate_activity(&self, route_ctx: &RouteContext, index: usize) -> (r: Option<
        ConstraintViolation,
    >)
        ensures
            r == resource_verdict(*route_ctx, index, self.code),
    {
        let intervals = &route_ctx.state.resource_intervals;
        let mut k: usize = 0;
        while k < intervals.len() && index > intervals[k].1
            invariant
                0 <= k <= intervals.len(),
                intervals == &route_ctx.state.resource_intervals,
                forall|j: int| 0 <= j < k ==> intervals@[j].1 < index,
            decreases intervals.len() - k,
        {
            k = k + 1;
        }
        if k == intervals.len() {
            assert(!exists|j: int| 0 <= j < intervals@.len() && index <= intervals@[j].1);
            return None;
        }
        proof {
            let j = interval_reaching(intervals@, index);
            assert(index <= intervals@[k as int].1);
            if j != k {
                if j < k {
                } else {
                    assert(intervals@[k as int].1 < index);
                }
            }
        }
        let start = intervals[k].0;
        let available = match find_available(&route_ctx.state.resource_available, start) {
            Some(a) => a,
            None => return None,
        };
        let acts = &route_ctx.route.activities;
        let demand: u64 = if index < acts.len() {
            match &acts[index].job {
                Some(j) => match j.dimens.resource_demand {
                    Some(d) => d,
                    None => 0,
                },
                None => 0,
            }
        } else {
            0
        };
        if available < demand as i128 {
            Some(ConstraintViolation { code: self.code, stopped: false })
        } else {
            None
        }
    }
}

fn find_available(v: &Vec<(usize, i128)>, x: usize) -> (r: Option<i128>)
    ensures
        r == available_at(v@, x),
{
    let mut i: usize = 0;
    assert(v@.subrange(0, v@.len() as int) =~= v@);
    while i < v.len()
        invariant
            0 <= i <= v.len(),
            available_at(v@, x) == available_at(v@.subrange(i as int, v@.len() as int), x),
        decreases v.len() - i,
    {
        assert(v@.subrange(i as int, v@.len() as int).drop_first() =~= v@.subrange(
            i as int + 1,
            v@.len() as int,
        ));
        if v[i].0 == x {
            return Some(v[i].1);
        }
        i = i + 1;
    }
    None
}

/// Index of the first interval whose end reaches `index`, or -1.
pub open spec fn interval_reaching(intervals: Seq<(usize, usize)>, index: usize) -> int {
    if exists|j: int| 0 <= j < intervals.len() && index <= intervals[j].1 {
        choose|j: int|
            0 <= j < intervals.len() && index <= intervals[j].1 && forall|i: int|
                0 <= i < j ==> intervals[i].1 < index
    } else {
        -1
    }
}

/// The verdict on an activity at `index` of the route.
pub open spec fn resource_verdict(rc: RouteContext, index: usize, code: ViolationCode) -> Option<
    ConstraintViolation,
> {
    let k = interval_reaching(rc.state.resource_intervals@, index);
    if k < 0 {
        None
    } else {
        let acts = rc.route.activities@;
        let demand = if index < acts.len() {
            demand_of(acts[index as int])
        } else {
            0
        };
        match available_at(rc.state.resource_available@, rc.state.resource_intervals@[k].0) {
            None => None,
            Some(a) => if a < demand {
                Some(ConstraintViolation { code, stopped: false })
            } else {
                None
            },
        }
    }
}

/// A route whose stored amounts are refreshed against the totals `tm`.
pub open spec fn route_available_updated(before: RouteContext, after: RouteContext, tm: Map<usize, u64>) -> bool {
    &&& after.route == before.route
    &&& after.state.sync_groups == before.state.sync_groups
    &&& after.state.resource_intervals == before.state.resource_intervals
    &&& forall|x: usize|
        #[trigger] available_at(after.state.resource_available@, x) == if offers_at(
            before,
            before.state.resource_intervals@.len() as int,
            x,
        ) {
            Some(left(tm, before.route.activities@[x as int].resource.unwrap()))
        } else {
            available_at(before.state.resource_available@, x)
        }
}

/// What `update_resource_consumption` leaves: every route's stored amounts
/// refreshed against the demand totals of all routes; nothing else changes.
pub open spec fn resource_state_updated(before: SolutionContext, after: SolutionContext) -> bool {
    let tm = totals(contributions(before.routes@));
    &&& after.required == before.required
    &&& after.ignored == before.ignored
    &&& after.state == before.state
    &&& after.routes@.len() == before.routes@.len()
    &&& forall|r: int|
        0 <= r < before.routes@.len() ==> route_available_updated(
            before.routes@[r],
            #[trigger] after.routes@[r],
            tm,
        )
}

/// A resource offered at an interval start has a total.
proof fn lemma_offered_resource_counted(routes: Seq<RouteContext>, i: int, k: int)
    requires
        0 <= i < routes.len(),
        0 <= k < routes[i].state.resource_intervals@.len(),
        ({
            let s = routes[i].state.resource_intervals@[k].0;
            s < routes[i].route.activities@.len() && routes[i].route.activities@[s as int].resource
                is Some
        }),
    ensures
        ({
            let s = routes[i].state.resource_intervals@[k].0;
            totals(contributions(routes)).contains_key(
                routes[i].route.activities@[s as int].resource.unwrap().1,
            )
        }),
{
    let s = routes[i].state.resource_intervals@[k].0;
    let id = routes[i].route.activities@[s as int].resource.unwrap().1;
    lemma_route_contains(routes[i], k, routes[i].state.resource_intervals@.len() as int);
    lemma_contributions_contain(routes, i, id);
}

/// Route `rc` contributes to the resource offered at interval `k` within
/// its first `n` intervals.
proof fn lemma_route_contains(rc: RouteContext, k: int, n: int)
    requires
        0 <= k < n <= rc.state.resource_intervals@.len(),
        ({
            let s = rc.state.resource_intervals@[k].0;
            s < rc.route.activities@.len() && rc.route.activities@[s as int].resource is Some
        }),
    ensures
        ({
            let s = rc.state.resource_intervals@[k].0;
            exists|c: int|
                0 <= c < route_contributions(rc, n).len() && #[trigger] route_contributions(
                    rc,
                    n,
                )[c].0 == rc.route.activities@[s as int].resource.unwrap().1
        }),
    decreases n,
{
    let s = rc.state.resource_intervals@[k].0;
    let id = rc.route.activities@[s as int].resource.unwrap().1;
    if k < n - 1 {
        lemma_route_contains(rc, k, n - 1);
        let c = choose|c: int|
            0 <= c < route_contributions(rc, n - 1).len() && #[trigger] route_contributions(
                rc,
                n - 1,
            )[c].0 == id;
        assert(route_contributions(rc, n)[c] == route_contributions(rc, n - 1)[c]);
    } else {
        let c = route_contributions(rc, n - 1).len() as int;
        assert(route_contributions(rc, n)[c].0 == id);
    }
}

/// A resource some route contributes to has a total.
proof fn lemma_contributions_contain(routes: Seq<RouteContext>, i: int, id: usize)
    requires
        0 <= i < routes.len(),
        exists|c: int|
            0 <= c < route_contributions(
                routes[i],
                routes[i].state.resource_intervals@.len() as int,
            ).len() && #[trigger] route_contributions(
                routes[i],
                routes[i].state.resource_intervals@.len() as int,
            )[c].0 == id,
    ensures
        totals(contributions(routes)).contains_key(id),
    decreases routes.len(),
{
    let cs = contributions(routes);
    if i < routes.len() - 1 {
        lemma_contributions_contain(routes.drop_last(), i, id);
        assert(routes.drop_last()[i] == routes[i]);
        lemma_totals_keep(contributions(routes.drop_last()), route_contributions(
            routes.last(),
            routes.last().state.resource_intervals@.len() as int,
        ), id);
    } else {
        let rc = routes[i];
        let own = route_contributions(rc, rc.state.resource_intervals@.len() as int);
        let c = choose|c: int| 0 <= c < own.len() && #[trigger] own[c].0 == id;
        lemma_totals_contain(contributions(routes.drop_last()), own, c, id);
    }
}

/// Keys present stay present when more contributions follow.
proof fn lemma_totals_keep(a: Seq<(usize, int)>, b: Seq<(usize, int)>, id: usize)
    requires
        totals(a).contains_key(id),
    ensures
        totals(a + b).contains_key(id),
    decreases b.len(),
{
    if b.len() > 0 {
        lemma_totals_keep(a, b.drop_last(), id);
        assert((a + b).drop_last() =~= a + b.drop_last());
    } else {
        assert(a + b =~= a);
    }
}

/// A contribution's resource has a total.
proof fn lemma_totals_contain(a: Seq<(usize, int)>, b: Seq<(usize, int)>, c: int, id: usize)
    requires
        0 <= c < b.len(),
        b[c].0 == id,
    ensures
        totals(a + b).contains_key(id),
    decreases b.len(),
{
    if c < b.len() - 1 {
        lemma_totals_contain(a, b.drop_last(), c, id);
        assert((a + b).drop_last() =~= a + b.drop_last());
    } else {
        assert((a + b).drop_last() =~= a + b.drop_last());
        assert((a + b).last() == b[c]);
    }
}

} // verus!
