//! The fleet: drivers, vehicles, and one actor per vehicle shift.
use vstd::prelude::*;
use crate::model::{
    Actor, ActorDetail, Driver, TimeWindow, Vehicle, VehicleDetail,
};
use crate::tiered_costs::{TieredCost, TieredCosts};

verus! {

/// The working time of a shift: from its start's earliest time (or zero)
/// to its end's latest time (or the end of time).
pub open spec fn shift_window(d: VehicleDetail) -> TimeWindow {
    TimeWindow {
        start: match d.start {
            Some(p) => match p.time.earliest {
                Some(t) => t,
                None => 0,
            },
            None => 0,
        },
        end: match d.end {
            Some(p) => match p.time.latest {
                Some(t) => t,
                None => i64::MAX,
            },
            None => i64::MAX,
        },
    }
}

/// The actor detail of a vehicle shift.
pub open spec fn actor_detail(d: VehicleDetail) -> ActorDetail {
    ActorDetail { start: d.start, end: d.end, time: shift_window(d) }
}

/// Every shift of every vehicle, vehicle by vehicle, with its vehicle's id.
pub open spec fn shifts(vehicles: Seq<Vehicle>) -> Seq<(usize, VehicleDetail)>
    decreases vehicles.len(),
{
    if vehicles.len() == 0 {
        Seq::empty()
    } else {
        let v = vehicles.last();
        shifts(vehicles.drop_last()) + v.details@.map_values(|d: VehicleDetail| (v.id, d))
    }
}

/// Two tiered costs charge the same.
pub open spec fn same_tiered_cost(a: TieredCost, b: TieredCost) -> bool {
    match (a, b) {
        (TieredCost::Fixed(x), TieredCost::Fixed(y)) => x == y,
        (TieredCost::Tiered(s), TieredCost::Tiered(t)) => s@ == t@,
        _ => false,
    }
}

/// Two optional tiered costs charge the same.
pub open spec fn same_tiered_costs(a: Option<TieredCosts>, b: Option<TieredCosts>) -> bool {
    match (a, b) {
        (None, None) => true,
        (Some(x), Some(y)) => same_tiered_cost(x.per_distance, y.per_distance) && same_tiered_cost(
            x.per_driving_time,
            y.per_driving_time,
        ) && x.calculation_mode == y.calculation_mode,
        _ => false,
    }
}

/// Two drivers with the same costs and details.
pub open spec fn same_driver(a: Driver, b: Driver) -> bool {
    a.costs == b.costs && a.details@ == b.details@ && same_tiered_costs(a.tiered_costs, b.tiered_costs)
}

fn copy_tiered_cost(c: &TieredCost) -> (r: TieredCost)
    ensures
        same_tiered_cost(r, *c),
{
    match c {
        TieredCost::Fixed(x) => TieredCost::Fixed(*x),
        TieredCost::Tiered(t) => {
            let mut u = Vec::new();
            let mut i: usize = 0;
            while i < t.len()
                invariant
                    0 <= i <= t.len(),
                    u@ == t@.subrange(0, i as int),
                decreases t.len() - i,
            {
                u.push(t[i]);
                assert(u@ =~= t@.subrange(0, i as int + 1));
                i = i + 1;
            }
            assert(t@.subrange(0, i as int) =~= t@);
            TieredCost::Tiered(u)
        },
    }
}

fn copy_tiered_costs(c: &Option<TieredCosts>) -> (r: Option<TieredCosts>)
    ensures
        same_tiered_costs(r, *c),
{
    match c {
        Some(t) => Some(
            TieredCosts {
                per_distance: copy_tiered_cost(&t.per_distance),
                per_driving_time: copy_tiered_cost(&t.per_driving_time),
                calculation_mode: t.calculation_mode,
            },
        ),
        None => None,
    }
}

pub(crate) fn copy_details<T: Copy>(d: &Vec<T>) -> (r: Vec<T>)
    ensures
        r@ == d@,
{
    let mut out = Vec::new();
    let mut i: usize = 0;
    while i < d.len()
        invariant
            0 <= i <= d.len(),
            out@ == d@.subrange(0, i as int),
        decreases d.len() - i,
    {
        out.push(d[i]);
        assert(out@ =~= d@.subrange(0, i as int + 1));
        i = i + 1;
    }
    assert(d@.subrange(0, i as int) =~= d@);
    out
}

/// A copy of the vehicle with the same identity and shifts.
fn copy_vehicle(v: &Vehicle) -> (r: Vehicle)
    ensures
        r.id == v.id,
        r.profile == v.profile,
        r.costs == v.costs,
        r.details@ == v.details@,
{
    Vehicle {
        id: v.id,
        profile: v.profile,
        costs: v.costs,
        tiered_costs: copy_tiered_costs(&v.tiered_costs),
        details: copy_details(&v.details),
    }
}

fn copy_driver(d: &Driver) -> (r: Driver)
    ensures
        same_driver(r, *d),
{
    Driver {
        costs: d.costs,
        tiered_costs: copy_tiered_costs(&d.tiered_costs),
        details: copy_details(&d.details),
    }
}

fn shift_window_of(d: &VehicleDetail) -> (r: TimeWindow)
    ensures
        r == shift_window(*d),
{
    let start = match &d.start {
        Some(p) => match p.time.earliest {
            Some(t) => t,
            None => 0,
        },
        None => 0,
    };
    let end = match &d.end {
        Some(p) => match p.time.latest {
            Some(t) => t,
            None => i64::MAX,
        },
        None => i64::MAX,
    };
    TimeWindow { start, end }
}

/// Available resources to serve jobs.
#[derive(Clone, Debug)]
pub struct Fleet {
    pub drivers: Vec<Driver>,
    pub vehicles: Vec<Vehicle>,
    /// Profile indices used by the vehicles, ascending, each once.
    pub profiles: Vec<usize>,
    /// One actor per vehicle shift, vehicle by vehicle.
    pub actors: Vec<Actor>,
}

/// Whether `p` is the profile of some vehicle.
pub open spec fn profile_used(vehicles: Seq<Vehicle>, p: usize) -> bool {
    exists|i: int| 0 <= i < vehicles.len() && vehicles[i].profile == p
}

impl Fleet {
    /// Creates a fleet with one driver and at least one vehicle: one actor
    /// for each shift of each vehicle.
    pub fn new(drivers: Vec<Driver>, vehicles: Vec<Vehicle>) -> (r: Fleet)
        requires
            drivers@.len() == 1,
            vehicles@.len() > 0,
        ensures
            r.actors@.len() == shifts(vehicles@).len(),
            forall|k: int|
                0 <= k < r.actors@.len() ==> (#[trigger] r.actors@[k]).vehicle.id == shifts(
                    vehicles@,
                )[k].0 && r.actors@[k].detail == actor_detail(shifts(vehicles@)[k].1)
                    && same_driver(r.actors@[k].driver, drivers@[0]),
            forall|a: int, b: int| 0 <= a < b < r.profiles@.len() ==> r.profiles@[a] < r.profiles@[b],
            forall|p: usize| r.profiles@.contains(p) <==> profile_used(vehicles@, p),
    {
        let mut profiles: Vec<usize> = Vec::new();
        let mut actors: Vec<Actor> = Vec::new();
        let mut i: usize = 0;
        assert(shifts(vehicles@.subrange(0, 0)) =~= Seq::<(usize, VehicleDetail)>::empty());
        while i < vehicles.len()
            invariant
                0 <= i <= vehicles.len(),
                drivers@.len() == 1,
                actors@.len() == shifts(vehicles@.subrange(0, i as int)).len(),
                forall|k: int|
                    0 <= k < actors@.len() ==> (#[trigger] actors@[k]).vehicle.id == shifts(
                        vehicles@.subrange(0, i as int),
                    )[k].0 && actors@[k].detail == actor_detail(
                        shifts(vehicles@.subrange(0, i as int))[k].1,
                    ) && same_driver(actors@[k].driver, drivers@[0]),
                forall|a: int, b: int| 0 <= a < b < profiles@.len() ==> profiles@[a] < profiles@[b],
                forall|p: usize|
                    profiles@.contains(p) <==> profile_used(vehicles@.subrange(0, i as int), p),
            decreases vehicles.len() - i,
        {
            let v = &vehicles[i];
            let ghost done = shifts(vehicles@.subrange(0, i as int));
            let ghost vd = v.details@.map_values(|d: VehicleDetail| (v.id, d));
            assert(vehicles@.subrange(0, i as int + 1).drop_last() =~= vehicles@.subrange(0, i as int));
            assert(shifts(vehicles@.subrange(0, i as int + 1)) == done + vd);
            let mut j: usize = 0;
            while j < v.details.len()
                invariant
                    0 <= j <= v.details.len(),
                    drivers@.len() == 1,
                    actors@.len() == done.len() + j,
                    vd == v.details@.map_values(|d: VehicleDetail| (v.id, d)),
                    forall|k: int|
                        0 <= k < actors@.len() ==> (#[trigger] actors@[k]).vehicle.id == (done
                            + vd)[k].0 && actors@[k].detail == actor_detail((done + vd)[k].1)
                            && same_driver(actors@[k].driver, drivers@[0]),
                decreases v.details.len() - j,
            {
                let d = v.details[j];
                let actor = Actor {
                    vehicle: copy_vehicle(v),
                    driver: copy_driver(&drivers[0]),
                    detail: ActorDetail { start: d.start, end: d.end, time: shift_window_of(&d) },
                };
                actors.push(actor);
                j = j + 1;
            }
            // keep the profiles sorted and unique
            let p = v.profile;
            let mut k: usize = 0;
            while k < profiles.len() && profiles[k] < p
                invariant
                    0 <= k <= profiles.len(),
                    forall|x: int| 0 <= x < k ==> profiles@[x] < p,
                decreases profiles.len() - k,
            {
                k = k + 1;
            }
            let ghost before = profiles@;
            assert(forall|q: usize|
                before.contains(q) <==> profile_used(vehicles@.subrange(0, i as int), q));
            if k == profiles.len() || profiles[k] != p {
                profiles.insert(k, p);
                proof {
                    before.insert_ensures(k as int, p);
                    assert forall|a: int, b: int| 0 <= a < b < profiles@.len() implies profiles@[a]
                        < profiles@[b] by {
                        if b < k {
                        } else if b == k {
                        } else if a < k {
                            assert(before[b - 1] > p || before[b - 1] >= before[k as int]);
                        } else if a == k {
                            assert(before[k as int] > p);
                            assert(before[b - 1] >= before[k as int]);
                        } else {
                        }
                    }
                }
            }
            proof {
                if profiles@.len() > before.len() {
                    before.insert_ensures(k as int, p);
                    assert(profiles@ == before.insert(k as int, p));
                } else {
                    assert(profiles@ == before);
                }
                let sub = vehicles@.subrange(0, i as int + 1);
                assert forall|q: usize| profiles@.contains(q) <==> profile_used(sub, q) by {
                    if profiles@.contains(q) {
                        let w = choose|w: int| 0 <= w < profiles@.len() && profiles@[w] == q;
                        if q != p {
                            assert(before.contains(q)) by {
                                if w < k {
                                    assert(before[w] == q);
                                } else if profiles@.len() > before.len() {
                                    assert(w != k);
                                    assert(before[w - 1] == q);
                                } else {
                                    assert(before[w] == q);
                                }
                            }
                            let x = choose|x: int|
                                0 <= x < i && vehicles@.subrange(0, i as int)[x].profile == q;
                            assert(sub[x] == vehicles@[x]);
                        } else {
                            assert(sub[i as int].profile == q);
                        }
                    }
                    if profile_used(sub, q) {
                        let x = choose|x: int| 0 <= x < sub.len() && sub[x].profile == q;
                        if q == p {
                            if profiles@.len() > before.len() {
                                assert(profiles@[k as int] == p);
                            } else {
                                assert(profiles@[k as int] == p);
                            }
                        } else {
                            assert(x < i);
                            assert(vehicles@.subrange(0, i as int)[x] == sub[x]);
                            assert(profile_used(vehicles@.subrange(0, i as int), q));
                            assert(before.contains(q));
                            let w = choose|w: int| 0 <= w < before.len() && before[w] == q;
                            if profiles@.len() > before.len() {
                                if w < k {
                                    assert(profiles@[w] == q);
                                } else {
                                    assert(profiles@[w + 1] == q);
                                }
                            } else {
                                assert(profiles@[w] == q);
                            }
                        }
                    }
                }
            }
            i = i + 1;
        }
        assert(vehicles@.subrange(0, i as int) =~= vehicles@);
        Fleet { drivers, vehicles, profiles, actors }
    }
}


/// Whether `groups` partitions actors `0..n` by their keys: one entry per
/// key, each listing, ascending, exactly the actors with that key.
pub open spec fn partitions(groups: Seq<(usize, Vec<usize>)>, keys: Seq<usize>, n: int) -> bool {
    &&& forall|a: int, b: int| 0 <= a < b < groups.len() ==> groups[a].0 != groups[b].0
    &&& forall|g: int, j: int|
        0 <= g < groups.len() && 0 <= j < groups[g].1@.len() ==> {
            let m = #[trigger] groups[g].1@[j];
            m < n && keys[m as int] == groups[g].0
        }
    &&& forall|g: int, i: int, j: int|
        #![trigger groups[g].1@[i], groups[g].1@[j]]
        0 <= g < groups.len() && 0 <= i < j < groups[g].1@.len() ==> groups[g].1@[i]
            < groups[g].1@[j]
    &&& forall|m: int| 0 <= m < n ==> #[trigger] grouped(groups, m)
}

/// Whether actor `m` is listed in some group.
pub open spec fn grouped(groups: Seq<(usize, Vec<usize>)>, m: int) -> bool {
    exists|g: int, j: int|
        0 <= g < groups.len() && 0 <= j < groups[g].1@.len() && #[trigger] groups[g].1@[j] == m
}

impl Fleet {
    /// Groups the actors by key: `keys[k]` is the key of actor `k`.
    pub fn group_actors(&self, keys: &Vec<usize>) -> (r: Vec<(usize, Vec<usize>)>)
        requires
            keys@.len() == self.actors@.len(),
        ensures
            partitions(r@, keys@, self.actors@.len() as int),
    {
        let n = self.actors.len();
        let mut groups: Vec<(usize, Vec<usize>)> = Vec::new();
        let mut m: usize = 0;
        while m < n
            invariant
                0 <= m <= n,
                n == keys@.len(),
                partitions(groups@, keys@, m as int),
            decreases n - m,
        {
            let key = keys[m];
            let mut g: usize = 0;
            while g < groups.len() && groups[g].0 != key
                invariant
                    0 <= g <= groups.len(),
                    m < n,
                    n == keys@.len(),
                    key == keys@[m as int],
                    partitions(groups@, keys@, m as int),
                    forall|a: int| 0 <= a < g ==> groups@[a].0 != key,
                decreases groups.len() - g,
            {
                g = g + 1;
            }
            let ghost before = groups@;
            if g < groups.len() {
                let (k, mut members) = groups.remove(g);
                let ghost old_members = members@;
                members.push(m);
                groups.insert(g, (k, members));
                assert(groups@ =~= before.update(g as int, (k, members)));
                proof {
                    assert forall|gg: int, j: int|
                        0 <= gg < groups@.len() && 0 <= j < groups@[gg].1@.len() implies {
                            let x = #[trigger] groups@[gg].1@[j];
                            x < m + 1 && keys@[x as int] == groups@[gg].0
                        } by {
                        if gg == g && j == old_members.len() {
                        } else if gg == g {
                            assert(groups@[gg].1@[j] == before[gg].1@[j]);
                        } else {
                            assert(groups@[gg] == before[gg]);
                        }
                    }
                    assert forall|gg: int, i: int, j: int|
                        #![trigger groups@[gg].1@[i], groups@[gg].1@[j]]
                        0 <= gg < groups@.len() && 0 <= i < j < groups@[gg].1@.len() implies groups@[gg].1@[i]
                            < groups@[gg].1@[j] by {
                        if gg == g {
                            if j == old_members.len() {
                                assert(groups@[gg].1@[i] == before[gg].1@[i]);
                                assert(before[gg].1@[i] < m);
                            } else {
                                assert(groups@[gg].1@[i] == before[gg].1@[i]);
                                assert(groups@[gg].1@[j] == before[gg].1@[j]);
                            }
                        } else {
                            assert(groups@[gg] == before[gg]);
                        }
                    }
                    assert forall|x: int| 0 <= x < m + 1 implies #[trigger] grouped(groups@, x) by {
                        if x == m {
                            assert(groups@[g as int].1@[old_members.len() as int] == x);
                        } else {
                            assert(grouped(before, x));
                            let (gg, j) = choose|gg: int, j: int|
                                0 <= gg < before.len() && 0 <= j < before[gg].1@.len()
                                    && #[trigger] before[gg].1@[j] == x;
                            if gg == g {
                                assert(groups@[gg].1@[j] == x);
                            } else {
                                assert(groups@[gg] == before[gg]);
                            }
                        }
                    }
                }
            } else {
                let mut members: Vec<usize> = Vec::new();
                members.push(m);
                groups.push((key, members));
                proof {
                    assert forall|gg: int, j: int|
                        0 <= gg < groups@.len() && 0 <= j < groups@[gg].1@.len() implies {
                            let x = #[trigger] groups@[gg].1@[j];
                            x < m + 1 && keys@[x as int] == groups@[gg].0
                        } by {
                        if gg < before.len() {
                            assert(groups@[gg] == before[gg]);
                        }
                    }
                    assert forall|gg: int, i: int, j: int|
                        #![trigger groups@[gg].1@[i], groups@[gg].1@[j]]
                        0 <= gg < groups@.len() && 0 <= i < j < groups@[gg].1@.len() implies groups@[gg].1@[i]
                            < groups@[gg].1@[j] by {
                        if gg < before.len() {
                            assert(groups@[gg] == before[gg]);
                        }
                    }
                    assert forall|x: int| 0 <= x < m + 1 implies #[trigger] grouped(groups@, x) by {
                        if x == m {
                            assert(groups@[before.len() as int].1@[0] == x);
                        } else {
                            assert(grouped(before, x));
                            let (gg, j) = choose|gg: int, j: int|
                                0 <= gg < before.len() && 0 <= j < before[gg].1@.len()
                                    && #[trigger] before[gg].1@[j] == x;
                            assert(groups@[gg] == before[gg]);
                        }
                    }
                }
            }
            m = m + 1;
        }
        groups
    }
}

} // verus!
