//! Locations given as integer coordinates, and the travel matrix between
//! them: the Euclidean distance rounded to the nearest whole unit, used for
//! both distance and duration.
use vstd::prelude::*;
use vstd::arithmetic::div_mod::lemma_fundamental_div_mod_converse;
use crate::costs::{is_round_sqrt, matrix_at, MatrixError, SimpleTransportCost};

verus! {

/// Square of the distance between two points.
pub open spec fn squared_distance(a: (i32, i32), b: (i32, i32)) -> int {
    (a.0 - b.0) * (a.0 - b.0) + (a.1 - b.1) * (a.1 - b.1)
}

/// Index of the first occurrence of `l`, or -1.
pub open spec fn location_index(s: Seq<(i32, i32)>, l: (i32, i32)) -> int {
    if exists|i: int| 0 <= i < s.len() && s[i] == l {
        choose|i: int| 0 <= i < s.len() && s[i] == l && forall|j: int| 0 <= j < i ==> s[j] != l
    } else {
        -1
    }
}

/// Keeps track of the distinct locations met.
#[derive(Clone, Debug)]
pub struct CoordIndex {
    pub locations: Vec<(i32, i32)>,
}

/// The integer square root of `n`.
fn floor_sqrt(n: u128) -> (r: u128)
    requires
        n <= 0x4_0000_0000_0000_0000,
    ensures
        r * r <= n < (r + 1) * (r + 1),
        r <= 0x2_0000_0000,
{
    let mut lo: u128 = 0;
    let mut hi: u128 = 0x2_0000_0001;
    assert(hi * hi > 0x4_0000_0000_0000_0000) by (nonlinear_arith)
        requires
            hi == 0x2_0000_0001,
    ;
    while hi - lo > 1
        invariant
            lo < hi <= 0x2_0000_0001,
            lo * lo <= n < hi * hi,
        decreases hi - lo,
    {
        let mid = lo + (hi - lo) / 2;
        assert(mid * mid <= 0x2_0000_0001 * 0x2_0000_0001) by (nonlinear_arith)
            requires
                mid < 0x2_0000_0001,
        ;
        if mid * mid <= n {
            lo = mid;
        } else {
            hi = mid;
        }
    }
    assert(hi == lo + 1);
    lo
}

/// The square root of `n` rounded to the nearest integer.
fn round_sqrt_wide(n: u128) -> (r: u128)
    requires
        n <= 0x4_0000_0000_0000_0000,
    ensures
        is_round_sqrt(n as int, r as int),
        r <= 0x2_0000_0001,
{
    let f = floor_sqrt(n);
    let r = if n - f * f > f {
        f + 1
    } else {
        f
    };
    proof {
        let n = n as int;
        let f = f as int;
        if r == f {
            assert(is_round_sqrt(n, f)) by (nonlinear_arith)
                requires
                    f * f <= n,
                    n - f * f <= f,
                    f >= 0,
            ;
        } else {
            assert(is_round_sqrt(n, f + 1)) by (nonlinear_arith)
                requires
                    f * f <= n,
                    n < (f + 1) * (f + 1),
                    n - f * f > f,
                    f >= 0,
            ;
        }
    }
    r
}

fn rounded_distance(a: (i32, i32), b: (i32, i32)) -> (r: i64)
    ensures
        is_round_sqrt(squared_distance(a, b), r as int),
{
    let dx = a.0 as i64 - b.0 as i64;
    let dy = a.1 as i64 - b.1 as i64;
    proof {
        assert(0 <= dx * dx <= 0x1_0000_0000_0000_0000) by (nonlinear_arith)
            requires
                -0xffff_ffff <= dx <= 0xffff_ffff,
        ;
        assert(0 <= dy * dy <= 0x1_0000_0000_0000_0000) by (nonlinear_arith)
            requires
                -0xffff_ffff <= dy <= 0xffff_ffff,
        ;
    }
    let sx = (dx as i128 * dx as i128) as u128;
    let sy = (dy as i128 * dy as i128) as u128;
    round_sqrt_wide(sx + sy) as i64
}

impl CoordIndex {
    /// An index with no location.
    pub fn new() -> (r: Self)
        ensures
            r.locations@.len() == 0,
    {
        CoordIndex { locations: Vec::new() }
    }

    /// The index of `location`, added at the end when first met.
    pub fn collect(&mut self, location: (i32, i32)) -> (r: usize)
        ensures
            location_index(old(self).locations@, location) >= 0 ==> r == location_index(
                old(self).locations@,
                location,
            ) && final(self).locations@ == old(self).locations@,
            location_index(old(self).locations@, location) < 0 ==> r == old(self).locations@.len()
                && final(self).locations@ == old(self).locations@.push(location),
    {
        let mut i: usize = 0;
        while i < self.locations.len()
            invariant
                0 <= i <= self.locations.len(),
                self.locations@ == old(self).locations@,
                forall|j: int| 0 <= j < i ==> self.locations@[j] != location,
            decreases self.locations.len() - i,
        {
            let l = self.locations[i];
            if l.0 == location.0 && l.1 == location.1 {
                proof {
                    let s = self.locations@;
                    assert(s[i as int] == location);
                    let k = location_index(s, location);
                    if k < i {
                    } else if k > i {
                    }
                }
                return i;
            }
            i = i + 1;
        }
        let n = self.locations.len();
        self.locations.push(location);
        n
    }

    /// The travel matrix between the locations: the rounded Euclidean
    /// distance, for both distance and duration.
    pub fn create_transport(&self) -> (r: Result<SimpleTransportCost, MatrixError>)
        requires
            self.locations@.len() * self.locations@.len() <= usize::MAX,
        ensures
            r matches Ok(t) && t.size == self.locations@.len() && forall|i: usize, j: usize|
                i < t.size && j < t.size ==> is_round_sqrt(
                    squared_distance(self.locations@[i as int], self.locations@[j as int]),
                    matrix_at(t.distances@, t.size, i, j),
                ) && matrix_at(t.durations@, t.size, i, j) == matrix_at(
                    t.distances@,
                    t.size,
                    i,
                    j,
                ),
    {
        let n = self.locations.len();
        let total = n * n;
        let mut durations: Vec<i64> = Vec::new();
        let mut distances: Vec<i64> = Vec::new();
        let mut k: usize = 0;
        while k < total
            invariant
                n == self.locations@.len(),
                total == n * n,
                0 <= k <= total,
                durations@.len() == k,
                distances@.len() == k,
                forall|q: int|
                    0 <= q < k ==> is_round_sqrt(
                        squared_distance(
                            self.locations@[q / (n as int)],
                            self.locations@[q % (n as int)],
                        ),
                        #[trigger] distances@[q] as int,
                    ) && durations@[q] == distances@[q],
            decreases total - k,
        {
            proof {
                assert(n > 0) by (nonlinear_arith)
                    requires
                        k < total,
                        total == n * n,
                ;
                assert(0 <= k / n < n) by (nonlinear_arith)
                    requires
                        0 <= k < n * n,
                        n > 0,
                ;
            }
            let d = rounded_distance(self.locations[k / n], self.locations[k % n]);
            durations.push(d);
            distances.push(d);
            k = k + 1;
        }
        proof {
            let n = n as int;
            assert(is_round_sqrt(n * n, n)) by (nonlinear_arith)
                requires
                    n >= 0,
            ;
        }
        let t = match SimpleTransportCost::new(durations, distances) {
            Ok(t) => t,
            Err(e) => {
                return Err(e);
            },
        };
        proof {
            let nn = n as int;
            if t.size as int != nn {
                if (t.size as int) < nn {
                    crate::costs::lemma_round_sqrt_unique(nn * nn, t.size as int, nn);
                } else {
                    crate::costs::lemma_round_sqrt_unique(nn * nn, nn, t.size as int);
                }
            }
            assert forall|i: usize, j: usize| i < t.size && j < t.size implies is_round_sqrt(
                squared_distance(self.locations@[i as int], self.locations@[j as int]),
                matrix_at(t.distances@, t.size, i, j),
            ) && matrix_at(t.durations@, t.size, i, j) == matrix_at(t.distances@, t.size, i, j) by {
                let q = i * nn + j;
                assert(0 <= q < nn * nn) by (nonlinear_arith)
                    requires
                        q == i * nn + j,
                        0 <= i < nn,
                        0 <= j < nn,
                ;
                lemma_fundamental_div_mod_converse(q, nn, i as int, j as int);
                assert(t.distances@[q] == t.distances@[q]);
            }
        }
        Ok(t)
    }
}

} // verus!
