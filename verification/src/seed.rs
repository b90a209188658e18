//! The choice of the seed triangle: a point near the middle of the input,
//! the point nearest to it, and the point that makes the smallest circle
//! with the two.
//!
//! Squared distances and squared radii are `u64` ranks: a larger rank is a
//! larger length, rank 0 is the length 0, and the rank [`FAR`] stands for a
//! length that is infinite or not a number.

use vstd::prelude::*;
use crate::hull::turn_test_ready;
use crate::index::as_id;
use crate::plane::Plane;

verus! {

/// The rank of a length that is infinite or not a number.
pub const FAR: u64 = 0xFFFF_FFFF_FFFF_FFFFu64;

/// Position `k` holds the smallest of the distances that are neither 0 nor
/// [`FAR`], and no position before it holds the same distance.
pub open spec fn is_closest(dists: Seq<u64>, k: int) -> bool {
    &&& 0 <= k < dists.len()
    &&& 0 < dists[k] < FAR
    &&& forall|j: int| 0 <= j < dists.len() && 0 < #[trigger] dists[j] ==> dists[k] <= dists[j]
    &&& forall|j: int| 0 <= j < k && 0 < #[trigger] dists[j] ==> dists[k] < dists[j]
}

/// Every distance is 0 or [`FAR`].
pub open spec fn none_close(dists: Seq<u64>) -> bool {
    forall|j: int| 0 <= j < dists.len() ==> #[trigger] dists[j] == 0 || dists[j] == FAR
}

/// The position of the nearest point that is not at distance 0: the first
/// one among the nearest. `None` when every distance is 0 or [`FAR`].
pub fn find_closest_point(dists: &Vec<u64>) -> (r: Option<usize>)
    ensures
        match r {
            Some(k) => is_closest(dists@, k as int),
            None => none_close(dists@),
        },
{
    let mut min_dist = FAR;
    let mut k: usize = 0;
    let mut i: usize = 0;
    while i < dists.len()
        invariant
            0 <= i <= dists@.len(),
            min_dist == FAR ==> forall|j: int| 0 <= j < i ==> #[trigger] dists@[j] == 0 || dists@[j]
                == FAR,
            min_dist != FAR ==> k < i && dists@[k as int] == min_dist && 0 < min_dist,
            min_dist != FAR ==> forall|j: int|
                0 <= j < i && 0 < #[trigger] dists@[j] ==> min_dist <= dists@[j],
            min_dist != FAR ==> forall|j: int|
                0 <= j < k && 0 < #[trigger] dists@[j] ==> min_dist < dists@[j],
        decreases dists@.len() - i,
    {
        let d = dists[i];
        if d > 0 && d < min_dist {
            k = i;
            min_dist = d;
        }
        i = i + 1;
    }
    if min_dist == FAR {
        None
    } else {
        Some(k)
    }
}

/// The distance test may be asked of any two of `n` points.
pub open spec fn distance_ready<D: Fn(usize, usize) -> u64>(dist2: &D, n: nat) -> bool {
    forall|a: usize, b: usize| a < n && b < n ==> call_requires(*dist2, (a, b))
}

/// The radius test may be asked of any three of `n` points.
pub open spec fn radius_ready<R: Fn(usize, usize, usize) -> u64>(circumradius2: &R, n: nat) -> bool {
    forall|a: usize, b: usize, c: usize|
        a < n && b < n && c < n ==> call_requires(*circumradius2, (a, b, c))
}

/// `dists` holds, for each point but `from`, a squared distance from point
/// `from` that the distance test gave, and 0 for `from` itself.
pub open spec fn measured_from<D: Fn(usize, usize) -> u64>(
    dist2: &D,
    from: usize,
    dists: Seq<u64>,
) -> bool {
    forall|j: int|
        0 <= j < dists.len() ==> if j == from {
            #[trigger] dists[j] == 0
        } else {
            call_ensures(*dist2, (from, j as usize), dists[j])
        }
}

/// The squared distance of each of `n` points from the point `from`, as the
/// distance test gives it. A point is at distance 0 from itself, which is
/// not asked.
pub fn distances_from<D: Fn(usize, usize) -> u64>(dist2: &D, from: usize, n: usize) -> (dists: Vec<
    u64,
>)
    requires
        from < n,
        distance_ready(dist2, n as nat),
    ensures
        dists@.len() == n,
        measured_from(dist2, from, dists@),
{
    let mut dists: Vec<u64> = Vec::with_capacity(n);
    let mut j: usize = 0;
    while j < n
        invariant
            0 <= j <= n,
            from < n,
            dists@.len() == j,
            distance_ready(dist2, n as nat),
            measured_from(dist2, from, dists@),
        decreases n - j,
    {
        let d = if j == from {
            0
        } else {
            dist2(from, j)
        };
        dists.push(d);
        j = j + 1;
    }
    dists
}

/// `radii` holds, for each point but `i0` and `i1`, a squared radius of the
/// circle through it and the points `i0` and `i1` that the radius test gave.
pub open spec fn measured_round<R: Fn(usize, usize, usize) -> u64>(
    circumradius2: &R,
    i0: usize,
    i1: usize,
    radii: Seq<u64>,
) -> bool {
    forall|j: int|
        0 <= j < radii.len() && j != i0 && j != i1 ==> call_ensures(
            *circumradius2,
            (i0, i1, j as usize),
            #[trigger] radii[j],
        )
}

/// Position `k` holds the smallest of the radii, the points `i0` and `i1`
/// left aside; it is not [`FAR`], and no position before `k` holds the same
/// radius.
pub open spec fn is_tightest(radii: Seq<u64>, i0: int, i1: int, k: int) -> bool {
    &&& 0 <= k < radii.len()
    &&& k != i0
    &&& k != i1
    &&& radii[k] < FAR
    &&& forall|j: int|
        0 <= j < radii.len() && j != i0 && j != i1 ==> radii[k] <= #[trigger] radii[j]
    &&& forall|j: int| 0 <= j < k && j != i0 && j != i1 ==> radii[k] < #[trigger] radii[j]
}

/// Every radius is [`FAR`], the points `i0` and `i1` left aside.
pub open spec fn none_tight(radii: Seq<u64>, i0: int, i1: int) -> bool {
    forall|j: int| 0 <= j < radii.len() && j != i0 && j != i1 ==> #[trigger] radii[j] == FAR
}

/// The search for a seed, as far as it went: `i0` is the point nearest the
/// centre, `dists` the distances measured from it, `i1` the point nearest
/// `i0`, and `radii` the radii measured round the two.
pub struct SeedSearch {
    pub i0: int,
    pub dists: Seq<u64>,
    pub i1: int,
    pub radii: Seq<u64>,
}

impl SeedSearch {
    /// The search found its first two points in what the tests answered.
    pub open spec fn pair_found<D: Fn(usize, usize) -> u64, R: Fn(usize, usize, usize) -> u64>(
        &self,
        center_dists: Seq<u64>,
        dist2: &D,
        circumradius2: &R,
    ) -> bool {
        &&& is_closest(center_dists, self.i0)
        &&& self.dists.len() == center_dists.len()
        &&& measured_from(dist2, self.i0 as usize, self.dists)
        &&& is_closest(self.dists, self.i1)
        &&& self.radii.len() == center_dists.len()
        &&& measured_round(circumradius2, self.i0 as usize, self.i1 as usize, self.radii)
    }

    /// The search ended without a seed: no point was near the centre, or no
    /// point near the first, or no point made a circle with the two.
    pub open spec fn failed<D: Fn(usize, usize) -> u64, R: Fn(usize, usize, usize) -> u64>(
        &self,
        center_dists: Seq<u64>,
        dist2: &D,
        circumradius2: &R,
    ) -> bool {
        ||| none_close(center_dists)
        ||| {
            &&& is_closest(center_dists, self.i0)
            &&& self.dists.len() == center_dists.len()
            &&& measured_from(dist2, self.i0 as usize, self.dists)
            &&& none_close(self.dists)
        }
        ||| {
            &&& self.pair_found(center_dists, dist2, circumradius2)
            &&& none_tight(self.radii, self.i0, self.i1)
        }
    }

    /// The search ended with `seed`: its third point makes the smallest
    /// circle with the first two, and the second and third stand in the
    /// order in which the turn test does not call the seed clockwise.
    pub open spec fn chose<
        D: Fn(usize, usize) -> u64,
        R: Fn(usize, usize, usize) -> u64,
        O: Fn(usize, usize, usize) -> bool,
    >(
        &self,
        center_dists: Seq<u64>,
        dist2: &D,
        circumradius2: &R,
        orient: &O,
        seed: (u32, u32, u32),
    ) -> bool {
        &&& self.pair_found(center_dists, dist2, circumradius2)
        &&& seed.0 == self.i0
        &&& exists|i2: int, clockwise: bool|
            {
                &&& is_tightest(self.radii, self.i0, self.i1, i2)
                &&& #[trigger] call_ensures(
                    *orient,
                    (self.i0 as usize, self.i1 as usize, i2 as usize),
                    clockwise,
                )
                &&& seed.1 == if clockwise {
                    i2
                } else {
                    self.i1
                }
                &&& seed.2 == if clockwise {
                    self.i1
                } else {
                    i2
                }
            }
    }
}

/// Some search ended with `seed`.
pub open spec fn seed_chosen<
    D: Fn(usize, usize) -> u64,
    R: Fn(usize, usize, usize) -> u64,
    O: Fn(usize, usize, usize) -> bool,
>(center_dists: Seq<u64>, dist2: &D, circumradius2: &R, orient: &O, seed: (u32, u32, u32)) -> bool {
    exists|search: SeedSearch| search.chose(center_dists, dist2, circumradius2, orient, seed)
}

/// Some search ended without a seed.
pub open spec fn seed_missing<D: Fn(usize, usize) -> u64, R: Fn(usize, usize, usize) -> u64>(
    center_dists: Seq<u64>,
    dist2: &D,
    circumradius2: &R,
) -> bool {
    exists|search: SeedSearch| search.failed(center_dists, dist2, circumradius2)
}

/// Where the turn test is exact, the seed is not clockwise.
pub open spec fn seed_wound<O: Fn(usize, usize, usize) -> bool>(
    orient: &O,
    seed: (u32, u32, u32),
) -> bool {
    forall|plane: Plane|
        plane.exact_turn(orient) ==> #[trigger] plane.swing(
            seed.0 as int,
            seed.1 as int,
            seed.2 as int,
        ) >= 0
}

/// Picks the seed triangle among the points whose squared distances from
/// the centre of their bounding box are `center_dists`: the point nearest
/// the centre, the point nearest to that one, and the point that makes the
/// smallest circle with the two. The second and third point are swapped if
/// the turn test calls the three clockwise.
///
/// `None` when one of the three searches finds no point.
pub fn find_seed_triangle<
    D: Fn(usize, usize) -> u64,
    R: Fn(usize, usize, usize) -> u64,
    O: Fn(usize, usize, usize) -> bool,
>(center_dists: &Vec<u64>, dist2: &D, circumradius2: &R, orient: &O) -> (r: Option<(u32, u32, u32)>)
    requires
        center_dists@.len() <= u32::MAX,
        distance_ready(dist2, center_dists@.len()),
        radius_ready(circumradius2, center_dists@.len()),
        turn_test_ready(orient, center_dists@.len()),
    ensures
        match r {
            Some(seed) => {
                &&& seed.0 < center_dists@.len()
                &&& seed.1 < center_dists@.len()
                &&& seed.2 < center_dists@.len()
                &&& seed.0 != seed.1
                &&& seed.1 != seed.2
                &&& seed.2 != seed.0
                &&& seed_wound(orient, seed)
                &&& seed_chosen(center_dists@, dist2, circumradius2, orient, seed)
            },
            None => seed_missing(center_dists@, dist2, circumradius2),
        },
{
    let n = center_dists.len();
    let ghost blank = SeedSearch { i0: 0, dists: Seq::empty(), i1: 0, radii: Seq::empty() };

    // pick a seed point close to the center
    let i0 = match find_closest_point(center_dists) {
        Some(i0) => i0,
        None => {
            proof {
                assert(blank.failed(center_dists@, dist2, circumradius2));
                assert(seed_missing(center_dists@, dist2, circumradius2));
            }
            return None;
        },
    };

    // find the point closest to the seed
    let dists = distances_from(dist2, i0, n);
    let i1 = match find_closest_point(&dists) {
        Some(i1) => i1,
        None => {
            proof {
                let stuck = SeedSearch { i0: i0 as int, dists: dists@, i1: 0, radii: Seq::empty() };
                assert(stuck.failed(center_dists@, dist2, circumradius2));
                assert(seed_missing(center_dists@, dist2, circumradius2));
            }
            return None;
        },
    };

    // find the third point which forms the smallest circumcircle with the first two
    let mut min_radius = FAR;
    let mut i2: usize = 0;
    let ghost mut radii: Seq<u64> = Seq::empty();
    let mut i: usize = 0;
    while i < n
        invariant
            n == center_dists@.len(),
            i0 < n,
            i1 < n,
            0 <= i <= n,
            radius_ready(circumradius2, n as nat),
            radii.len() == i,
            measured_round(circumradius2, i0, i1, radii),
            min_radius == FAR ==> none_tight(radii, i0 as int, i1 as int),
            min_radius != FAR ==> is_tightest(radii, i0 as int, i1 as int, i2 as int) && radii[i2 as int]
                == min_radius,
        decreases n - i,
    {
        let ghost before = radii;
        if i == i0 || i == i1 {
            proof {
                radii = radii.push(FAR);
            }
        } else {
            let r = circumradius2(i0, i1, i);
            proof {
                radii = radii.push(r);
            }
            if r < min_radius {
                i2 = i;
                min_radius = r;
            }
        }
        proof {
            assert forall|j: int| 0 <= j < i implies radii[j] == before[j] by {}
        }
        i = i + 1;
    }

    let ghost search = SeedSearch { i0: i0 as int, dists: dists@, i1: i1 as int, radii };
    if min_radius == FAR {
        proof {
            assert(search.failed(center_dists@, dist2, circumradius2));
            assert(seed_missing(center_dists@, dist2, circumradius2));
        }
        None
    } else {
        // swap the order of the seed points for counter-clockwise orientation
        let clockwise = orient(i0, i1, i2);
        let seed = if clockwise {
            (as_id(i0), as_id(i2), as_id(i1))
        } else {
            (as_id(i0), as_id(i1), as_id(i2))
        };
        proof {
            assert(search.pair_found(center_dists@, dist2, circumradius2));
            assert(call_ensures(*orient, (i0, i1, i2), clockwise));
            assert(search.chose(center_dists@, dist2, circumradius2, orient, seed));
            assert(seed_chosen(center_dists@, dist2, circumradius2, orient, seed));
            assert forall|plane: Plane| plane.exact_turn(orient) implies #[trigger] plane.swing(
                seed.0 as int,
                seed.1 as int,
                seed.2 as int,
            ) >= 0 by {
                plane.lemma_swing_swaps(i0 as int, i1 as int, i2 as int);
            }
            assert(seed_wound(orient, seed));
        }
        Some(seed)
    }
}

} // verus!
