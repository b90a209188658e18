//! The construction: the seed triangle, then every other point in the order
//! of its distance from the centre of the seed's circle.

use vstd::prelude::*;
use crate::hull::{ahead, isqrt, position, succ, turn_test_ready, Hull};
use crate::index::{as_id, as_index, empty_id, EMPTY};
use crate::legalize::circle_test_ready;
use crate::mesh::Triangulation;
use crate::order::{is_radial_order, radial_order};
use crate::mesh::{lemma_wound_grows, wound};
use crate::plane::Plane;
use crate::seed::{distance_ready, find_seed_triangle, radius_ready, seed_chosen, seed_missing};

verus! {

/// The largest number of points whose triangulation has ids to spare: a
/// triangulation of `n` points has at most `3 * (2 * n - 5)` half-edges, and
/// these must be told from [`EMPTY`].
pub const MAX_POINTS: usize = 715_827_885;

/// The radial test may be asked of any four of `n` points.
pub open spec fn radial_ready<S: Fn(usize, usize, usize, usize) -> u64>(radial: &S, n: nat) -> bool {
    forall|a: usize, b: usize, c: usize, j: usize|
        a < n && b < n && c < n && j < n ==> call_requires(*radial, (a, b, c, j))
}

/// The angle test may be asked of any four of `n` points, for any number of
/// buckets but 0.
pub open spec fn angle_ready<K: Fn(usize, usize, usize, usize, usize) -> usize>(
    pseudo_angle: &K,
    n: nat,
) -> bool {
    forall|a: usize, b: usize, c: usize, j: usize, len: usize|
        a < n && b < n && c < n && j < n && len > 0 ==> call_requires(
            *pseudo_angle,
            (a, b, c, j, len),
        )
}

/// The nearness test may be asked of any two of `n` points.
pub open spec fn nearness_ready<Q: Fn(usize, usize) -> bool>(nearly_equals: &Q, n: nat) -> bool {
    forall|a: usize, b: usize| a < n && b < n ==> call_requires(*nearly_equals, (a, b))
}

/// The squared distance of each of `n` points from the centre of the circle
/// through the three points of `seed`, as the radial test gives it.
pub fn radial_distances<S: Fn(usize, usize, usize, usize) -> u64>(
    radial: &S,
    seed: (u32, u32, u32),
    n: usize,
) -> (dists: Vec<u64>)
    requires
        seed.0 < n,
        seed.1 < n,
        seed.2 < n,
        radial_ready(radial, n as nat),
    ensures
        dists@.len() == n,
        forall|j: int|
            0 <= j < n ==> call_ensures(
                *radial,
                (seed.0 as usize, seed.1 as usize, seed.2 as usize, j as usize),
                #[trigger] dists@[j],
            ),
{
    let mut dists: Vec<u64> = Vec::with_capacity(n);
    let mut j: usize = 0;
    while j < n
        invariant
            0 <= j <= n,
            seed.0 < n,
            seed.1 < n,
            seed.2 < n,
            radial_ready(radial, n as nat),
            dists@.len() == j,
            forall|x: int|
                0 <= x < j ==> call_ensures(
                    *radial,
                    (seed.0 as usize, seed.1 as usize, seed.2 as usize, x as usize),
                    #[trigger] dists@[x],
                ),
        decreases n - j,
    {
        let d = radial(as_index(seed.0), as_index(seed.1), as_index(seed.2), j);
        dists.push(d);
        j = j + 1;
    }
    dists
}

/// The angular bucket of each of `n` points round the centre of the circle
/// through the three points of `seed`, for a hash of `len` buckets, as the
/// angle test gives it.
pub fn angles<K: Fn(usize, usize, usize, usize, usize) -> usize>(
    pseudo_angle: &K,
    seed: (u32, u32, u32),
    n: usize,
    len: usize,
) -> (angle: Vec<usize>)
    requires
        seed.0 < n,
        seed.1 < n,
        seed.2 < n,
        len > 0,
        angle_ready(pseudo_angle, n as nat),
    ensures
        angle@.len() == n,
        forall|j: int|
            0 <= j < n ==> call_ensures(
                *pseudo_angle,
                (seed.0 as usize, seed.1 as usize, seed.2 as usize, j as usize, len),
                #[trigger] angle@[j],
            ),
{
    let mut angle: Vec<usize> = Vec::with_capacity(n);
    let mut j: usize = 0;
    while j < n
        invariant
            0 <= j <= n,
            seed.0 < n,
            seed.1 < n,
            seed.2 < n,
            len > 0,
            angle_ready(pseudo_angle, n as nat),
            angle@.len() == j,
            forall|x: int|
                0 <= x < j ==> call_ensures(
                    *pseudo_angle,
                    (seed.0 as usize, seed.1 as usize, seed.2 as usize, x as usize, len),
                    #[trigger] angle@[x],
                ),
        decreases n - j,
    {
        let a = pseudo_angle(as_index(seed.0), as_index(seed.1), as_index(seed.2), j, len);
        angle.push(a);
        j = j + 1;
    }
    angle
}

/// The course of a construction: the seed that it grew from, the distances
/// that it sorted the points by, and the order in which it took them.
pub struct Sweep {
    pub seed: (u32, u32, u32),
    pub dists: Seq<u64>,
    pub order: Seq<usize>,
}

/// Some ring of `corners` showed point `p` no edge that the turn test calls
/// visible.
pub open spec fn unseen<O: Fn(usize, usize, usize) -> bool>(
    corners: Set<u32>,
    p: u32,
    orient: &O,
) -> bool {
    exists|hull: Hull| hull.ring_ok() && #[trigger] hull.shut_to(corners, p, orient)
}

impl Hull {
    /// Every point of the ring is one of `corners`, and the turn test calls
    /// no edge of the ring visible from point `p`.
    pub open spec fn shut_to<O: Fn(usize, usize, usize) -> bool>(
        &self,
        corners: Set<u32>,
        p: u32,
        orient: &O,
    ) -> bool {
        forall|x: int|
            0 <= x < self.ring@.len() ==> corners.contains(#[trigger] self.ring@[x])
                && self.edge_seen(p, x, orient, false)
    }
}

impl Sweep {
    /// The distances are those that the radial test gave for the seed, and
    /// the order goes by them.
    pub open spec fn sorted_by<S: Fn(usize, usize, usize, usize) -> u64>(
        &self,
        n: nat,
        radial: &S,
    ) -> bool {
        &&& self.dists.len() == n
        &&& forall|j: int|
            0 <= j < n ==> call_ensures(
                *radial,
                (self.seed.0 as usize, self.seed.1 as usize, self.seed.2 as usize, j as usize),
                #[trigger] self.dists[j],
            )
        &&& is_radial_order(self.dists, self.order)
    }

    /// The point at turn `k` was left out for a reason: the nearness test
    /// called it nearly equal to the point of the turn before, or no edge
    /// was visible from it.
    pub open spec fn left_out<Q: Fn(usize, usize) -> bool, O: Fn(usize, usize, usize) -> bool>(
        &self,
        corners: Set<u32>,
        k: int,
        nearly_equals: &Q,
        orient: &O,
    ) -> bool {
        ||| k > 0 && call_ensures(*nearly_equals, (self.order[k], self.order[k - 1]), true)
        ||| unseen(corners, self.order[k] as u32, orient)
    }

    /// Each point of the first `turns` turns is one of `corners`, or was
    /// left out for a reason.
    pub open spec fn covers<Q: Fn(usize, usize) -> bool, O: Fn(usize, usize, usize) -> bool>(
        &self,
        corners: Set<u32>,
        turns: int,
        nearly_equals: &Q,
        orient: &O,
    ) -> bool {
        forall|k: int|
            0 <= k < turns ==> corners.contains(#[trigger] self.order[k] as u32) || self.left_out(
                corners,
                k,
                nearly_equals,
                orient,
            )
    }

    /// What is covered stays covered when corners are added.
    pub proof fn lemma_covers_more<Q: Fn(usize, usize) -> bool, O: Fn(usize, usize, usize) -> bool>(
        &self,
        fewer: Set<u32>,
        more: Set<u32>,
        turns: int,
        nearly_equals: &Q,
        orient: &O,
    )
        requires
            self.covers(fewer, turns, nearly_equals, orient),
            fewer.subset_of(more),
        ensures
            self.covers(more, turns, nearly_equals, orient),
    {
        assert forall|k: int| 0 <= k < turns implies more.contains(#[trigger] self.order[k] as u32)
            || self.left_out(more, k, nearly_equals, orient) by {
            let p = self.order[k] as u32;
            if !fewer.contains(p) && unseen(fewer, p, orient) {
                let hull = choose|hull: Hull|
                    hull.ring_ok() && #[trigger] hull.shut_to(fewer, p, orient);
                assert forall|x: int| 0 <= x < hull.ring@.len() implies more.contains(
                    #[trigger] hull.ring@[x],
                ) && hull.edge_seen(p, x, orient, false) by {
                    assert(fewer.contains(hull.ring@[x]));
                }
                assert(hull.shut_to(more, p, orient));
            }
        }
    }
}

/// The triangles came of some course of construction: its seed was chosen
/// by what the tests answered, its order goes by the distances that the
/// radial test gave, and each point is a corner of a triangle or was left
/// out for a reason.
pub open spec fn swept<
    D: Fn(usize, usize) -> u64,
    R: Fn(usize, usize, usize) -> u64,
    S: Fn(usize, usize, usize, usize) -> u64,
    Q: Fn(usize, usize) -> bool,
    O: Fn(usize, usize, usize) -> bool,
>(
    triangles: Seq<u32>,
    center_dists: Seq<u64>,
    dist2: &D,
    circumradius2: &R,
    radial: &S,
    nearly_equals: &Q,
    orient: &O,
) -> bool {
    exists|sweep: Sweep|
        {
            &&& seed_chosen(center_dists, dist2, circumradius2, orient, sweep.seed)
            &&& sweep.sorted_by(center_dists.len(), radial)
            &&& #[trigger] sweep.covers(
                triangles.to_set(),
                center_dists.len() as int,
                nearly_equals,
                orient,
            )
        }
}

/// On every plane on which the turn test and the circle test are exact, no
/// triangle is clockwise.
pub open spec fn wound_where_exact<
    O: Fn(usize, usize, usize) -> bool,
    C: Fn(usize, usize, usize, usize) -> bool,
>(triangles: Seq<u32>, orient: &O, in_circle: &C) -> bool {
    forall|plane: Plane|
        plane.exact_turn(orient) && plane.exact_circle(in_circle) ==> #[trigger] wound(
            triangles,
            plane,
        )
}

/// A finite set of ids below `n` has at most `n` members.
pub proof fn lemma_ids_bounded(ids: Set<u32>, n: nat)
    requires
        ids.finite(),
        forall|p: u32| ids.contains(p) ==> p < n,
    ensures
        ids.len() <= n,
{
    let widen = |p: u32| p as int;
    let wide = ids.map(widen);
    assert(vstd::relations::injective_on(widen, ids));
    vstd::set_lib::lemma_map_size(ids, wide, widen);
    vstd::set_lib::lemma_int_range(0, n as int);
    assert(wide.subset_of(vstd::set_lib::set_int_range(0, n as int)));
    vstd::set_lib::lemma_len_subset(wide, vstd::set_lib::set_int_range(0, n as int));
}

/// Gives back the room that the vector holds beyond its length.
///
/// Calls `Vec::shrink_to_fit` of the standard library, which changes the
/// capacity of the vector; the contract claims that its elements stay.
#[verifier::external_body]
fn trim(v: &mut Vec<u32>)
    ensures
        final(v)@ == old(v)@,
{
    v.shrink_to_fit();
}

impl Triangulation {
    /// Reads the hull off as a vector, from its start round to the point
    /// before the start.
    pub fn trace_hull(&mut self, hull: &Hull)
        requires
            hull.fits(old(self)),
            old(self).hull@.len() == 0,
        ensures
            final(self).triangles == old(self).triangles,
            final(self).halfedges == old(self).halfedges,
            final(self).empty == old(self).empty,
            final(self).hull@.len() == hull.ring@.len(),
            final(self).hull@[0] == hull.start,
            forall|x: int|
                0 <= x < hull.ring@.len() ==> #[trigger] final(self).hull@[x] == hull.ring@[ahead(
                    position(hull.ring@, hull.start),
                    x,
                    hull.ring@.len() as int,
                )],
            final(self).hull_ok(),
            final(self).mesh_ok(hull.points()),
    {
        let ghost ring = hull.ring@;
        let ghost m = ring.len() as int;
        let ghost s = position(ring, hull.start);
        let ghost mut j: int = 0;
        let mut e = hull.start;
        loop
            invariant_except_break
                0 <= j < m,
                e == ring[ahead(s, j, m)],
                self.hull@.len() == j,
            invariant
                hull.fits(old(self)),
                ring == hull.ring@,
                m == ring.len(),
                0 <= s < m,
                ring[s] == hull.start,
                self.triangles == old(self).triangles,
                self.halfedges == old(self).halfedges,
                self.empty == old(self).empty,
                forall|x: int|
                    0 <= x < self.hull@.len() ==> #[trigger] self.hull@[x] == ring[ahead(s, x, m)],
            ensures
                self.hull@.len() == m,
            decreases m - j,
        {
            proof {
                assert(hull.node_ok(ahead(s, j, m)));
            }
            self.hull.push(e);
            e = hull.next(e);
            proof {
                j = j + 1;
                assert(ring[succ(ahead(s, j - 1, m), m)] == e);
            }
            if e == hull.start {
                proof {
                    assert(j == m);
                }
                break ;
            }
        }
        proof {
            let out = self.hull@;
            assert forall|k: int| 0 <= k < self.triangles@.len() implies #[trigger] self.corner_ok(
                k,
                hull.points(),
            ) by {
                assert(old(self).corner_ok(k, hull.points()));
            }
            assert forall|k: int| 0 <= k < self.halfedges@.len() implies #[trigger] self.twin_ok(
                k,
            ) by {
                assert(old(self).twin_ok(k));
            }
            assert forall|x: int, y: int| 0 <= x < m && 0 <= y < m && x != y implies out[x]
                != out[y] by {
                assert(ahead(s, x, m) != ahead(s, y, m));
            }
            assert forall|k: int| 0 <= k < m implies #[trigger] self.rim(k) by {
                let a = ahead(s, k, m);
                assert(hull.edge_ok(old(self), a));
                assert(out[succ(k, m)] == ring[succ(a, m)]);
                let h = hull.out@[ring[a] as int] as int;
                assert(self.halfedges@[h] == EMPTY);
            }
            assert forall|h: int|
                0 <= h < self.halfedges@.len() && #[trigger] self.halfedges@[h]
                    == EMPTY implies out.contains(self.triangles@[h]) by {
                assert(hull.boundary_ok(old(self), h));
                let a = position(ring, self.triangles@[h]);
                let x = if a >= s {
                    a - s
                } else {
                    a - s + m
                };
                assert(out[x] == ring[a]);
            }
            assert forall|g: int, h: int|
                #![trigger self.halfedges@[g], self.halfedges@[h]]
                0 <= g < self.halfedges@.len() && 0 <= h < self.halfedges@.len()
                    && self.halfedges@[g] == EMPTY && self.halfedges@[h] == EMPTY
                    && self.triangles@[g] == self.triangles@[h] implies g == h by {
                assert(hull.boundary_ok(old(self), g));
                assert(hull.boundary_ok(old(self), h));
            }
        }
    }

    /// Triangulates the points whose squared distances from the centre of
    /// their bounding box are `center_dists`. What else the construction
    /// needs to know of the points it asks of the tests: `dist2` for the
    /// squared distance between two points, `circumradius2` for the squared
    /// radius of the circle through three, `radial` for the squared distance
    /// of a point from the centre of the circle through three others,
    /// `pseudo_angle` for the angular bucket of a point round that centre,
    /// `nearly_equals` for whether two points all but coincide, `orient` for
    /// whether three points turn clockwise, and `in_circle` for whether the
    /// fourth of four points lies inside the circle through the first three.
    ///
    /// The seed triangle is chosen first. The other points are taken in the
    /// order of their distance from the centre of its circle; a point that
    /// all but coincides with the one before it in that order is left out,
    /// and so is a point that sees no edge of the hull.
    ///
    /// `None` when there is no seed triangle, or when the points are more
    /// than [`MAX_POINTS`].
    pub fn new<
        D: Fn(usize, usize) -> u64,
        R: Fn(usize, usize, usize) -> u64,
        S: Fn(usize, usize, usize, usize) -> u64,
        K: Fn(usize, usize, usize, usize, usize) -> usize,
        Q: Fn(usize, usize) -> bool,
        O: Fn(usize, usize, usize) -> bool,
        C: Fn(usize, usize, usize, usize) -> bool,
    >(
        center_dists: &Vec<u64>,
        dist2: &D,
        circumradius2: &R,
        radial: &S,
        pseudo_angle: &K,
        nearly_equals: &Q,
        orient: &O,
        in_circle: &C,
    ) -> (r: Option<Self>)
        requires
            distance_ready(dist2, center_dists@.len()),
            radius_ready(circumradius2, center_dists@.len()),
            radial_ready(radial, center_dists@.len()),
            angle_ready(pseudo_angle, center_dists@.len()),
            nearness_ready(nearly_equals, center_dists@.len()),
            turn_test_ready(orient, center_dists@.len()),
            circle_test_ready(in_circle, center_dists@.len()),
        ensures
            match r {
                Some(t) => {
                    &&& center_dists@.len() <= MAX_POINTS
                    &&& t.wf(center_dists@.len())
                    &&& t.balanced()
                    &&& t.triangles@.len() <= 3 * (2 * center_dists@.len() - 5)
                    &&& wound_where_exact(t.triangles@, orient, in_circle)
                    &&& swept(
                        t.triangles@,
                        center_dists@,
                        dist2,
                        circumradius2,
                        radial,
                        nearly_equals,
                        orient,
                    )
                },
                None => center_dists@.len() > MAX_POINTS || seed_missing(
                    center_dists@,
                    dist2,
                    circumradius2,
                ),
            },
    {
        let n = center_dists.len();
        if n > MAX_POINTS {
            return None;
        }
        let (i0, i1, i2) = match find_seed_triangle(center_dists, dist2, circumradius2, orient) {
            Some(seed) => seed,
            None => {
                return None;
            },
        };
        let max_triangles = 2 * n - 5;

        let mut triangulation = Triangulation {
            triangles: Vec::with_capacity(max_triangles * 3),
            halfedges: Vec::with_capacity(max_triangles * 3),
            hull: Vec::new(),
            empty: empty_id(),
        };

        let empty = triangulation.empty;
        let ghost blank = triangulation;

        triangulation.add_triangle(i0, i1, i2, empty, empty, empty);
        proof {
            blank.lemma_add_triangle(&triangulation, n as nat, i0, i1, i2, EMPTY, EMPTY, EMPTY);
        }

        // sort the points by distance from the seed triangle circumcenter
        let dists = radial_distances(radial, (i0, i1, i2), n);
        let order = radial_order(&dists);

        let hash_len = as_index(isqrt(as_id(n)));
        assert(hash_len >= 1) by (nonlinear_arith)
            requires
                n >= 3,
                n < (hash_len + 1) * (hash_len + 1),
        ;
        let angle = angles(pseudo_angle, (i0, i1, i2), n, hash_len);
        let mut hull = Hull::new(n, angle, i0, i1, i2);
        let ghost sweep = Sweep { seed: (i0, i1, i2), dists: dists@, order: order@ };
        proof {
            assert(hull.ring@[0] == i0 && hull.ring@[1] == i1 && hull.ring@[2] == i2);
            assert(hull.edge_ok(&triangulation, 0));
            assert(hull.edge_ok(&triangulation, 1));
            assert(hull.edge_ok(&triangulation, 2));
            assert(hull.ring@.contains(i0));
            assert(hull.ring@.contains(i1));
            assert(hull.ring@.contains(i2));
            assert forall|h: int|
                0 <= h < triangulation.halfedges@.len() implies #[trigger] hull.boundary_ok(
                &triangulation,
                h,
            ) by {}
            assert(!blank.triangles@.contains(i0) && !blank.triangles@.contains(i1)
                && !blank.triangles@.contains(i2));
            assert(triangulation.triangles@.to_set() =~= Set::empty().insert(i0).insert(i1).insert(
                i2,
            ));
            assert(triangulation.triangles@.to_set().len() == 3);
            assert forall|plane: Plane|
                plane.exact_turn(orient) && plane.exact_circle(in_circle) implies #[trigger] wound(
                triangulation.triangles@,
                plane,
            ) by {
                assert(wound(blank.triangles@, plane));
                lemma_wound_grows(blank.triangles@, plane, i0, i1, i2);
            }
        }

        let mut k: usize = 0;
        while k < n
            invariant
                n == center_dists@.len(),
                3 <= n <= MAX_POINTS,
                0 <= k <= n,
                i0 < n,
                i1 < n,
                i2 < n,
                dists@.len() == n,
                sweep.seed == (i0, i1, i2),
                sweep.dists == dists@,
                sweep.order == order@,
                is_radial_order(dists@, order@),
                nearness_ready(nearly_equals, n as nat),
                turn_test_ready(orient, n as nat),
                circle_test_ready(in_circle, n as nat),
                hull.fits(&triangulation),
                hull.hash_ok(),
                hull.points() == n,
                triangulation.hull@.len() == 0,
                triangulation.triangles@.len() >= 3,
                triangulation.triangles@.contains(i0),
                triangulation.triangles@.contains(i1),
                triangulation.triangles@.contains(i2),
                forall|p: u32|
                    triangulation.triangles@.contains(p) ==> p == i0 || p == i1 || p == i2
                        || exists|j: int| 0 <= j < k && #[trigger] order@[j] == p,
                sweep.covers(triangulation.triangles@.to_set(), k as int, nearly_equals, orient),
                forall|plane: Plane|
                    plane.exact_turn(orient) && plane.exact_circle(in_circle) ==> #[trigger] wound(
                        triangulation.triangles@,
                        plane,
                    ),
                triangulation.triangles@.len() + 3 * hull.ring@.len() == 3 * (2
                    * triangulation.triangles@.to_set().len() - 2),
            decreases n - k,
        {
            let iu = order[k];
            let ghost corners = triangulation.triangles@.to_set();
            let ghost before = triangulation;

            // skip near-duplicates
            if !(k > 0 && nearly_equals(iu, order[k - 1])) {
                let i: u32 = as_id(iu);
                // skip seed triangle points
                if !(i == i0 || i == i1 || i == i2) {
                    proof {
                        if triangulation.triangles@.contains(i) {
                            let j = choose|j: int| 0 <= j < k && #[trigger] order@[j] == i;
                            assert(order@[j] != order@[k as int]);
                        }
                        assert forall|p: u32| corners.insert(i).contains(p) implies p < n by {
                            if p != i {
                                let x = choose|x: int|
                                    0 <= x < triangulation.triangles@.len()
                                        && triangulation.triangles@[x] == p;
                                assert(triangulation.corner_ok(x, n as nat));
                            }
                        }
                        vstd::seq_lib::seq_to_set_is_finite(triangulation.triangles@);
                        lemma_ids_bounded(corners.insert(i), n as nat);
                        if hull.ring@.contains(i) {
                            let x = position(hull.ring@, i);
                            assert(hull.node_ok(x));
                            assert(hull.edge_ok(&triangulation, x));
                            assert(triangulation.triangles@[hull.out@[i as int] as int] == i);
                        }
                    }
                    let ghost hull_before = hull;
                    let added = triangulation.insert(&mut hull, i, orient, in_circle);
                    proof {
                        if added {
                            assert(triangulation.triangles@.to_set() =~= corners.insert(i));
                            sweep.lemma_covers_more(
                                corners,
                                corners.insert(i),
                                k as int,
                                nearly_equals,
                                orient,
                            );
                            assert(triangulation.triangles@.contains(i));
                        } else {
                            assert forall|x: int| 0 <= x < hull.ring@.len() implies corners.contains(
                                #[trigger] hull.ring@[x],
                            ) && hull.edge_seen(i, x, orient, false) by {
                                assert(hull.node_ok(x));
                                assert(hull.edge_ok(&triangulation, x));
                                let h = hull.out@[hull.ring@[x] as int] as int;
                                assert(triangulation.triangles@[h] == hull.ring@[x]);
                                assert(triangulation.triangles@.contains(hull.ring@[x]));
                                assert(hull_before.edge_seen(i, x, orient, false));
                            }
                            assert(hull.shut_to(corners, i, orient));
                            assert(unseen(corners, i, orient));
                        }
                    }
                }
            }
            proof {
                assert forall|p: u32| triangulation.triangles@.contains(p) implies p == i0 || p
                    == i1 || p == i2 || exists|j: int| 0 <= j < k + 1 && #[trigger] order@[j]
                    == p by {
                    if p == iu {
                        assert(order@[k as int] == p);
                    } else if !(p == i0 || p == i1 || p == i2) {
                        assert(before.triangles@.contains(p));
                        let j = choose|j: int| 0 <= j < k && #[trigger] order@[j] == p;
                        assert(order@[j] == p);
                    }
                }
                let now = triangulation.triangles@.to_set();
                assert forall|x: int| 0 <= x < k + 1 implies now.contains(
                    #[trigger] sweep.order[x] as u32,
                ) || sweep.left_out(now, x, nearly_equals, orient) by {
                    if x == k as int {
                    }
                }
            }
            k = k + 1;
        }

        // expose hull as a vector of point indices
        let ghost grown = triangulation;
        triangulation.trace_hull(&hull);
        proof {
            assert(triangulation.triangles@ == grown.triangles@);
            assert forall|p: u32| triangulation.triangles@.to_set().contains(p) implies p < n by {
                let x = choose|x: int|
                    0 <= x < triangulation.triangles@.len() && triangulation.triangles@[x] == p;
                assert(triangulation.corner_ok(x, n as nat));
            }
            vstd::seq_lib::seq_to_set_is_finite(triangulation.triangles@);
            lemma_ids_bounded(triangulation.triangles@.to_set(), n as nat);
        }

        let ghost traced = triangulation;
        trim(&mut triangulation.triangles);
        trim(&mut triangulation.halfedges);

        proof {
            traced.lemma_same_arrays(&triangulation, n as nat);
            assert(triangulation.triangles@ == grown.triangles@);
            assert(triangulation.hull@ == traced.hull@);
            assert(triangulation.wf(n as nat));
            assert(triangulation.balanced());
            assert(triangulation.triangles@.len() <= 3 * (2 * n - 5));
            assert(seed_chosen(center_dists@, dist2, circumradius2, orient, sweep.seed));
            assert(sweep.sorted_by(n as nat, radial));
            assert(sweep.covers(triangulation.triangles@.to_set(), n as int, nearly_equals, orient));
            assert(swept(
                triangulation.triangles@,
                center_dists@,
                dist2,
                circumradius2,
                radial,
                nearly_equals,
                orient,
            ));
            assert(wound_where_exact(triangulation.triangles@, orient, in_circle));
        }
        Some(triangulation)
    }
}

/// Triangulate a set of points in the plane; see [`Triangulation::new`].
/// Returns `None` if no triangulation exists for the input, as when all
/// points lie on one line.
pub fn triangulate<
    D: Fn(usize, usize) -> u64,
    R: Fn(usize, usize, usize) -> u64,
    S: Fn(usize, usize, usize, usize) -> u64,
    K: Fn(usize, usize, usize, usize, usize) -> usize,
    Q: Fn(usize, usize) -> bool,
    O: Fn(usize, usize, usize) -> bool,
    C: Fn(usize, usize, usize, usize) -> bool,
>(
    center_dists: &Vec<u64>,
    dist2: &D,
    circumradius2: &R,
    radial: &S,
    pseudo_angle: &K,
    nearly_equals: &Q,
    orient: &O,
    in_circle: &C,
) -> (r: Option<Triangulation>)
    requires
        distance_ready(dist2, center_dists@.len()),
        radius_ready(circumradius2, center_dists@.len()),
        radial_ready(radial, center_dists@.len()),
        angle_ready(pseudo_angle, center_dists@.len()),
        nearness_ready(nearly_equals, center_dists@.len()),
        turn_test_ready(orient, center_dists@.len()),
        circle_test_ready(in_circle, center_dists@.len()),
    ensures
        match r {
            Some(t) => {
                &&& center_dists@.len() <= MAX_POINTS
                &&& t.wf(center_dists@.len())
                &&& t.balanced()
                &&& t.triangles@.len() <= 3 * (2 * center_dists@.len() - 5)
                &&& wound_where_exact(t.triangles@, orient, in_circle)
                &&& swept(
                    t.triangles@,
                    center_dists@,
                    dist2,
                    circumradius2,
                    radial,
                    nearly_equals,
                    orient,
                )
            },
            None => center_dists@.len() > MAX_POINTS || seed_missing(
                center_dists@,
                dist2,
                circumradius2,
            ),
        },
{
    Triangulation::new(
        center_dists,
        dist2,
        circumradius2,
        radial,
        pseudo_angle,
        nearly_equals,
        orient,
        in_circle,
    )
}

} // verus!
