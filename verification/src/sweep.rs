//! Growing the mesh by one point: the fan of triangles between the point
//! and the stretch of the hull that it sees.

use vstd::prelude::*;
use crate::hull::{ahead, position, rotated, succ, turn_test_ready, Hull};
use crate::index::{as_index, EMPTY};
use crate::legalize::circle_test_ready;
use crate::mesh::{lemma_wound_grows, wound, Triangulation};
use crate::plane::Plane;

verus! {

impl Triangulation {
    /// Joins point `i` to the hull edge that leaves `e`: the triangle
    /// `(e, i, next(e))` is added to the mesh, `i` takes its place on the
    /// ring between `e` and the point after it, and `e` becomes the start of
    /// the hull. Returns the first half-edge of the triangle.
    pub fn open_fan(&mut self, hull: &mut Hull, i: u32, e: u32) -> (t: u32)
        requires
            old(hull).fits(old(self)),
            old(hull).slots_ok(),
            old(hull).ring@.contains(e),
            i < old(hull).points(),
            !old(hull).ring@.contains(i),
            old(self).triangles@.len() + 3 <= EMPTY,
        ensures
            final(hull).fits(final(self)),
            final(hull).slots_ok(),
            t == old(self).triangles@.len(),
            final(self).triangles@.len() == old(self).triangles@.len() + 3,
            final(self).hull == old(self).hull,
            final(hull).points() == old(hull).points(),
            final(hull).hash == old(hull).hash,
            final(hull).angle == old(hull).angle,
            final(hull).start == e,
            final(hull).ring@ == seq![i] + rotated(
                old(hull).ring@,
                position(old(hull).ring@, e) + 1,
            ),
            final(hull).ring@.last() == e,
            final(hull).ring@[1] == old(hull).next@[e as int],
            final(hull).ring@[final(hull).ring@.len() - 2] == old(hull).prev@[e as int],
            final(self).triangles@ == old(self).with_triangle(
                e,
                i,
                old(hull).next@[e as int],
                EMPTY,
                EMPTY,
                old(hull).out@[e as int],
            ).0,
            final(self).halfedges@ == old(self).with_triangle(
                e,
                i,
                old(hull).next@[e as int],
                EMPTY,
                EMPTY,
                old(hull).out@[e as int],
            ).1,
            final(hull).next@ == old(hull).next@.update(e as int, i).update(
                i as int,
                old(hull).next@[e as int],
            ),
            final(hull).prev@ == old(hull).prev@.update(i as int, e).update(
                old(hull).next@[e as int] as int,
                i,
            ),
            final(hull).out@ == old(hull).out@.update(i as int, (t + 1) as u32).update(e as int, t),
            forall|p: u32|
                final(self).triangles@.contains(p) <==> p == i || old(self).triangles@.contains(p),
    {
        let ghost n = hull.points();
        let ghost ring = hull.ring@;
        let ghost m = ring.len() as int;
        let ghost ke = position(ring, e);
        let ghost mesh0 = *self;
        let ghost hull0 = *hull;
        proof {
            assert(hull.node_ok(ke));
            assert(hull.node_ok(succ(ke, m)));
            assert(hull.edge_ok(self, ke));
        }
        let n0 = hull.next(e);
        let c = hull.out(e);
        let empty = self.empty;
        let t = self.add_triangle(e, i, n0, empty, empty, c);
        proof {
            mesh0.lemma_add_triangle(self, n, e, i, n0, EMPTY, EMPTY, c);
            assert(hull.edge_ok(&mesh0, succ(ke, m)));
            assert(mesh0.triangles@.contains(e));
            assert(mesh0.triangles@.contains(n0));
        }
        hull.set_next(e, i);
        hull.set_prev(i, e);
        hull.set_next(i, n0);
        hull.set_prev(n0, i);
        hull.set_out(i, t + 1);
        hull.set_out(e, t);
        hull.start = e;
        hull.ring = Ghost(seq![i] + rotated(ring, ke + 1));
        proof {
            let after = hull.ring@;
            assert(after.len() == m + 1);
            let kp = if ke == 0 {
                m - 1
            } else {
                ke - 1
            };
            assert(hull0.node_ok(kp));
            assert(after[m - 1] == ring[ahead(ke + 1, m - 2, m)]);
            assert(after[0] == i);
            assert forall|k: int| 1 <= k <= m implies after[k] == ring[ahead(ke + 1, k - 1, m)]
                && ring.contains(#[trigger] after[k]) by {}
            assert(after[m] == e);
            assert(after[1] == n0);
            assert forall|x: int, y: int| 0 <= x < m + 1 && 0 <= y < m + 1 && x != y implies after[x]
                != after[y] by {
                if x >= 1 && y >= 1 {
                    assert(ahead(ke + 1, x - 1, m) != ahead(ke + 1, y - 1, m));
                }
            }
            assert forall|k: int| 0 <= k < m + 1 implies #[trigger] hull.node_ok(k) by {
                if 1 <= k < m {
                    let a1 = ahead(ke + 1, k - 1, m);
                    assert(hull0.node_ok(a1));
                    assert(succ(a1, m) == ahead(ke + 1, k, m));
                    assert(a1 != ke);
                    assert(succ(a1, m) != succ(ke, m));
                    assert(hull0.node_ok(succ(a1, m)));
                }
            }
            assert forall|k: int| 0 <= k < m + 1 implies #[trigger] hull.edge_ok(self, k) by {
                if 1 <= k < m {
                    let a1 = ahead(ke + 1, k - 1, m);
                    assert(hull0.edge_ok(&mesh0, a1));
                    assert(hull0.node_ok(a1));
                    assert(succ(a1, m) == ahead(ke + 1, k, m));
                    assert(a1 != ke);
                }
            }
            assert forall|h: int| 0 <= h < self.halfedges@.len() implies #[trigger] hull.boundary_ok(
                self,
                h,
            ) by {
                if h < t {
                    assert(hull0.boundary_ok(&mesh0, h));
                    assert(mesh0.corner_ok(h, n));
                    if self.halfedges@[h] == EMPTY {
                        let x = mesh0.triangles@[h];
                        let kx = position(ring, x);
                        let jx = if kx >= ke + 1 {
                            kx - ke - 1
                        } else {
                            kx - ke - 1 + m
                        };
                        assert(after[jx + 1] == x);
                    }
                }
            }
            assert forall|b: int| 0 <= b < hull.hash@.len() implies #[trigger] hull.slot_ok(b) by {
                assert(hull0.slot_ok(b));
                let x = hull.hash@[b];
                if x != EMPTY && ring.contains(x) {
                    let kx = position(ring, x);
                    let jx = if kx >= ke + 1 {
                        kx - ke - 1
                    } else {
                        kx - ke - 1 + m
                    };
                    assert(after[jx + 1] == x);
                }
            }
        }
        t
    }

    /// Widens the fan of point `i` forward over the hull edge from `n` to
    /// `q`: the triangle `(n, i, q)` is added to the mesh, and `n` leaves
    /// the ring. Returns the first half-edge of the triangle.
    pub fn widen_forward(&mut self, hull: &mut Hull, i: u32, n: u32, q: u32) -> (t: u32)
        requires
            old(hull).fits(old(self)),
            old(hull).slots_ok(),
            old(hull).ring@.len() >= 4,
            old(hull).ring@[0] == i,
            old(hull).ring@[1] == n,
            old(hull).ring@[2] == q,
            old(hull).start != n,
            old(self).triangles@.len() + 3 <= EMPTY,
        ensures
            final(hull).fits(final(self)),
            final(hull).slots_ok(),
            t == old(self).triangles@.len(),
            final(self).triangles@.len() == old(self).triangles@.len() + 3,
            final(self).hull == old(self).hull,
            final(hull).points() == old(hull).points(),
            final(hull).hash == old(hull).hash,
            final(hull).angle == old(hull).angle,
            final(hull).start == old(hull).start,
            final(hull).ring@ == old(hull).ring@.remove(1),
            final(self).triangles@ == old(self).with_triangle(
                n,
                i,
                q,
                old(hull).out@[i as int],
                EMPTY,
                old(hull).out@[n as int],
            ).0,
            final(self).halfedges@ == old(self).with_triangle(
                n,
                i,
                q,
                old(hull).out@[i as int],
                EMPTY,
                old(hull).out@[n as int],
            ).1,
            final(hull).next@ == old(hull).next@.update(i as int, q).update(n as int, EMPTY),
            final(hull).prev@ == old(hull).prev@.update(q as int, i),
            final(hull).out@ == old(hull).out@.update(i as int, (t + 1) as u32),
            forall|p: u32|
                final(self).triangles@.contains(p) <==> p == i || old(self).triangles@.contains(p),
    {
        let ghost np = hull.points();
        let ghost ring = hull.ring@;
        let ghost m = ring.len() as int;
        let ghost mesh0 = *self;
        let ghost hull0 = *hull;
        proof {
            assert(hull.node_ok(0));
            assert(hull.node_ok(1));
            assert(hull.node_ok(2));
            assert(hull.edge_ok(self, 0));
            assert(hull.edge_ok(self, 1));
        }
        let a = hull.out(i);
        let c = hull.out(n);
        let empty = self.empty;
        let t = self.add_triangle(n, i, q, a, empty, c);
        proof {
            mesh0.lemma_add_triangle(self, np, n, i, q, a, EMPTY, c);
            assert(hull.edge_ok(&mesh0, 2));
            assert(mesh0.triangles@.contains(i));
            assert(mesh0.triangles@.contains(n));
            assert(mesh0.triangles@.contains(q));
        }
        hull.set_next(i, q);
        hull.set_prev(q, i);
        hull.remove(n);
        hull.set_out(i, t + 1);
        hull.ring = Ghost(ring.remove(1));
        proof {
            let after = hull.ring@;
            assert(after.len() == m - 1);
            assert(after[0] == i);
            assert forall|k: int| 1 <= k < m - 1 implies #[trigger] after[k] == ring[k + 1] by {}
            assert forall|k: int| 0 <= k < m - 1 implies #[trigger] hull.node_ok(k) by {
                if k >= 1 {
                    assert(hull0.node_ok(k + 1));
                    let d = succ(k + 1, m);
                    assert(after[succ(k, m - 1)] == ring[d]);
                    assert(ring[k + 1] != ring[0] && ring[k + 1] != ring[1]);
                    assert(ring[d] != ring[2]);
                    assert(hull0.node_ok(d));
                } else {
                    assert(after[succ(0, m - 1)] == ring[2]);
                    assert(ring[0] != ring[1]);
                }
            }
            let ks = position(ring, hull0.start);
            assert(ks != 1);
            assert(after[if ks == 0 {
                0
            } else {
                ks - 1
            }] == hull.start);
            assert forall|k: int| 0 <= k < m - 1 implies #[trigger] hull.edge_ok(self, k) by {
                if k >= 1 {
                    assert(hull0.edge_ok(&mesh0, k + 1));
                    assert(hull0.node_ok(k + 1));
                }
            }
            assert forall|h: int| 0 <= h < self.halfedges@.len() implies #[trigger] hull.boundary_ok(
                self,
                h,
            ) by {
                if h < t {
                    assert(hull0.boundary_ok(&mesh0, h));
                    assert(mesh0.corner_ok(h, np));
                    if self.halfedges@[h] == EMPTY {
                        let x = mesh0.triangles@[h];
                        let kx = position(ring, x);
                        assert(kx != 1);
                        assert(kx != 0);
                        assert(after[kx - 1] == x);
                    }
                }
            }
            assert forall|b: int| 0 <= b < hull.hash@.len() implies #[trigger] hull.slot_ok(b) by {
                assert(hull0.slot_ok(b));
                let x = hull.hash@[b];
                if x != EMPTY && ring.contains(x) && x != n {
                    let kx = position(ring, x);
                    assert(after[if kx == 0 {
                        0
                    } else {
                        kx - 1
                    }] == x);
                }
            }
        }
        t
    }

    /// Widens the fan of point `i` backward over the hull edge from `q` to
    /// `e`: the triangle `(q, i, e)` is added to the mesh, `e` leaves the
    /// ring, and `q` becomes the start of the hull. Returns the first
    /// half-edge of the triangle.
    pub fn widen_backward(&mut self, hull: &mut Hull, i: u32, e: u32, q: u32) -> (t: u32)
        requires
            old(hull).fits(old(self)),
            old(hull).slots_ok(),
            old(hull).ring@.len() >= 4,
            old(hull).ring@[0] == i,
            old(hull).ring@[old(hull).ring@.len() - 1] == e,
            old(hull).ring@[old(hull).ring@.len() - 2] == q,
            old(self).triangles@.len() + 3 <= EMPTY,
        ensures
            final(hull).fits(final(self)),
            final(hull).slots_ok(),
            t == old(self).triangles@.len(),
            final(self).triangles@.len() == old(self).triangles@.len() + 3,
            final(self).hull == old(self).hull,
            final(hull).points() == old(hull).points(),
            final(hull).hash == old(hull).hash,
            final(hull).angle == old(hull).angle,
            final(hull).start == q,
            final(hull).ring@ == old(hull).ring@.drop_last(),
            final(self).triangles@ == old(self).with_triangle(
                q,
                i,
                e,
                EMPTY,
                old(hull).out@[e as int],
                old(hull).out@[q as int],
            ).0,
            final(self).halfedges@ == old(self).with_triangle(
                q,
                i,
                e,
                EMPTY,
                old(hull).out@[e as int],
                old(hull).out@[q as int],
            ).1,
            final(hull).next@ == old(hull).next@.update(q as int, i).update(e as int, EMPTY),
            final(hull).prev@ == old(hull).prev@.update(i as int, q),
            final(hull).out@ == old(hull).out@.update(q as int, t),
            forall|p: u32|
                final(self).triangles@.contains(p) <==> p == i || old(self).triangles@.contains(p),
    {
        let ghost np = hull.points();
        let ghost ring = hull.ring@;
        let ghost m = ring.len() as int;
        let ghost mesh0 = *self;
        let ghost hull0 = *hull;
        proof {
            assert(hull.node_ok(0));
            assert(hull.node_ok(m - 1));
            assert(hull.node_ok(m - 2));
            assert(hull.edge_ok(self, m - 1));
            assert(hull.edge_ok(self, m - 2));
        }
        let b = hull.out(e);
        let c = hull.out(q);
        let empty = self.empty;
        let t = self.add_triangle(q, i, e, empty, b, c);
        proof {
            mesh0.lemma_add_triangle(self, np, q, i, e, EMPTY, b, c);
            assert(hull.edge_ok(&mesh0, 0));
            assert(mesh0.triangles@.contains(i));
            assert(mesh0.triangles@.contains(e));
            assert(mesh0.triangles@.contains(q));
        }
        hull.set_next(q, i);
        hull.set_prev(i, q);
        hull.remove(e);
        hull.set_out(q, t);
        hull.start = q;
        hull.ring = Ghost(ring.drop_last());
        proof {
            let after = hull.ring@;
            assert(after.len() == m - 1);
            assert forall|k: int| 0 <= k < m - 1 implies #[trigger] after[k] == ring[k] by {}
            assert forall|k: int| 0 <= k < m - 1 implies #[trigger] hull.node_ok(k) by {
                assert(hull0.node_ok(k));
                if k < m - 2 {
                    assert(hull0.node_ok(k + 1));
                    assert(after[succ(k, m - 1)] == ring[k + 1]);
                    assert(ring[k] != ring[m - 2] && ring[k] != ring[m - 1]);
                    assert(ring[k + 1] != ring[0]);
                } else {
                    assert(after[succ(k, m - 1)] == ring[0]);
                }
            }
            assert(after[m - 2] == hull.start);
            assert forall|k: int| 0 <= k < m - 1 implies #[trigger] hull.edge_ok(self, k) by {
                assert(hull0.edge_ok(&mesh0, k));
                assert(hull0.node_ok(k));
            }
            assert forall|h: int| 0 <= h < self.halfedges@.len() implies #[trigger] hull.boundary_ok(
                self,
                h,
            ) by {
                if h < t {
                    assert(hull0.boundary_ok(&mesh0, h));
                    assert(mesh0.corner_ok(h, np));
                    if self.halfedges@[h] == EMPTY {
                        let x = mesh0.triangles@[h];
                        let kx = position(ring, x);
                        assert(after[kx] == x);
                    }
                } else if h == t as int {
                    assert(after[m - 2] == q);
                }
            }
            assert forall|b: int| 0 <= b < hull.hash@.len() implies #[trigger] hull.slot_ok(b) by {
                assert(hull0.slot_ok(b));
                let x = hull.hash@[b];
                if x != EMPTY && ring.contains(x) && x != e {
                    let kx = position(ring, x);
                    assert(after[kx] == x);
                }
            }
        }
        t
    }

    /// The fan of point `i` ends at both sides where the turn test said so:
    /// the hull edge after the point that follows `i` was called not visible
    /// from `i`, and so was the hull edge before the point that precedes
    /// `i`, unless the ring holds no more than those two points and `i`.
    pub open spec fn fan_closed<O: Fn(usize, usize, usize) -> bool>(
        hull: &Hull,
        i: u32,
        orient: &O,
    ) -> bool {
        let n = hull.next@[i as int];
        let e = hull.prev@[i as int];
        let qf = hull.next@[n as int];
        let qb = hull.prev@[e as int];
        &&& qf == e || call_ensures(*orient, (i as usize, n as usize, qf as usize), false)
        &&& qb == n || call_ensures(*orient, (i as usize, qb as usize, e as usize), false)
    }

    /// Adds point `i` to the mesh: finds a hull edge that the turn test
    /// calls visible from `i`, joins `i` to it, widens the fan forward, and
    /// backward too if the search stopped at its first edge, over every
    /// further edge that the turn test calls visible, and legalizes each new
    /// triangle. At the end `i` and the point before it are hashed, and the
    /// point before `i` becomes the start of the hull.
    ///
    /// The point is linked into the ring with its first triangle, and every
    /// point that the fan covers leaves the ring at once, so that the hull
    /// is the boundary of the mesh whenever an edge is legalized. The fan
    /// stops short of the last edge that would leave the ring with fewer
    /// than three points.
    ///
    /// Returns `false`, and leaves mesh and hull as they are, when no edge
    /// is visible.
    pub fn insert<O: Fn(usize, usize, usize) -> bool, C: Fn(usize, usize, usize, usize) -> bool>(
        &mut self,
        hull: &mut Hull,
        i: u32,
        orient: &O,
        in_circle: &C,
    ) -> (added: bool)
        requires
            old(hull).fits(old(self)),
            old(hull).hash_ok(),
            i < old(hull).points(),
            !old(hull).ring@.contains(i),
            old(self).triangles@.len() + 3 * (old(hull).ring@.len() - 1) <= EMPTY,
            turn_test_ready(orient, old(hull).points()),
            circle_test_ready(in_circle, old(hull).points()),
        ensures
            final(hull).fits(final(self)),
            final(hull).hash_ok(),
            final(hull).points() == old(hull).points(),
            final(hull).angle == old(hull).angle,
            final(self).hull == old(self).hull,
            final(self).triangles@.len() >= old(self).triangles@.len(),
            !added ==> *final(self) == *old(self) && *final(hull) == *old(hull) && forall|k: int|
                0 <= k < old(hull).ring@.len() ==> #[trigger] old(hull).edge_seen(
                    i,
                    k,
                    orient,
                    false,
                ),
            added ==> exists|k: int|
                0 <= k < old(hull).ring@.len() && #[trigger] old(hull).edge_seen(i, k, orient, true),
            added ==> final(hull).ring@[0] == i && final(hull).start == final(hull).prev@[i as int]
                && Self::fan_closed(final(hull), i, orient),
            added ==> forall|k: int|
                1 <= k < final(hull).ring@.len() ==> old(hull).ring@.contains(
                    #[trigger] final(hull).ring@[k],
                ),
            added ==> final(self).triangles@.len() + 3 * final(hull).ring@.len() == old(
                self,
            ).triangles@.len() + 3 * old(hull).ring@.len() + 6,
            added ==> forall|p: u32|
                final(self).triangles@.contains(p) <==> p == i || old(self).triangles@.contains(p),
            forall|plane: Plane|
                plane.exact_turn(orient) && plane.exact_circle(in_circle) && wound(
                    old(self).triangles@,
                    plane,
                ) ==> #[trigger] wound(final(self).triangles@, plane),
    {
        let ghost np = hull.points();
        let ghost ring0 = hull.ring@;
        let ghost m0 = ring0.len() as int;
        let ghost len0 = self.triangles@.len() as int;
        let (e0, walk_back) = hull.find_visible_edge(i, orient);
        if e0 == self.empty {
            return false;
        }
        let mut e = e0;
        let ghost pe = hull.prev@[e as int];
        let ghost n0 = hull.next@[e as int];
        proof {
            let (h, s, j) = choose|h: int, s: int, j: int|
                #![trigger hull.first_live(hull.bucket(i), h), hull.first_seen(i, s, j, orient)]
                hull.first_live(hull.bucket(i), h) && 0 <= s < hull.ring@.len() && hull.ring@[s]
                    == hull.prev@[hull.hash@[ahead(hull.bucket(i), h, hull.hash@.len() as int)] as int]
                    && hull.first_seen(i, s, j, orient) && e0 == hull.ring@[ahead(
                    s,
                    j,
                    hull.ring@.len() as int,
                )] && walk_back == (j == 0);
            let ke = ahead(s, j, m0);
            assert(hull.node_ok(ke));
            assert(hull.edge_seen(i, ke, orient, true));
            if !walk_back {
                let kp = ahead(s, j - 1, m0);
                assert(hull.edge_seen(i, kp, orient, false));
                assert(hull.node_ok(kp));
                assert(succ(kp, m0) == ke);
                assert(call_ensures(*orient, (i as usize, pe as usize, e as usize), false));
            }
        }

        let t = self.open_fan(hull, i, e);
        proof {
            assert forall|plane: Plane|
                plane.exact_turn(orient) && plane.exact_circle(in_circle) && wound(
                    old(self).triangles@,
                    plane,
                ) implies #[trigger] wound(self.triangles@, plane) by {
                plane.lemma_swing_reverses(i as int, e as int, n0 as int);
                lemma_wound_grows(old(self).triangles@, plane, e, i, n0);
            }
            assert forall|k: int| 1 <= k < hull.ring@.len() implies ring0.contains(
                #[trigger] hull.ring@[k],
            ) by {
                let r = rotated(ring0, position(ring0, e) + 1);
                assert(hull.ring@[k] == r[k - 1]);
            }
        }
        proof {
            assert(hull.edge_ok(self, 0));
            assert(self.triangles@[t + 1] == i);
            assert(self.halfedges@[t + 1] == EMPTY);
        }
        let out = self.legalize(t + 2, in_circle, hull);
        proof {
            assert(hull.boundary_ok(self, out as int));
            assert(hull.out@.update(i as int, out) =~= hull.out@);
        }
        let ghost fitted = *hull;
        hull.set_out(i, out);
        proof {
            fitted.lemma_fits_kept(hull, self);
            fitted.lemma_slots_kept(hull);
        }

        let mut n = hull.next(i);
        proof {
            assert(hull.node_ok(0));
        }
        loop
            invariant_except_break
                true,
            invariant
                hull.fits(self),
                hull.slots_ok(),
                hull.points() == np,
                hull.angle == old(hull).angle,
                self.hull == old(self).hull,
                turn_test_ready(orient, np),
                circle_test_ready(in_circle, np),
                i < np,
                hull.ring@.len() >= 3,
                hull.ring@[0] == i,
                hull.ring@[1] == n,
                hull.ring@.last() == e,
                hull.start == e,
                hull.ring@[hull.ring@.len() - 2] == pe || walk_back,
                !walk_back ==> call_ensures(*orient, (i as usize, pe as usize, e as usize), false),
                forall|k: int|
                    1 <= k < hull.ring@.len() ==> ring0.contains(#[trigger] hull.ring@[k]),
                self.triangles@.len() + 3 * hull.ring@.len() == len0 + 3 * m0 + 6,
                self.triangles@.len() >= len0,
                forall|p: u32|
                    self.triangles@.contains(p) <==> p == i || old(self).triangles@.contains(p),
                forall|plane: Plane|
                    plane.exact_turn(orient) && plane.exact_circle(in_circle) && wound(
                        old(self).triangles@,
                        plane,
                    ) ==> #[trigger] wound(self.triangles@, plane),
                len0 + 3 * (m0 - 1) <= EMPTY,
            ensures
                hull.ring@[2] == e || call_ensures(
                    *orient,
                    (i as usize, n as usize, hull.ring@[2] as usize),
                    false,
                ),
            decreases hull.ring@.len(),
        {
            proof {
                assert(hull.node_ok(1));
                assert(hull.node_ok(2));
            }
            let q = hull.next(n);
            if q == e || !orient(as_index(i), as_index(n), as_index(q)) {
                break ;
            }
            let ghost ring_before = hull.ring@;
            let ghost grown = self.triangles@;
            let t = self.widen_forward(hull, i, n, q);
            proof {
                assert forall|plane: Plane|
                    plane.exact_turn(orient) && plane.exact_circle(in_circle) && wound(
                        old(self).triangles@,
                        plane,
                    ) implies #[trigger] wound(self.triangles@, plane) by {
                    assert(wound(grown, plane));
                    plane.lemma_swing_reverses(i as int, n as int, q as int);
                    lemma_wound_grows(grown, plane, n, i, q);
                }
                assert forall|k: int| 1 <= k < hull.ring@.len() implies ring0.contains(
                    #[trigger] hull.ring@[k],
                ) by {
                    assert(hull.ring@[k] == ring_before[k + 1]);
                }
                assert(hull.ring@[hull.ring@.len() - 2] == ring_before[ring_before.len() - 2]);
            }
            proof {
                assert(hull.edge_ok(self, 0));
                assert(self.triangles@[t + 1] == i);
                assert(self.halfedges@[t + 1] == EMPTY);
            }
            let out = self.legalize(t + 2, in_circle, hull);
            proof {
                assert(hull.boundary_ok(self, out as int));
                assert(hull.out@.update(i as int, out) =~= hull.out@);
            }
            let ghost fitted = *hull;
            hull.set_out(i, out);
            proof {
                fitted.lemma_fits_kept(hull, self);
                fitted.lemma_slots_kept(hull);
            }
            n = q;
        }

        if walk_back {
            loop
                invariant
                    hull.fits(self),
                    hull.slots_ok(),
                    hull.points() == np,
                    hull.angle == old(hull).angle,
                    self.hull == old(self).hull,
                    turn_test_ready(orient, np),
                    circle_test_ready(in_circle, np),
                    i < np,
                    hull.ring@.len() >= 3,
                    hull.ring@[0] == i,
                    hull.ring@[1] == n,
                    hull.ring@.last() == e,
                    hull.start == e,
                    hull.ring@[2] == e || call_ensures(
                        *orient,
                        (i as usize, n as usize, hull.ring@[2] as usize),
                        false,
                    ),
                    forall|k: int|
                        1 <= k < hull.ring@.len() ==> ring0.contains(#[trigger] hull.ring@[k]),
                    self.triangles@.len() + 3 * hull.ring@.len() == len0 + 3 * m0 + 6,
                    self.triangles@.len() >= len0,
                    forall|p: u32|
                        self.triangles@.contains(p) <==> p == i || old(self).triangles@.contains(p),
                    forall|plane: Plane|
                        plane.exact_turn(orient) && plane.exact_circle(in_circle) && wound(
                            old(self).triangles@,
                            plane,
                        ) ==> #[trigger] wound(self.triangles@, plane),
                    len0 + 3 * (m0 - 1) <= EMPTY,
                ensures
                    hull.ring@[hull.ring@.len() - 2] == n || call_ensures(
                        *orient,
                        (i as usize, hull.ring@[hull.ring@.len() - 2] as usize, e as usize),
                        false,
                    ),
                decreases hull.ring@.len(),
            {
                proof {
                    assert(hull.node_ok(hull.ring@.len() - 2));
                    assert(hull.node_ok(hull.ring@.len() - 1));
                }
                let q = hull.prev(e);
                if q == n || !orient(as_index(i), as_index(q), as_index(e)) {
                    break ;
                }
                let ghost ring_before = hull.ring@;
                let ghost grown = self.triangles@;
                let t = self.widen_backward(hull, i, e, q);
                proof {
                    assert forall|plane: Plane|
                        plane.exact_turn(orient) && plane.exact_circle(in_circle) && wound(
                            old(self).triangles@,
                            plane,
                        ) implies #[trigger] wound(self.triangles@, plane) by {
                        assert(wound(grown, plane));
                        plane.lemma_swing_reverses(i as int, q as int, e as int);
                        lemma_wound_grows(grown, plane, q, i, e);
                    }
                    assert forall|k: int| 1 <= k < hull.ring@.len() implies ring0.contains(
                        #[trigger] hull.ring@[k],
                    ) by {
                        assert(hull.ring@[k] == ring_before[k]);
                    }
                    assert(hull.ring@[2] == ring_before[2]);
                }
                self.legalize(t + 2, in_circle, hull);
                e = q;
            }
        }
        let ghost hull1 = *hull;
        proof {
            let m = hull.ring@.len() as int;
            assert(hull.node_ok(0));
            assert(hull.node_ok(1));
            assert(hull.node_ok(m - 1));
            assert(hull.node_ok(m - 2));
            assert(hull.ring@.contains(i));
            assert(hull.ring@.contains(n));
            assert(hull.ring@.contains(e));
        }
        hull.splice(i, e, n);
        proof {
            hull1.lemma_fits_kept(hull, self);
        }
        true
    }
}

} // verus!
