//! Restoring the Delaunay condition round a new triangle by flipping edges.

use vstd::prelude::*;
use crate::hull::Hull;
use crate::index::{as_index, EMPTY};
use crate::mesh::{next_edge, prev_edge, wound, Triangulation};
use crate::plane::Plane;

verus! {

/// The circle test may be asked of any four of `n` points.
pub open spec fn circle_test_ready<C: Fn(usize, usize, usize, usize) -> bool>(
    in_circle: &C,
    n: nat,
) -> bool {
    forall|a: usize, b: usize, c: usize, d: usize|
        a < n && b < n && c < n && d < n ==> call_requires(*in_circle, (a, b, c, d))
}

/// The hull after a flip of half-edge `a` of `mesh`: a point whose boundary
/// half-edge changed its id in the flip keeps the new id.
pub open spec fn refitted(hull: &Hull, mesh: &Triangulation, a: u32) -> Seq<u32> {
    let b = mesh.halfedges@[a as int];
    let ar = prev_edge(a as int);
    let bl = prev_edge(b as int);
    let p0 = mesh.triangles@[ar];
    let p1 = mesh.triangles@[bl];
    let first = if mesh.halfedges@[bl] == EMPTY {
        hull.out@.update(p1 as int, a)
    } else {
        hull.out@
    };
    if mesh.halfedges@[ar] == EMPTY {
        first.update(p0 as int, b)
    } else {
        first
    }
}

/// A flip keeps the hull the boundary of the mesh, once the points whose
/// boundary half-edge changed its id keep the new one.
pub proof fn lemma_flip_hull(
    hull: &Hull,
    mesh: &Triangulation,
    hull_after: &Hull,
    mesh_after: &Triangulation,
    a: u32,
)
    requires
        hull.fits(mesh),
        a < mesh.halfedges@.len(),
        mesh.halfedges@[a as int] != EMPTY,
        mesh.triangles@[prev_edge(a as int)] != mesh.triangles@[prev_edge(
            mesh.halfedges@[a as int] as int,
        )],
        mesh_after.empty == EMPTY,
        mesh_after.triangles@ == mesh.flipped(a).0,
        mesh_after.halfedges@ == mesh.flipped(a).1,
        hull_after.prev == hull.prev,
        hull_after.next == hull.next,
        hull_after.start == hull.start,
        hull_after.empty == hull.empty,
        hull_after.ring == hull.ring,
        hull_after.out@ == refitted(hull, mesh, a),
    ensures
        hull_after.fits(mesh_after),
{
    let n = hull.points();
    let tri = mesh.triangles@;
    let half = mesh.halfedges@;
    let b = half[a as int];
    let ar = prev_edge(a as int);
    let al = next_edge(a as int);
    let bl = prev_edge(b as int);
    let br = next_edge(b as int);
    let hbl = half[bl];
    let har = half[ar];
    let p0 = tri[ar];
    let p1 = tri[bl];
    let m = hull.ring@.len() as int;
    mesh.lemma_flip(mesh_after, n, a);
    assert(mesh.twin_ok(a as int));
    assert(mesh.twin_ok(b as int));
    assert(mesh.twin_ok(ar));
    assert(mesh.twin_ok(bl));
    assert(mesh.corner_ok(a as int, n));
    assert(mesh.corner_ok(b as int, n));
    assert(mesh.corner_ok(ar, n));
    assert(mesh.corner_ok(al, n));
    assert(mesh.corner_ok(bl, n));
    assert(mesh.corner_ok(br, n));
    assert(b != al && b != ar && b != a);
    if hbl != EMPTY {
        assert(mesh.twin_ok(hbl as int));
    }
    if har != EMPTY {
        assert(mesh.twin_ok(har as int));
    }
    assert(hull.boundary_ok(mesh, bl));
    assert(hull.boundary_ok(mesh, ar));
    assert(mesh_after.halfedges@[a as int] == hbl);
    assert(mesh_after.halfedges@[b as int] == har);
    assert(mesh_after.halfedges@[ar] == bl);
    assert(mesh_after.halfedges@[bl] == ar);
    assert forall|k: int| 0 <= k < m implies #[trigger] hull_after.node_ok(k) by {
        assert(hull.node_ok(k));
    }
    assert forall|k: int| 0 <= k < m implies #[trigger] hull_after.edge_ok(mesh_after, k) by {
        assert(hull.edge_ok(mesh, k));
        assert(hull.node_ok(k));
        let c = hull.ring@[k];
        let h = hull.out@[c as int];
        if c == p0 && har == EMPTY {
            assert(h == ar);
        } else if c == p1 && hbl == EMPTY {
            assert(h == bl);
        } else {
            assert(hull_after.out@[c as int] == h);
            assert(h != a && h != b);
            if h == ar {
                assert(c == p0);
            }
            if h == bl {
                assert(c == p1);
            }
            assert(mesh_after.halfedges@[h as int] == EMPTY);
        }
    }
    assert forall|h: int| 0 <= h < mesh_after.halfedges@.len() implies #[trigger] hull_after.boundary_ok(
        mesh_after,
        h,
    ) by {
        assert(hull.boundary_ok(mesh, h));
        if mesh_after.halfedges@[h] == EMPTY {
            if h == a as int {
                assert(hbl == EMPTY);
                assert(mesh_after.triangles@[h] == p1);
                assert(hull.ring@.contains(p1));
                assert(hull_after.out@[p1 as int] == a);
            } else if h == b as int {
                assert(har == EMPTY);
                assert(mesh_after.triangles@[h] == p0);
                assert(hull.ring@.contains(p0));
                assert(hull_after.out@[p0 as int] == b);
            } else {
                assert(h != ar && h != bl);
                if hbl != EMPTY {
                    assert(h != hbl);
                }
                if har != EMPTY {
                    assert(h != har);
                }
                assert(half[h] == EMPTY);
                assert(mesh_after.triangles@[h] == tri[h]);
                assert(mesh.corner_ok(h, n));
                assert(hull.out@[tri[h] as int] == h);
                assert(hull_after.out@[tri[h] as int] == h);
            }
        }
    }
}

impl Triangulation {
    /// The four points round the edge of half-edge `a` and its twin, as the
    /// circle test takes them: the corner opposite `a`, the start of `a`,
    /// its end, and the corner opposite the twin.
    pub open spec fn quad(&self, a: int) -> (usize, usize, usize, usize) {
        (
            self.triangles@[prev_edge(a)] as usize,
            self.triangles@[a] as usize,
            self.triangles@[next_edge(a)] as usize,
            self.triangles@[prev_edge(self.halfedges@[a] as int)] as usize,
        )
    }

    /// The half-edge that is looked at last: the deepest one of the stack,
    /// or `a` when the stack is empty.
    pub open spec fn deepest(stack: Seq<u32>, a: u32) -> int {
        if stack.len() == 0 {
            a as int
        } else {
            stack[0] as int
        }
    }

    /// Some half-edge runs from point `x` to point `y`.
    pub open spec fn joined(&self, x: u32, y: u32) -> bool {
        exists|k: int|
            0 <= k < self.triangles@.len() && #[trigger] self.triangles@[k] == x
                && self.triangles@[next_edge(k)] == y
    }

    /// Half-edge `a` is due for a flip: it has a twin, the two corners
    /// opposite it are two points, and the circle test can only call the
    /// far corner inside.
    pub open spec fn due<C: Fn(usize, usize, usize, usize) -> bool>(
        &self,
        a: int,
        in_circle: &C,
    ) -> bool {
        &&& self.halfedges@[a] != EMPTY
        &&& self.quad(a).0 != self.quad(a).3
        &&& forall|r: bool| call_ensures(*in_circle, self.quad(a), r) ==> r
    }

    /// Half-edge `a` is left alone: it lies on the boundary, or the two
    /// corners opposite it are one point, or the circle test never calls the
    /// far corner inside.
    pub open spec fn settled<C: Fn(usize, usize, usize, usize) -> bool>(
        &self,
        a: int,
        in_circle: &C,
    ) -> bool {
        ||| self.halfedges@[a] == EMPTY
        ||| self.quad(a).0 == self.quad(a).3
        ||| forall|r: bool| call_ensures(*in_circle, self.quad(a), r) ==> !r
    }

    /// The half-edges still to look at are in order: `a` and those on the
    /// stack are half-edges opposite the corner `p0`, each a different one;
    /// the deepest starts at `pr0`; and if `rim0`, the half-edge before the
    /// deepest lies on the boundary.
    pub open spec fn trail_ok(
        &self,
        stack: Seq<u32>,
        a: u32,
        p0: u32,
        pr0: u32,
        rim0: bool,
    ) -> bool {
        &&& a < self.halfedges@.len()
        &&& self.triangles@[prev_edge(a as int)] == p0
        &&& forall|i: int|
            0 <= i < stack.len() ==> (#[trigger] stack[i]) < self.halfedges@.len()
                && self.triangles@[prev_edge(stack[i] as int)] == p0 && stack[i] != a
        &&& forall|i: int, j: int|
            0 <= i < j < stack.len() ==> #[trigger] stack[i] != #[trigger] stack[j]
        &&& self.triangles@[Self::deepest(stack, a)] == pr0
        &&& rim0 ==> self.halfedges@[prev_edge(Self::deepest(stack, a))] == EMPTY
    }

    /// A flip of `a` keeps the trail in order, with the half-edge after the
    /// twin of `a` on top of the stack.
    pub proof fn lemma_trail_flip(
        &self,
        after: &Triangulation,
        n: nat,
        stack: Seq<u32>,
        a: u32,
        p0: u32,
        pr0: u32,
        rim0: bool,
    )
        requires
            self.mesh_ok(n),
            self.trail_ok(stack, a, p0, pr0, rim0),
            self.halfedges@[a as int] != EMPTY,
            p0 != self.triangles@[prev_edge(self.halfedges@[a as int] as int)],
            after.triangles@ == self.flipped(a).0,
            after.halfedges@ == self.flipped(a).1,
        ensures
            after.trail_ok(
                stack.push(next_edge(self.halfedges@[a as int] as int) as u32),
                a,
                p0,
                pr0,
                rim0,
            ),
    {
        let tri = self.triangles@;
        let half = self.halfedges@;
        let b = half[a as int];
        let ar = prev_edge(a as int);
        let al = next_edge(a as int);
        let bl = prev_edge(b as int);
        let br = next_edge(b as int);
        let hbl = half[bl];
        let har = half[ar];
        let more = stack.push(br as u32);
        self.lemma_flip_shape(n, a);
        assert(self.twin_ok(a as int));
        assert(self.twin_ok(b as int));
        assert(self.twin_ok(ar));
        assert(self.twin_ok(bl));
        assert(self.corner_ok(a as int, n));
        assert(self.corner_ok(al, n));
        assert(self.corner_ok(ar, n));
        assert(self.corner_ok(b as int, n));
        assert(self.corner_ok(br, n));
        assert(self.corner_ok(bl, n));
        if hbl != EMPTY {
            assert(self.twin_ok(hbl as int));
        }
        if har != EMPTY {
            assert(self.twin_ok(har as int));
        }
        assert forall|k: int| 0 <= k < tri.len() implies after.triangles@[k] == self.flip_origin(
            a,
            k,
        ) && after.halfedges@[k] == self.flip_twin(a, k) by {}
        assert(after.triangles@[ar] == p0);
        assert(after.triangles@[b as int] == p0);
        assert forall|i: int| 0 <= i < more.len() implies (#[trigger] more[i])
            < after.halfedges@.len() && after.triangles@[prev_edge(more[i] as int)] == p0
            && more[i] != a by {
            if i < stack.len() {
                assert(more[i] == stack[i]);
                assert(stack[i] != al && stack[i] != br);
            }
        }
        assert forall|i: int, j: int| 0 <= i < j < more.len() implies #[trigger] more[i]
            != #[trigger] more[j] by {
            assert(more[i] == stack[i]);
            if j < stack.len() {
                assert(more[j] == stack[j]);
            } else {
                assert(stack[i] != br);
            }
        }
        if stack.len() > 0 {
            assert(more[0] == stack[0]);
            assert(stack[0] != a && stack[0] != b);
            let y = prev_edge(stack[0] as int);
            assert(y != ar && y != bl);
            if rim0 {
                assert(y != a && y != b);
                assert(y != hbl && y != har);
                assert(after.halfedges@[y] == half[y]);
            }
        } else {
            assert(more[0] == br);
            assert(after.halfedges@[b as int] == har);
        }
    }

    /// Taking the top of the stack as the half-edge to look at keeps the
    /// trail in order.
    pub proof fn lemma_trail_pop(&self, stack: Seq<u32>, a: u32, p0: u32, pr0: u32, rim0: bool)
        requires
            self.trail_ok(stack, a, p0, pr0, rim0),
            stack.len() > 0,
        ensures
            self.trail_ok(stack.drop_last(), stack.last(), p0, pr0, rim0),
    {
        let rest = stack.drop_last();
        assert forall|i: int| 0 <= i < rest.len() implies (#[trigger] rest[i])
            < self.halfedges@.len() && self.triangles@[prev_edge(rest[i] as int)] == p0 && rest[i]
            != stack.last() by {
            assert(rest[i] == stack[i]);
        }
        assert forall|i: int, j: int| 0 <= i < j < rest.len() implies #[trigger] rest[i]
            != #[trigger] rest[j] by {
            assert(rest[i] == stack[i]);
            assert(rest[j] == stack[j]);
        }
        if rest.len() > 0 {
            assert(rest[0] == stack[0]);
        }
    }

    /// A half-edge from `p0` to `far` is still there after a flip of a
    /// half-edge opposite `p0`: the one at `link`, or the twin of the one
    /// flipped.
    pub proof fn lemma_link_flip(
        &self,
        after: &Triangulation,
        n: nat,
        a: u32,
        link: int,
        p0: u32,
        far: u32,
    ) -> (l: int)
        requires
            self.mesh_ok(n),
            a < self.halfedges@.len(),
            self.halfedges@[a as int] != EMPTY,
            self.triangles@[prev_edge(a as int)] == p0,
            p0 != self.triangles@[prev_edge(self.halfedges@[a as int] as int)],
            after.triangles@ == self.flipped(a).0,
            0 <= link < self.triangles@.len(),
            self.triangles@[link] == p0,
            self.triangles@[next_edge(link)] == far,
        ensures
            0 <= l < after.triangles@.len(),
            after.triangles@[l] == p0,
            after.triangles@[next_edge(l)] == far,
    {
        let b = self.halfedges@[a as int];
        let ar = prev_edge(a as int);
        let al = next_edge(a as int);
        let bl = prev_edge(b as int);
        let br = next_edge(b as int);
        self.lemma_flip_shape(n, a);
        assert(self.twin_ok(a as int));
        assert(self.twin_ok(b as int));
        assert(self.corner_ok(a as int, n));
        assert(self.corner_ok(al, n));
        assert(self.corner_ok(ar, n));
        let l = if link == ar {
            b as int
        } else {
            link
        };
        assert(after.triangles@[l] == self.flip_origin(a, l));
        assert(after.triangles@[next_edge(l)] == self.flip_origin(a, next_edge(l)));
        if link != ar {
            assert(link != a && link != b);
            assert(next_edge(link) != a);
            assert(link != bl);
            assert(next_edge(link) != b);
        }
        l
    }

    /// Flips the edge of half-edge `a`, and gives each point of the hull
    /// whose boundary half-edge gets another id in the flip that id.
    pub fn flip_on_hull(&mut self, a: u32, hull: &mut Hull)
        requires
            old(hull).fits(old(self)),
            a < old(self).halfedges@.len(),
            old(self).halfedges@[a as int] != EMPTY,
            old(self).triangles@[prev_edge(a as int)] != old(self).triangles@[prev_edge(
                old(self).halfedges@[a as int] as int,
            )],
        ensures
            final(hull).fits(final(self)),
            final(self).triangles@ == old(self).flipped(a).0,
            final(self).halfedges@ == old(self).flipped(a).1,
            final(self).hull == old(self).hull,
            final(self).empty == old(self).empty,
            final(hull).out@ == refitted(old(hull), old(self), a),
            final(hull).prev == old(hull).prev,
            final(hull).next == old(hull).next,
            final(hull).hash == old(hull).hash,
            final(hull).start == old(hull).start,
            final(hull).angle == old(hull).angle,
            final(hull).empty == old(hull).empty,
            final(hull).ring == old(hull).ring,
    {
        let ghost n = hull.points();
        let ghost mesh_before = *self;
        let ghost hull_before = *hull;
        proof {
            assert(self.twin_ok(a as int));
        }
        let b = self.twin(a);
        let ar = Self::prev_halfedge(a);
        let bl = Self::prev_halfedge(b);
        let ghost p0 = self.triangles@[ar as int];
        let ghost p1 = self.triangles@[bl as int];
        proof {
            assert(self.corner_ok(ar as int, n));
            assert(self.corner_ok(bl as int, n));
        }
        let hbl = self.twin(bl);
        let har = self.twin(ar);

        if hbl == self.empty {
            proof {
                assert(hull.boundary_ok(self, bl as int));
                let k = choose|k: int| 0 <= k < hull.ring@.len() && hull.ring@[k] == p1;
                assert forall|i: int|
                    0 <= i < hull.ring@.len() && i != k implies hull.out@[#[trigger] hull.ring@[i] as int]
                    != bl by {
                    assert(hull.edge_ok(self, i));
                }
                let w = hull.lemma_keeper(k, bl);
            }
            hull.fix_halfedge(bl, a);
            proof {
                assert(hull.out@ == hull_before.out@.update(p1 as int, a));
            }
        }
        let ghost hull_between = *hull;
        if har == self.empty {
            proof {
                assert(hull_before.boundary_ok(self, ar as int));
                let k = choose|k: int| 0 <= k < hull.ring@.len() && hull.ring@[k] == p0;
                assert(hull.ring_ok()) by {
                    assert forall|i: int| 0 <= i < hull.ring@.len() implies #[trigger] hull.node_ok(
                        i,
                    ) by {
                        assert(hull_before.node_ok(i));
                    }
                }
                assert forall|i: int|
                    0 <= i < hull.ring@.len() && i != k implies hull.out@[#[trigger] hull.ring@[i] as int]
                    != ar by {
                    assert(hull_before.edge_ok(self, i));
                    assert(hull_before.node_ok(i));
                }
                let w = hull.lemma_keeper(k, ar);
            }
            hull.fix_halfedge(ar, b);
            proof {
                assert(hull.out@ == hull_between.out@.update(p0 as int, b));
            }
        }
        proof {
            assert(hull.out@ == refitted(&hull_before, self, a));
            assert forall|k: int|
                0 <= k < self.halfedges@.len() implies #[trigger] self.halfedges@[k] == EMPTY
                || self.halfedges@[k] < self.halfedges@.len() by {
                assert(self.twin_ok(k));
            }
        }
        self.flip(a);
        proof {
            lemma_flip_hull(&hull_before, &mesh_before, hull, self, a);
        }
    }

    /// Flips the edge of half-edge `a` if the circle test calls the corner
    /// opposite its twin inside the triangle of `a`, and then looks in the
    /// same way at the two edges that the flip has put opposite the first
    /// corner, first at the one that has kept the id `a`, until no edge asks
    /// for a flip. An edge whose two opposite corners are one point is left
    /// as it is. Where a flip gives a boundary half-edge another id, the
    /// hull is told.
    ///
    /// Returns the half-edge before the last one looked at. It runs from
    /// the corner opposite `a` to the point that `a` started at, and it lies
    /// on the boundary if the half-edge before `a` did.
    ///
    /// A flip adds an edge at the first corner, so a run of flips that the
    /// points' geometry supports is shorter than the number of half-edges;
    /// after that many flips every edge is left as it is. The edges still
    /// to look at are kept on a stack, not in the depth of calls.
    pub fn legalize<C: Fn(usize, usize, usize, usize) -> bool>(
        &mut self,
        a: u32,
        in_circle: &C,
        hull: &mut Hull,
    ) -> (ar: u32)
        requires
            old(hull).fits(old(self)),
            a < old(self).halfedges@.len(),
            circle_test_ready(in_circle, old(hull).points()),
        ensures
            final(hull).fits(final(self)),
            final(self).triangles@.len() == old(self).triangles@.len(),
            forall|p: u32| final(self).triangles@.contains(p) <==> old(self).triangles@.contains(p),
            forall|plane: Plane|
                plane.exact_circle(in_circle) && wound(old(self).triangles@, plane) ==> #[trigger] wound(
                    final(self).triangles@,
                    plane,
                ),
            final(self).hull == old(self).hull,
            final(hull).prev == old(hull).prev,
            final(hull).next == old(hull).next,
            final(hull).hash == old(hull).hash,
            final(hull).start == old(hull).start,
            final(hull).angle == old(hull).angle,
            final(hull).ring == old(hull).ring,
            old(hull).slots_ok() ==> final(hull).slots_ok(),
            old(hull).hash_ok() ==> final(hull).hash_ok(),
            ar < final(self).triangles@.len(),
            final(self).triangles@[ar as int] == old(self).triangles@[prev_edge(a as int)],
            final(self).triangles@[next_edge(ar as int)] == old(self).triangles@[a as int],
            old(self).halfedges@[prev_edge(a as int)] == EMPTY ==> final(self).halfedges@[ar as int]
                == EMPTY,
            old(self).settled(a as int, in_circle) ==> *final(self) == *old(self) && *final(hull)
                == *old(hull) && ar == prev_edge(a as int),
            old(self).due(a as int, in_circle) ==> final(self).joined(
                old(self).triangles@[prev_edge(a as int)],
                old(self).triangles@[prev_edge(old(self).halfedges@[a as int] as int)],
            ),
            !(*final(self) == *old(self) && *final(hull) == *old(hull)) ==> old(
                self,
            ).halfedges@[a as int] != EMPTY && call_ensures(
                *in_circle,
                old(self).quad(a as int),
                true,
            ),
    {
        let ghost n = hull.points();
        let mut stack: Vec<u32> = Vec::new();
        let mut budget: usize = self.triangles.len();
        let mut a: u32 = a;
        let mut ar: u32 = 0;
        let ghost a0 = a;
        let ghost p0 = self.triangles@[prev_edge(a as int)];
        let ghost pr0 = self.triangles@[a as int];
        let ghost rim0 = self.halfedges@[prev_edge(a as int)] == EMPTY;
        let ghost far0 = self.triangles@[prev_edge(self.halfedges@[a as int] as int)];
        let ghost mut touched = false;
        let ghost mut link: int = 0;
        loop
            invariant
                self.trail_ok(stack@, a, p0, pr0, rim0),
                hull.fits(self),
                hull.points() == n,
                circle_test_ready(in_circle, n),
                self.triangles@.len() == old(self).triangles@.len(),
                forall|p: u32| self.triangles@.contains(p) <==> old(self).triangles@.contains(p),
                forall|plane: Plane|
                    plane.exact_circle(in_circle) && wound(old(self).triangles@, plane)
                        ==> #[trigger] wound(self.triangles@, plane),
                self.hull == old(self).hull,
                hull.prev == old(hull).prev,
                hull.next == old(hull).next,
                hull.hash == old(hull).hash,
                hull.start == old(hull).start,
                hull.angle == old(hull).angle,
                hull.ring == old(hull).ring,
                !touched ==> *self == *old(self) && *hull == *old(hull) && stack@.len() == 0 && a
                    == a0 && budget > 0,
                far0 == old(self).triangles@[prev_edge(old(self).halfedges@[a0 as int] as int)],
                touched ==> 0 <= link < self.triangles@.len() && self.triangles@[link] == p0
                    && self.triangles@[next_edge(link)] == far0,
                touched ==> old(self).halfedges@[a0 as int] != EMPTY && old(self).quad(a0 as int).0
                    != old(self).quad(a0 as int).3 && call_ensures(
                    *in_circle,
                    old(self).quad(a0 as int),
                    true,
                ),
            ensures
                ar == prev_edge(a as int),
                stack@.len() == 0,
                old(self).settled(a0 as int, in_circle) ==> !touched && ar == prev_edge(a0 as int),
                old(self).due(a0 as int, in_circle) ==> touched,
            decreases 2 * budget + stack@.len(),
        {
            let b = self.twin(a);
            ar = Self::prev_halfedge(a);
            let mut flip = false;
            proof {
                assert(self.twin_ok(a as int));
            }
            if b != self.empty && budget > 0 {
                let al = Self::next_halfedge(a);
                let bl = Self::prev_halfedge(b);

                let p0 = self.origin(ar);
                let pr = self.origin(a);
                let pl = self.origin(al);
                let p1 = self.origin(bl);
                proof {
                    assert(self.corner_ok(ar as int, n));
                    assert(self.corner_ok(a as int, n));
                    assert(self.corner_ok(al as int, n));
                    assert(self.corner_ok(bl as int, n));
                }

                let illegal = p0 != p1 && in_circle(
                    as_index(p0),
                    as_index(pr),
                    as_index(pl),
                    as_index(p1),
                );
                if illegal {
                    let ghost mesh_before = *self;
                    let ghost pending = stack@;
                    self.flip_on_hull(a, hull);
                    let br = Self::next_halfedge(b);
                    stack.push(br);
                    proof {
                        mesh_before.lemma_flip_corners(self, n, a);
                        mesh_before.lemma_trail_flip(self, n, pending, a, p0, pr0, rim0);
                        if touched {
                            link = mesh_before.lemma_link_flip(self, n, a, link, p0, far0);
                        } else {
                            mesh_before.lemma_flip_shape(n, a);
                            link = ar as int;
                            assert(self.triangles@[link] == mesh_before.flip_origin(a, link));
                            assert(self.triangles@[a as int] == mesh_before.flip_origin(
                                a,
                                a as int,
                            ));
                        }
                        assert forall|plane: Plane|
                            plane.exact_circle(in_circle) && wound(
                                old(self).triangles@,
                                plane,
                            ) implies #[trigger] wound(self.triangles@, plane) by {
                            assert(wound(mesh_before.triangles@, plane));
                            mesh_before.lemma_flip_wound(self, n, plane, a);
                        }
                        touched = true;
                    }
                    budget = budget - 1;
                    flip = true;
                }
            }
            if !flip {
                let ghost pending = stack@;
                match stack.pop() {
                    None => {
                        break ;
                    },
                    Some(x) => {
                        proof {
                            assert(stack@ =~= pending.drop_last());
                            self.lemma_trail_pop(pending, a, p0, pr0, rim0);
                        }
                        a = x;
                    },
                }
            }
        }
        proof {
            old(hull).lemma_slots_kept(hull);
            if touched {
                assert(self.joined(p0, far0));
            }
        }
        ar
    }
}

} // verus!
