//! The half-edge mesh: two parallel arrays, three slots per triangle.

use vstd::prelude::*;
use crate::hull::succ;
use crate::index::{as_id, as_index, EMPTY};
use crate::plane::Plane;

verus! {

/// The half-edge that follows `i` in its triangle.
pub open spec fn next_edge(i: int) -> int {
    if i % 3 == 2 {
        i - 2
    } else {
        i + 1
    }
}

/// The half-edge that precedes `i` in its triangle.
pub open spec fn prev_edge(i: int) -> int {
    if i % 3 == 0 {
        i + 2
    } else {
        i - 1
    }
}

/// `s` with `v` written at `at`, unless `at` is the id `skip`.
pub open spec fn patched(s: Seq<u32>, at: u32, v: u32, skip: u32) -> Seq<u32> {
    if at == skip {
        s
    } else {
        s.update(at as int, v)
    }
}

/// On `plane`, the triangle that half-edge `k` belongs to is not clockwise.
pub open spec fn wound_at(triangles: Seq<u32>, plane: Plane, k: int) -> bool {
    plane.swing(
        triangles[k] as int,
        triangles[next_edge(k)] as int,
        triangles[prev_edge(k)] as int,
    ) >= 0
}

/// On `plane`, no triangle is clockwise.
pub open spec fn wound(triangles: Seq<u32>, plane: Plane) -> bool {
    forall|k: int| 0 <= k < triangles.len() ==> #[trigger] wound_at(triangles, plane, k)
}

/// A triangle that is not clockwise can join triangles that are not.
pub proof fn lemma_wound_grows(triangles: Seq<u32>, plane: Plane, i0: u32, i1: u32, i2: u32)
    requires
        triangles.len() % 3 == 0,
        wound(triangles, plane),
        plane.swing(i0 as int, i1 as int, i2 as int) >= 0,
    ensures
        wound(triangles + seq![i0, i1, i2], plane),
{
    let more = triangles + seq![i0, i1, i2];
    let t = triangles.len() as int;
    plane.lemma_swing_rotates(i0 as int, i1 as int, i2 as int);
    plane.lemma_swing_rotates(i1 as int, i2 as int, i0 as int);
    assert forall|k: int| 0 <= k < more.len() implies #[trigger] wound_at(more, plane, k) by {
        if k < t {
            assert(wound_at(triangles, plane, k));
            assert(more[k] == triangles[k]);
            assert(more[next_edge(k)] == triangles[next_edge(k)]);
            assert(more[prev_edge(k)] == triangles[prev_edge(k)]);
        } else {
            assert(more[t] == i0 && more[t + 1] == i1 && more[t + 2] == i2);
        }
    }
}

/// A triangulation: the mesh, and the hull once the construction is over.
pub struct Triangulation {
    /// Point ids, three per triangle, each triangle counter-clockwise.
    /// Half-edge `i` starts at point `triangles[i]`.
    pub triangles: Vec<u32>,
    /// For each half-edge the id of its twin in the adjacent triangle, or
    /// `empty` where the half-edge lies on the boundary.
    pub halfedges: Vec<u32>,
    /// The points on the convex hull, counter-clockwise.
    pub hull: Vec<u32>,
    /// The id that marks a half-edge without a twin.
    pub empty: u32,
}

impl Triangulation {
    /// Half-edge `k` has no twin, or its twin points back at it and runs the
    /// other way along the same edge.
    pub open spec fn twin_ok(&self, k: int) -> bool {
        let b = self.halfedges@[k];
        b == EMPTY || (b < self.halfedges@.len() && self.halfedges@[b as int] == k
            && self.triangles@[b as int] == self.triangles@[next_edge(k)])
    }

    /// The start of half-edge `k` is a point, and not the point that the
    /// half-edge runs to.
    pub open spec fn corner_ok(&self, k: int, n: nat) -> bool {
        self.triangles@[k] < n && self.triangles@[k] != self.triangles@[next_edge(k)]
    }

    /// The mesh is sound over `n` points: the two arrays run in parallel in
    /// whole triangles, every corner is a point, no triangle names a point
    /// twice, and twins are mutual.
    pub open spec fn mesh_ok(&self, n: nat) -> bool {
        &&& self.empty == EMPTY
        &&& self.triangles@.len() == self.halfedges@.len()
        &&& self.triangles@.len() % 3 == 0
        &&& self.triangles@.len() <= EMPTY
        &&& forall|k: int| 0 <= k < self.triangles@.len() ==> #[trigger] self.corner_ok(k, n)
        &&& forall|k: int| 0 <= k < self.halfedges@.len() ==> #[trigger] self.twin_ok(k)
    }

    /// The hull runs from its point `k` to the next along a boundary
    /// half-edge of the mesh.
    pub open spec fn rim(&self, k: int) -> bool {
        exists|h: int|
            0 <= h < self.halfedges@.len() && #[trigger] self.halfedges@[h] == EMPTY
                && self.triangles@[h] == self.hull@[k] && self.triangles@[next_edge(h)]
                == self.hull@[succ(k, self.hull@.len() as int)]
    }

    /// The hull is the boundary of the mesh, read as a cycle: at least three
    /// points, none twice, each joined to the next by a boundary half-edge;
    /// every boundary half-edge starts at a point of the hull, and no two
    /// start at the same point.
    pub open spec fn hull_ok(&self) -> bool {
        &&& self.hull@.len() >= 3
        &&& self.hull@.no_duplicates()
        &&& forall|k: int| 0 <= k < self.hull@.len() ==> #[trigger] self.rim(k)
        &&& forall|h: int|
            0 <= h < self.halfedges@.len() && #[trigger] self.halfedges@[h] == EMPTY
                ==> self.hull@.contains(self.triangles@[h])
        &&& forall|g: int, h: int|
            #![trigger self.halfedges@[g], self.halfedges@[h]]
            0 <= g < self.halfedges@.len() && 0 <= h < self.halfedges@.len() && self.halfedges@[g]
                == EMPTY && self.halfedges@[h] == EMPTY && self.triangles@[g] == self.triangles@[h]
                ==> g == h
    }

    /// The counts balance as they do for a triangulated disc: with `v`
    /// points used as corners and `h` of them on the hull there are
    /// `2 * v - 2 - h` triangles.
    pub open spec fn balanced(&self) -> bool {
        self.triangles@.len() + 3 * self.hull@.len() == 3 * (2 * self.triangles@.to_set().len()
            - 2)
    }

    /// The triangulation is sound over `n` points: the mesh is sound and
    /// holds a triangle, and the hull is its boundary.
    pub open spec fn wf(&self, n: nat) -> bool {
        &&& self.mesh_ok(n)
        &&& self.triangles@.len() >= 3
        &&& self.hull_ok()
    }

    /// Half-edge `h` is free to become the twin of a new half-edge that runs
    /// from `from` to `to`: it is on the boundary and runs from `to` to `from`.
    pub open spec fn attachable(&self, h: u32, from: u32, to: u32) -> bool {
        h == EMPTY || (h < self.halfedges@.len() && self.halfedges@[h as int] == EMPTY
            && self.triangles@[h as int] == to && self.triangles@[next_edge(h as int)] == from)
    }

    /// The number of triangles in the triangulation.
    pub fn len(&self) -> (r: usize)
        ensures
            r == self.triangles@.len() / 3,
    {
        self.triangles.len() / 3
    }

    /// Next half-edge in a triangle.
    pub fn next_halfedge(i: u32) -> (r: u32)
        requires
            i != EMPTY,
        ensures
            r == next_edge(i as int),
    {
        if i % 3 == 2 {
            i - 2
        } else {
            i + 1
        }
    }

    /// Previous half-edge in a triangle.
    pub fn prev_halfedge(i: u32) -> (r: u32)
        requires
            i != EMPTY,
        ensures
            r == prev_edge(i as int),
    {
        if i % 3 == 0 {
            i + 2
        } else {
            i - 1
        }
    }

    /// The twin of a half-edge.
    pub fn twin(&self, halfedge_id: u32) -> (r: u32)
        requires
            halfedge_id < self.halfedges@.len(),
        ensures
            r == self.halfedges@[halfedge_id as int],
    {
        self.halfedges[as_index(halfedge_id)]
    }

    /// Records `twin_id` as the twin of `halfedge_id`, unless `halfedge_id`
    /// is the empty id.
    pub fn set_twin(&mut self, halfedge_id: u32, twin_id: u32)
        requires
            halfedge_id == old(self).empty || halfedge_id < old(self).halfedges@.len(),
        ensures
            final(self).halfedges@ == patched(
                old(self).halfedges@,
                halfedge_id,
                twin_id,
                old(self).empty,
            ),
            final(self).triangles == old(self).triangles,
            final(self).hull == old(self).hull,
            final(self).empty == old(self).empty,
    {
        if halfedge_id != self.empty {
            self.halfedges.set(as_index(halfedge_id), twin_id);
        }
    }

    /// The point that a half-edge starts at.
    pub fn origin(&self, halfedge_id: u32) -> (r: u32)
        requires
            halfedge_id < self.triangles@.len(),
        ensures
            r == self.triangles@[halfedge_id as int],
    {
        self.triangles[as_index(halfedge_id)]
    }

    /// Makes `point_id` the point that a half-edge starts at.
    pub fn set_origin(&mut self, halfedge_id: u32, point_id: u32)
        requires
            halfedge_id < old(self).triangles@.len(),
        ensures
            final(self).triangles@ == old(self).triangles@.update(halfedge_id as int, point_id),
            final(self).halfedges == old(self).halfedges,
            final(self).hull == old(self).hull,
            final(self).empty == old(self).empty,
    {
        self.triangles.set(as_index(halfedge_id), point_id);
    }

    /// The two arrays after a triangle `(i0, i1, i2)` with twins `(a, b, c)`
    /// has been appended and the twins have been pointed back at it.
    pub open spec fn with_triangle(
        &self,
        i0: u32,
        i1: u32,
        i2: u32,
        a: u32,
        b: u32,
        c: u32,
    ) -> (Seq<u32>, Seq<u32>) {
        let t = self.triangles@.len();
        (
            self.triangles@ + seq![i0, i1, i2],
            patched(
                patched(
                    patched(self.halfedges@ + seq![a, b, c], a, t as u32, self.empty),
                    b,
                    (t + 1) as u32,
                    self.empty,
                ),
                c,
                (t + 2) as u32,
                self.empty,
            ),
        )
    }

    /// Appends the triangle `(i0, i1, i2)`, whose three half-edges get the
    /// twins `a`, `b` and `c`, and points each twin that is not empty back
    /// at its new half-edge. Returns the id of the first new half-edge.
    pub fn add_triangle(&mut self, i0: u32, i1: u32, i2: u32, a: u32, b: u32, c: u32) -> (t: u32)
        requires
            old(self).triangles@.len() == old(self).halfedges@.len(),
            old(self).triangles@.len() + 3 <= u32::MAX,
            a == old(self).empty || a < old(self).halfedges@.len(),
            b == old(self).empty || b < old(self).halfedges@.len(),
            c == old(self).empty || c < old(self).halfedges@.len(),
        ensures
            t == old(self).triangles@.len(),
            final(self).triangles@ == old(self).with_triangle(i0, i1, i2, a, b, c).0,
            final(self).halfedges@ == old(self).with_triangle(i0, i1, i2, a, b, c).1,
            final(self).hull == old(self).hull,
            final(self).empty == old(self).empty,
    {
        let t: u32 = as_id(self.triangles.len());

        self.triangles.push(i0);
        self.triangles.push(i1);
        self.triangles.push(i2);

        self.halfedges.push(a);
        self.halfedges.push(b);
        self.halfedges.push(c);

        assert(self.triangles@ =~= old(self).triangles@ + seq![i0, i1, i2]);
        assert(self.halfedges@ =~= old(self).halfedges@ + seq![a, b, c]);

        self.set_twin(a, t);
        self.set_twin(b, t + 1);
        self.set_twin(c, t + 2);
        t
    }

    /// Appending a triangle keeps the mesh sound when its corners are three
    /// different points and each twin is free and runs the other way.
    pub proof fn lemma_add_triangle(
        &self,
        after: &Triangulation,
        n: nat,
        i0: u32,
        i1: u32,
        i2: u32,
        a: u32,
        b: u32,
        c: u32,
    )
        requires
            self.mesh_ok(n),
            self.triangles@.len() + 3 <= EMPTY,
            i0 < n,
            i1 < n,
            i2 < n,
            i0 != i1,
            i1 != i2,
            i2 != i0,
            self.attachable(a, i0, i1),
            self.attachable(b, i1, i2),
            self.attachable(c, i2, i0),
            after.empty == EMPTY,
            after.triangles@ == self.with_triangle(i0, i1, i2, a, b, c).0,
            after.halfedges@ == self.with_triangle(i0, i1, i2, a, b, c).1,
        ensures
            after.mesh_ok(n),
            forall|p: u32|
                after.triangles@.contains(p) <==> p == i0 || p == i1 || p == i2
                    || self.triangles@.contains(p),
    {
        assert forall|p: u32|
            after.triangles@.contains(p) <==> p == i0 || p == i1 || p == i2
                || self.triangles@.contains(p) by {
            let t0 = self.triangles@.len() as int;
            assert(after.triangles@[t0] == i0);
            assert(after.triangles@[t0 + 1] == i1);
            assert(after.triangles@[t0 + 2] == i2);
            if self.triangles@.contains(p) {
                let k = choose|k: int| 0 <= k < t0 && self.triangles@[k] == p;
                assert(after.triangles@[k] == p);
            }
            if after.triangles@.contains(p) {
                let k = choose|k: int| 0 <= k < t0 + 3 && after.triangles@[k] == p;
                if k < t0 {
                    assert(self.triangles@[k] == p);
                }
            }
        }
        let t = self.triangles@.len() as int;
        let e = self.empty;
        let h0 = self.halfedges@ + seq![a, b, c];
        let h1 = patched(h0, a, t as u32, e);
        let h2 = patched(h1, b, (t + 1) as u32, e);
        assert(after.halfedges@ == patched(h2, c, (t + 2) as u32, e));
        assert forall|k: int| 0 <= k < after.triangles@.len() implies #[trigger] after.corner_ok(
            k,
            n,
        ) by {
            if k < t {
                assert(self.corner_ok(k, n));
            }
        }
        assert forall|k: int| 0 <= k < after.halfedges@.len() implies #[trigger] after.twin_ok(
            k,
        ) by {
            if k < t {
                assert(self.twin_ok(k));
                let w = self.halfedges@[k];
                if w != EMPTY {
                    assert(self.twin_ok(w as int));
                    assert(h0[k] == w);
                    assert(after.halfedges@[k] == w);
                    assert(after.halfedges@[w as int] == k);
                }
            }
        }
    }

    /// The two arrays after the edge that half-edge `a` shares with its twin
    /// has been swapped for the other diagonal of the two triangles.
    pub open spec fn flipped(&self, a: u32) -> (Seq<u32>, Seq<u32>) {
        let b = self.halfedges@[a as int];
        let ar = prev_edge(a as int);
        let bl = prev_edge(b as int);
        let p0 = self.triangles@[ar];
        let p1 = self.triangles@[bl];
        let hbl = self.halfedges@[bl];
        let har = self.halfedges@[ar];
        (
            self.triangles@.update(a as int, p1).update(b as int, p0),
            patched(
                patched(
                    self.halfedges@.update(a as int, hbl).update(b as int, har).update(
                        ar,
                        bl as u32,
                    ),
                    hbl,
                    a,
                    EMPTY,
                ),
                har,
                b,
                EMPTY,
            ).update(bl, ar as u32),
        )
    }

    /// Every twin is the empty id or a half-edge of the mesh.
    pub open spec fn twins_in_range(&self) -> bool {
        forall|k: int|
            0 <= k < self.halfedges@.len() ==> #[trigger] self.halfedges@[k] == EMPTY
                || self.halfedges@[k] < self.halfedges@.len()
    }

    /// Swaps the edge that half-edge `a` shares with its twin for the other
    /// diagonal of the two triangles: `a` and its twin now start at the two
    /// far corners, and the six twin links round the pair are set anew.
    pub fn flip(&mut self, a: u32)
        requires
            old(self).empty == EMPTY,
            old(self).triangles@.len() == old(self).halfedges@.len(),
            old(self).triangles@.len() % 3 == 0,
            old(self).triangles@.len() <= EMPTY,
            old(self).twins_in_range(),
            a < old(self).halfedges@.len(),
            old(self).halfedges@[a as int] != EMPTY,
        ensures
            final(self).triangles@ == old(self).flipped(a).0,
            final(self).halfedges@ == old(self).flipped(a).1,
            final(self).hull == old(self).hull,
            final(self).empty == old(self).empty,
    {
        let b = self.twin(a);
        let ar = Self::prev_halfedge(a);
        let bl = Self::prev_halfedge(b);
        let p0 = self.origin(ar);
        let p1 = self.origin(bl);

        self.set_origin(a, p1);
        self.set_origin(b, p0);

        let hbl = self.twin(bl);
        let har = self.twin(ar);

        self.set_twin(a, hbl);
        self.set_twin(b, har);
        self.set_twin(ar, bl);

        self.set_twin(hbl, a);
        self.set_twin(har, b);
        self.set_twin(bl, ar);
    }

    /// The twin of half-edge `k` after the flip of half-edge `a`.
    pub open spec fn flip_twin(&self, a: u32, k: int) -> u32 {
        let b = self.halfedges@[a as int];
        let ar = prev_edge(a as int);
        let bl = prev_edge(b as int);
        let hbl = self.halfedges@[bl];
        let har = self.halfedges@[ar];
        if k == bl {
            ar as u32
        } else if k == ar {
            bl as u32
        } else if k == a {
            hbl
        } else if k == b {
            har
        } else if hbl != EMPTY && k == hbl {
            a
        } else if har != EMPTY && k == har {
            b
        } else {
            self.halfedges@[k]
        }
    }

    /// The start of half-edge `k` after the flip of half-edge `a`.
    pub open spec fn flip_origin(&self, a: u32, k: int) -> u32 {
        let b = self.halfedges@[a as int];
        if k == a {
            self.triangles@[prev_edge(b as int)]
        } else if k == b {
            self.triangles@[prev_edge(a as int)]
        } else {
            self.triangles@[k]
        }
    }

    /// The two triangles of a flip share nothing but the edge, and the
    /// twins of their outer half-edges lie in neither.
    pub open spec fn flip_apart(&self, a: u32) -> bool {
        let b = self.halfedges@[a as int];
        let ar = prev_edge(a as int);
        let al = next_edge(a as int);
        let bl = prev_edge(b as int);
        let br = next_edge(b as int);
        let hbl = self.halfedges@[bl];
        let har = self.halfedges@[ar];
        &&& b < self.halfedges@.len()
        &&& b != a && b != al && b != ar
        &&& hbl != EMPTY ==> hbl < self.halfedges@.len() && hbl != a && hbl != b && hbl != ar
            && hbl != bl && hbl != al && hbl != br
        &&& har != EMPTY ==> har < self.halfedges@.len() && har != a && har != b && har != ar
            && har != bl && har != al && har != br && har != hbl
    }

    /// What a flip writes, entry by entry.
    pub proof fn lemma_flip_shape(&self, n: nat, a: u32)
        requires
            self.mesh_ok(n),
            a < self.halfedges@.len(),
            self.halfedges@[a as int] != EMPTY,
            self.triangles@[prev_edge(a as int)] != self.triangles@[prev_edge(
                self.halfedges@[a as int] as int,
            )],
        ensures
            self.flip_apart(a),
            self.flipped(a).0.len() == self.triangles@.len(),
            self.flipped(a).1.len() == self.triangles@.len(),
            forall|k: int|
                0 <= k < self.triangles@.len() ==> #[trigger] self.flipped(a).0[k]
                    == self.flip_origin(a, k),
            forall|k: int|
                0 <= k < self.triangles@.len() ==> #[trigger] self.flipped(a).1[k]
                    == self.flip_twin(a, k),
    {
        let tri = self.triangles@;
        let half = self.halfedges@;
        let b = half[a as int];
        let ar = prev_edge(a as int);
        let al = next_edge(a as int);
        let bl = prev_edge(b as int);
        let br = next_edge(b as int);
        let hbl = half[bl];
        let har = half[ar];
        assert(self.twin_ok(a as int));
        assert(self.twin_ok(b as int));
        assert(self.twin_ok(ar));
        assert(self.twin_ok(al));
        assert(self.twin_ok(bl));
        assert(self.twin_ok(br));
        assert(self.corner_ok(a as int, n));
        assert(self.corner_ok(b as int, n));
        assert(self.corner_ok(ar, n));
        assert(self.corner_ok(al, n));
        assert(self.corner_ok(bl, n));
        assert(self.corner_ok(br, n));
        assert(b != al && b != ar && b != a);
        if hbl != EMPTY {
            assert(self.twin_ok(hbl as int));
            assert(hbl != a && hbl != b && hbl != bl && hbl != ar && hbl != al && hbl != br);
        }
        if har != EMPTY {
            assert(self.twin_ok(har as int));
            assert(har != a && har != b && har != bl && har != ar && har != al && har != br);
            assert(har != hbl);
        }
        assert(self.flip_apart(a));
    }

    /// A flip keeps the mesh sound when the two far corners are different
    /// points.
    pub proof fn lemma_flip(&self, after: &Triangulation, n: nat, a: u32)
        requires
            self.mesh_ok(n),
            a < self.halfedges@.len(),
            self.halfedges@[a as int] != EMPTY,
            self.triangles@[prev_edge(a as int)] != self.triangles@[prev_edge(
                self.halfedges@[a as int] as int,
            )],
            after.empty == EMPTY,
            after.triangles@ == self.flipped(a).0,
            after.halfedges@ == self.flipped(a).1,
        ensures
            after.mesh_ok(n),
    {
        let tri = self.triangles@;
        let half = self.halfedges@;
        let b = half[a as int];
        let ar = prev_edge(a as int);
        let al = next_edge(a as int);
        let bl = prev_edge(b as int);
        let br = next_edge(b as int);
        let hbl = half[bl];
        let har = half[ar];
        self.lemma_flip_shape(n, a);
        assert(self.twin_ok(a as int));
        assert(self.twin_ok(b as int));
        assert(self.twin_ok(ar));
        assert(self.twin_ok(bl));
        assert(self.corner_ok(a as int, n));
        assert(self.corner_ok(b as int, n));
        assert(self.corner_ok(ar, n));
        assert(self.corner_ok(al, n));
        assert(self.corner_ok(bl, n));
        assert(self.corner_ok(br, n));
        if hbl != EMPTY {
            assert(self.twin_ok(hbl as int));
        }
        if har != EMPTY {
            assert(self.twin_ok(har as int));
        }
        assert forall|k: int| 0 <= k < after.triangles@.len() implies #[trigger] after.corner_ok(
            k,
            n,
        ) by {
            assert(self.corner_ok(k, n));
            assert(after.triangles@[k] == self.flip_origin(a, k));
            assert(after.triangles@[next_edge(k)] == self.flip_origin(a, next_edge(k)));
        }
        assert forall|k: int| 0 <= k < after.halfedges@.len() implies #[trigger] after.twin_ok(
            k,
        ) by {
            assert(self.twin_ok(k));
            let w = self.flip_twin(a, k);
            assert(after.halfedges@[k] == w);
            assert(after.triangles@[next_edge(k)] == self.flip_origin(a, next_edge(k)));
            if w != EMPTY {
                if k != a && k != b && k != ar && k != bl && !(hbl != EMPTY && k == hbl) && !(har
                    != EMPTY && k == har) {
                    assert(w == half[k]);
                    assert(self.twin_ok(w as int));
                }
                assert(after.halfedges@[w as int] == self.flip_twin(a, w as int));
                assert(after.triangles@[w as int] == self.flip_origin(a, w as int));
            }
        }
    }

    /// A flip leaves every point that is a corner a corner, and makes no
    /// other point one.
    pub proof fn lemma_flip_corners(&self, after: &Triangulation, n: nat, a: u32)
        requires
            self.mesh_ok(n),
            a < self.halfedges@.len(),
            self.halfedges@[a as int] != EMPTY,
            after.triangles@ == self.flipped(a).0,
        ensures
            forall|p: u32| after.triangles@.contains(p) <==> self.triangles@.contains(p),
    {
        let tri = self.triangles@;
        let b = self.halfedges@[a as int];
        let ar = prev_edge(a as int);
        let al = next_edge(a as int);
        let bl = prev_edge(b as int);
        let br = next_edge(b as int);
        assert(self.twin_ok(a as int));
        assert(self.twin_ok(b as int));
        assert(a != b) by {
            assert(self.corner_ok(a as int, n));
        }
        assert(tri[b as int] == tri[al]);
        assert(tri[a as int] == tri[br]);
        assert(al != a as int && al != b as int) by {
            assert(self.corner_ok(a as int, n));
            assert(self.corner_ok(al, n));
            assert(self.corner_ok(ar, n));
            assert(self.twin_ok(al));
        }
        assert(br != a as int && br != b as int) by {
            assert(self.corner_ok(b as int, n));
            assert(self.corner_ok(br, n));
            assert(self.corner_ok(bl, n));
            assert(self.twin_ok(br));
        }
        assert forall|p: u32| after.triangles@.contains(p) <==> tri.contains(p) by {
            if tri.contains(p) {
                let k = choose|k: int| 0 <= k < tri.len() && tri[k] == p;
                if k == a as int {
                    assert(after.triangles@[br] == p);
                } else if k == b as int {
                    assert(after.triangles@[al] == p);
                } else {
                    assert(after.triangles@[k] == p);
                }
            }
            if after.triangles@.contains(p) {
                let k = choose|k: int| 0 <= k < tri.len() && after.triangles@[k] == p;
                if k == a as int {
                    assert(tri[bl] == p);
                } else if k == b as int {
                    assert(tri[ar] == p);
                } else {
                    assert(tri[k] == p);
                }
            }
        }
    }

    /// Soundness speaks of what the three vectors hold, and of nothing else.
    pub proof fn lemma_same_arrays(&self, other: &Triangulation, n: nat)
        requires
            self.wf(n),
            other.triangles@ == self.triangles@,
            other.halfedges@ == self.halfedges@,
            other.hull@ == self.hull@,
            other.empty == self.empty,
        ensures
            other.wf(n),
    {
        assert forall|k: int| 0 <= k < other.triangles@.len() implies #[trigger] other.corner_ok(
            k,
            n,
        ) by {
            assert(self.corner_ok(k, n));
        }
        assert forall|k: int| 0 <= k < other.halfedges@.len() implies #[trigger] other.twin_ok(
            k,
        ) by {
            assert(self.twin_ok(k));
        }
        assert forall|k: int| 0 <= k < other.hull@.len() implies #[trigger] other.rim(k) by {
            assert(self.rim(k));
        }
    }

    /// A flip that the exact circle test asks for keeps every triangle
    /// from being clockwise.
    pub proof fn lemma_flip_wound(&self, after: &Triangulation, n: nat, plane: Plane, a: u32)
        requires
            self.mesh_ok(n),
            wound(self.triangles@, plane),
            a < self.halfedges@.len(),
            self.halfedges@[a as int] != EMPTY,
            plane.circle(
                self.triangles@[prev_edge(a as int)] as int,
                self.triangles@[a as int] as int,
                self.triangles@[next_edge(a as int)] as int,
                self.triangles@[prev_edge(self.halfedges@[a as int] as int)] as int,
            ) < 0,
            after.triangles@ == self.flipped(a).0,
        ensures
            wound(after.triangles@, plane),
    {
        let tri = self.triangles@;
        let new = after.triangles@;
        let b = self.halfedges@[a as int];
        let ar = prev_edge(a as int);
        let al = next_edge(a as int);
        let bl = prev_edge(b as int);
        let br = next_edge(b as int);
        let p0 = tri[ar] as int;
        let pr = tri[a as int] as int;
        let pl = tri[al] as int;
        let p1 = tri[bl] as int;
        assert(self.twin_ok(a as int));
        assert(self.twin_ok(b as int));
        assert(self.corner_ok(a as int, n));
        assert(self.corner_ok(al, n));
        assert(self.corner_ok(ar, n));
        assert(self.twin_ok(al));
        assert(self.twin_ok(ar));
        assert(b != a && b != al && b != ar);
        assert(tri[b as int] == pl);
        assert(tri[br] == pr);
        assert(wound_at(tri, plane, a as int));
        assert(wound_at(tri, plane, b as int));
        plane.lemma_swing_rotates(p0, pr, pl);
        plane.lemma_flip_keeps_winding(p0, pr, pl, p1);
        plane.lemma_swing_rotates(p1, pl, p0);
        plane.lemma_swing_rotates(pl, p0, p1);
        plane.lemma_swing_rotates(p0, pr, p1);
        plane.lemma_swing_rotates(pr, p1, p0);
        assert(new[a as int] == p1 && new[al] == pl && new[ar] == p0);
        assert(new[b as int] == p0 && new[br] == pr && new[bl] == p1);
        assert forall|k: int| 0 <= k < new.len() implies #[trigger] wound_at(new, plane, k) by {
            if k == a || k == al || k == ar || k == b || k == br || k == bl {
            } else {
                assert(wound_at(tri, plane, k));
                assert(new[k] == tri[k]);
                assert(new[next_edge(k)] == tri[next_edge(k)]);
                assert(new[prev_edge(k)] == tri[prev_edge(k)]);
            }
        }
    }
}

} // verus!
