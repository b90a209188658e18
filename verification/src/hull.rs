//! The advancing hull: a ring of points, doubly linked through two arrays,
//! with the boundary half-edge that leaves each point and an angular hash
//! that gives a walk round the ring a place to start.

use vstd::prelude::*;
use crate::index::{as_id, as_index, empty_id, zero_id, EMPTY};
use crate::mesh::{next_edge, Triangulation};

verus! {

/// The position that follows `k` on a ring of `m` positions.
pub open spec fn succ(k: int, m: int) -> int {
    if k + 1 == m {
        0
    } else {
        k + 1
    }
}

/// The position `j` steps after `s` on a ring of `m` positions, for `j <= m`.
pub open spec fn ahead(s: int, j: int, m: int) -> int {
    if s + j < m {
        s + j
    } else {
        s + j - m
    }
}

/// The turn test may be asked of any three of `n` points.
pub open spec fn turn_test_ready<O: Fn(usize, usize, usize) -> bool>(orient: &O, n: nat) -> bool {
    forall|a: usize, b: usize, c: usize|
        a < n && b < n && c < n ==> call_requires(*orient, (a, b, c))
}

/// The largest number whose square is at most `n`.
pub fn isqrt(n: u32) -> (r: u32)
    ensures
        r * r <= n < (r + 1) * (r + 1),
{
    let mut r: u64 = 0;
    while (r + 1) * (r + 1) <= n as u64
        invariant
            r * r <= n,
            r <= 0xFFFF,
            (r + 1) * (r + 1) <= 0x1_0000_0000,
        decreases 0x1_0000 - r,
    {
        assert((r + 1) * (r + 1) <= n && n <= 0xFFFF_FFFF ==> r + 1 <= 0xFFFF) by (nonlinear_arith);
        r = r + 1;
        assert(r <= 0xFFFF ==> (r + 1) * (r + 1) <= 0x1_0000_0000) by (nonlinear_arith);
    }
    r as u32
}

/// A position at which `c` stands on `ring`.
pub open spec fn position(ring: Seq<u32>, c: u32) -> int {
    choose|k: int| 0 <= k < ring.len() && ring[k] == c
}

/// `ring` read from position `s` on and round to where it started.
pub open spec fn rotated(ring: Seq<u32>, s: int) -> Seq<u32> {
    ring.subrange(s, ring.len() as int) + ring.subrange(0, s)
}

/// The edges of the advancing convex hull.
pub struct Hull {
    /// For each point on the hull the point before it.
    pub prev: Vec<u32>,
    /// For each point on the hull the point after it; the empty id for a
    /// point that has left the hull.
    pub next: Vec<u32>,
    /// For each point on the hull the boundary half-edge that leaves it.
    pub out: Vec<u32>,
    /// The angular hash: one hull point per bucket, or the empty id.
    pub hash: Vec<u32>,
    /// A point on the hull.
    pub start: u32,
    /// For each point the angular bucket that it falls into, seen from the
    /// centre of the hash, before it is reduced to the table's length.
    pub angle: Vec<usize>,
    /// The id that marks a point off the hull and an unused bucket.
    pub empty: u32,
    /// The points on the hull, in the order in which `next` links them.
    pub ring: Ghost<Seq<u32>>,
}

impl Hull {
    /// The point at position `k` of the ring is linked forward to the point
    /// after it, and that point back to it.
    pub open spec fn node_ok(&self, k: int) -> bool {
        let c = self.ring@[k];
        let d = self.ring@[succ(k, self.ring@.len() as int)];
        c < self.next@.len() && self.next@[c as int] == d && self.prev@[d as int] == c
    }

    /// The number of points that the hull has room for.
    pub open spec fn points(&self) -> nat {
        self.next@.len()
    }

    /// The ring is sound: at least three points, none twice, linked in a
    /// circle that `start` lies on.
    pub open spec fn ring_ok(&self) -> bool {
        &&& self.empty == EMPTY
        &&& self.next@.len() < EMPTY
        &&& self.prev@.len() == self.next@.len()
        &&& self.out@.len() == self.next@.len()
        &&& self.ring@.len() >= 3
        &&& self.ring@.no_duplicates()
        &&& forall|k: int| 0 <= k < self.ring@.len() ==> #[trigger] self.node_ok(k)
        &&& self.ring@.contains(self.start)
    }

    /// The half-edge kept for position `k` of the ring lies on the boundary
    /// of the mesh and runs from that point to the next point of the ring.
    pub open spec fn edge_ok(&self, mesh: &Triangulation, k: int) -> bool {
        let c = self.ring@[k];
        let d = self.ring@[succ(k, self.ring@.len() as int)];
        let h = self.out@[c as int];
        h < mesh.halfedges@.len() && mesh.halfedges@[h as int] == EMPTY && mesh.triangles@[h as int]
            == c && mesh.triangles@[next_edge(h as int)] == d
    }

    /// If half-edge `h` of the mesh has no twin, the point that it starts at
    /// is on the ring and `h` is the half-edge kept for that point.
    pub open spec fn boundary_ok(&self, mesh: &Triangulation, h: int) -> bool {
        mesh.halfedges@[h] == EMPTY ==> self.ring@.contains(mesh.triangles@[h])
            && self.out@[mesh.triangles@[h] as int] == h
    }

    /// The hull is the boundary of the mesh: the ring is sound, each of its
    /// points keeps the boundary half-edge to the next, and the mesh has no
    /// other boundary half-edge.
    pub open spec fn fits(&self, mesh: &Triangulation) -> bool {
        &&& self.ring_ok()
        &&& mesh.mesh_ok(self.points())
        &&& forall|k: int| 0 <= k < self.ring@.len() ==> #[trigger] self.edge_ok(mesh, k)
        &&& forall|h: int| 0 <= h < mesh.halfedges@.len() ==> #[trigger] self.boundary_ok(mesh, h)
    }

    /// Bucket `b` of the hash is unused, or holds a point that is on the
    /// ring or is marked as removed.
    pub open spec fn slot_ok(&self, b: int) -> bool {
        let c = self.hash@[b];
        c == EMPTY || (c < self.next@.len() && (self.ring@.contains(c) || self.next@[c as int]
            == EMPTY))
    }

    /// Bucket `b` of the hash holds a point of the ring.
    pub open spec fn slot_live(&self, b: int) -> bool {
        self.hash@[b] != EMPTY && self.ring@.contains(self.hash@[b])
    }

    /// Every point has an angle, the hash has at least one bucket and no
    /// more than the square root of the number of points, and every bucket
    /// is sound.
    pub open spec fn slots_ok(&self) -> bool {
        &&& self.angle@.len() == self.next@.len()
        &&& self.hash@.len() > 0
        &&& self.hash@.len() * self.hash@.len() <= self.next@.len()
        &&& forall|b: int| 0 <= b < self.hash@.len() ==> #[trigger] self.slot_ok(b)
    }

    /// The hash is sound: its buckets are, and one of them holds a point of
    /// the ring.
    pub open spec fn hash_ok(&self) -> bool {
        &&& self.slots_ok()
        &&& exists|b: int| 0 <= b < self.hash@.len() && #[trigger] self.slot_live(b)
    }

    /// The boundary half-edge that leaves a point.
    pub fn out(&self, point_id: u32) -> (r: u32)
        requires
            point_id < self.out@.len(),
        ensures
            r == self.out@[point_id as int],
    {
        self.out[as_index(point_id)]
    }

    /// Records the boundary half-edge that leaves a point.
    pub fn set_out(&mut self, point_id: u32, halfedge_id: u32)
        requires
            point_id < old(self).out@.len(),
        ensures
            final(self).out@ == old(self).out@.update(point_id as int, halfedge_id),
            final(self).prev == old(self).prev,
            final(self).next == old(self).next,
            final(self).hash == old(self).hash,
            final(self).start == old(self).start,
            final(self).angle == old(self).angle,
            final(self).empty == old(self).empty,
            final(self).ring == old(self).ring,
    {
        self.out.set(as_index(point_id), halfedge_id);
    }

    /// The point before a point of the hull.
    pub fn prev(&self, point_id: u32) -> (r: u32)
        requires
            point_id < self.prev@.len(),
        ensures
            r == self.prev@[point_id as int],
    {
        self.prev[as_index(point_id)]
    }

    /// Records the point before a point of the hull.
    pub fn set_prev(&mut self, point_id: u32, prev_point_id: u32)
        requires
            point_id < old(self).prev@.len(),
        ensures
            final(self).prev@ == old(self).prev@.update(point_id as int, prev_point_id),
            final(self).next == old(self).next,
            final(self).out == old(self).out,
            final(self).hash == old(self).hash,
            final(self).start == old(self).start,
            final(self).angle == old(self).angle,
            final(self).empty == old(self).empty,
            final(self).ring == old(self).ring,
    {
        self.prev.set(as_index(point_id), prev_point_id);
    }

    /// The point after a point of the hull.
    pub fn next(&self, point_id: u32) -> (r: u32)
        requires
            point_id < self.next@.len(),
        ensures
            r == self.next@[point_id as int],
    {
        self.next[as_index(point_id)]
    }

    /// Records the point after a point of the hull.
    pub fn set_next(&mut self, point_id: u32, next_point_id: u32)
        requires
            point_id < old(self).next@.len(),
        ensures
            final(self).next@ == old(self).next@.update(point_id as int, next_point_id),
            final(self).prev == old(self).prev,
            final(self).out == old(self).out,
            final(self).hash == old(self).hash,
            final(self).start == old(self).start,
            final(self).angle == old(self).angle,
            final(self).empty == old(self).empty,
            final(self).ring == old(self).ring,
    {
        self.next.set(as_index(point_id), next_point_id);
    }

    /// Marks a point as removed from the hull: the point after it becomes
    /// the empty id.
    pub fn remove(&mut self, point_id: u32)
        requires
            point_id < old(self).next@.len(),
        ensures
            final(self).next@ == old(self).next@.update(point_id as int, old(self).empty),
            final(self).prev == old(self).prev,
            final(self).out == old(self).out,
            final(self).hash == old(self).hash,
            final(self).start == old(self).start,
            final(self).angle == old(self).angle,
            final(self).empty == old(self).empty,
            final(self).ring == old(self).ring,
    {
        let empty = self.empty;
        self.set_next(point_id, empty);
    }

    /// The bucket that a point falls into: its angle, reduced to the
    /// length of the hash.
    pub open spec fn bucket(&self, point_id: u32) -> int {
        (self.angle@[point_id as int] as int) % (self.hash@.len() as int)
    }

    /// The bucket of the hash that a point falls into.
    pub fn hash_key(&self, point_id: u32) -> (key: usize)
        requires
            point_id < self.angle@.len(),
            self.hash@.len() > 0,
        ensures
            key == self.bucket(point_id),
            key < self.hash@.len(),
    {
        let len = self.hash.len();
        self.angle[as_index(point_id)] % len
    }

    /// Puts point `i` into the bucket that point `p` falls into.
    pub fn hash_edge(&mut self, p: u32, i: u32)
        requires
            p < old(self).angle@.len(),
            old(self).hash@.len() > 0,
        ensures
            final(self).hash@ == old(self).hash@.update(old(self).bucket(p), i),
            final(self).prev == old(self).prev,
            final(self).next == old(self).next,
            final(self).out == old(self).out,
            final(self).start == old(self).start,
            final(self).angle == old(self).angle,
            final(self).empty == old(self).empty,
            final(self).ring == old(self).ring,
    {
        let key = self.hash_key(p);
        self.hash.set(key, i);
    }

    /// Position `j` of the walk that starts at position `s` of the ring is
    /// the first whose point keeps the half-edge `h`.
    pub open spec fn first_keeper(&self, s: int, j: int, h: u32) -> bool {
        let m = self.ring@.len() as int;
        &&& 0 <= j < m
        &&& self.out@[self.ring@[ahead(s, j, m)] as int] == h
        &&& forall|i: int| 0 <= i < j ==> self.out@[#[trigger] self.ring@[ahead(s, i, m)] as int] != h
    }

    /// Walks the hull from `start` and gives the first point that keeps the
    /// half-edge `old_id` the half-edge `new_id` instead. Without such a
    /// point the hull stays as it is.
    pub fn fix_halfedge(&mut self, old_id: u32, new_id: u32)
        requires
            old(self).ring_ok(),
        ensures
            final(self).prev == old(self).prev,
            final(self).next == old(self).next,
            final(self).hash == old(self).hash,
            final(self).start == old(self).start,
            final(self).angle == old(self).angle,
            final(self).empty == old(self).empty,
            final(self).ring == old(self).ring,
            final(self).out@.len() == old(self).out@.len(),
            (forall|k: int| 0 <= k < old(self).ring@.len() ==> old(self).out@[#[trigger] old(self).ring@[k] as int] != old_id)
                ==> final(self).out@ == old(self).out@,
            forall|s: int, j: int|
                0 <= s < old(self).ring@.len() && old(self).ring@[s] == old(self).start
                    && old(self).first_keeper(s, j, old_id) ==> final(self).out@ == old(
                    self,
                ).out@.update(
                    old(self).ring@[ahead(s, j, old(self).ring@.len() as int)] as int,
                    new_id,
                ),
    {
        let ghost ring = self.ring@;
        let ghost m = ring.len() as int;
        let ghost s = choose|s: int| 0 <= s < m && ring[s] == self.start;
        let ghost mut j: int = 0;
        let mut e = self.start;
        loop
            invariant_except_break
                *self == *old(self),
                self.ring_ok(),
                ring == self.ring@,
                m == ring.len(),
                0 <= s < m,
                ring[s] == self.start,
                0 <= j < m,
                e == ring[ahead(s, j, m)],
                forall|i: int| 0 <= i < j ==> self.out@[#[trigger] ring[ahead(s, i, m)] as int] != old_id,
            ensures
                ring == old(self).ring@,
                m == ring.len(),
                self.prev == old(self).prev,
                self.next == old(self).next,
                self.hash == old(self).hash,
                self.start == old(self).start,
                self.angle == old(self).angle,
                self.empty == old(self).empty,
                self.ring == old(self).ring,
                self.out@.len() == old(self).out@.len(),
                (forall|k: int| 0 <= k < m ==> old(self).out@[#[trigger] ring[k] as int] != old_id)
                    ==> self.out@ == old(self).out@,
                forall|s2: int, j2: int|
                    0 <= s2 < m && ring[s2] == old(self).start && old(self).first_keeper(
                        s2,
                        j2,
                        old_id,
                    ) ==> self.out@ == old(self).out@.update(
                        ring[ahead(s2, j2, m)] as int,
                        new_id,
                    ),
            decreases m - j,
        {
            proof {
                assert(self.node_ok(ahead(s, j, m)));
            }
            if self.out(e) == old_id {
                self.set_out(e, new_id);
                proof {
                    assert forall|s2: int, j2: int|
                        0 <= s2 < m && ring[s2] == old(self).start && old(self).first_keeper(
                            s2,
                            j2,
                            old_id,
                        ) implies self.out@ == old(self).out@.update(
                        ring[ahead(s2, j2, m)] as int,
                        new_id,
                    ) by {
                        assert(s2 == s);
                        if j2 < j {
                            assert(old(self).out@[ring[ahead(s, j2, m)] as int] != old_id);
                        }
                        if j < j2 {
                            assert(old(self).out@[ring[ahead(s, j, m)] as int] != old_id);
                        }
                    }
                }
                break ;
            }
            e = self.next(e);
            proof {
                j = j + 1;
            }
            if e == self.start {
                proof {
                    assert(ring[succ(ahead(s, j - 1, m), m)] == ring[s]);
                    assert(j == m);
                    assert forall|k: int| 0 <= k < m implies old(self).out@[#[trigger] ring[k] as int]
                        != old_id by {
                        let i = if k >= s {
                            k - s
                        } else {
                            k - s + m
                        };
                        assert(ahead(s, i, m) == k);
                    }
                    assert forall|s2: int, j2: int|
                        0 <= s2 < m && ring[s2] == old(self).start && old(self).first_keeper(
                            s2,
                            j2,
                            old_id,
                        ) implies self.out@ == old(self).out@.update(
                        ring[ahead(s2, j2, m)] as int,
                        new_id,
                    ) by {
                        assert(old(self).out@[ring[ahead(s2, j2, m)] as int] == old_id);
                    }
                }
                break ;
            }
        }
    }

    /// When the point at position `k` of the ring is the only one that keeps
    /// the half-edge `h`, the walk from `start` finds it first.
    pub proof fn lemma_keeper(&self, k: int, h: u32) -> (w: (int, int))
        requires
            self.ring_ok(),
            0 <= k < self.ring@.len(),
            self.out@[self.ring@[k] as int] == h,
            forall|i: int|
                0 <= i < self.ring@.len() && i != k ==> self.out@[#[trigger] self.ring@[i] as int]
                    != h,
        ensures
            0 <= w.0 < self.ring@.len(),
            self.ring@[w.0] == self.start,
            self.first_keeper(w.0, w.1, h),
            ahead(w.0, w.1, self.ring@.len() as int) == k,
    {
        let m = self.ring@.len() as int;
        let s = choose|s: int| 0 <= s < m && self.ring@[s] == self.start;
        let j = if k >= s {
            k - s
        } else {
            k - s + m
        };
        assert(ahead(s, j, m) == k);
        assert forall|i: int| 0 <= i < j implies self.out@[#[trigger] self.ring@[ahead(s, i, m)] as int]
            != h by {
            assert(ahead(s, i, m) != k);
        }
        assert(self.first_keeper(s, j, h));
        (s, j)
    }

    /// The turn test gives `answer` for point `p` against the edge of the
    /// ring that leaves position `k`.
    pub open spec fn edge_seen<O: Fn(usize, usize, usize) -> bool>(
        &self,
        p: u32,
        k: int,
        orient: &O,
        answer: bool,
    ) -> bool {
        call_ensures(
            *orient,
            (
                p as usize,
                self.ring@[k] as usize,
                self.ring@[succ(k, self.ring@.len() as int)] as usize,
            ),
            answer,
        )
    }

    /// Probing the hash from bucket `key`, step `j` is the first to meet a
    /// point of the ring.
    pub open spec fn first_live(&self, key: int, j: int) -> bool {
        let len = self.hash@.len() as int;
        &&& 0 <= j < len
        &&& self.slot_live(ahead(key, j, len))
        &&& forall|i: int| 0 <= i < j ==> !#[trigger] self.slot_live(ahead(key, i, len))
    }

    /// The walk that starts at position `s` of the ring stops at step `j`:
    /// the turn test called the edge there visible from `p`, after it had
    /// called every edge before it not visible.
    pub open spec fn first_seen<O: Fn(usize, usize, usize) -> bool>(
        &self,
        p: u32,
        s: int,
        j: int,
        orient: &O,
    ) -> bool {
        let m = self.ring@.len() as int;
        &&& 0 <= j < m
        &&& self.edge_seen(p, ahead(s, j, m), orient, true)
        &&& forall|i: int| 0 <= i < j ==> #[trigger] self.edge_seen(p, ahead(s, i, m), orient, false)
    }

    /// Finds an edge of the hull that the turn test calls visible from point
    /// `p`. The search probes the hash upward from the bucket of `p` for a
    /// point of the ring, steps back one point, and walks forward from
    /// there. Returns the point that the edge leaves, and whether the walk
    /// stopped at its first edge; or the empty id and `false` when the walk
    /// came round without a visible edge.
    pub fn find_visible_edge<O: Fn(usize, usize, usize) -> bool>(&self, p: u32, orient: &O) -> (r: (
        u32,
        bool,
    ))
        requires
            self.ring_ok(),
            self.hash_ok(),
            p < self.points(),
            turn_test_ready(orient, self.points()),
        ensures
            r.0 == EMPTY ==> !r.1 && forall|k: int|
                0 <= k < self.ring@.len() ==> #[trigger] self.edge_seen(p, k, orient, false),
            r.0 != EMPTY ==> exists|h: int, s: int, j: int|
                #![trigger self.first_live(self.bucket(p), h), self.first_seen(p, s, j, orient)]
                self.first_live(self.bucket(p), h) && 0 <= s < self.ring@.len() && self.ring@[s]
                    == self.prev@[self.hash@[ahead(self.bucket(p), h, self.hash@.len() as int)] as int]
                    && self.first_seen(p, s, j, orient) && r.0 == self.ring@[ahead(
                    s,
                    j,
                    self.ring@.len() as int,
                )] && r.1 == (j == 0),
    {
        let mut start: u32 = 0;
        let key = self.hash_key(p);
        let len = self.hash.len();
        let ghost m = self.ring@.len() as int;
        let mut h: usize = 0;
        assert(len <= 0xFFFF) by (nonlinear_arith)
            requires
                len * len <= self.next@.len(),
                self.next@.len() < 0xFFFF_FFFF,
        ;
        while h < len
            invariant_except_break
                forall|i: int| 0 <= i < h ==> !#[trigger] self.slot_live(ahead(key as int, i, len as int)),
            invariant
                self.ring_ok(),
                self.hash_ok(),
                len == self.hash@.len(),
                key < len,
                len <= 0xFFFF,
                key == self.bucket(p),
                m == self.ring@.len(),
                0 <= h < len,
            ensures
                self.first_live(key as int, h as int),
                start == self.hash@[ahead(key as int, h as int, len as int)],
            decreases len - h,
        {
            proof {
                assert((key + h) % (len as int) == ahead(key as int, h as int, len as int)) by {
                    if key + h >= len {
                        vstd::arithmetic::div_mod::lemma_mod_add_multiples_vanish(
                            key + h - len,
                            len as int,
                        );
                    }
                    vstd::arithmetic::div_mod::lemma_small_mod(
                        ahead(key as int, h as int, len as int) as nat,
                        len as nat,
                    );
                }
                assert(self.slot_ok(ahead(key as int, h as int, len as int)));
            }
            start = self.hash[(key + h) % len];
            if start != self.empty && self.next(start) != self.empty {
                break ;
            }
            proof {
                if self.ring@.contains(start) {
                    let k = choose|k: int| 0 <= k < m && self.ring@[k] == start;
                    assert(self.node_ok(k));
                    assert(self.node_ok(succ(k, m)));
                }
                assert(!self.slot_live(ahead(key as int, h as int, len as int)));
            }
            h = h + 1;
            proof {
                if h == len {
                    let b = choose|b: int| 0 <= b < self.hash@.len() && #[trigger] self.slot_live(b);
                    let i = if b >= key {
                        b - key
                    } else {
                        b - key + len
                    };
                    assert(ahead(key as int, i, len as int) == b);
                    assert(false);
                }
            }
        }
        let ghost h0 = h as int;
        let ghost k0 = choose|k: int| 0 <= k < m && self.ring@[k] == start;
        let ghost s = if k0 == 0 {
            m - 1
        } else {
            k0 - 1
        };
        proof {
            assert(self.node_ok(s));
            assert(self.node_ok(k0));
        }
        start = self.prev(start);
        let mut e = start;
        let ghost mut j: int = 0;
        loop
            invariant
                self.ring_ok(),
                turn_test_ready(orient, self.points()),
                p < self.points(),
                m == self.ring@.len(),
                0 <= s < m,
                start == self.ring@[s],
                self.first_live(self.bucket(p), h0),
                start == self.prev@[self.hash@[ahead(
                    self.bucket(p),
                    h0,
                    self.hash@.len() as int,
                )] as int],
                0 <= j < m,
                e == self.ring@[ahead(s, j, m)],
                forall|i: int| 0 <= i < j ==> #[trigger] self.edge_seen(p, ahead(s, i, m), orient, false),
            decreases m - j,
        {
            proof {
                assert(self.node_ok(ahead(s, j, m)));
                assert(self.node_ok(succ(ahead(s, j, m), m)));
            }
            let q = self.next(e);
            if orient(as_index(p), as_index(e), as_index(q)) {
                proof {
                    assert(self.first_seen(p, s, j, orient));
                }
                return (e, e == start);
            }
            e = q;
            proof {
                j = j + 1;
            }
            if e == start {
                proof {
                    assert(j == m);
                    assert forall|k: int| 0 <= k < m implies #[trigger] self.edge_seen(
                        p,
                        k,
                        orient,
                        false,
                    ) by {
                        let i = if k >= s {
                            k - s
                        } else {
                            k - s + m
                        };
                        assert(ahead(s, i, m) == k);
                        assert(self.edge_seen(p, ahead(s, i, m), orient, false));
                    }
                }
                return (self.empty, false);
            }
        }
    }

    /// The three tables of a hull over `n` points on which only the seed
    /// triangle `(i0, i1, i2)` stands: `prev`, `next` and `out`.
    pub open spec fn seeded(n: nat, i0: u32, i1: u32, i2: u32) -> (Seq<u32>, Seq<u32>, Seq<u32>) {
        let blank = Seq::new(n, |i: int| 0u32);
        (
            blank.update(i2 as int, i1).update(i0 as int, i2).update(i1 as int, i0),
            blank.update(i0 as int, i1).update(i1 as int, i2).update(i2 as int, i0),
            blank.update(i0 as int, 0u32).update(i1 as int, 1u32).update(i2 as int, 2u32),
        )
    }

    /// The hull of the seed triangle `(i0, i1, i2)` among `n` points, with
    /// the three points hashed by their angles. The hash has as many
    /// buckets as the square root of `n`, rounded down.
    pub fn new(n: usize, angle: Vec<usize>, i0: u32, i1: u32, i2: u32) -> (hull: Hull)
        requires
            3 <= n < EMPTY,
            angle@.len() == n,
            i0 < n,
            i1 < n,
            i2 < n,
            i0 != i1,
            i1 != i2,
            i2 != i0,
        ensures
            hull.ring_ok(),
            hull.hash_ok(),
            hull.ring@ == seq![i0, i1, i2],
            hull.start == i0,
            hull.angle == angle,
            hull.prev@ == Self::seeded(n as nat, i0, i1, i2).0,
            hull.next@ == Self::seeded(n as nat, i0, i1, i2).1,
            hull.out@ == Self::seeded(n as nat, i0, i1, i2).2,
            hull.hash@.len() * hull.hash@.len() <= n < (hull.hash@.len() + 1) * (hull.hash@.len()
                + 1),
            hull.hash@ == Seq::new(hull.hash@.len(), |i: int| EMPTY).update(hull.bucket(i0), i0).update(
                hull.bucket(i1),
                i1,
            ).update(hull.bucket(i2), i2),
    {
        let hash_len = as_index(isqrt(as_id(n)));
        assert(hash_len >= 1) by (nonlinear_arith)
            requires
                n >= 3,
                n < (hash_len + 1) * (hash_len + 1),
        ;

        let empty = empty_id();
        let ring: Ghost<Seq<u32>> = Ghost(Seq::empty().push(i0).push(i1).push(i2));

        let mut hull = Hull {
            prev: vec![zero_id(); n],
            next: vec![zero_id(); n],
            out: vec![zero_id(); n],
            hash: vec![empty; hash_len],
            start: i0,
            angle,
            empty,
            ring,
        };
        assert(hull.prev@ =~= Seq::new(n as nat, |i: int| 0u32));
        assert(hull.next@ =~= Seq::new(n as nat, |i: int| 0u32));
        assert(hull.out@ =~= Seq::new(n as nat, |i: int| 0u32));
        assert(hull.hash@ =~= Seq::new(hash_len as nat, |i: int| EMPTY));

        hull.set_next(i0, i1);
        hull.set_prev(i2, i1);
        hull.set_next(i1, i2);
        hull.set_prev(i0, i2);
        hull.set_next(i2, i0);
        hull.set_prev(i1, i0);

        hull.set_out(i0, 0);
        hull.set_out(i1, 1);
        hull.set_out(i2, 2);

        hull.hash_edge(i0, i0);
        hull.hash_edge(i1, i1);
        hull.hash_edge(i2, i2);

        proof {
            assert(hull.ring@ =~= seq![i0, i1, i2]);
            assert(hull.ring@[0] == i0 && hull.ring@[1] == i1 && hull.ring@[2] == i2);
            assert(hull.node_ok(0));
            assert(hull.node_ok(1));
            assert(hull.node_ok(2));
            assert(hull.ring@.contains(i0));
            assert(hull.ring@.contains(i1));
            assert(hull.ring@.contains(i2));
            assert(hull.slot_live(hull.bucket(i2)));
            assert forall|b: int| 0 <= b < hull.hash@.len() implies #[trigger] hull.slot_ok(b) by {}
        }
        hull
    }

    /// The buckets of the hash stay sound while the ring, the links forward
    /// and the hash itself stay as they are.
    pub proof fn lemma_slots_kept(&self, after: &Hull)
        requires
            after.hash@ == self.hash@,
            after.next@ == self.next@,
            after.angle@ == self.angle@,
            after.ring@ == self.ring@,
        ensures
            self.slots_ok() ==> after.slots_ok(),
            self.hash_ok() ==> after.hash_ok(),
    {
        if self.slots_ok() {
            assert forall|b: int| 0 <= b < after.hash@.len() implies #[trigger] after.slot_ok(b) by {
                assert(self.slot_ok(b));
            }
        }
        if self.hash_ok() {
            let b = choose|b: int| 0 <= b < self.hash@.len() && #[trigger] self.slot_live(b);
            assert(after.slot_live(b));
        }
    }

    /// The hull stays the boundary of the mesh while the ring, the links
    /// and the half-edges kept stay as they are and `start` is on the ring.
    pub proof fn lemma_fits_kept(&self, after: &Hull, mesh: &Triangulation)
        requires
            self.fits(mesh),
            after.prev@ == self.prev@,
            after.next@ == self.next@,
            after.out@ == self.out@,
            after.ring@ == self.ring@,
            after.empty == self.empty,
            after.ring@.contains(after.start),
        ensures
            after.fits(mesh),
    {
        assert forall|k: int| 0 <= k < after.ring@.len() implies #[trigger] after.node_ok(k) by {
            assert(self.node_ok(k));
        }
        assert forall|k: int| 0 <= k < after.ring@.len() implies #[trigger] after.edge_ok(
            mesh,
            k,
        ) by {
            assert(self.edge_ok(mesh, k));
        }
        assert forall|h: int| 0 <= h < mesh.halfedges@.len() implies #[trigger] after.boundary_ok(
            mesh,
            h,
        ) by {
            assert(self.boundary_ok(mesh, h));
        }
    }

    /// Links point `i` between `e` and `n`, makes `e` the start of the hull,
    /// and hashes `i` and `e` by their angles.
    pub fn splice(&mut self, i: u32, e: u32, n: u32)
        requires
            old(self).ring_ok(),
            old(self).slots_ok(),
            old(self).ring@.contains(i),
            old(self).ring@.contains(e),
            old(self).ring@.contains(n),
        ensures
            final(self).prev@ == old(self).prev@.update(i as int, e).update(n as int, i),
            final(self).next@ == old(self).next@.update(i as int, n).update(e as int, i),
            final(self).start == e,
            final(self).hash@ == old(self).hash@.update(old(self).bucket(i), i).update(
                old(self).bucket(e),
                e,
            ),
            final(self).out == old(self).out,
            final(self).angle == old(self).angle,
            final(self).empty == old(self).empty,
            final(self).ring == old(self).ring,
            old(self).prev@[i as int] == e && old(self).next@[i as int] == n ==> final(self).hash_ok()
                && final(self).prev@ == old(self).prev@ && final(self).next@ == old(self).next@,
    {
        proof {
            assert(self.node_ok(position(self.ring@, i)));
            assert(self.node_ok(position(self.ring@, e)));
            assert(self.node_ok(position(self.ring@, n)));
        }
        self.set_prev(i, e);
        self.set_next(i, n);
        self.set_prev(n, i);
        self.set_next(e, i);
        self.start = e;

        let ghost hull1 = *self;
        self.hash_edge(i, i);
        let ghost hull2 = *self;
        self.hash_edge(e, e);
        proof {
            if old(self).prev@[i as int] == e && old(self).next@[i as int] == n {
                let ki = position(self.ring@, i);
                let m = self.ring@.len() as int;
                assert(old(self).node_ok(ki));
                let kp = if ki == 0 {
                    m - 1
                } else {
                    ki - 1
                };
                assert(old(self).node_ok(kp));
                assert(succ(kp, m) == ki);
                assert(old(self).ring@[kp] == e);
                assert(self.prev@ =~= old(self).prev@);
                assert(self.next@ =~= old(self).next@);
                assert forall|b: int| 0 <= b < self.hash@.len() implies #[trigger] self.slot_ok(
                    b,
                ) by {
                    assert(old(self).slot_ok(b));
                }
                assert(self.slot_live(self.bucket(e)));
            }
        }
    }
}

} // verus!
