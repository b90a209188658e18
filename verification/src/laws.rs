//! What holds of every sound triangulation, and so of every one that the
//! construction returns.

use vstd::prelude::*;
use crate::index::EMPTY;
use crate::mesh::{next_edge, wound, wound_at, Triangulation};
use crate::plane::Plane;

verus! {

/// The boundary half-edges of a triangulation: those without a twin.
pub open spec fn boundary(t: &Triangulation) -> Set<int> {
    Set::new(|h: int| 0 <= h < t.halfedges@.len() && t.halfedges@[h] == EMPTY)
}

/// The triangle array holds at least one triangle and only whole triangles,
/// and each of its entries is one of the `n` points.
pub proof fn triangles_name_points(t: &Triangulation, n: nat)
    requires
        t.wf(n),
    ensures
        t.triangles@.len() > 0,
        t.triangles@.len() % 3 == 0,
        forall|k: int| 0 <= k < t.triangles@.len() ==> (#[trigger] t.triangles@[k]) < n,
{
    assert forall|k: int| 0 <= k < t.triangles@.len() implies (#[trigger] t.triangles@[k]) < n by {
        assert(t.corner_ok(k, n));
    }
}

/// Twins are mutual: a half-edge that has a twin is the twin of its twin.
/// The twin starts where the half-edge ends.
pub proof fn twins_are_mutual(t: &Triangulation, n: nat)
    requires
        t.wf(n),
    ensures
        t.halfedges@.len() == t.triangles@.len(),
        forall|i: int|
            0 <= i < t.halfedges@.len() && (#[trigger] t.halfedges@[i]) != t.empty ==> {
                &&& t.halfedges@[i] < t.halfedges@.len()
                &&& t.halfedges@[t.halfedges@[i] as int] == i
                &&& t.triangles@[t.halfedges@[i] as int] == t.triangles@[next_edge(i)]
            },
{
    assert forall|i: int|
        0 <= i < t.halfedges@.len() && (#[trigger] t.halfedges@[i]) != t.empty implies {
        &&& t.halfedges@[i] < t.halfedges@.len()
        &&& t.halfedges@[t.halfedges@[i] as int] == i
        &&& t.triangles@[t.halfedges@[i] as int] == t.triangles@[next_edge(i)]
    } by {
        assert(t.twin_ok(i));
    }
}

/// No triangle names a point twice.
pub proof fn corners_differ(t: &Triangulation, n: nat)
    requires
        t.wf(n),
    ensures
        forall|k: int|
            0 <= k < t.triangles@.len() ==> (#[trigger] t.triangles@[k]) != t.triangles@[next_edge(
                k,
            )],
{
    assert forall|k: int| 0 <= k < t.triangles@.len() implies (#[trigger] t.triangles@[k])
        != t.triangles@[next_edge(k)] by {
        assert(t.corner_ok(k, n));
    }
}

/// The hull names no point twice, and it has as many points as the mesh
/// has boundary half-edges.
pub proof fn hull_counts_boundary(t: &Triangulation, n: nat)
    requires
        t.wf(n),
    ensures
        t.hull@.no_duplicates(),
        boundary(t).finite(),
        boundary(t).len() == t.hull@.len(),
{
    let m = t.hull@.len() as int;
    let len = t.halfedges@.len() as int;
    let leaving = |k: int|
        choose|h: int|
            0 <= h < len && #[trigger] t.halfedges@[h] == EMPTY && t.triangles@[h] == t.hull@[k]
                && t.triangles@[next_edge(h)] == t.hull@[crate::hull::succ(k, m)];
    let positions = vstd::set_lib::set_int_range(0, m);
    vstd::set_lib::lemma_int_range(0, m);
    assert forall|k: int| 0 <= k < m implies 0 <= #[trigger] leaving(k) < len && t.halfedges@[leaving(
        k,
    )] == EMPTY && t.triangles@[leaving(k)] == t.hull@[k] by {
        assert(t.rim(k));
    }
    assert(vstd::relations::injective_on(leaving, positions)) by {
        assert forall|x: int, y: int|
            positions.contains(x) && positions.contains(y) && #[trigger] leaving(x)
                == #[trigger] leaving(y) implies x == y by {
            assert(t.hull@[x] == t.triangles@[leaving(x)]);
            assert(t.hull@[y] == t.triangles@[leaving(y)]);
        }
    }
    assert(positions.map(leaving) =~= boundary(t)) by {
        assert forall|h: int| boundary(t).contains(h) implies positions.map(leaving).contains(
            h,
        ) by {
            assert(t.halfedges@[h] == EMPTY);
            assert(t.hull@.contains(t.triangles@[h]));
            let k = choose|k: int| 0 <= k < m && t.hull@[k] == t.triangles@[h];
            assert(t.halfedges@[leaving(k)] == EMPTY);
            assert(leaving(k) == h);
            assert(positions.contains(k));
        }
        assert forall|h: int| positions.map(leaving).contains(h) implies boundary(t).contains(
            h,
        ) by {
            let k = choose|k: int| positions.contains(k) && leaving(k) == h;
            assert(0 <= k < m);
        }
    }
    vstd::set_lib::lemma_map_size(positions, boundary(t), leaving);
}

/// The hull is a cycle of boundary half-edges: from each of its points a
/// half-edge without a twin runs to the next, and round from the last to
/// the first.
pub proof fn hull_follows_boundary(t: &Triangulation, n: nat)
    requires
        t.wf(n),
    ensures
        t.hull@.len() >= 3,
        forall|k: int|
            0 <= k < t.hull@.len() ==> (#[trigger] t.hull@[k]) < n && exists|h: int|
                0 <= h < t.halfedges@.len() && #[trigger] t.halfedges@[h] == EMPTY
                    && t.triangles@[h] == t.hull@[k] && t.triangles@[next_edge(h)]
                    == t.hull@[crate::hull::succ(k, t.hull@.len() as int)],
{
    assert forall|k: int| 0 <= k < t.hull@.len() implies (#[trigger] t.hull@[k]) < n && exists|
        h: int,
    |
        0 <= h < t.halfedges@.len() && #[trigger] t.halfedges@[h] == EMPTY && t.triangles@[h]
            == t.hull@[k] && t.triangles@[next_edge(h)] == t.hull@[crate::hull::succ(
            k,
            t.hull@.len() as int,
        )] by {
        assert(t.rim(k));
        let h = choose|h: int|
            0 <= h < t.halfedges@.len() && #[trigger] t.halfedges@[h] == EMPTY && t.triangles@[h]
                == t.hull@[k] && t.triangles@[next_edge(h)] == t.hull@[crate::hull::succ(
                k,
                t.hull@.len() as int,
            )];
        assert(t.corner_ok(h, n));
    }
}

/// Where no triangle is clockwise on a plane on which the turn test is
/// exact, the turn test calls no triangle clockwise: it answers `false` for
/// the three corners of each triangle, taken in their order.
pub proof fn triangles_are_not_clockwise<O: Fn(usize, usize, usize) -> bool>(
    t: &Triangulation,
    n: nat,
    plane: Plane,
    orient: &O,
)
    requires
        t.wf(n),
        wound(t.triangles@, plane),
        plane.exact_turn(orient),
    ensures
        forall|k: int, r: bool|
            0 <= k < t.triangles@.len() && k % 3 == 0 && #[trigger] call_ensures(
                *orient,
                (
                    t.triangles@[k] as usize,
                    t.triangles@[k + 1] as usize,
                    t.triangles@[k + 2] as usize,
                ),
                r,
            ) ==> !r,
{
    assert forall|k: int, r: bool|
        0 <= k < t.triangles@.len() && k % 3 == 0 && #[trigger] call_ensures(
            *orient,
            (
                t.triangles@[k] as usize,
                t.triangles@[k + 1] as usize,
                t.triangles@[k + 2] as usize,
            ),
            r,
        ) implies !r by {
        assert(wound_at(t.triangles@, plane, k));
    }
}

} // verus!
