use delaunator::construct::{angles, radial_distances};
use delaunator::hull::{isqrt, Hull};
use delaunator::order::radial_order;
use delaunator::seed::{distances_from, find_closest_point, find_seed_triangle};
use delaunator::{Triangulation, EMPTY, FAR, MAX_POINTS};

type Pt = (f64, f64);

fn rank(d: f64) -> u64 {
    if d.is_nan() || d == f64::INFINITY {
        FAR
    } else {
        d.to_bits()
    }
}

fn dist2(p: Pt, q: Pt) -> f64 {
    let dx = p.0 - q.0;
    let dy = p.1 - q.1;
    dx * dx + dy * dy
}

fn orient(p: Pt, q: Pt, r: Pt) -> bool {
    (q.1 - p.1) * (r.0 - q.0) - (q.0 - p.0) * (r.1 - q.1) < 0.0
}

fn circumradius2(a: Pt, b: Pt, c: Pt) -> f64 {
    let dx = b.0 - a.0;
    let dy = b.1 - a.1;
    let ex = c.0 - a.0;
    let ey = c.1 - a.1;

    let bl = dx * dx + dy * dy;
    let cl = ex * ex + ey * ey;
    let d = 0.5 / (dx * ey - dy * ex);

    let x = (ey * bl - dy * cl) * d;
    let y = (dx * cl - ex * bl) * d;
    x * x + y * y
}

fn in_circle(a: Pt, b: Pt, c: Pt, p: Pt) -> bool {
    let dx = a.0 - p.0;
    let dy = a.1 - p.1;
    let ex = b.0 - p.0;
    let ey = b.1 - p.1;
    let fx = c.0 - p.0;
    let fy = c.1 - p.1;

    let ap = dx * dx + dy * dy;
    let bp = ex * ex + ey * ey;
    let cp = fx * fx + fy * fy;

    dx * (ey * cp - bp * fy) - dy * (ex * cp - bp * fx) + ap * (ex * fy - ey * fx) < 0.0
}

fn blank() -> Triangulation {
    Triangulation {
        triangles: Vec::new(),
        halfedges: Vec::new(),
        hull: Vec::new(),
        empty: EMPTY,
    }
}

/// A thin triangle over the points 0, 2, 1 and the hull round it; point 3
/// lies below its long edge, inside its circle, and point 4 inside it.
const KITE: [Pt; 5] = [(0., 0.), (4., 0.), (2., 1.), (2., -1.), (2., 0.5)];

fn kite() -> (Triangulation, Hull) {
    let mut mesh = blank();
    mesh.add_triangle(0, 2, 1, EMPTY, EMPTY, EMPTY);
    let hull = Hull::new(5, vec![0, 1, 2, 3, 4], 0, 2, 1);
    (mesh, hull)
}

fn kite_orient(a: usize, b: usize, c: usize) -> bool {
    orient(KITE[a], KITE[b], KITE[c])
}

fn kite_in_circle(a: usize, b: usize, c: usize, d: usize) -> bool {
    in_circle(KITE[a], KITE[b], KITE[c], KITE[d])
}

#[test]
fn empty_is_the_largest_id() {
    assert_eq!(EMPTY, u32::MAX);
    assert_eq!(FAR, u64::MAX);
    assert_eq!(3 * (2 * MAX_POINTS as u64 - 5), u32::MAX as u64);
}

#[test]
fn halfedges_cycle_within_a_triangle() {
    assert_eq!(Triangulation::next_halfedge(0), 1);
    assert_eq!(Triangulation::next_halfedge(1), 2);
    assert_eq!(Triangulation::next_halfedge(2), 0);
    assert_eq!(Triangulation::next_halfedge(3), 4);
    assert_eq!(Triangulation::next_halfedge(5), 3);
    assert_eq!(Triangulation::prev_halfedge(0), 2);
    assert_eq!(Triangulation::prev_halfedge(1), 0);
    assert_eq!(Triangulation::prev_halfedge(2), 1);
    assert_eq!(Triangulation::prev_halfedge(3), 5);
    assert_eq!(Triangulation::prev_halfedge(4), 3);
    for i in 0..30u32 {
        assert_eq!(Triangulation::prev_halfedge(Triangulation::next_halfedge(i)), i);
        assert_eq!(Triangulation::next_halfedge(Triangulation::prev_halfedge(i)), i);
        assert_eq!(Triangulation::next_halfedge(i) / 3, i / 3);
    }
    assert_eq!(Triangulation::next_halfedge(u32::MAX - 1), u32::MAX - 3);
}

#[test]
fn len_counts_triangles() {
    let mut mesh = blank();
    assert_eq!(mesh.len(), 0);
    mesh.add_triangle(0, 1, 2, EMPTY, EMPTY, EMPTY);
    assert_eq!(mesh.len(), 1);
    mesh.add_triangle(2, 1, 3, 1, EMPTY, EMPTY);
    assert_eq!(mesh.len(), 2);
}

#[test]
fn add_triangle_points_twins_back() {
    let mut mesh = blank();
    assert_eq!(mesh.add_triangle(0, 1, 2, EMPTY, EMPTY, EMPTY), 0);
    assert_eq!(mesh.triangles, vec![0, 1, 2]);
    assert_eq!(mesh.halfedges, vec![EMPTY, EMPTY, EMPTY]);
    assert_eq!(mesh.add_triangle(2, 1, 3, 1, EMPTY, EMPTY), 3);
    assert_eq!(mesh.triangles, vec![0, 1, 2, 2, 1, 3]);
    assert_eq!(mesh.halfedges, vec![EMPTY, 3, EMPTY, 1, EMPTY, EMPTY]);
    assert_eq!(mesh.add_triangle(0, 2, 4, 2, EMPTY, EMPTY), 6);
    assert_eq!(mesh.halfedges, vec![EMPTY, 3, 6, 1, EMPTY, EMPTY, 2, EMPTY, EMPTY]);
    assert_eq!(mesh.twin(2), 6);
    assert_eq!(mesh.twin(0), EMPTY);
    assert_eq!(mesh.origin(7), 2);
}

#[test]
fn set_twin_skips_the_empty_id() {
    let mut mesh = blank();
    mesh.add_triangle(0, 1, 2, EMPTY, EMPTY, EMPTY);
    mesh.set_twin(EMPTY, 1);
    assert_eq!(mesh.halfedges, vec![EMPTY, EMPTY, EMPTY]);
    mesh.set_twin(1, 7);
    assert_eq!(mesh.halfedges, vec![EMPTY, 7, EMPTY]);
    mesh.set_origin(2, 9);
    assert_eq!(mesh.triangles, vec![0, 1, 9]);
}

#[test]
fn flip_swaps_the_shared_edge() {
    let mut mesh = blank();
    mesh.add_triangle(0, 1, 2, EMPTY, EMPTY, EMPTY);
    mesh.add_triangle(2, 1, 3, 1, EMPTY, EMPTY);
    mesh.flip(1);
    assert_eq!(mesh.triangles, vec![0, 3, 2, 0, 1, 3]);
    assert_eq!(mesh.halfedges, vec![5, EMPTY, EMPTY, EMPTY, EMPTY, 0]);
}

#[test]
fn flip_relinks_the_neighbours() {
    let mut mesh = blank();
    mesh.add_triangle(0, 1, 2, EMPTY, EMPTY, EMPTY);
    mesh.add_triangle(2, 1, 3, 1, EMPTY, EMPTY);
    mesh.add_triangle(1, 0, 4, 0, EMPTY, EMPTY);
    mesh.add_triangle(2, 3, 5, 5, EMPTY, EMPTY);
    assert_eq!(
        mesh.halfedges,
        vec![6, 3, EMPTY, 1, EMPTY, 9, 0, EMPTY, EMPTY, 5, EMPTY, EMPTY]
    );
    mesh.flip(1);
    assert_eq!(mesh.triangles, vec![0, 3, 2, 0, 1, 3, 1, 0, 4, 2, 3, 5]);
    assert_eq!(
        mesh.halfedges,
        vec![5, 9, EMPTY, 6, EMPTY, 0, 3, EMPTY, EMPTY, 1, EMPTY, EMPTY]
    );
}

#[test]
fn isqrt_rounds_down() {
    assert_eq!(isqrt(0), 0);
    assert_eq!(isqrt(1), 1);
    assert_eq!(isqrt(3), 1);
    assert_eq!(isqrt(4), 2);
    assert_eq!(isqrt(15), 3);
    assert_eq!(isqrt(16), 4);
    assert_eq!(isqrt(1_000_000), 1000);
    assert_eq!(isqrt(u32::MAX), 65535);
}

#[test]
fn closest_point_is_the_first_smallest() {
    assert_eq!(find_closest_point(&vec![5, 0, 3, FAR, 3, 7]), Some(2));
    assert_eq!(find_closest_point(&vec![FAR - 1]), Some(0));
    assert_eq!(find_closest_point(&vec![0, 9, 2, 1]), Some(3));
}

#[test]
fn closest_point_needs_a_distance() {
    assert_eq!(find_closest_point(&vec![]), None);
    assert_eq!(find_closest_point(&vec![0, 0, 0]), None);
    assert_eq!(find_closest_point(&vec![FAR, 0, FAR]), None);
}

#[test]
fn distances_leave_the_point_itself_at_zero() {
    let asked = distances_from(&|a: usize, b: usize| (10 * a + b) as u64, 2, 4);
    assert_eq!(asked, vec![20, 21, 0, 23]);
}

fn seed_of(points: &[Pt]) -> Option<(u32, u32, u32)> {
    let center = (0.5, 0.5);
    let center_dists: Vec<u64> = points.iter().map(|p| rank(dist2(center, *p))).collect();
    find_seed_triangle(
        &center_dists,
        &|a: usize, b: usize| rank(dist2(points[a], points[b])),
        &|a: usize, b: usize, c: usize| rank(circumradius2(points[a], points[b], points[c])),
        &|a: usize, b: usize, c: usize| orient(points[a], points[b], points[c]),
    )
}

#[test]
fn seed_of_the_square() {
    assert_eq!(seed_of(&[(0., 0.), (1., 0.), (1., 1.), (0., 1.)]), Some((0, 2, 1)));
    assert_eq!(seed_of(&[(0., 0.), (0., 1.), (1., 1.), (1., 0.)]), Some((0, 1, 2)));
}

#[test]
fn seed_takes_the_smallest_circle() {
    let points = [(0.5, 0.4), (9., 9.), (0.5, 0.6), (-7., 3.), (0.6, 0.5)];
    assert_eq!(seed_of(&points), Some((0, 2, 4)));
}

#[test]
fn seed_fails_at_each_search() {
    assert_eq!(seed_of(&[]), None);
    assert_eq!(seed_of(&[(0.5, 0.5), (0.5, 0.5)]), None);
    assert_eq!(seed_of(&[(0., 0.), (0., 0.), (0., 0.)]), None);
    assert_eq!(seed_of(&[(0., 0.), (1., 0.)]), None);
    assert_eq!(seed_of(&[(0., 0.), (1., 0.), (2., 0.)]), None);
}

#[test]
fn radial_order_sorts_by_distance() {
    let order = radial_order(&vec![5, 1, 4, 1, 0]);
    assert_eq!(order.len(), 5);
    assert_eq!(order[0], 4);
    assert!(order[1..3] == [1, 3] || order[1..3] == [3, 1]);
    assert_eq!(order[3], 2);
    assert_eq!(order[4], 0);
    assert_eq!(radial_order(&vec![FAR, 7, 0]), vec![2, 1, 0]);
    assert_eq!(radial_order(&vec![]), Vec::<usize>::new());
}

#[test]
fn tables_are_asked_point_by_point() {
    let dists = radial_distances(
        &|a: usize, b: usize, c: usize, j: usize| (1000 * a + 100 * b + 10 * c + j) as u64,
        (3, 1, 2),
        4,
    );
    assert_eq!(dists, vec![3120, 3121, 3122, 3123]);
    let angle = angles(
        &|a: usize, b: usize, c: usize, j: usize, len: usize| 1000 * a + 100 * b + 10 * c + j + len,
        (3, 1, 2),
        3,
        5,
    );
    assert_eq!(angle, vec![3125, 3126, 3127]);
}

#[test]
fn new_hull_holds_the_seed() {
    let hull = Hull::new(10, vec![0, 1, 2, 3, 4, 5, 6, 7, 8, 9], 4, 7, 2);
    assert_eq!(hull.start, 4);
    assert_eq!(hull.empty, EMPTY);
    assert_eq!(hull.next, vec![0, 0, 4, 0, 7, 0, 0, 2, 0, 0]);
    assert_eq!(hull.prev, vec![0, 0, 7, 0, 2, 0, 0, 4, 0, 0]);
    assert_eq!(hull.out, vec![0, 0, 2, 0, 0, 0, 0, 1, 0, 0]);
    assert_eq!(hull.hash, vec![EMPTY, 7, 2]);
    assert_eq!(hull.next(4), 7);
    assert_eq!(hull.prev(4), 2);
    assert_eq!(hull.out(7), 1);
    assert_eq!(hull.hash_key(8), 2);
    assert_eq!(hull.hash_key(9), 0);
}

#[test]
fn hull_slots_are_written_one_by_one() {
    let mut hull = Hull::new(4, vec![0, 0, 0, 0], 0, 1, 2);
    assert_eq!(hull.hash, vec![2, EMPTY]);
    hull.set_out(1, 9);
    assert_eq!(hull.out, vec![0, 9, 2, 0]);
    hull.set_next(3, 1);
    hull.set_prev(3, 2);
    assert_eq!(hull.next, vec![1, 2, 0, 1]);
    assert_eq!(hull.prev, vec![2, 0, 1, 2]);
    hull.remove(3);
    assert_eq!(hull.next, vec![1, 2, 0, EMPTY]);
    hull.hash_edge(1, 3);
    assert_eq!(hull.hash, vec![3, EMPTY]);
}

#[test]
fn fix_halfedge_renames_one_edge() {
    let mut hull = Hull::new(4, vec![0, 0, 0, 0], 0, 1, 2);
    hull.fix_halfedge(1, 7);
    assert_eq!(hull.out, vec![0, 7, 2, 0]);
    hull.fix_halfedge(5, 8);
    assert_eq!(hull.out, vec![0, 7, 2, 0]);
    hull.fix_halfedge(0, 3);
    assert_eq!(hull.out, vec![3, 7, 2, 0]);
}

#[test]
fn visible_edge_is_found_from_outside() {
    let (_, hull) = kite();
    assert_eq!(hull.find_visible_edge(3, &kite_orient), (1, false));
    assert_eq!(hull.find_visible_edge(4, &kite_orient), (EMPTY, false));
    let always = |_: usize, _: usize, _: usize| true;
    assert_eq!(hull.find_visible_edge(3, &always), (hull.prev(1), true));
}

#[test]
fn open_fan_joins_the_point() {
    let (mut mesh, mut hull) = kite();
    assert_eq!(mesh.open_fan(&mut hull, 3, 1), 3);
    assert_eq!(mesh.triangles, vec![0, 2, 1, 1, 3, 0]);
    assert_eq!(mesh.halfedges, vec![EMPTY, EMPTY, 5, EMPTY, EMPTY, 2]);
    assert_eq!(hull.next(1), 3);
    assert_eq!(hull.next(3), 0);
    assert_eq!(hull.prev(0), 3);
    assert_eq!(hull.prev(3), 1);
    assert_eq!(hull.out(1), 3);
    assert_eq!(hull.out(3), 4);
    assert_eq!(hull.start, 1);
}

#[test]
fn legalize_flips_an_edge_inside_the_circle() {
    let (mut mesh, mut hull) = kite();
    let t = mesh.open_fan(&mut hull, 3, 1);
    assert_eq!(mesh.legalize(t + 2, &kite_in_circle, &mut hull), 2);
    assert_eq!(mesh.triangles, vec![0, 2, 3, 1, 3, 2]);
    assert_eq!(mesh.halfedges, vec![EMPTY, 4, EMPTY, EMPTY, 1, EMPTY]);
    assert_eq!(hull.out(0), 0);
    assert_eq!(hull.out(2), 5);
    assert_eq!(hull.out(1), 3);
    assert_eq!(hull.out(3), 2);
}

#[test]
fn legalize_leaves_a_legal_edge() {
    let (mut mesh, mut hull) = kite();
    let t = mesh.open_fan(&mut hull, 3, 1);
    let never = |_: usize, _: usize, _: usize, _: usize| false;
    assert_eq!(mesh.legalize(t + 2, &never, &mut hull), 4);
    assert_eq!(mesh.triangles, vec![0, 2, 1, 1, 3, 0]);
    assert_eq!(mesh.legalize(t, &kite_in_circle, &mut hull), 5);
    assert_eq!(mesh.halfedges, vec![EMPTY, EMPTY, 5, EMPTY, EMPTY, 2]);
}

#[test]
fn legalize_stops_when_every_answer_is_yes() {
    let (mut mesh, mut hull) = kite();
    let t = mesh.open_fan(&mut hull, 3, 1);
    let always = |_: usize, _: usize, _: usize, _: usize| true;
    let out = mesh.legalize(t + 2, &always, &mut hull);
    assert_eq!(mesh.triangles.len(), 6);
    assert_eq!(mesh.triangles[out as usize], 3);
    assert_eq!(mesh.halfedges[out as usize], EMPTY);
    assert_eq!(hull.out(3), out);
}

#[test]
fn insert_adds_the_fan_and_hashes_it() {
    let (mut mesh, mut hull) = kite();
    assert!(mesh.insert(&mut hull, 3, &kite_orient, &kite_in_circle));
    assert_eq!(mesh.triangles, vec![0, 2, 3, 1, 3, 2]);
    assert_eq!(mesh.halfedges, vec![EMPTY, 4, EMPTY, EMPTY, 1, EMPTY]);
    assert_eq!(hull.start, 1);
    assert_eq!(hull.next(1), 3);
    assert_eq!(hull.next(3), 0);
    assert_eq!(hull.next(0), 2);
    assert_eq!(hull.next(2), 1);
    assert_eq!(hull.hash, vec![2, 1]);
    mesh.trace_hull(&hull);
    assert_eq!(mesh.hull, vec![1, 3, 0, 2]);
}

#[test]
fn insert_leaves_out_a_point_that_sees_no_edge() {
    let (mut mesh, mut hull) = kite();
    assert!(!mesh.insert(&mut hull, 4, &kite_orient, &kite_in_circle));
    assert_eq!(mesh.triangles, vec![0, 2, 1]);
    assert_eq!(hull.next, vec![2, 0, 1, 0, 0]);
    assert_eq!(hull.start, 0);
}

#[test]
fn fan_widens_over_every_visible_edge() {
    let points: [Pt; 5] = [(0., 0.), (2., 0.), (1., 1.), (1., 3.), (1., -5.)];
    let turn = |a: usize, b: usize, c: usize| orient(points[a], points[b], points[c]);
    let never = |_: usize, _: usize, _: usize, _: usize| false;
    let mut mesh = blank();
    mesh.add_triangle(0, 2, 1, EMPTY, EMPTY, EMPTY);
    let mut hull = Hull::new(5, vec![0, 0, 0, 0, 0], 0, 2, 1);
    assert!(mesh.insert(&mut hull, 3, &turn, &never));
    assert_eq!(mesh.len(), 3);
    assert_eq!(hull.next(2), EMPTY);
    mesh.trace_hull(&hull);
    assert_eq!(mesh.hull, vec![0, 3, 1]);
    assert_eq!(mesh.triangles, vec![0, 2, 1, 2, 3, 1, 0, 3, 2]);
    assert_eq!(
        mesh.halfedges,
        vec![8, 5, EMPTY, 7, EMPTY, 1, EMPTY, 3, 0]
    );
}
