use delaunator::{triangulate, Triangulation, EMPTY, FAR};

const EPSILON: f64 = f64::EPSILON * 2.0;

type Pt = (f64, f64);

fn rank(d: f64) -> u64 {
    if d.is_nan() || d == f64::INFINITY {
        FAR
    } else {
        d.to_bits()
    }
}

fn dist2(p: Pt, q: Pt) -> f64 {
    let dx = p.0 - q.0;
    let dy = p.1 - q.1;
    dx * dx + dy * dy
}

fn orient(p: Pt, q: Pt, r: Pt) -> bool {
    (q.1 - p.1) * (r.0 - q.0) - (q.0 - p.0) * (r.1 - q.1) < 0.0
}

fn circumdelta(a: Pt, b: Pt, c: Pt) -> (f64, f64) {
    let dx = b.0 - a.0;
    let dy = b.1 - a.1;
    let ex = c.0 - a.0;
    let ey = c.1 - a.1;

    let bl = dx * dx + dy * dy;
    let cl = ex * ex + ey * ey;
    let d = 0.5 / (dx * ey - dy * ex);

    let x = (ey * bl - dy * cl) * d;
    let y = (dx * cl - ex * bl) * d;
    (x, y)
}

fn circumradius2(a: Pt, b: Pt, c: Pt) -> f64 {
    let (x, y) = circumdelta(a, b, c);
    x * x + y * y
}

fn circumcenter(a: Pt, b: Pt, c: Pt) -> Pt {
    let (x, y) = circumdelta(a, b, c);
    (a.0 + x, a.1 + y)
}

fn in_circle(a: Pt, b: Pt, c: Pt, p: Pt) -> bool {
    let dx = a.0 - p.0;
    let dy = a.1 - p.1;
    let ex = b.0 - p.0;
    let ey = b.1 - p.1;
    let fx = c.0 - p.0;
    let fy = c.1 - p.1;

    let ap = dx * dx + dy * dy;
    let bp = ex * ex + ey * ey;
    let cp = fx * fx + fy * fy;

    dx * (ey * cp - bp * fy) - dy * (ex * cp - bp * fx) + ap * (ex * fy - ey * fx) < 0.0
}

fn nearly_equals(p: Pt, q: Pt) -> bool {
    (p.0 - q.0).abs() <= EPSILON && (p.1 - q.1).abs() <= EPSILON
}

fn pseudo_angle(center: Pt, p: Pt, len: usize) -> usize {
    let dx = p.0 - center.0;
    let dy = p.1 - center.1;

    let q = dx / (dx.abs() + dy.abs());
    let a = (if dy > 0.0 { 3.0 - q } else { 1.0 + q }) / 4.0;
    ((len as f64) * a).floor() as usize
}

fn bbox_center(points: &[Pt]) -> Pt {
    let min_x = points.iter().fold(f64::INFINITY, |acc, p| acc.min(p.0));
    let min_y = points.iter().fold(f64::INFINITY, |acc, p| acc.min(p.1));
    let max_x = points.iter().fold(f64::NEG_INFINITY, |acc, p| acc.max(p.0));
    let max_y = points.iter().fold(f64::NEG_INFINITY, |acc, p| acc.max(p.1));
    ((min_x + max_x) / 2.0, (min_y + max_y) / 2.0)
}

fn run(points: &[Pt]) -> Option<Triangulation> {
    let center = bbox_center(points);
    let center_dists: Vec<u64> = points.iter().map(|p| rank(dist2(center, *p))).collect();
    triangulate(
        &center_dists,
        &|a: usize, b: usize| rank(dist2(points[a], points[b])),
        &|a: usize, b: usize, c: usize| rank(circumradius2(points[a], points[b], points[c])),
        &|a: usize, b: usize, c: usize, j: usize| {
            rank(dist2(circumcenter(points[a], points[b], points[c]), points[j]))
        },
        &|a: usize, b: usize, c: usize, j: usize, len: usize| {
            pseudo_angle(circumcenter(points[a], points[b], points[c]), points[j], len)
        },
        &|a: usize, b: usize| nearly_equals(points[a], points[b]),
        &|a: usize, b: usize, c: usize| orient(points[a], points[b], points[c]),
        &|a: usize, b: usize, c: usize, d: usize| {
            in_circle(points[a], points[b], points[c], points[d])
        },
    )
}

fn next_edge(i: usize) -> usize {
    if i % 3 == 2 {
        i - 2
    } else {
        i + 1
    }
}

fn prev_edge(i: usize) -> usize {
    if i % 3 == 0 {
        i + 2
    } else {
        i - 1
    }
}

/// Everything that holds of a triangulation of `points` whatever they are.
fn check_sound(points: &[Pt], t: &Triangulation) {
    let n = points.len();
    assert_eq!(t.empty, EMPTY);
    assert!(t.triangles.len() >= 3);
    assert_eq!(t.triangles.len() % 3, 0);
    assert_eq!(t.triangles.len() / 3, t.len());
    assert_eq!(t.triangles.len(), t.halfedges.len());
    assert!(t.triangles.len() <= 3 * (2 * n - 5));
    for &p in t.triangles.iter() {
        assert!((p as usize) < n);
    }
    let mut boundary = 0;
    for (i, &h) in t.halfedges.iter().enumerate() {
        if h == EMPTY {
            boundary += 1;
            assert!(t.hull.contains(&t.triangles[i]));
        } else {
            assert_eq!(t.halfedges[h as usize] as usize, i);
            assert_eq!(t.triangles[h as usize], t.triangles[next_edge(i)]);
        }
    }
    assert_eq!(boundary, t.hull.len());
    assert!(t.hull.len() >= 3);
    for (k, &p) in t.hull.iter().enumerate() {
        assert!((p as usize) < n);
        assert!(!t.hull[k + 1..].contains(&p));
        let q = t.hull[(k + 1) % t.hull.len()];
        assert!((0..t.triangles.len()).any(|h| t.halfedges[h] == EMPTY
            && t.triangles[h] == p
            && t.triangles[next_edge(h)] == q));
    }
}

/// What holds besides when the points are in general position and far from
/// the limits of the arithmetic.
fn check_delaunay(points: &[Pt], t: &Triangulation) {
    for k in 0..t.len() {
        let a = points[t.triangles[3 * k] as usize];
        let b = points[t.triangles[3 * k + 1] as usize];
        let c = points[t.triangles[3 * k + 2] as usize];
        assert!(!orient(a, b, c));
    }
    for (i, &h) in t.halfedges.iter().enumerate() {
        if h != EMPTY {
            let p0 = points[t.triangles[prev_edge(i)] as usize];
            let pr = points[t.triangles[i] as usize];
            let pl = points[t.triangles[next_edge(i)] as usize];
            let p1 = points[t.triangles[prev_edge(h as usize)] as usize];
            assert!(!in_circle(p0, pr, pl, p1));
        }
    }
    let m = t.hull.len();
    for k in 0..m {
        let a = points[t.hull[k] as usize];
        let b = points[t.hull[(k + 1) % m] as usize];
        let c = points[t.hull[(k + 2) % m] as usize];
        assert!(!orient(a, b, c));
    }
}

fn scattered(n: usize, mut state: u64) -> Vec<Pt> {
    let mut points = Vec::with_capacity(n);
    for _ in 0..n {
        state = state.wrapping_mul(6364136223846793005).wrapping_add(1442695040888963407);
        let x = (state >> 11) as f64 / (1u64 << 53) as f64;
        state = state.wrapping_mul(6364136223846793005).wrapping_add(1442695040888963407);
        let y = (state >> 11) as f64 / (1u64 << 53) as f64;
        points.push((x * 1000.0, y * 1000.0));
    }
    points
}

#[test]
fn square_gives_two_triangles() {
    let points = [(0., 0.), (1., 0.), (1., 1.), (0., 1.)];
    let t = run(&points).expect("No triangulation exists.");
    assert_eq!(t.len(), 2);
    assert_eq!(t.triangles, vec![0, 2, 1, 0, 3, 2]);
    assert_eq!(t.halfedges, vec![5, EMPTY, EMPTY, EMPTY, EMPTY, 0]);
    let mut hull = t.hull.clone();
    hull.sort();
    assert_eq!(hull, vec![0, 1, 2, 3]);
    check_sound(&points, &t);
    check_delaunay(&points, &t);
}

#[test]
fn square_hull_is_counter_clockwise() {
    let points = [(0., 0.), (1., 0.), (1., 1.), (0., 1.)];
    let t = run(&points).expect("No triangulation exists.");
    assert_eq!(t.hull.len(), 4);
    let at = t.hull.iter().position(|&p| p == 0).unwrap();
    let cycle: Vec<u32> = (0..4).map(|k| t.hull[(at + k) % 4]).collect();
    assert_eq!(cycle, vec![0, 3, 2, 1]);
}

#[test]
fn collinear_points_have_no_triangulation() {
    assert!(run(&[(0., 0.), (1., 0.), (2., 0.)]).is_none());
    assert!(run(&[(0., 0.), (1., 1.), (2., 2.), (3., 3.), (4., 4.)]).is_none());
}

#[test]
fn too_few_points_have_no_triangulation() {
    assert!(run(&[]).is_none());
    assert!(run(&[(3., 4.)]).is_none());
    assert!(run(&[(0., 0.), (1., 0.)]).is_none());
}

#[test]
fn coincident_points_have_no_triangulation() {
    assert!(run(&[(2., 2.), (2., 2.), (2., 2.), (2., 2.)]).is_none());
}

#[test]
fn square_with_centre_gives_a_fan() {
    let points = [(0., 0.), (1., 0.), (1., 1.), (0., 1.), (0.5, 0.5)];
    let t = run(&points).expect("No triangulation exists.");
    assert_eq!(t.len(), 4);
    for k in 0..4 {
        assert!(t.triangles[3 * k..3 * k + 3].contains(&4));
    }
    let mut hull = t.hull.clone();
    hull.sort();
    assert_eq!(hull, vec![0, 1, 2, 3]);
    check_sound(&points, &t);
    check_delaunay(&points, &t);
}

#[test]
fn duplicate_point_is_left_out() {
    let plain = run(&[(0., 0.), (1., 0.), (0., 1.)]).expect("No triangulation exists.");
    assert_eq!(plain.len(), 1);
    for offset in [(0., 0.), (1e-200, 0.)] {
        let points = [(0., 0.), offset, (1., 0.), (0., 1.)];
        let t = run(&points).expect("No triangulation exists.");
        assert_eq!(t.len(), plain.len());
        assert!(!t.triangles.contains(&1));
        check_sound(&points, &t);
    }
}

#[test]
fn near_duplicate_in_the_seed_stays() {
    let points = [(0., 0.), (1e-17, 1e-17), (1., 0.), (0., 1.)];
    let t = run(&points).expect("No triangulation exists.");
    assert_eq!(t.triangles, vec![0, 1, 2, 1, 3, 2, 0, 3, 1]);
    assert_eq!(t.hull, vec![0, 3, 2]);
    check_sound(&points, &t);
}

#[test]
fn arrays_are_trimmed() {
    let points = [(0., 0.), (1., 0.), (1., 1.), (0., 1.), (0.5, 0.5), (0.25, 0.5)];
    let t = run(&points).expect("No triangulation exists.");
    assert!(t.triangles.len() < 3 * (2 * points.len() - 5));
    assert!(t.triangles.capacity() < 3 * (2 * points.len() - 5));
    assert!(t.halfedges.capacity() < 3 * (2 * points.len() - 5));
}

#[test]
fn single_triangle() {
    let points = [(0., 0.), (1., 0.), (0., 1.)];
    let t = run(&points).expect("No triangulation exists.");
    assert_eq!(t.triangles, vec![0, 2, 1]);
    assert_eq!(t.halfedges, vec![EMPTY, EMPTY, EMPTY]);
    assert_eq!(t.hull, vec![0, 2, 1]);
    check_sound(&points, &t);
    check_delaunay(&points, &t);
}

#[test]
fn scattered_points_are_sound_and_delaunay() {
    for seed in 1..6u64 {
        let points = scattered(300, seed);
        let t = run(&points).expect("No triangulation exists.");
        check_sound(&points, &t);
        check_delaunay(&points, &t);
        assert_eq!(t.len(), 2 * 300 - 2 - t.hull.len());
    }
}

#[test]
fn grid_points_are_sound() {
    let mut points = Vec::new();
    for x in 0..12 {
        for y in 0..9 {
            points.push((x as f64, y as f64));
        }
    }
    let t = run(&points).expect("No triangulation exists.");
    check_sound(&points, &t);
    assert_eq!(t.len(), 2 * points.len() - 2 - t.hull.len());
}

#[test]
fn points_on_a_circle_are_sound() {
    let mut points = Vec::new();
    for k in 0..64 {
        let a = (k as f64) * std::f64::consts::PI / 32.0;
        points.push((a.cos() * 10.0, a.sin() * 10.0));
    }
    points.push((0.0, 0.0));
    let t = run(&points).expect("No triangulation exists.");
    check_sound(&points, &t);
}

#[test]
fn wrong_answers_keep_the_mesh_sound() {
    let points = scattered(60, 99);
    let center = bbox_center(&points);
    let center_dists: Vec<u64> = points.iter().map(|p| rank(dist2(center, *p))).collect();
    let t = triangulate(
        &center_dists,
        &|a: usize, b: usize| rank(dist2(points[a], points[b])),
        &|a: usize, b: usize, c: usize| rank(circumradius2(points[a], points[b], points[c])),
        &|_a: usize, _b: usize, _c: usize, j: usize| (j as u64 * 7919) % 61,
        &|_a: usize, _b: usize, _c: usize, j: usize, len: usize| (j * 31) % (len + 1),
        &|_a: usize, _b: usize| false,
        &|a: usize, b: usize, c: usize| (a + 2 * b + 3 * c) % 3 != 0,
        &|a: usize, b: usize, c: usize, d: usize| (a + b + c + d) % 2 == 0,
    )
    .expect("No triangulation exists.");
    check_sound(&points, &t);
}

fn exact_orient(p: (i128, i128), q: (i128, i128), r: (i128, i128)) -> bool {
    (q.1 - p.1) * (r.0 - q.0) - (q.0 - p.0) * (r.1 - q.1) < 0
}

fn exact_in_circle(a: (i128, i128), b: (i128, i128), c: (i128, i128), p: (i128, i128)) -> bool {
    let dx = a.0 - p.0;
    let dy = a.1 - p.1;
    let ex = b.0 - p.0;
    let ey = b.1 - p.1;
    let fx = c.0 - p.0;
    let fy = c.1 - p.1;

    let ap = dx * dx + dy * dy;
    let bp = ex * ex + ey * ey;
    let cp = fx * fx + fy * fy;

    dx * (ey * cp - bp * fy) - dy * (ex * cp - bp * fx) + ap * (ex * fy - ey * fx) < 0
}

fn run_exact(grid: &[(i128, i128)]) -> Option<Triangulation> {
    let points: Vec<Pt> = grid.iter().map(|p| (p.0 as f64, p.1 as f64)).collect();
    let center = bbox_center(&points);
    let center_dists: Vec<u64> = points.iter().map(|p| rank(dist2(center, *p))).collect();
    triangulate(
        &center_dists,
        &|a: usize, b: usize| rank(dist2(points[a], points[b])),
        &|a: usize, b: usize, c: usize| rank(circumradius2(points[a], points[b], points[c])),
        &|a: usize, b: usize, c: usize, j: usize| {
            rank(dist2(circumcenter(points[a], points[b], points[c]), points[j]))
        },
        &|a: usize, b: usize, c: usize, j: usize, len: usize| {
            pseudo_angle(circumcenter(points[a], points[b], points[c]), points[j], len)
        },
        &|a: usize, b: usize| nearly_equals(points[a], points[b]),
        &|a: usize, b: usize, c: usize| exact_orient(grid[a], grid[b], grid[c]),
        &|a: usize, b: usize, c: usize, d: usize| {
            exact_in_circle(grid[a], grid[b], grid[c], grid[d])
        },
    )
}

#[test]
fn exact_tests_keep_every_triangle_from_being_clockwise() {
    for seed in 1..9u64 {
        let mut state = seed;
        let mut grid = Vec::new();
        for _ in 0..200 {
            state = state.wrapping_mul(6364136223846793005).wrapping_add(1442695040888963407);
            let x = ((state >> 33) % 40) as i128;
            state = state.wrapping_mul(6364136223846793005).wrapping_add(1442695040888963407);
            let y = ((state >> 33) % 40) as i128;
            grid.push((x, y));
        }
        let t = run_exact(&grid).expect("No triangulation exists.");
        let points: Vec<Pt> = grid.iter().map(|p| (p.0 as f64, p.1 as f64)).collect();
        check_sound(&points, &t);
        for k in 0..t.len() {
            let a = grid[t.triangles[3 * k] as usize];
            let b = grid[t.triangles[3 * k + 1] as usize];
            let c = grid[t.triangles[3 * k + 2] as usize];
            assert!(!exact_orient(a, b, c));
        }
    }
}

#[test]
fn many_points_are_triangulated() {
    let points = scattered(40_000, 7);
    let t = run(&points).expect("No triangulation exists.");
    assert_eq!(t.len(), 2 * points.len() - 2 - t.hull.len());
    let mut twins = 0;
    for (i, &h) in t.halfedges.iter().enumerate() {
        if h != EMPTY {
            assert_eq!(t.halfedges[h as usize] as usize, i);
            twins += 1;
        }
    }
    assert_eq!(twins + t.hull.len(), t.triangles.len());
    check_delaunay(&points, &t);
}
