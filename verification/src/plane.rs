//! Exact geometry as a yardstick: points with integer coordinates, and the
//! two tests as they come out when nothing is rounded. The construction
//! never computes with coordinates; what it is proved to keep when its
//! tests are exact is stated against these definitions.

use vstd::prelude::*;

verus! {

/// Points with integer coordinates, by their position.
pub struct Plane {
    pub x: Seq<int>,
    pub y: Seq<int>,
}

/// A product spread over a sum.
proof fn lemma_spread(a: int, x: int, y: int)
    ensures
        a * (x + y) == a * x + a * y,
        a * (x - y) == a * x - a * y,
{
    assert(a * (x + y) == a * x + a * y) by (nonlinear_arith);
    assert(a * (x - y) == a * x - a * y) by (nonlinear_arith);
}

/// A product of two products, its inner factors changing places.
proof fn lemma_regroup(a: int, b: int, c: int, d: int)
    ensures
        (a * b) * (c * d) == (a * c) * (b * d),
{
    assert((a * b) * (c * d) == (a * c) * (b * d)) by (nonlinear_arith);
}

/// The square of a difference.
proof fn lemma_square_of_difference(x: int, y: int)
    ensures
        (x - y) * (x - y) == x * x - 2 * (x * y) + y * y,
        (x - y) * (x - y) >= 0,
{
    assert((x - y) * (x - y) == x * x - 2 * (x * y) + y * y) by (nonlinear_arith);
    assert((x - y) * (x - y) >= 0) by (nonlinear_arith);
}

/// The squared length of the vector `s * b - t * c`, written out; it is
/// not negative.
proof fn lemma_gram(bx: int, by: int, cx: int, cy: int, s: int, t: int)
    ensures
        (s * s) * (bx * bx + by * by) - 2 * ((s * t) * (bx * cx + by * cy)) + (t * t) * (cx * cx
            + cy * cy) == (s * bx - t * cx) * (s * bx - t * cx) + (s * by - t * cy) * (s * by - t
            * cy),
        (s * s) * (bx * bx + by * by) - 2 * ((s * t) * (bx * cx + by * cy)) + (t * t) * (cx * cx
            + cy * cy) >= 0,
{
    lemma_square_of_difference(s * bx, t * cx);
    lemma_square_of_difference(s * by, t * cy);
    lemma_regroup(s, bx, s, bx);
    lemma_regroup(s, bx, t, cx);
    lemma_regroup(t, cx, t, cx);
    lemma_regroup(s, by, s, by);
    lemma_regroup(s, by, t, cy);
    lemma_regroup(t, cy, t, cy);
    lemma_spread(s * s, bx * bx, by * by);
    lemma_spread(s * t, bx * cx, by * cy);
    lemma_spread(t * t, cx * cx, cy * cy);
}

/// A sum of two squares is not negative.
proof fn lemma_norm(x: int, y: int)
    ensures
        x * x + y * y >= 0,
{
    assert(x * x + y * y >= 0) by (nonlinear_arith);
}

/// The core of the argument that a flip keeps the winding, with the far
/// corner of the twin at the origin: `b` and `c` are the ends of the shared
/// edge, `p`, `v` and `-m` the cross products of the three corners taken in
/// pairs, and `vi` the circle test's sum times `v`.
proof fn lemma_flip_core(bx: int, by: int, cx: int, cy: int, p: int, v: int, m: int, vi: int)
    requires
        p > 0,
        v >= 0,
        m >= p + v,
        vi == (bx * bx + by * by) * (m * (m - v)) + (cx * cx + cy * cy) * (p * (p + v)) - 2 * ((m
            * p) * (bx * cx + by * cy)),
    ensures
        vi >= 0,
{
    let nb = bx * bx + by * by;
    let nc = cx * cx + cy * cy;
    let dot = bx * cx + by * cy;
    let alpha = p * (p + v);
    let beta = m * p;
    let gamma = m * (m - v);
    lemma_norm(cx, cy);
    assert(gamma > 0) by (nonlinear_arith)
        requires
            gamma == m * (m - v),
            m >= p + v,
            p > 0,
            v >= 0,
    ;
    // alpha * gamma - beta * beta == (p * m) * (v * (m - p - v))
    lemma_regroup(p, p + v, m, m - v);
    lemma_regroup(m, p, m, p);
    let pm = p * m;
    assert(m * p == pm) by (nonlinear_arith)
        requires
            pm == p * m,
    ;
    assert(m * m == m * m);
    assert((m * m) * (p * p) == pm * pm) by (nonlinear_arith)
        requires
            pm == p * m,
    ;
    assert(alpha * gamma == pm * ((p + v) * (m - v)));
    assert(beta * beta == pm * pm);
    lemma_spread(pm, (p + v) * (m - v), pm);
    assert((p + v) * (m - v) - pm == v * (m - p - v)) by (nonlinear_arith)
        requires
            pm == p * m,
    ;
    let rest = v * (m - p - v);
    assert(alpha * gamma - beta * beta == pm * rest);
    assert(rest >= 0) by (nonlinear_arith)
        requires
            rest == v * (m - p - v),
            v >= 0,
            m >= p + v,
    ;
    assert(pm * rest >= 0) by (nonlinear_arith)
        requires
            pm == p * m,
            p > 0,
            m >= p,
            rest >= 0,
    ;
    let slack = alpha * gamma - beta * beta;
    assert(slack * nc >= 0) by (nonlinear_arith)
        requires
            slack >= 0,
            nc >= 0,
    ;
    lemma_gram(bx, by, cx, cy, gamma, beta);
    let gram = (gamma * gamma) * nb - 2 * ((gamma * beta) * dot) + (beta * beta) * nc;
    assert(gram >= 0);
    // gamma * vi == gram + slack * nc
    let t1 = nb * gamma;
    let t2 = nc * alpha;
    let t3 = beta * dot;
    assert(vi == t1 + t2 - 2 * t3);
    assert(gamma * vi == gamma * t1 + gamma * t2 - 2 * (gamma * t3)) by (nonlinear_arith)
        requires
            vi == t1 + t2 - 2 * t3,
    ;
    assert(gamma * t1 == (gamma * gamma) * nb) by (nonlinear_arith)
        requires
            t1 == nb * gamma,
    ;
    assert(gamma * t2 == (alpha * gamma) * nc) by (nonlinear_arith)
        requires
            t2 == nc * alpha,
    ;
    assert(gamma * t3 == (gamma * beta) * dot) by (nonlinear_arith)
        requires
            t3 == beta * dot,
    ;
    assert((alpha * gamma) * nc == (beta * beta) * nc + slack * nc) by (nonlinear_arith)
        requires
            slack == alpha * gamma - beta * beta,
    ;
    assert(gamma * vi == gram + slack * nc);
    assert(vi >= 0) by (nonlinear_arith)
        requires
            gamma * vi >= 0,
            gamma > 0,
    ;
}

/// One half of the argument that a flip keeps the winding, with the far
/// corner of the twin at the origin: `a` is the far corner of the first
/// triangle, `b` and `c` the ends of the shared edge. If the cross product
/// of `a` and `b` were positive, the circle test's sum could not be
/// negative.
proof fn lemma_flip_half(ax: int, ay: int, bx: int, by: int, cx: int, cy: int)
    requires
        (ax * by - ay * bx) + (bx * cy - by * cx) + (cx * ay - cy * ax) <= 0,
        bx * cy - by * cx >= 0,
        (ax * ax + ay * ay) * (bx * cy - by * cx) + (bx * bx + by * by) * (cx * ay - cy * ax) + (cx
            * cx + cy * cy) * (ax * by - ay * bx) < 0,
    ensures
        ax * by - ay * bx <= 0,
{
    let u = ax * by - ay * bx;
    let v = bx * cy - by * cx;
    let w = cx * ay - cy * ax;
    let na = ax * ax + ay * ay;
    let nb = bx * bx + by * by;
    let nc = cx * cx + cy * cy;
    let dot = bx * cx + by * cy;
    let i = na * v + nb * w + nc * u;
    if u > 0 {
        let m = -w;
        // v * a == m * b - u * c, in both coordinates
        lemma_spread(ax, bx * cy, by * cx);
        lemma_spread(bx, cy * ax, cx * ay);
        lemma_spread(cx, ax * by, ay * bx);
        assert(ax * (bx * cy) == bx * (cy * ax)) by (nonlinear_arith);
        assert(ax * (by * cx) == cx * (ax * by)) by (nonlinear_arith);
        assert(bx * (cx * ay) == cx * (ay * bx)) by (nonlinear_arith);
        let vax = ax * v;
        let mbx = bx * m;
        let ucx = cx * u;
        assert(vax == mbx - ucx);
        lemma_spread(ay, bx * cy, by * cx);
        lemma_spread(by, cy * ax, cx * ay);
        lemma_spread(cy, ax * by, ay * bx);
        assert(ay * (bx * cy) == cy * (ay * bx)) by (nonlinear_arith);
        assert(ay * (by * cx) == by * (cx * ay)) by (nonlinear_arith);
        assert(by * (cy * ax) == cy * (ax * by)) by (nonlinear_arith);
        let vay = ay * v;
        let mby = by * m;
        let ucy = cy * u;
        assert(vay == mby - ucy);
        // (v * v) * na == the squared length of m * b - u * c
        lemma_regroup(ax, v, ax, v);
        lemma_regroup(ay, v, ay, v);
        lemma_spread(v * v, ax * ax, ay * ay);
        assert((v * v) * na == vax * vax + vay * vay) by (nonlinear_arith)
            requires
                (ax * v) * (ax * v) == (ax * ax) * (v * v),
                (ay * v) * (ay * v) == (ay * ay) * (v * v),
                (v * v) * (ax * ax + ay * ay) == (v * v) * (ax * ax) + (v * v) * (ay * ay),
                na == ax * ax + ay * ay,
                vax == ax * v,
                vay == ay * v,
        ;
        lemma_gram(bx, by, cx, cy, m, u);
        assert(m * bx == mbx && u * cx == ucx && m * by == mby && u * cy == ucy)
            by (nonlinear_arith)
            requires
                mbx == bx * m,
                ucx == cx * u,
                mby == by * m,
                ucy == cy * u,
        ;
        let vvna = (v * v) * na;
        assert(vvna == (m * m) * nb - 2 * ((m * u) * dot) + (u * u) * nc);
        // v * i, written out
        let vi = v * i;
        assert(vi == v * (na * v) + v * (nb * w) + v * (nc * u)) by (nonlinear_arith)
            requires
                vi == v * i,
                i == na * v + nb * w + nc * u,
        ;
        assert(v * (na * v) == vvna) by (nonlinear_arith)
            requires
                vvna == (v * v) * na,
        ;
        assert(v * (nb * w) == -(nb * (m * v))) by (nonlinear_arith)
            requires
                m == -w,
        ;
        assert(v * (nc * u) == nc * (u * v)) by (nonlinear_arith);
        lemma_spread(m, m, v);
        lemma_spread(u, u, v);
        lemma_spread(nb, m * m, m * v);
        lemma_spread(nc, u * u, u * v);
        assert((m * m) * nb == nb * (m * m)) by (nonlinear_arith);
        assert((u * u) * nc == nc * (u * u)) by (nonlinear_arith);
        assert(vi == nb * (m * (m - v)) + nc * (u * (u + v)) - 2 * ((m * u) * dot));
        lemma_flip_core(bx, by, cx, cy, u, v, m, vi);
        if v > 0 {
            assert(i >= 0) by (nonlinear_arith)
                requires
                    vi == v * i,
                    vi >= 0,
                    v > 0,
            ;
        } else {
            assert(vax == 0 && vay == 0) by (nonlinear_arith)
                requires
                    vax == ax * v,
                    vay == ay * v,
                    v == 0,
            ;
            lemma_regroup(bx, m, bx, m);
            lemma_regroup(by, m, by, m);
            lemma_regroup(cx, u, cx, u);
            lemma_regroup(cy, u, cy, u);
            lemma_spread(m * m, bx * bx, by * by);
            lemma_spread(u * u, cx * cx, cy * cy);
            let mmnb = (m * m) * nb;
            let uunc = (u * u) * nc;
            assert(mmnb == mbx * mbx + mby * mby) by (nonlinear_arith)
                requires
                    (bx * m) * (bx * m) == (bx * bx) * (m * m),
                    (by * m) * (by * m) == (by * by) * (m * m),
                    (m * m) * (bx * bx + by * by) == (m * m) * (bx * bx) + (m * m) * (by * by),
                    mmnb == (m * m) * (bx * bx + by * by),
                    mbx == bx * m,
                    mby == by * m,
            ;
            assert(uunc == ucx * ucx + ucy * ucy) by (nonlinear_arith)
                requires
                    (cx * u) * (cx * u) == (cx * cx) * (u * u),
                    (cy * u) * (cy * u) == (cy * cy) * (u * u),
                    (u * u) * (cx * cx + cy * cy) == (u * u) * (cx * cx) + (u * u) * (cy * cy),
                    uunc == (u * u) * (cx * cx + cy * cy),
                    ucx == cx * u,
                    ucy == cy * u,
            ;
            assert(mmnb == uunc);
            lemma_norm(cx, cy);
            assert(na * v == 0) by (nonlinear_arith)
                requires
                    v == 0,
            ;
            assert(i == nb * w + nc * u);
            let mmi = (m * m) * i;
            assert(mmi == mmnb * w + (m * m) * (nc * u)) by (nonlinear_arith)
                requires
                    mmi == (m * m) * i,
                    i == nb * w + nc * u,
                    mmnb == (m * m) * nb,
            ;
            let ncu = nc * u;
            assert(uunc * w == -((ncu * u) * m)) by (nonlinear_arith)
                requires
                    uunc == (u * u) * nc,
                    ncu == nc * u,
                    m == -w,
            ;
            assert((m * m) * (nc * u) == (ncu * m) * m) by (nonlinear_arith)
                requires
                    ncu == nc * u,
            ;
            let ncum = ncu * m;
            assert((ncu * u) * m == ncum * u) by (nonlinear_arith)
                requires
                    ncum == ncu * m,
            ;
            lemma_spread(ncum, m, u);
            assert(mmi == ncum * (m - u));
            assert(ncu >= 0) by (nonlinear_arith)
                requires
                    ncu == nc * u,
                    nc >= 0,
                    u > 0,
            ;
            assert(ncum >= 0) by (nonlinear_arith)
                requires
                    ncum == ncu * m,
                    ncu >= 0,
                    m > 0,
            ;
            assert(ncum * (m - u) >= 0) by (nonlinear_arith)
                requires
                    ncum >= 0,
                    m >= u,
            ;
            assert(i >= 0) by (nonlinear_arith)
                requires
                    mmi == (m * m) * i,
                    mmi >= 0,
                    m > 0,
            ;
        }
    }
}

impl Plane {
    /// The sum whose sign is the turn test: negative when the points `p`,
    /// `q`, `r` turn clockwise, 0 when they lie on one line.
    pub open spec fn swing(&self, p: int, q: int, r: int) -> int {
        (self.y[q] - self.y[p]) * (self.x[r] - self.x[q]) - (self.x[q] - self.x[p]) * (self.y[r]
            - self.y[q])
    }

    /// The sum whose sign is the circle test: negative when point `p` lies
    /// inside the circle through `a`, `b`, `c`, taken in an order that is
    /// not clockwise.
    pub open spec fn circle(&self, a: int, b: int, c: int, p: int) -> int {
        let dx = self.x[a] - self.x[p];
        let dy = self.y[a] - self.y[p];
        let ex = self.x[b] - self.x[p];
        let ey = self.y[b] - self.y[p];
        let fx = self.x[c] - self.x[p];
        let fy = self.y[c] - self.y[p];
        let ap = dx * dx + dy * dy;
        let bp = ex * ex + ey * ey;
        let cp = fx * fx + fy * fy;
        dx * (ey * cp - bp * fy) - dy * (ex * cp - bp * fx) + ap * (ex * fy - ey * fx)
    }

    /// The turn test answers by the sign of [`Plane::swing`].
    pub open spec fn exact_turn<O: Fn(usize, usize, usize) -> bool>(&self, orient: &O) -> bool {
        forall|a: usize, b: usize, c: usize, r: bool|
            #[trigger] call_ensures(*orient, (a, b, c), r) ==> r == (self.swing(
                a as int,
                b as int,
                c as int,
            ) < 0)
    }

    /// The circle test answers by the sign of [`Plane::circle`].
    pub open spec fn exact_circle<C: Fn(usize, usize, usize, usize) -> bool>(
        &self,
        in_circle: &C,
    ) -> bool {
        forall|a: usize, b: usize, c: usize, d: usize, r: bool|
            #[trigger] call_ensures(*in_circle, (a, b, c, d), r) ==> r == (self.circle(
                a as int,
                b as int,
                c as int,
                d as int,
            ) < 0)
    }

    /// Three points swing the same whichever of them is named first.
    pub proof fn lemma_swing_rotates(&self, p: int, q: int, r: int)
        ensures
            self.swing(q, r, p) == self.swing(p, q, r),
    {
        let px = self.x[p];
        let py = self.y[p];
        let qx = self.x[q];
        let qy = self.y[q];
        let rx = self.x[r];
        let ry = self.y[r];
        assert((ry - qy) * (px - rx) - (rx - qx) * (py - ry) == (qy - py) * (rx - qx) - (qx - px)
            * (ry - qy)) by (nonlinear_arith);
    }

    /// Three points swing the other way when two of them change places.
    pub proof fn lemma_swing_reverses(&self, p: int, q: int, r: int)
        ensures
            self.swing(q, p, r) == -self.swing(p, q, r),
    {
        let px = self.x[p];
        let py = self.y[p];
        let qx = self.x[q];
        let qy = self.y[q];
        let rx = self.x[r];
        let ry = self.y[r];
        assert((py - qy) * (rx - px) - (px - qx) * (ry - py) == -((qy - py) * (rx - qx) - (qx - px)
            * (ry - qy))) by (nonlinear_arith);
    }

    /// Three points swing the other way when the last two change places.
    pub proof fn lemma_swing_swaps(&self, p: int, q: int, r: int)
        ensures
            self.swing(p, r, q) == -self.swing(p, q, r),
    {
        self.lemma_swing_rotates(p, r, q);
        self.lemma_swing_reverses(q, r, p);
        self.lemma_swing_rotates(p, q, r);
    }

    /// A flip keeps the winding: when the triangles `(p0, pr, pl)` and
    /// `(pl, pr, p1)` on the two sides of the edge from `pr` to `pl` are not
    /// clockwise and `p1` lies inside the circle through the first, the
    /// triangles `(p1, pl, p0)` and `(p0, pr, p1)` on the two sides of the
    /// other diagonal are not clockwise either.
    pub proof fn lemma_flip_keeps_winding(&self, p0: int, pr: int, pl: int, p1: int)
        requires
            self.swing(p0, pr, pl) >= 0,
            self.swing(pl, pr, p1) >= 0,
            self.circle(p0, pr, pl, p1) < 0,
        ensures
            self.swing(p1, pl, p0) >= 0,
            self.swing(p0, pr, p1) >= 0,
    {
        let ax = self.x[p0] - self.x[p1];
        let ay = self.y[p0] - self.y[p1];
        let bx = self.x[pr] - self.x[p1];
        let by = self.y[pr] - self.y[p1];
        let cx = self.x[pl] - self.x[p1];
        let cy = self.y[pl] - self.y[p1];
        let u = ax * by - ay * bx;
        let v = bx * cy - by * cx;
        let w = cx * ay - cy * ax;
        let na = ax * ax + ay * ay;
        let nb = bx * bx + by * by;
        let nc = cx * cx + cy * cy;
        assert(self.swing(p0, pr, pl) == (by - ay) * (cx - bx) - (bx - ax) * (cy - by));
        assert((by - ay) * (cx - bx) - (bx - ax) * (cy - by) == -(u + v + w)) by (nonlinear_arith)
            requires
                u == ax * by - ay * bx,
                v == bx * cy - by * cx,
                w == cx * ay - cy * ax,
        ;
        assert(self.swing(pl, pr, p1) == (by - cy) * (0 - bx) - (bx - cx) * (0 - by));
        assert((by - cy) * (0 - bx) - (bx - cx) * (0 - by) == v) by (nonlinear_arith)
            requires
                v == bx * cy - by * cx,
        ;
        assert(self.swing(p1, pl, p0) == (cy - 0) * (ax - cx) - (cx - 0) * (ay - cy));
        assert((cy - 0) * (ax - cx) - (cx - 0) * (ay - cy) == -w) by (nonlinear_arith)
            requires
                w == cx * ay - cy * ax,
        ;
        assert(self.swing(p0, pr, p1) == (by - ay) * (0 - bx) - (bx - ax) * (0 - by));
        assert((by - ay) * (0 - bx) - (bx - ax) * (0 - by) == -u) by (nonlinear_arith)
            requires
                u == ax * by - ay * bx,
        ;
        // the circle test's sum, sorted by the three cross products
        let sum = self.circle(p0, pr, pl, p1);
        assert(sum == ax * (by * nc - nb * cy) - ay * (bx * nc - nb * cx) + na * (bx * cy - by
            * cx));
        lemma_spread(ax, by * nc, nb * cy);
        lemma_spread(ay, bx * nc, nb * cx);
        lemma_spread(nc, ax * by, ay * bx);
        lemma_spread(nb, cx * ay, cy * ax);
        assert(ax * (by * nc) == nc * (ax * by)) by (nonlinear_arith);
        assert(ay * (bx * nc) == nc * (ay * bx)) by (nonlinear_arith);
        assert(ax * (nb * cy) == nb * (cy * ax)) by (nonlinear_arith);
        assert(ay * (nb * cx) == nb * (cx * ay)) by (nonlinear_arith);
        assert(sum == na * v + nb * w + nc * u);
        lemma_flip_half(ax, ay, bx, by, cx, cy);
        // the same seen in a mirror, with the ends of the shared edge in
        // each other's place
        let mx = -ax;
        let nx = -bx;
        let ox = -cx;
        assert(mx * cy - ay * ox == w && ox * by - cy * nx == v && nx * ay - by * mx == u)
            by (nonlinear_arith)
            requires
                mx == -ax,
                nx == -bx,
                ox == -cx,
                u == ax * by - ay * bx,
                v == bx * cy - by * cx,
                w == cx * ay - cy * ax,
        ;
        assert(mx * mx == ax * ax && nx * nx == bx * bx && ox * ox == cx * cx) by (nonlinear_arith)
            requires
                mx == -ax,
                nx == -bx,
                ox == -cx,
        ;
        assert((mx * mx + ay * ay) * (ox * by - cy * nx) + (ox * ox + cy * cy) * (nx * ay - by
            * mx) + (nx * nx + by * by) * (mx * cy - ay * ox) == na * v + nc * u + nb * w);
        lemma_flip_half(mx, ay, ox, cy, nx, by);
    }
}

} // verus!
