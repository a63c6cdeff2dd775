//! Fixed-point vector algebra in two or three dimensions.

use vstd::prelude::*;

verus! {

/// Ticks per unit of length: coordinates and distances carry four decimals.
pub const UNIT: i64 = 10_000;

/// Extra precision used while a direction is normalised.
pub const PRECISION: u128 = 1_048_576;

/// Largest coordinate magnitude that the vector operations accept.
pub const COORD_LIMIT: i64 = 1_099_511_627_776;

/// The largest `r >= 0` with `r * r <= n`, searching downwards from `k`.
pub open spec fn root_below(n: int, k: int) -> int
    decreases k,
{
    if k <= 0 {
        0
    } else if k * k <= n {
        k
    } else {
        root_below(n, k - 1)
    }
}

/// The integer square root of `n`, rounded down.
pub open spec fn root(n: int) -> int {
    root_below(n, n)
}

proof fn lemma_root_below(n: int, r: int, k: int)
    requires
        0 <= r <= k,
        r * r <= n < (r + 1) * (r + 1),
    ensures
        root_below(n, k) == r,
    decreases k,
{
    if k > r {
        assert((r + 1) * (r + 1) <= k * k) by (nonlinear_arith)
            requires
                0 <= r,
                r + 1 <= k,
        ;
        lemma_root_below(n, r, k - 1);
    }
}

/// `root` is the one `r >= 0` whose square is at most `n` while the next
/// square exceeds it.
pub proof fn lemma_root_unique(n: int, r: int)
    requires
        0 <= r,
        r * r <= n < (r + 1) * (r + 1),
    ensures
        root(n) == r,
{
    assert(r <= n) by (nonlinear_arith)
        requires
            0 <= r,
            r * r <= n,
    ;
    lemma_root_below(n, r, n);
}

/// Integer square root by bisection.
pub fn isqrt(n: u128) -> (r: u128)
    ensures
        r * r <= n < (r + 1) * (r + 1),
        r == root(n as int),
{
    let mut lo: u128 = 0;
    let mut hi: u128 = 0x1_0000_0000_0000_0000;
    assert(n < hi * hi) by (nonlinear_arith)
        requires
            hi == 0x1_0000_0000_0000_0000u128,
            n <= u128::MAX,
    ;
    while hi - lo > 1
        invariant
            lo < hi <= 0x1_0000_0000_0000_0000u128,
            lo * lo <= n,
            n < hi * hi,
        decreases hi - lo,
    {
        let mid = lo + (hi - lo) / 2;
        assert(mid * mid < 0x1_0000_0000_0000_0000_0000_0000_0000_0000int) by (nonlinear_arith)
            requires
                mid < 0x1_0000_0000_0000_0000u128,
        ;
        if mid * mid <= n {
            lo = mid;
        } else {
            hi = mid;
        }
    }
    proof {
        lemma_root_unique(n as int, lo as int);
    }
    lo
}


/// A point as exact integers.
pub type Triple = (int, int, int);

pub open spec fn norm2(p: Triple) -> int {
    p.0 * p.0 + p.1 * p.1 + p.2 * p.2
}

pub open spec fn diff(a: Triple, b: Triple) -> Triple {
    (a.0 - b.0, a.1 - b.1, a.2 - b.2)
}

pub open spec fn sum(a: Triple, b: Triple) -> Triple {
    (a.0 + b.0, a.1 + b.1, a.2 + b.2)
}

/// Squared distance between two points.
pub open spec fn dist2(a: Triple, b: Triple) -> int {
    norm2(diff(a, b))
}

/// Every coordinate of `p` lies in `[-lim, lim]`.
pub open spec fn bounded(p: Triple, lim: int) -> bool {
    -lim <= p.0 <= lim && -lim <= p.1 <= lim && -lim <= p.2 <= lim
}

/// `d * dist / length` rounded toward zero, where `l` is the length of the
/// whole difference vector, scaled by `PRECISION`.
pub open spec fn scaled(d: int, dist: int, l: int) -> int {
    if d >= 0 {
        (d * dist * PRECISION) / l
    } else {
        -(((-d) * dist * PRECISION) / l)
    }
}

/// The point at distance `dist` from `a` in the direction of `b`, each
/// coordinate rounded toward `a`. Where `b == a` there is no direction and
/// the step is taken along the first axis.
pub open spec fn toward(a: Triple, b: Triple, dist: int) -> Triple {
    let d = diff(b, a);
    if d == (0int, 0int, 0int) {
        (a.0 + dist, a.1, a.2)
    } else {
        let l = root(norm2(d) * PRECISION * PRECISION);
        sum(a, (scaled(d.0, dist, l), scaled(d.1, dist, l), scaled(d.2, dist, l)))
    }
}

/// A position or direction; each coordinate is a count of ticks.
#[derive(Clone, Copy, Debug, PartialEq, Eq, Structural)]
pub struct Vec3d {
    pub x: i64,
    pub y: i64,
    pub z: i64,
}

impl View for Vec3d {
    type V = Triple;

    open spec fn view(&self) -> Triple {
        (self.x as int, self.y as int, self.z as int)
    }
}

impl Vec3d {
    pub fn new(x: i64, y: i64, z: i64) -> (r: Vec3d)
        ensures
            r@ == (x as int, y as int, z as int),
    {
        Vec3d { x, y, z }
    }

    pub fn zero() -> (r: Vec3d)
        ensures
            r@ == (0int, 0int, 0int),
    {
        Vec3d { x: 0, y: 0, z: 0 }
    }

    pub fn plus(self, v: Vec3d) -> (r: Vec3d)
        requires
            bounded(self@, COORD_LIMIT as int),
            bounded(v@, COORD_LIMIT as int),
        ensures
            r@ == sum(self@, v@),
    {
        Vec3d { x: self.x + v.x, y: self.y + v.y, z: self.z + v.z }
    }

    pub fn minus(self, v: Vec3d) -> (r: Vec3d)
        requires
            bounded(self@, COORD_LIMIT as int),
            bounded(v@, COORD_LIMIT as int),
        ensures
            r@ == diff(self@, v@),
    {
        Vec3d { x: self.x - v.x, y: self.y - v.y, z: self.z - v.z }
    }

    /// Squared length, in squared ticks.
    pub fn length_squared(&self) -> (r: u128)
        requires
            bounded(self@, COORD_LIMIT as int),
        ensures
            r == norm2(self@),
            r <= 12 * COORD_LIMIT * COORD_LIMIT,
    {
        let x = abs_u128(self.x);
        let y = abs_u128(self.y);
        let z = abs_u128(self.z);
        proof {
            lemma_square_bound(self.x as int, x as int);
            lemma_square_bound(self.y as int, y as int);
            lemma_square_bound(self.z as int, z as int);
        }
        x * x + y * y + z * z
    }

    /// Length rounded down to a whole tick.
    pub fn length(&self) -> (r: i64)
        requires
            bounded(self@, COORD_LIMIT as int),
        ensures
            r == root(norm2(self@)),
            r * r <= norm2(self@) < (r + 1) * (r + 1),
            0 <= r <= 4 * COORD_LIMIT,
    {
        let n = self.length_squared();
        let r = isqrt(n);
        proof {
            lemma_root_bound(norm2(self@), r as int);
        }
        r as i64
    }

    /// Distance to `v`, rounded down to a whole tick.
    pub fn distance(&self, v: Vec3d) -> (r: i64)
        requires
            bounded(self@, COORD_LIMIT as int),
            bounded(v@, COORD_LIMIT as int),
        ensures
            r == root(dist2(self@, v@)),
            r * r <= dist2(self@, v@) < (r + 1) * (r + 1),
            0 <= r <= 4 * COORD_LIMIT,
    {
        let x = abs_diff_u128(self.x, v.x);
        let y = abs_diff_u128(self.y, v.y);
        let z = abs_diff_u128(self.z, v.z);
        proof {
            lemma_square_bound(self.x - v.x, x as int);
            lemma_square_bound(self.y - v.y, y as int);
            lemma_square_bound(self.z - v.z, z as int);
        }
        let n = x * x + y * y + z * z;
        let r = isqrt(n);
        proof {
            lemma_root_bound(dist2(self@, v@), r as int);
        }
        r as i64
    }
}

/// The point at distance `dist` from `a` in the direction of `b`.
pub fn lerp(a: Vec3d, b: Vec3d, dist: i64) -> (r: Vec3d)
    requires
        bounded(a@, COORD_LIMIT as int),
        bounded(b@, COORD_LIMIT as int),
        0 <= dist <= COORD_LIMIT,
    ensures
        r@ == toward(a@, b@, dist as int),
        bounded(diff(r@, a@), dist as int),
        a.z == 0 && b.z == 0 ==> r.z == 0,
{
    let x = abs_diff_u128(b.x, a.x);
    let y = abs_diff_u128(b.y, a.y);
    let z = abs_diff_u128(b.z, a.z);
    if x == 0 && y == 0 && z == 0 {
        return Vec3d { x: a.x + dist, y: a.y, z: a.z };
    }
    proof {
        lemma_square_bound(b.x - a.x, x as int);
        lemma_square_bound(b.y - a.y, y as int);
        lemma_square_bound(b.z - a.z, z as int);
    }
    let n = x * x + y * y + z * z;
    proof {
        assert(n * PRECISION * PRECISION <= 12 * COORD_LIMIT * COORD_LIMIT * PRECISION
            * PRECISION) by (nonlinear_arith)
            requires
                0 <= n <= 12 * COORD_LIMIT * COORD_LIMIT,
        ;
        assert(1 <= n) by (nonlinear_arith)
            requires
                n == x * x + y * y + z * z,
                x > 0 || y > 0 || z > 0,
        ;
    }
    let l = isqrt(n * PRECISION * PRECISION);
    proof {
        lemma_root_at_least_precision(n as int, l as int);
        lemma_component_le_root(x as int, n as int, l as int);
        lemma_component_le_root(y as int, n as int, l as int);
        lemma_component_le_root(z as int, n as int, l as int);
    }
    let qx = scale_component(x, dist, l);
    let qy = scale_component(y, dist, l);
    let qz = scale_component(z, dist, l);
    let rx = if b.x >= a.x { a.x + qx as i64 } else { a.x - qx as i64 };
    let ry = if b.y >= a.y { a.y + qy as i64 } else { a.y - qy as i64 };
    let rz = if b.z >= a.z { a.z + qz as i64 } else { a.z - qz as i64 };
    Vec3d { x: rx, y: ry, z: rz }
}

/// `m * dist * PRECISION / l`, rounded down.
fn scale_component(m: u128, dist: i64, l: u128) -> (q: u128)
    requires
        0 <= dist <= COORD_LIMIT,
        m * PRECISION <= l,
        m <= 2 * COORD_LIMIT,
        l > 0,
    ensures
        q == (m * dist * PRECISION) / (l as int),
        q <= dist,
        m == 0 ==> q == 0,
{
    assert(m * dist * PRECISION <= 2 * COORD_LIMIT * COORD_LIMIT * PRECISION) by (nonlinear_arith)
        requires
            0 <= m <= 2 * COORD_LIMIT,
            0 <= dist <= COORD_LIMIT,
    ;
    let num = m * (dist as u128) * PRECISION;
    let q = num / l;
    assert(m == 0 ==> num == 0);
    proof {
        lemma_quotient_le(num as int, l as int, dist as int, m as int);
    }
    q
}

proof fn lemma_quotient_le(num: int, l: int, dist: int, m: int)
    requires
        l > 0,
        0 <= dist,
        0 <= m,
        m * PRECISION <= l,
        num == m * dist * PRECISION,
    ensures
        num / l <= dist,
{
    assert(num <= dist * l) by (nonlinear_arith)
        requires
            0 <= dist,
            0 <= m,
            m * PRECISION <= l,
            num == m * dist * PRECISION,
    ;
    vstd::arithmetic::div_mod::lemma_div_is_ordered(num, dist * l, l);
    vstd::arithmetic::div_mod::lemma_div_by_multiple(dist, l);
}

/// A coordinate difference, scaled by `PRECISION`, never exceeds the scaled
/// length of the whole difference.
proof fn lemma_component_le_root(m: int, n: int, l: int)
    requires
        0 <= m,
        0 <= l,
        m * m <= n,
        n * PRECISION * PRECISION < (l + 1) * (l + 1),
    ensures
        m * PRECISION <= l,
{
    assert(m * PRECISION <= l) by (nonlinear_arith)
        requires
            0 <= m,
            0 <= l,
            m * m <= n,
            n * PRECISION * PRECISION < (l + 1) * (l + 1),
            PRECISION > 0,
    ;
}

proof fn lemma_root_at_least_precision(n: int, l: int)
    requires
        1 <= n,
        0 <= l,
        n * PRECISION * PRECISION < (l + 1) * (l + 1),
    ensures
        PRECISION <= l,
{
    assert(PRECISION <= l) by (nonlinear_arith)
        requires
            1 <= n,
            0 <= l,
            n * PRECISION * PRECISION < (l + 1) * (l + 1),
            PRECISION > 0,
    ;
}

/// A vector whose coordinates lie in `[-lim, lim]` is shorter than `2 * lim`.
pub proof fn lemma_length_bound(p: Triple, lim: int, r: int)
    requires
        bounded(p, lim),
        0 <= r,
        r * r <= norm2(p),
    ensures
        r <= 2 * lim,
{
    assert(p.0 * p.0 <= lim * lim) by (nonlinear_arith)
        requires
            -lim <= p.0 <= lim,
    ;
    assert(p.1 * p.1 <= lim * lim) by (nonlinear_arith)
        requires
            -lim <= p.1 <= lim,
    ;
    assert(p.2 * p.2 <= lim * lim) by (nonlinear_arith)
        requires
            -lim <= p.2 <= lim,
    ;
    assert(r <= 2 * lim) by (nonlinear_arith)
        requires
            0 <= r,
            r * r <= 3 * (lim * lim),
            0 <= lim,
    ;
}

/// No coordinate exceeds the length of the vector.
pub proof fn lemma_coords_within_length(p: Triple, r: int)
    requires
        0 <= r,
        norm2(p) < (r + 1) * (r + 1),
    ensures
        bounded(p, r),
{
    assert(p.1 * p.1 >= 0 && p.2 * p.2 >= 0 && p.0 * p.0 >= 0) by (nonlinear_arith);
    assert(-r <= p.0 <= r) by (nonlinear_arith)
        requires
            0 <= r,
            p.0 * p.0 < (r + 1) * (r + 1),
    ;
    assert(-r <= p.1 <= r) by (nonlinear_arith)
        requires
            0 <= r,
            p.1 * p.1 < (r + 1) * (r + 1),
    ;
    assert(-r <= p.2 <= r) by (nonlinear_arith)
        requires
            0 <= r,
            p.2 * p.2 < (r + 1) * (r + 1),
    ;
}

proof fn lemma_root_below_facts(n: int, k: int)
    requires
        0 <= n,
        0 <= k,
        n < (k + 1) * (k + 1),
    ensures
        0 <= root_below(n, k),
        root_below(n, k) * root_below(n, k) <= n < (root_below(n, k) + 1) * (root_below(n, k) + 1),
    decreases k,
{
    if k > 0 && k * k > n {
        lemma_root_below_facts(n, k - 1);
    }
}

/// The square of `root(n)` is at most `n`, and the next square exceeds it.
pub proof fn lemma_root_facts(n: int)
    requires
        0 <= n,
    ensures
        0 <= root(n),
        root(n) * root(n) <= n < (root(n) + 1) * (root(n) + 1),
{
    assert(n < (n + 1) * (n + 1)) by (nonlinear_arith)
        requires
            0 <= n,
    ;
    lemma_root_below_facts(n, n);
}

/// One coordinate of a step: with `m = |d|` and `q = |scaled(d, s, l)|`,
/// `q * l` lies within `l` below `m * s * PRECISION`.
proof fn lemma_scaled_component(d: int, s: int, l: int)
    requires
        l > 0,
        0 <= s,
        (if d >= 0 { d } else { -d }) * PRECISION <= l,
    ensures
        ({
            let m = if d >= 0 { d } else { -d };
            let q = if d >= 0 { scaled(d, s, l) } else { -scaled(d, s, l) };
            &&& 0 <= q <= s
            &&& q * l <= m * s * PRECISION < (q + 1) * l
            &&& scaled(d, s, l) * scaled(d, s, l) == q * q
        }),
{
    let m = if d >= 0 {
        d
    } else {
        -d
    };
    let u = m * s * PRECISION;
    assert(u >= 0) by (nonlinear_arith)
        requires
            m >= 0,
            s >= 0,
            u == m * s * PRECISION,
    ;
    let q = u / l;
    vstd::arithmetic::div_mod::lemma_fundamental_div_mod(u, l);
    vstd::arithmetic::div_mod::lemma_div_pos_is_pos(u, l);
    assert(u <= s * l) by (nonlinear_arith)
        requires
            0 <= s,
            0 <= m,
            m * PRECISION <= l,
            u == m * s * PRECISION,
    ;
    vstd::arithmetic::div_mod::lemma_div_is_ordered(u, s * l, l);
    vstd::arithmetic::div_mod::lemma_div_by_multiple(s, l);
    assert(q * l <= u < (q + 1) * l) by (nonlinear_arith)
        requires
            u == l * (u / l) + u % l,
            0 <= u % l < l,
            q == u / l,
    ;
    let sc = scaled(d, s, l);
    let qq = if d >= 0 {
        sc
    } else {
        -sc
    };
    assert(qq == q);
    assert(sc * sc == qq * qq) by (nonlinear_arith)
        requires
            qq == sc || qq == -sc,
    ;
}

/// A point placed at distance `s` from `a` toward `b` lies at that distance
/// up to the rounding of its coordinates: its squared distance from `a`
/// exceeds `s * s - 6 * s - 3`, and its distance is at most
/// `s * (1 + 1 / PRECISION)`.
pub proof fn lemma_toward_distance(a: Triple, b: Triple, s: int)
    requires
        0 <= s,
    ensures
        s * s - 6 * s - 3 < dist2(toward(a, b, s), a),
        dist2(toward(a, b, s), a) * PRECISION * PRECISION <= s * s * (PRECISION + 1) * (
        PRECISION + 1),
{
    let d = diff(b, a);
    let r = toward(a, b, s);
    if d == (0int, 0int, 0int) {
        assert(diff(r, a) == (s, 0int, 0int));
        assert(s * s * PRECISION * PRECISION <= s * s * (PRECISION + 1) * (PRECISION + 1))
            by (nonlinear_arith);
    } else {
        let n = norm2(d);
        let k = PRECISION as int;
        assert(n >= 1) by (nonlinear_arith)
            requires
                n == d.0 * d.0 + d.1 * d.1 + d.2 * d.2,
                d.0 != 0 || d.1 != 0 || d.2 != 0,
        ;
        assert(n * k * k >= 0) by (nonlinear_arith)
            requires
                n >= 1,
        ;
        lemma_root_facts(n * k * k);
        let l = root(n * k * k);
        lemma_root_at_least_precision(n, l);
        let m0 = if d.0 >= 0 { d.0 } else { -d.0 };
        let m1 = if d.1 >= 0 { d.1 } else { -d.1 };
        let m2 = if d.2 >= 0 { d.2 } else { -d.2 };
        assert(m0 * m0 == d.0 * d.0 && m1 * m1 == d.1 * d.1 && m2 * m2 == d.2 * d.2)
            by (nonlinear_arith)
            requires
                m0 == d.0 || m0 == -d.0,
                m1 == d.1 || m1 == -d.1,
                m2 == d.2 || m2 == -d.2,
        ;
        assert(m0 * m0 <= n && m1 * m1 <= n && m2 * m2 <= n) by (nonlinear_arith)
            requires
                n == m0 * m0 + m1 * m1 + m2 * m2,
        ;
        lemma_component_le_root(m0, n, l);
        lemma_component_le_root(m1, n, l);
        lemma_component_le_root(m2, n, l);
        lemma_scaled_component(d.0, s, l);
        lemma_scaled_component(d.1, s, l);
        lemma_scaled_component(d.2, s, l);
        let q0 = if d.0 >= 0 { scaled(d.0, s, l) } else { -scaled(d.0, s, l) };
        let q1 = if d.1 >= 0 { scaled(d.1, s, l) } else { -scaled(d.1, s, l) };
        let q2 = if d.2 >= 0 { scaled(d.2, s, l) } else { -scaled(d.2, s, l) };
        let t = q0 * q0 + q1 * q1 + q2 * q2;
        assert(dist2(r, a) == t);
        let w = s * s * k * k;
        let u = w * n;
        lemma_sum_of_squares_bounds(m0, q0, s, l, k);
        lemma_sum_of_squares_bounds(m1, q1, s, l, k);
        lemma_sum_of_squares_bounds(m2, q2, s, l, k);
        lemma_square_product(m0, s, k);
        lemma_square_product(m1, s, k);
        lemma_square_product(m2, s, k);
        assert(u == m0 * m0 * w + m1 * m1 * w + m2 * m2 * w) by (nonlinear_arith)
            requires
                u == w * n,
                n == m0 * m0 + m1 * m1 + m2 * m2,
        ;
        // upper bound
        assert(t * l * l <= u) by (nonlinear_arith)
            requires
                q0 * q0 * l * l <= (m0 * s * k) * (m0 * s * k),
                q1 * q1 * l * l <= (m1 * s * k) * (m1 * s * k),
                q2 * q2 * l * l <= (m2 * s * k) * (m2 * s * k),
                t == q0 * q0 + q1 * q1 + q2 * q2,
                u == m0 * m0 * w + m1 * m1 * w + m2 * m2 * w,
                (m0 * s * k) * (m0 * s * k) == m0 * m0 * w,
                (m1 * s * k) * (m1 * s * k) == m1 * m1 * w,
                (m2 * s * k) * (m2 * s * k) == m2 * m2 * w,
        ;
        assert(u <= s * s * (l + 1) * (l + 1)) by (nonlinear_arith)
            requires
                u == w * n,
                w == s * s * k * k,
                0 <= s,
                n * k * k < (l + 1) * (l + 1),
        ;
        assert(s * s * (l + 1) * (l + 1) * k * k <= s * s * (k + 1) * (k + 1) * l * l)
            by (nonlinear_arith)
            requires
                k <= l,
                0 < k,
        ;
        assert(t * k * k <= s * s * (k + 1) * (k + 1)) by (nonlinear_arith)
            requires
                t * l * l <= s * s * (l + 1) * (l + 1),
                s * s * (l + 1) * (l + 1) * k * k <= s * s * (k + 1) * (k + 1) * l * l,
                l > 0,
                t >= 0,
        ;
        assert(dist2(r, a) * k * k <= s * s * (k + 1) * (k + 1));
        // lower bound
        assert(s * s * l * l <= u) by (nonlinear_arith)
            requires
                u == w * n,
                w == s * s * k * k,
                0 <= s,
                l * l <= n * k * k,
        ;
        assert(u < ((q0 + 1) * (q0 + 1) + (q1 + 1) * (q1 + 1) + (q2 + 1) * (q2 + 1)) * l * l)
            by (nonlinear_arith)
            requires
                (m0 * s * k) * (m0 * s * k) < (q0 + 1) * (q0 + 1) * l * l,
                (m1 * s * k) * (m1 * s * k) < (q1 + 1) * (q1 + 1) * l * l,
                (m2 * s * k) * (m2 * s * k) < (q2 + 1) * (q2 + 1) * l * l,
                u == m0 * m0 * w + m1 * m1 * w + m2 * m2 * w,
                (m0 * s * k) * (m0 * s * k) == m0 * m0 * w,
                (m1 * s * k) * (m1 * s * k) == m1 * m1 * w,
                (m2 * s * k) * (m2 * s * k) == m2 * m2 * w,
        ;
        assert(s * s < (q0 + 1) * (q0 + 1) + (q1 + 1) * (q1 + 1) + (q2 + 1) * (q2 + 1))
            by (nonlinear_arith)
            requires
                s * s * l * l < ((q0 + 1) * (q0 + 1) + (q1 + 1) * (q1 + 1) + (q2 + 1) * (q2 + 1))
                    * l * l,
                l > 0,
        ;
        assert(s * s - 6 * s - 3 < t) by (nonlinear_arith)
            requires
                s * s < (q0 + 1) * (q0 + 1) + (q1 + 1) * (q1 + 1) + (q2 + 1) * (q2 + 1),
                t == q0 * q0 + q1 * q1 + q2 * q2,
                0 <= q0 <= s,
                0 <= q1 <= s,
                0 <= q2 <= s,
        ;
    }
}

/// Squares of the bounds `q * l <= m * s * k < (q + 1) * l`.
proof fn lemma_square_product(m: int, s: int, k: int)
    ensures
        (m * s * k) * (m * s * k) == m * m * (s * s * k * k),
{
    assert((m * s * k) * (m * s * k) == m * m * (s * s * k * k)) by (nonlinear_arith);
}

proof fn lemma_sum_of_squares_bounds(m: int, q: int, s: int, l: int, k: int)
    requires
        0 < l,
        0 <= q,
        0 <= m,
        0 <= s,
        0 < k,
        q * l <= m * s * k < (q + 1) * l,
    ensures
        q * q * l * l <= (m * s * k) * (m * s * k),
        (m * s * k) * (m * s * k) < (q + 1) * (q + 1) * l * l,
{
    assert(0 <= q * l) by (nonlinear_arith)
        requires
            0 <= q,
            0 < l,
    ;
    assert(q * q * l * l <= (m * s * k) * (m * s * k)) by (nonlinear_arith)
        requires
            0 <= q * l <= m * s * k,
    ;
    assert(0 <= m * s * k) by (nonlinear_arith)
        requires
            0 <= m,
            0 <= s,
            0 < k,
    ;
    assert((m * s * k) * (m * s * k) < (q + 1) * (q + 1) * l * l) by (nonlinear_arith)
        requires
            0 <= m * s * k < (q + 1) * l,
    ;
}

fn abs_u128(v: i64) -> (r: u128)
    ensures
        r == if v >= 0 { v as int } else { -v },
{
    if v >= 0 {
        v as u128
    } else {
        (-(v as i128)) as u128
    }
}

fn abs_diff_u128(a: i64, b: i64) -> (r: u128)
    requires
        -COORD_LIMIT <= a <= COORD_LIMIT,
        -COORD_LIMIT <= b <= COORD_LIMIT,
    ensures
        r == if a - b >= 0 { a - b } else { b - a },
{
    if a >= b {
        (a as i128 - b as i128) as u128
    } else {
        (b as i128 - a as i128) as u128
    }
}

proof fn lemma_square_bound(v: int, m: int)
    requires
        -2 * COORD_LIMIT <= v <= 2 * COORD_LIMIT,
        m == if v >= 0 { v } else { -v },
    ensures
        m * m == v * v,
        0 <= m * m <= 4 * COORD_LIMIT * COORD_LIMIT,
{
    assert(0 <= m * m <= 4 * COORD_LIMIT * COORD_LIMIT) by (nonlinear_arith)
        requires
            0 <= m <= 2 * COORD_LIMIT,
            COORD_LIMIT > 0,
    ;
    assert(m * m == v * v) by (nonlinear_arith)
        requires
            m == v || m == -v,
    ;
}

proof fn lemma_root_bound(n: int, r: int)
    requires
        0 <= n <= 12 * COORD_LIMIT * COORD_LIMIT,
        0 <= r,
        r * r <= n,
    ensures
        r <= 4 * COORD_LIMIT,
{
    assert(r <= 4 * COORD_LIMIT) by (nonlinear_arith)
        requires
            0 <= r,
            r * r <= n,
            n <= 12 * COORD_LIMIT * COORD_LIMIT,
            COORD_LIMIT > 0,
    ;
}

} // verus!
