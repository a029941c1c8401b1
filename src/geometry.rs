//! Fixed-point points and the integer square roots that measure them.
use vstd::prelude::*;

verus! {

/// A point of the plane in fixed-point steps, relative to the arena's centre.
#[derive(Clone, Copy, PartialEq, Eq, Structural, Debug)]
pub struct Point {
    pub x: i64,
    pub y: i64,
}

/// The squared distance between two points.
pub open spec fn dist2(a: Point, b: Point) -> int {
    (a.x - b.x) * (a.x - b.x) + (a.y - b.y) * (a.y - b.y)
}

/// The squared distance of a point from the arena's centre.
pub open spec fn norm2(a: Point) -> int {
    a.x * a.x + a.y * a.y
}

pub open spec fn is_floor_sqrt(n: int, r: int) -> bool {
    0 <= r && r * r <= n && n < (r + 1) * (r + 1)
}

/// The largest integer whose square does not exceed `n`.
pub open spec fn floor_sqrt(n: int) -> int {
    choose|r: int| is_floor_sqrt(n, r)
}

/// The smallest integer whose square is at least `n`.
pub open spec fn ceil_sqrt(n: int) -> int {
    let f = floor_sqrt(n);
    if f * f == n { f } else { f + 1 }
}

pub open spec fn abs(v: int) -> int {
    if v < 0 { -v } else { v }
}

/// `v * num / den` rounded towards zero.
pub open spec fn scaled(v: int, num: int, den: int) -> int {
    if v >= 0 { v * num / den } else { -((-v) * num / den) }
}

pub proof fn lemma_floor_sqrt_unique(n: int, r: int, s: int)
    requires
        is_floor_sqrt(n, r),
        is_floor_sqrt(n, s),
    ensures
        r == s,
{
    if r < s {
        assert((r + 1) * (r + 1) <= s * s) by (nonlinear_arith)
            requires 0 <= r + 1 <= s;
    } else if s < r {
        assert((s + 1) * (s + 1) <= r * r) by (nonlinear_arith)
            requires 0 <= s + 1 <= r;
    }
}

pub proof fn lemma_floor_sqrt(n: int, r: int)
    requires
        is_floor_sqrt(n, r),
    ensures
        floor_sqrt(n) == r,
{
    let f = floor_sqrt(n);
    assert(is_floor_sqrt(n, f));
    lemma_floor_sqrt_unique(n, r, f);
}

/// The bound below which `floor_root` works.
pub const ROOT_LIMIT: u128 = 0x10_0000_0000_0000_0000_0000_0000_0000;

/// Integer square root, rounded down.
pub fn floor_root(n: u128) -> (r: u128)
    requires
        n < ROOT_LIMIT,
    ensures
        r == floor_sqrt(n as int),
        is_floor_sqrt(n as int, r as int),
        r <= 0x400_0000_0000_0000,
{
    let mut lo: u128 = 0;
    let mut hi: u128 = 0x400_0000_0000_0000;
    assert(hi * hi == ROOT_LIMIT);
    while hi - lo > 1
        invariant
            lo < hi <= 0x400_0000_0000_0000,
            lo * lo <= n,
            n < hi * hi,
        decreases hi - lo,
    {
        let mid = lo + (hi - lo) / 2;
        assert(mid * mid <= 0x400_0000_0000_0000 * 0x400_0000_0000_0000) by (nonlinear_arith)
            requires mid <= 0x400_0000_0000_0000;
        if mid * mid <= n {
            lo = mid;
        } else {
            hi = mid;
        }
    }
    proof {
        assert(hi == lo + 1);
        lemma_floor_sqrt(n as int, lo as int);
    }
    lo
}

/// Integer square root, rounded up.
pub fn ceil_root(n: u128) -> (r: u128)
    requires
        n < ROOT_LIMIT,
    ensures
        r == ceil_sqrt(n as int),
        n <= r * r,
        r > 0 ==> (r - 1) * (r - 1) < n,
        r <= 0x400_0000_0000_0000,
        r > 0 <==> n > 0,
{
    let f = floor_root(n);
    assert(f * f <= 0x400_0000_0000_0000 * 0x400_0000_0000_0000) by (nonlinear_arith)
        requires f <= 0x400_0000_0000_0000;
    if f * f == n {
        assert(f > 0 <==> n > 0) by (nonlinear_arith)
            requires f * f == n, f >= 0;
        assert(f > 0 ==> (f - 1) * (f - 1) < f * f) by (nonlinear_arith)
            requires f >= 0;
        f
    } else {
        f + 1
    }
}

/// Half of `v`, rounded down.
pub fn half(v: i64) -> (r: i64)
    requires
        abs(v as int) < 0x4000_0000_0000_0000,
    ensures
        r == v as int / 2,
{
    let shifted = (v + 0x4000_0000_0000_0000) as u64;
    (shifted / 2) as i64 - 0x2000_0000_0000_0000
}

pub proof fn lemma_scaled_bound(v: int, num: int, den: int)
    requires
        0 < den,
        0 <= num,
        abs(v) <= den,
    ensures
        abs(scaled(v, num, den)) <= num,
        abs(scaled(v, num, den)) * den <= abs(v) * num,
        abs(scaled(v, num, den)) == abs(v) * num / den,
{
    let a = abs(v);
    let q = a * num / den;
    assert(a * num <= den * num) by (nonlinear_arith)
        requires a <= den, num >= 0;
    vstd::arithmetic::div_mod::lemma_div_is_ordered(a * num, den * num, den);
    vstd::arithmetic::div_mod::lemma_div_multiples_vanish(num, den);
    vstd::arithmetic::div_mod::lemma_fundamental_div_mod(a * num, den);
    assert(0 <= (a * num) % den) by {
        vstd::arithmetic::div_mod::lemma_mod_bound(a * num, den);
    }
    assert(q * den == den * q) by (nonlinear_arith);
    assert(0 <= q) by {
        vstd::arithmetic::div_mod::lemma_div_pos_is_pos(a * num, den);
    }
}

/// `v * num / den` rounded towards zero, for `|v| <= den`.
pub fn scale(v: i64, num: i64, den: i64) -> (r: i64)
    requires
        0 < den,
        0 <= num < 0x1_0000_0000,
        abs(v as int) <= den,
    ensures
        r == scaled(v as int, num as int, den as int),
        abs(r as int) <= num,
        abs(r as int) * den <= abs(v as int) * num,
{
    proof {
        lemma_scaled_bound(v as int, num as int, den as int);
    }
    let a: u128 = if v >= 0 { v as u128 } else { (-(v as i128)) as u128 };
    let n = num as u128;
    assert(a * n <= 0x8000_0000_0000_0000 * 0x1_0000_0000) by (nonlinear_arith)
        requires a <= 0x8000_0000_0000_0000, n < 0x1_0000_0000;
    let q = a * n / (den as u128);
    if v >= 0 {
        q as i64
    } else {
        -(q as i64)
    }
}

pub proof fn lemma_abs_le_root(x: int, n: int, c: int)
    requires
        x * x <= n,
        n <= c * c,
        0 <= c,
    ensures
        abs(x) <= c,
{
    lemma_abs_square(x);
    if abs(x) > c {
        let a = abs(x);
        assert(c * c < a * a) by (nonlinear_arith)
            requires 0 <= c < a;
    }
}

/// A point scaled by `m / c`, with `c` at least its distance from the
/// centre, lies within `m` of the centre.
pub proof fn lemma_contain(px: int, py: int, m: int, c: int)
    requires
        0 < c,
        0 <= m,
        px * px + py * py <= c * c,
    ensures
        abs(px) <= c,
        abs(py) <= c,
        scaled(px, m, c) * scaled(px, m, c) + scaled(py, m, c) * scaled(py, m, c) <= m * m,
{
    assert(px * px <= c * c && py * py <= c * c) by (nonlinear_arith)
        requires px * px + py * py <= c * c;
    lemma_abs_le_root(px, c * c, c);
    lemma_abs_le_root(py, c * c, c);
    lemma_scaled_bound(px, m, c);
    lemma_scaled_bound(py, m, c);
    let sx = scaled(px, m, c);
    let sy = scaled(py, m, c);
    let qx = abs(sx);
    let qy = abs(sy);
    let ax = abs(px);
    let ay = abs(py);
    lemma_abs_square(sx);
    lemma_abs_square(sy);
    lemma_abs_square(px);
    lemma_abs_square(py);
    assert((qx * c) * (qx * c) <= (ax * m) * (ax * m)) by (nonlinear_arith)
        requires 0 <= qx * c <= ax * m;
    assert((qy * c) * (qy * c) <= (ay * m) * (ay * m)) by (nonlinear_arith)
        requires 0 <= qy * c <= ay * m;
    assert((qx * c) * (qx * c) == (qx * qx) * (c * c)) by (nonlinear_arith);
    assert((qy * c) * (qy * c) == (qy * qy) * (c * c)) by (nonlinear_arith);
    assert((ax * m) * (ax * m) == (ax * ax) * (m * m)) by (nonlinear_arith);
    assert((ay * m) * (ay * m) == (ay * ay) * (m * m)) by (nonlinear_arith);
    let q2 = qx * qx + qy * qy;
    let a2 = ax * ax + ay * ay;
    let c2 = c * c;
    let m2 = m * m;
    assert(q2 * c2 == (qx * qx) * c2 + (qy * qy) * c2) by (nonlinear_arith)
        requires q2 == qx * qx + qy * qy;
    assert(a2 * m2 == (ax * ax) * m2 + (ay * ay) * m2) by (nonlinear_arith)
        requires a2 == ax * ax + ay * ay;
    assert(q2 * c2 <= a2 * m2);
    assert(a2 * m2 <= c2 * m2) by (nonlinear_arith)
        requires a2 <= c2, 0 <= m2;
    assert(0 < c2) by (nonlinear_arith)
        requires 0 < c, c2 == c * c;
    assert(q2 <= m2) by (nonlinear_arith)
        requires q2 * c2 <= c2 * m2, 0 < c2;
}

pub proof fn lemma_abs_square(x: int)
    ensures
        abs(x) * abs(x) == x * x,
        abs(x) >= 0,
{
    if x < 0 {
        assert((-x) * (-x) == x * x) by (nonlinear_arith);
    }
}

} // verus!
