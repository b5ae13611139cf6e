//! Integer geometry: Euclidean distance between points with integer coordinates,
//! rounded to the nearest whole unit, and division rounded to the nearest integer.

use vstd::prelude::*;

verus! {

/// The largest distance that two points with `i32` coordinates can be apart,
/// rounded up to a power of two.
pub const DISTANCE_LIMIT: i64 = 0x2_0000_0000;

/// Squared Euclidean distance between two points.
pub open spec fn squared_distance(a: (i32, i32), b: (i32, i32)) -> int {
    (a.0 - b.0) * (a.0 - b.0) + (a.1 - b.1) * (a.1 - b.1)
}

/// `r` is the square root of `n` rounded to the nearest integer.
///
/// For `r >= 1` this is `(r - 1/2)^2 < n < (r + 1/2)^2`; as `n` is an integer
/// and neither bound is one, the bounds are `r^2 - r < n <= r^2 + r`. No tie can
/// occur, so the rounding mode plays no part.
pub open spec fn is_rounded_root(n: int, r: int) -> bool {
    &&& r >= 0
    &&& n <= r * r + r
    &&& (r == 0 || r * r - r < n)
}

/// The square root of `n`, rounded to the nearest integer.
pub open spec fn rounded_root(n: int) -> int {
    choose|r: int| is_rounded_root(n, r)
}

/// Euclidean distance between two points, rounded to the nearest integer.
pub open spec fn distance(a: (i32, i32), b: (i32, i32)) -> int {
    rounded_root(squared_distance(a, b))
}

/// `n / d` rounded to the nearest integer, halves rounded up, for `n >= 0` and
/// `d > 0`.
pub open spec fn rounded_quotient(n: int, d: int) -> int {
    (2 * n + d) / (2 * d)
}

proof fn lemma_root_order(n: int, r: int, s: int)
    requires
        is_rounded_root(n, r),
        is_rounded_root(n, s),
    ensures
        r <= s,
{
    if s < r {
        assert(s * s + s <= r * r - r) by (nonlinear_arith)
            requires
                0 <= s,
                s + 1 <= r,
        ;
    }
}

/// A number has at most one rounded root: whatever meets `is_rounded_root` is
/// `rounded_root`.
pub proof fn lemma_rounded_root_unique(n: int, r: int)
    requires
        is_rounded_root(n, r),
    ensures
        rounded_root(n) == r,
{
    let s = rounded_root(n);
    lemma_root_order(n, r, s);
    lemma_root_order(n, s, r);
}

/// The distance of a point to itself is zero, and only that distance is.
pub proof fn lemma_distance_zero(a: (i32, i32), b: (i32, i32))
    ensures
        distance(a, b) == 0 <==> a == b,
{
    let n = squared_distance(a, b);
    let dx = a.0 - b.0;
    let dy = a.1 - b.1;
    assert(dx * dx >= 0 && dy * dy >= 0) by (nonlinear_arith);
    if a == b {
        assert(is_rounded_root(n, 0));
        lemma_rounded_root_unique(n, 0);
    } else {
        assert(n >= 1) by (nonlinear_arith)
            requires
                n == dx * dx + dy * dy,
                dx != 0 || dy != 0,
        ;
        if distance(a, b) == 0 {
            lemma_squared_distance_bounds(a, b);
            lemma_root_exists(n);
            assert(is_rounded_root(n, 0));
        }
    }
}

/// Squared distances between points with `i32` coordinates stay below `2^65`.
pub proof fn lemma_squared_distance_bounds(a: (i32, i32), b: (i32, i32))
    ensures
        0 <= squared_distance(a, b) <= 0x2_0000_0000_0000_0000,
{
    let dx = a.0 - b.0;
    let dy = a.1 - b.1;
    assert(0 <= dx * dx <= 0x1_0000_0000_0000_0000) by (nonlinear_arith)
        requires
            -0x1_0000_0000 <= dx <= 0x1_0000_0000,
    ;
    assert(0 <= dy * dy <= 0x1_0000_0000_0000_0000) by (nonlinear_arith)
        requires
            -0x1_0000_0000 <= dy <= 0x1_0000_0000,
    ;
}

/// Every natural number has a rounded root, and it is no larger than the number.
pub proof fn lemma_root_exists(n: int)
    requires
        0 <= n,
    ensures
        is_rounded_root(n, rounded_root(n)),
        rounded_root(n) <= n,
    decreases n,
{
    if n == 0 {
        assert(is_rounded_root(0, 0));
        lemma_rounded_root_unique(0, 0);
    } else {
        lemma_root_exists(n - 1);
        let r = rounded_root(n - 1);
        if n <= r * r + r {
            assert(r != 0) by (nonlinear_arith)
                requires
                    1 <= n <= r * r + r,
            ;
            assert(is_rounded_root(n, r));
        } else {
            assert((r + 1) * (r + 1) - (r + 1) == r * r + r) by (nonlinear_arith);
            assert((r + 1) * (r + 1) + (r + 1) >= r * r + r + 1) by (nonlinear_arith)
                requires
                    r >= 0,
            ;
            assert(is_rounded_root(n, r + 1));
            assert(r + 1 <= n) by (nonlinear_arith)
                requires
                    r >= 0,
                    n > r * r + r,
            ;
        }
        let w = if n <= r * r + r { r } else { r + 1 };
        lemma_rounded_root_unique(n, w);
    }
}

/// Distances between points with `i32` coordinates lie in `0 ..= DISTANCE_LIMIT`.
pub proof fn lemma_distance_bounds(a: (i32, i32), b: (i32, i32))
    ensures
        0 <= distance(a, b) <= DISTANCE_LIMIT,
{
    let n = squared_distance(a, b);
    lemma_squared_distance_bounds(a, b);
    lemma_root_exists(n);
    let r = distance(a, b);
    if r > DISTANCE_LIMIT {
        assert(r * r - r >= 0x2_0000_0000_0000_0000) by (nonlinear_arith)
            requires
                r >= 0x2_0000_0001,
        ;
    }
}

/// The product of two sums of squares is no less than the square of the sum of
/// the products.
proof fn lemma_products(u: int, v: int, x: int, y: int)
    ensures
        (u * u + v * v) * (x * x + y * y) >= (u * x + v * y) * (u * x + v * y),
{
    let a = u * x;
    let b = v * y;
    let c = u * y;
    let d = v * x;
    assert((u * u + v * v) * (x * x + y * y) == (u * u) * (x * x) + (u * u) * (y * y) + (v * v) * (x * x) + (v
        * v) * (y * y)) by (nonlinear_arith);
    assert((u * u) * (x * x) == a * a) by (nonlinear_arith)
        requires
            a == u * x,
    ;
    assert((v * v) * (y * y) == b * b) by (nonlinear_arith)
        requires
            b == v * y,
    ;
    assert((u * u) * (y * y) == c * c) by (nonlinear_arith)
        requires
            c == u * y,
    ;
    assert((v * v) * (x * x) == d * d) by (nonlinear_arith)
        requires
            d == v * x,
    ;
    assert(a * b == c * d) by (nonlinear_arith)
        requires
            a == u * x,
            b == v * y,
            c == u * y,
            d == v * x,
    ;
    assert((a + b) * (a + b) == a * a + 2 * (a * b) + b * b) by (nonlinear_arith);
    assert((c - d) * (c - d) == c * c - 2 * (c * d) + d * d) by (nonlinear_arith);
    assert((c - d) * (c - d) >= 0) by (nonlinear_arith);
}

/// The rounded roots of two numbers bound that of a number that is their sum
/// and twice a number whose square is no more than their product.
proof fn lemma_root_of_sum(m: int, n: int, p: int, r: int, s: int, t: int)
    requires
        0 <= m,
        0 <= n,
        p * p <= m * n,
        is_rounded_root(m, r),
        is_rounded_root(n, s),
        is_rounded_root(m + n + 2 * p, t),
    ensures
        t <= r + s + 1,
{
    if t >= r + s + 2 {
        let a = 2 * r + 1;
        let b = 2 * s + 1;
        let c = 2 * t - 1;
        assert(4 * m < a * a) by (nonlinear_arith)
            requires
                m <= r * r + r,
                a == 2 * r + 1,
        ;
        assert(4 * n < b * b) by (nonlinear_arith)
            requires
                n <= s * s + s,
                b == 2 * s + 1,
        ;
        assert(c * c < 4 * (m + n + 2 * p)) by (nonlinear_arith)
            requires
                t * t - t < m + n + 2 * p,
                c == 2 * t - 1,
        ;
        assert(c * c >= a * a + 2 * (a * b) + b * b) by (nonlinear_arith)
            requires
                c >= a + b,
                a >= 1,
                b >= 1,
        ;
        assert(a * b >= 1) by (nonlinear_arith)
            requires
                a >= 1,
                b >= 1,
        ;
        assert(4 * p > a * b);
        assert((4 * p) * (4 * p) > (a * b) * (a * b)) by (nonlinear_arith)
            requires
                4 * p > a * b,
                a * b >= 1,
        ;
        assert((a * b) * (a * b) >= (4 * m) * (4 * n)) by (nonlinear_arith)
            requires
                4 * m < a * a,
                4 * n < b * b,
                0 <= m,
                0 <= n,
        ;
        assert((4 * p) * (4 * p) == 16 * (p * p) && (4 * m) * (4 * n) == 16 * (m * n)) by (nonlinear_arith);
    }
}

/// By way of a third point it is no less far than straight, but for one unit of
/// rounding.
pub proof fn lemma_distance_triangle(a: (i32, i32), b: (i32, i32), c: (i32, i32))
    ensures
        distance(a, c) <= distance(a, b) + distance(b, c) + 1,
{
    let u = b.0 - a.0;
    let v = b.1 - a.1;
    let x = c.0 - b.0;
    let y = c.1 - b.1;
    let m = squared_distance(a, b);
    let n = squared_distance(b, c);
    let p = u * x + v * y;
    lemma_squared_distance_bounds(a, b);
    lemma_squared_distance_bounds(b, c);
    lemma_squared_distance_bounds(a, c);
    lemma_root_exists(m);
    lemma_root_exists(n);
    lemma_root_exists(squared_distance(a, c));
    lemma_products(u, v, x, y);
    assert(m == u * u + v * v) by (nonlinear_arith)
        requires
            m == (a.0 - b.0) * (a.0 - b.0) + (a.1 - b.1) * (a.1 - b.1),
            u == b.0 - a.0,
            v == b.1 - a.1,
    ;
    assert(n == x * x + y * y) by (nonlinear_arith)
        requires
            n == (b.0 - c.0) * (b.0 - c.0) + (b.1 - c.1) * (b.1 - c.1),
            x == c.0 - b.0,
            y == c.1 - b.1,
    ;
    assert(squared_distance(a, c) == m + n + 2 * p) by (nonlinear_arith)
        requires
            squared_distance(a, c) == (a.0 - c.0) * (a.0 - c.0) + (a.1 - c.1) * (a.1 - c.1),
            m == u * u + v * v,
            n == x * x + y * y,
            p == u * x + v * y,
            u == b.0 - a.0,
            v == b.1 - a.1,
            x == c.0 - b.0,
            y == c.1 - b.1,
    ;
    lemma_root_of_sum(m, n, p, distance(a, b), distance(b, c), distance(a, c));
}

/// Euclidean distance between `a` and `b`, rounded to the nearest integer.
///
/// The root is found by bisection on integers, so the result is exact for all
/// coordinates.
pub fn dist(a: (i32, i32), b: (i32, i32)) -> (d: i64)
    ensures
        d == distance(a, b),
        0 <= d <= DISTANCE_LIMIT,
{
    let dx: i128 = a.0 as i128 - b.0 as i128;
    let dy: i128 = a.1 as i128 - b.1 as i128;
    proof {
        lemma_squared_distance_bounds(a, b);
        assert(0 <= dx * dx <= 0x1_0000_0000_0000_0000) by (nonlinear_arith)
            requires
                -0x1_0000_0000 <= dx <= 0x1_0000_0000,
        ;
        assert(0 <= dy * dy <= 0x1_0000_0000_0000_0000) by (nonlinear_arith)
            requires
                -0x1_0000_0000 <= dy <= 0x1_0000_0000,
        ;
    }
    let n: i128 = dx * dx + dy * dy;
    let mut lo: i128 = 0;
    let mut hi: i128 = 0x2_0000_0000;
    assert(n <= hi * hi + hi) by (nonlinear_arith)
        requires
            hi == 0x2_0000_0000,
            n <= 0x2_0000_0000_0000_0000,
    ;
    while lo < hi
        invariant
            0 <= lo <= hi <= 0x2_0000_0000,
            n == squared_distance(a, b),
            n <= hi * hi + hi,
            lo == 0 || (lo - 1) * (lo - 1) + (lo - 1) < n,
        decreases hi - lo,
    {
        let mid: i128 = lo + (hi - lo) / 2;
        assert(0 <= mid * mid <= 0x4_0000_0000_0000_0000) by (nonlinear_arith)
            requires
                0 <= mid <= 0x2_0000_0000,
        ;
        if n <= mid * mid + mid {
            hi = mid;
        } else {
            lo = mid + 1;
        }
    }
    proof {
        assert((lo - 1) * (lo - 1) + (lo - 1) == lo * lo - lo) by (nonlinear_arith);
        assert(is_rounded_root(n as int, lo as int));
        lemma_rounded_root_unique(n as int, lo as int);
    }
    lo as i64
}

/// `n / d` rounded to the nearest integer, halves rounded up.
pub(crate) fn round_div(n: i64, d: i64) -> (q: i64)
    requires
        0 <= n <= 0x1000_0000_0000_0000,
        0 < d <= 0x1_0000_0000,
    ensures
        q == rounded_quotient(n as int, d as int),
        0 <= q <= n + 1,
{
    let q: i64 = (2 * n + d) / (2 * d);
    proof {
        let a = 2 * n + d;
        let b = 2 * d;
        assert(0 <= a / b <= a) by (nonlinear_arith)
            requires
                0 <= a,
                1 <= b,
        ;
        assert(a / b <= n + 1) by (nonlinear_arith)
            requires
                a == 2 * n + d,
                b == 2 * d,
                0 <= n,
                0 < d,
        ;
    }
    q
}

} // verus!
