//! Integer geometry primitives.
//!
//! Positions and radii are integer drawing units.  Circle containment,
//! disjointness and spacing are decided by comparing squared distances, so
//! those predicates are exact.  Where the layout engine needs a real
//! distance (force magnitudes, candidate scoring) it uses the integer
//! square root, and fractional factors are applied through `muldiv`, a
//! multiply-then-divide in thousandths that rounds toward zero.

use vstd::arithmetic::div_mod::{lemma_div_is_ordered, lemma_div_multiples_vanish};
use vstd::arithmetic::mul::lemma_mul_inequality;
use vstd::prelude::*;

verus! {

/// Largest coordinate the engine ever stores or returns; every computed
/// position is clamped into `[-COORD_LIMIT, COORD_LIMIT]`.
pub const COORD_LIMIT: i64 = 10_000_000;

/// Largest circle radius a well-formed document may hold; field expansion
/// saturates here.
pub const RADIUS_LIMIT: i64 = 1_000_000;

/// A project circle must stay this far inside each field it belongs to.
pub const MEMBER_MARGIN: i64 = 5;

/// Minimum free space required between two project circles.
pub const PROJECT_GAP: i64 = 15;

/// Minimum free space required between a project circle and a relation
/// arrow.
pub const ARROW_GAP: i64 = 25;

/// Bound under which all geometry helpers accept coordinates; comfortably
/// above `COORD_LIMIT` so that intermediate candidate points may overshoot.
pub const GEOM_BOUND: i64 = 100_000_000;

/// Saturation bound for accumulated forces and anchor moves, in
/// thousandths of a unit; far beyond anything a plausible document
/// produces.
pub const FORCE_CAP: i64 = 1_000_000_000_000_000;

pub open spec fn sq(x: int) -> int {
    x * x
}

pub open spec fn mag(x: int) -> int {
    if x >= 0 {
        x
    } else {
        -x
    }
}

/// Squared Euclidean distance between two points.
pub open spec fn dist2(ax: int, ay: int, bx: int, by: int) -> int {
    sq(ax - bx) + sq(ay - by)
}

/// Division rounding toward zero, the behaviour of `/` on Rust's signed
/// integers (spec `/` on `int` rounds toward negative infinity instead).
pub open spec fn tdiv(a: int, d: int) -> int
    recommends
        d > 0,
{
    if a >= 0 {
        a / d
    } else {
        -((-a) / d)
    }
}

/// `a * num / den` rounded toward zero; the engine's fixed-point scaling
/// primitive.
pub open spec fn muldiv(a: int, num: int, den: int) -> int
    recommends
        num >= 0,
        den > 0,
{
    tdiv(a * num, den)
}

pub open spec fn imax(a: int, b: int) -> int {
    if a >= b {
        a
    } else {
        b
    }
}

pub open spec fn imin(a: int, b: int) -> int {
    if a <= b {
        a
    } else {
        b
    }
}

pub open spec fn clamp(v: int, lo: int, hi: int) -> int
    recommends
        lo <= hi,
{
    if v < lo {
        lo
    } else if v > hi {
        hi
    } else {
        v
    }
}

/// `r` is the integer square root of `n`.
pub open spec fn is_sqrt_floor(n: int, r: int) -> bool {
    &&& 0 <= r
    &&& r * r <= n
    &&& n < (r + 1) * (r + 1)
}

/// The integer square root (well defined for `n >= 0` by
/// `lemma_sqrt_floor_unique`).
pub open spec fn sqrt_floor(n: int) -> int {
    choose|r: int| is_sqrt_floor(n, r)
}

pub proof fn lemma_sqrt_floor_unique(n: int, r: int)
    requires
        is_sqrt_floor(n, r),
    ensures
        sqrt_floor(n) == r,
{
    assert(is_sqrt_floor(n, sqrt_floor(n)));
    let s = sqrt_floor(n);
    if s < r {
        assert((s + 1) * (s + 1) <= r * r) by (nonlinear_arith)
            requires
                0 <= s,
                0 <= r,
                s + 1 <= r,
        ;
    }
    if r < s {
        assert((r + 1) * (r + 1) <= s * s) by (nonlinear_arith)
            requires
                0 <= s,
                0 <= r,
                r + 1 <= s,
        ;
    }
}

/// An integer square root is no larger than any `b` whose square bounds
/// its argument.
pub proof fn lemma_isqrt_le(n: int, r: int, b: int)
    requires
        is_sqrt_floor(n, r),
        n <= b * b,
        0 <= b,
    ensures
        r <= b,
{
    if r > b {
        assert(false) by (nonlinear_arith)
            requires
                0 <= b,
                b + 1 <= r,
                r * r <= n,
                n <= b * b,
        ;
    }
}

/// `muldiv` with `num <= den` cannot grow a value's magnitude.
pub proof fn lemma_muldiv_shrink(a: int, num: int, den: int)
    requires
        0 <= num <= den,
        0 < den,
    ensures
        mag(muldiv(a, num, den)) <= mag(a),
        mag(muldiv(a, num, den)) == mag(a) * num / den,
{
    lemma_tdiv_mag(a * num, den);
    assert(mag(a * num) == mag(a) * num) by (nonlinear_arith)
        requires
            num >= 0,
    ;
    lemma_mul_inequality(num, den, mag(a));
    assert(num * mag(a) == mag(a) * num) by (nonlinear_arith);
    assert(den * mag(a) == mag(a) * den) by (nonlinear_arith);
    lemma_div_is_ordered(mag(a) * num, mag(a) * den, den);
    lemma_div_multiples_vanish(mag(a), den);
}

/// General magnitude bound for `muldiv`.
pub proof fn lemma_muldiv_bound(a: int, num: int, den: int, abound: int, nbound: int)
    requires
        0 <= num <= nbound,
        0 < den,
        mag(a) <= abound,
    ensures
        mag(muldiv(a, num, den)) <= abound * nbound / den,
        mag(muldiv(a, num, den)) == mag(a) * num / den,
{
    lemma_tdiv_mag(a * num, den);
    assert(mag(a * num) == mag(a) * num) by (nonlinear_arith)
        requires
            num >= 0,
    ;
    assert(mag(a) * num <= abound * nbound) by (nonlinear_arith)
        requires
            0 <= num <= nbound,
            0 <= mag(a) <= abound,
    ;
    lemma_div_is_ordered(mag(a) * num, abound * nbound, den);
}

/// Rounding toward zero keeps the magnitude of the floor division of the
/// magnitude.
pub proof fn lemma_tdiv_mag(a: int, d: int)
    requires
        0 < d,
    ensures
        mag(tdiv(a, d)) == mag(a) / d,
{
    if a >= 0 {
        vstd::arithmetic::div_mod::lemma_div_pos_is_pos(a, d);
    } else {
        vstd::arithmetic::div_mod::lemma_div_pos_is_pos(-a, d);
    }
}

/// Integer square root by bisection; works for every non-negative `i64`.
pub fn isqrt(n: i64) -> (r: i64)
    requires
        n >= 0,
    ensures
        is_sqrt_floor(n as int, r as int),
        r == sqrt_floor(n as int),
{
    let mut lo: i64 = 0;
    let mut hi: i64 = 3_037_000_500;
    assert((hi as int) * (hi as int) > n as int) by (nonlinear_arith)
        requires
            hi == 3_037_000_500,
            n <= 0x7fff_ffff_ffff_ffff,
    ;
    while lo + 1 < hi
        invariant
            0 <= lo < hi <= 3_037_000_500,
            (lo as int) * (lo as int) <= n as int,
            (hi as int) * (hi as int) > n as int,
        decreases hi - lo,
    {
        let mid = lo + (hi - lo) / 2;
        proof {
            assert(0 <= (mid as int) * (mid as int) <= 0x8000_0000_0000_0000_0000)
                by (nonlinear_arith)
                requires
                    0 <= mid as int <= 3_037_000_500,
            ;
        }
        if (mid as i128) * (mid as i128) <= n as i128 {
            lo = mid;
        } else {
            hi = mid;
        }
    }
    proof {
        lemma_sqrt_floor_unique(n as int, lo as int);
    }
    lo
}

/// Clamp `v` into `[lo, hi]`.
pub fn clamp_i64(v: i64, lo: i64, hi: i64) -> (r: i64)
    requires
        lo <= hi,
    ensures
        r as int == clamp(v as int, lo as int, hi as int),
        lo <= r <= hi,
{
    if v < lo {
        lo
    } else if v > hi {
        hi
    } else {
        v
    }
}

/// `a * num / den`, computed in 128 bits, rounding toward zero.
pub fn muldiv_i64(a: i64, num: i64, den: i64) -> (r: i64)
    requires
        num >= 0,
        den > 0,
        mag(a as int) * (num as int) / (den as int) <= i64::MAX as int,
    ensures
        r as int == muldiv(a as int, num as int, den as int),
        mag(r as int) == mag(a as int) * (num as int) / (den as int),
{
    let ai: i128 = a as i128;
    let m: i128 = if ai >= 0 {
        ai
    } else {
        -ai
    };
    proof {
        assert(m as int == mag(a as int));
        assert(0 <= (m as int) * (num as int) <= 0x4000_0000_0000_0000_0000_0000_0000_0000)
            by (nonlinear_arith)
            requires
                0 <= m as int <= 0x8000_0000_0000_0000,
                0 <= num as int <= 0x8000_0000_0000_0000,
        ;
    }
    let q: i128 = (m * (num as i128)) / (den as i128);
    proof {
        lemma_tdiv_mag((a as int) * (num as int), den as int);
        assert(mag((a as int) * (num as int)) == mag(a as int) * (num as int))
            by (nonlinear_arith)
            requires
                num >= 0,
        ;
        assert(q as int == mag(a as int) * (num as int) / (den as int));
        vstd::arithmetic::div_mod::lemma_div_pos_is_pos(mag(a as int) * (num as int), den as int);
        assert((a as int) * (num as int) == if a >= 0 {
            mag(a as int) * (num as int)
        } else {
            -(mag(a as int) * (num as int))
        }) by (nonlinear_arith)
            requires
                num >= 0,
        ;
    }
    if a >= 0 {
        q as i64
    } else {
        -(q as i64)
    }
}

/// Point of the segment `a..b` nearest to `p`, on the integer grid:
/// the perpendicular-foot parameter is clamped to the segment and the
/// coordinates round toward `a`.
pub open spec fn seg_nearest(px: int, py: int, ax: int, ay: int, bx: int, by: int) -> (int, int)
    recommends
        dist2(ax, ay, bx, by) > 0,
{
    let len2 = dist2(ax, ay, bx, by);
    let dot = (px - ax) * (bx - ax) + (py - ay) * (by - ay);
    let t = clamp(dot, 0, len2);
    (ax + muldiv(bx - ax, t, len2), ay + muldiv(by - ay, t, len2))
}

/// The point `p` lies within `thr` units of the segment `a..b`.
/// A segment of length zero is ignored; on the integer grid that is the
/// only squared length under one, so every real segment takes part, as in
/// the proximity test the placement search layers on.
pub open spec fn near_segment(
    px: int,
    py: int,
    ax: int,
    ay: int,
    bx: int,
    by: int,
    thr: int,
) -> bool {
    let len2 = dist2(ax, ay, bx, by);
    &&& len2 >= 1
    &&& {
        let n = seg_nearest(px, py, ax, ay, bx, by);
        dist2(px, py, n.0, n.1) < thr * thr
    }
}

/// One step of the sampling spiral: rotate a direction vector (in
/// thousandths) by the golden angle, about 137.5 degrees.  The components
/// are clamped so the vector can never escape `[-1200, 1200]`; rounding
/// keeps its length near one thousand in practice.
pub open spec fn rot_dir(x: int, y: int) -> (int, int) {
    (
        clamp(tdiv(-737 * x - 675 * y, 1000), -1200, 1200),
        clamp(tdiv(675 * x - 737 * y, 1000), -1200, 1200),
    )
}

/// Direction of the `k`-th sample of the golden-angle spiral.
pub open spec fn spiral_dir(k: nat) -> (int, int)
    decreases k,
{
    if k == 0 {
        (1000, 0)
    } else {
        let d = spiral_dir((k - 1) as nat);
        rot_dir(d.0, d.1)
    }
}

pub proof fn lemma_spiral_dir_bounds(k: nat)
    ensures
        mag(spiral_dir(k).0) <= 1200,
        mag(spiral_dir(k).1) <= 1200,
{
    if k != 0 {
        let d = spiral_dir((k - 1) as nat);
    }
}

/// Offset radius of the `k`-th spiral sample: the square root of the
/// attempt number, scaled by `scale` units per step in tenths.
pub open spec fn spiral_radius(k: int, scale: int) -> int
    recommends
        k >= 0,
        scale >= 0,
{
    sqrt_floor(100 * k) * scale / 10
}

/// Division rounding toward zero.
pub fn tdiv_i64(a: i64, d: i64) -> (r: i64)
    requires
        d > 0,
        a > i64::MIN,
    ensures
        r as int == tdiv(a as int, d as int),
        mag(r as int) == mag(a as int) / (d as int),
{
    proof {
        lemma_tdiv_mag(a as int, d as int);
        vstd::arithmetic::div_mod::lemma_div_pos_is_pos(mag(a as int), d as int);
        vstd::arithmetic::div_mod::lemma_div_nonincreasing(mag(a as int), d as int);
    }
    if a >= 0 {
        a / d
    } else {
        -((-a) / d)
    }
}

/// Squared distance between two points, exact.
pub fn dist2_i64(ax: i64, ay: i64, bx: i64, by: i64) -> (r: i64)
    requires
        mag(ax as int) <= 10 * GEOM_BOUND as int,
        mag(ay as int) <= 10 * GEOM_BOUND as int,
        mag(bx as int) <= 10 * GEOM_BOUND as int,
        mag(by as int) <= 10 * GEOM_BOUND as int,
    ensures
        r as int == dist2(ax as int, ay as int, bx as int, by as int),
        r >= 0,
{
    let dx = ax - bx;
    let dy = ay - by;
    proof {
        assert(sq(dx as int) >= 0 && sq(dx as int) <= 4_000_000_000_000_000_000) by (nonlinear_arith)
            requires
                mag(dx as int) <= 2_000_000_000,
        ;
        assert(sq(dy as int) >= 0 && sq(dy as int) <= 4_000_000_000_000_000_000) by (nonlinear_arith)
            requires
                mag(dy as int) <= 2_000_000_000,
        ;
    }
    dx * dx + dy * dy
}

/// Whether `p` lies within `thr` units of the segment `a..b`, exact with
/// respect to `near_segment`.
pub fn point_near_segment(
    px: i64,
    py: i64,
    ax: i64,
    ay: i64,
    bx: i64,
    by: i64,
    thr: i64,
) -> (b: bool)
    requires
        mag(px as int) <= 10 * GEOM_BOUND as int,
        mag(py as int) <= 10 * GEOM_BOUND as int,
        mag(ax as int) <= GEOM_BOUND as int,
        mag(ay as int) <= GEOM_BOUND as int,
        mag(bx as int) <= GEOM_BOUND as int,
        mag(by as int) <= GEOM_BOUND as int,
        0 <= thr <= 2_000_000,
    ensures
        b == near_segment(px as int, py as int, ax as int, ay as int, bx as int, by as int, thr as int),
{
    let len2 = dist2_i64(ax, ay, bx, by);
    if len2 < 1 {
        return false;
    }
    let ex = bx - ax;
    let ey = by - ay;
    let ux = px - ax;
    let uy = py - ay;
    proof {
        assert(-300_000_000_000_000_000 <= (ux as int) * (ex as int) <= 300_000_000_000_000_000
            && -300_000_000_000_000_000 <= (uy as int) * (ey as int) <= 300_000_000_000_000_000)
            by (nonlinear_arith)
            requires
                -1_100_000_000 <= ux as int <= 1_100_000_000,
                -1_100_000_000 <= uy as int <= 1_100_000_000,
                -200_000_000 <= ex as int <= 200_000_000,
                -200_000_000 <= ey as int <= 200_000_000,
        ;
    }
    let dot = ux * ex + uy * ey;
    let t = clamp_i64(dot, 0, len2);
    proof {
        lemma_muldiv_shrink(ex as int, t as int, len2 as int);
        lemma_muldiv_shrink(ey as int, t as int, len2 as int);
    }
    let nx = ax + muldiv_i64(ex, t, len2);
    let ny = ay + muldiv_i64(ey, t, len2);
    let d2 = dist2_i64(px, py, nx, ny);
    proof {
        assert(0 <= (thr as int) * (thr as int) <= 4_000_000_000_000) by (nonlinear_arith)
            requires
                0 <= thr as int <= 2_000_000,
        ;
    }
    d2 < thr * thr
}

/// One golden-angle rotation of a spiral direction vector.
pub fn rot_step(x: i64, y: i64) -> (r: (i64, i64))
    requires
        mag(x as int) <= 1200,
        mag(y as int) <= 1200,
    ensures
        (r.0 as int, r.1 as int) == rot_dir(x as int, y as int),
        mag(r.0 as int) <= 1200,
        mag(r.1 as int) <= 1200,
{
    proof {
        assert(-2_000_000 <= -737 * (x as int) <= 2_000_000 && -2_000_000 <= 675 * (x as int)
            <= 2_000_000 && -2_000_000 <= -675 * (y as int) <= 2_000_000 && -2_000_000 <= -737 * (
        y as int) <= 2_000_000) by (nonlinear_arith)
            requires
                -1200 <= x as int <= 1200,
                -1200 <= y as int <= 1200,
        ;
    }
    let a = -737 * x - 675 * y;
    let b = 675 * x - 737 * y;
    let ta = if a >= 0 {
        a / 1000
    } else {
        -((-a) / 1000)
    };
    let tb = if b >= 0 {
        b / 1000
    } else {
        -((-b) / 1000)
    };
    (clamp_i64(ta, -1200, 1200), clamp_i64(tb, -1200, 1200))
}

/// Offset radius of the `k`-th spiral sample.
pub fn spiral_step_radius(k: i64, scale: i64) -> (r: i64)
    requires
        0 <= k <= 1000,
        0 <= scale <= 10,
    ensures
        r as int == spiral_radius(k as int, scale as int),
        0 <= r <= 400,
{
    let s = isqrt(100 * k);
    proof {
        if s > 317 {
            assert((s as int) * (s as int) > 100_000) by (nonlinear_arith)
                requires
                    s as int > 317,
            ;
        }
        assert(0 <= (s as int) * (scale as int) <= 3170) by (nonlinear_arith)
            requires
                0 <= s as int <= 317,
                0 <= scale as int <= 10,
        ;
    }
    s * scale / 10
}

} // verus!
