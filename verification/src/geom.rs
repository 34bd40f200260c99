use vstd::prelude::*;

verus! {

/// Fixed-point scale for unit direction vectors: a heading is stored as
/// `(dir_x, dir_y)` with `dir_x = round(cos(angle) * DIR_SCALE)`.
pub const DIR_SCALE: i32 = 1024;

/// Truncating (round-toward-zero) integer division, the convention used for
/// mapping world coordinates to grid cells.
pub open spec fn tdiv(n: int, d: int) -> int
    recommends
        d > 0,
{
    if n >= 0 {
        n / d
    } else {
        -((-n) / d)
    }
}

/// Executable truncating division on `i64`, matching `tdiv`.
pub fn tdiv64(n: i64, d: i64) -> (q: i64)
    requires
        0 < d,
        -0x4000_0000_0000_0000 < n < 0x4000_0000_0000_0000,
    ensures
        q == tdiv(n as int, d as int),
{
    if n >= 0 {
        ((n as u64) / (d as u64)) as i64
    } else {
        let m = (-n) as u64;
        -((m / (d as u64)) as i64)
    }
}

/// Executable truncating division on `i32`, matching `tdiv`.
pub fn tdiv32(n: i32, d: i32) -> (q: i32)
    requires
        0 < d,
        -0x4000_0000 < n < 0x4000_0000,
    ensures
        q == tdiv(n as int, d as int),
{
    if n >= 0 {
        ((n as u32) / (d as u32)) as i32
    } else {
        let m = (-n) as u32;
        -((m / (d as u32)) as i32)
    }
}

/// Squared Euclidean distance between two world points.
pub open spec fn dist2_spec(ax: int, ay: int, bx: int, by: int) -> int {
    (ax - bx) * (ax - bx) + (ay - by) * (ay - by)
}

/// Executable squared distance.
pub fn dist2(ax: i32, ay: i32, bx: i32, by: i32) -> (d: i64)
    requires
        -0x4000_0000 < ax < 0x4000_0000,
        -0x4000_0000 < ay < 0x4000_0000,
        -0x4000_0000 < bx < 0x4000_0000,
        -0x4000_0000 < by < 0x4000_0000,
    ensures
        d == dist2_spec(ax as int, ay as int, bx as int, by as int),
        d >= 0,
{
    let dx: i64 = (ax as i64) - (bx as i64);
    let dy: i64 = (ay as i64) - (by as i64);
    proof {
        assert(dx * dx >= 0) by (nonlinear_arith);
        assert(dy * dy >= 0) by (nonlinear_arith);
        assert(dx * dx < 0x8000_0000i64 * 0x8000_0000i64) by (nonlinear_arith)
            requires
                -0x8000_0000 < dx < 0x8000_0000,
        ;
        assert(dy * dy < 0x8000_0000i64 * 0x8000_0000i64) by (nonlinear_arith)
            requires
                -0x8000_0000 < dy < 0x8000_0000,
        ;
    }
    dx * dx + dy * dy
}

/// Floor of the square root of a nonnegative integer.
pub open spec fn is_isqrt(n: int, r: int) -> bool {
    0 <= r && r * r <= n < (r + 1) * (r + 1)
}

/// Executable integer square root (floor).
pub fn isqrt(n: u64) -> (r: u64)
    requires
        n < 0x4000_0000_0000_0000,
    ensures
        is_isqrt(n as int, r as int),
{
    let mut r: u64 = 0;
    loop
        invariant
            n < 0x4000_0000_0000_0000,
            r * r <= n,
        decreases n - r,
    {
        proof {
            assert(r < 0x8000_0000) by (nonlinear_arith)
                requires
                    r * r <= n < 0x4000_0000_0000_0000,
            ;
            assert((r + 1) * (r + 1) <= 0x4000_0000_0000_0000) by (nonlinear_arith)
                requires
                    r < 0x8000_0000,
            ;
        }
        if (r + 1) * (r + 1) > n {
            return r;
        }
        proof {
            assert(r < n - r) by (nonlinear_arith)
                requires
                    (r + 1) * (r + 1) <= n,
            ;
        }
        r = r + 1;
    }
}

/// One axis of a step of length `step` from `from` toward `to`, given the
/// distance `len` between the two points: the exact displacement is
/// `(to - from) * step / len`, truncated toward zero. A degenerate segment
/// (`len == 0`) yields no displacement.
pub open spec fn step_toward_spec(delta: int, step: int, len: int) -> int {
    if len == 0 {
        0
    } else {
        tdiv(delta * step, len)
    }
}

} // verus!
