use vstd::prelude::*;

use crate::maze::Maze;

verus! {

/// Coordinate magnitude accepted by the line-of-sight tracer.
pub const LOS_COORD_LIMIT: i32 = 8_000_000;

/// Sampling step along a sight line: a quarter of a cell, at least 2 world
/// units.
pub open spec fn los_step(bs: int) -> int {
    if bs / 4 > 2 {
        bs / 4
    } else {
        2
    }
}

/// Number of inter-sample gaps used for the segment; spaced so that
/// consecutive samples are never farther apart than `los_step`.
pub open spec fn los_gaps(x0: int, y0: int, x1: int, y1: int, bs: int) -> int {
    let ax = if x1 >= x0 {
        x1 - x0
    } else {
        x0 - x1
    };
    let ay = if y1 >= y0 {
        y1 - y0
    } else {
        y0 - y1
    };
    let li = if ax >= ay {
        ax
    } else {
        ay
    };
    (2 * li + los_step(bs) - 1) / los_step(bs)
}

/// Whether sample `k` of `n` of the segment lies in a blocking cell. The
/// sample point is the exact rational point scaled by `n`, truncated.
pub open spec fn los_sample_blocked(
    m: Maze,
    x0: int,
    y0: int,
    x1: int,
    y1: int,
    n: int,
    k: int,
) -> bool {
    let xs = x0 * n + (x1 - x0) * k;
    let ys = y0 * n + (y1 - y0) * k;
    if xs < 0 || ys < 0 {
        true
    } else {
        m.blocking(xs / (n * m.spec_block_size()), ys / (n * m.spec_block_size()))
    }
}

/// A sight line holds when no sampled point of the segment lies in a
/// blocking cell; a degenerate segment (both endpoints equal) always holds.
pub open spec fn los_spec(m: Maze, x0: int, y0: int, x1: int, y1: int) -> bool {
    if x0 == x1 && y0 == y1 {
        true
    } else {
        forall|k: int|
            0 <= k <= los_gaps(x0, y0, x1, y1, m.spec_block_size()) ==> !(#[trigger] los_sample_blocked(
                m,
                x0,
                y0,
                x1,
                y1,
                los_gaps(x0, y0, x1, y1, m.spec_block_size()),
                k,
            ))
    }
}

/// Samples the straight segment between two world points and reports whether
/// every sample lies in a non-blocking cell.
#[verifier::loop_isolation(false)]
pub fn has_los(m: &Maze, x0: i32, y0: i32, x1: i32, y1: i32) -> (r: bool)
    requires
        m.wf(),
        -LOS_COORD_LIMIT <= x0 <= LOS_COORD_LIMIT,
        -LOS_COORD_LIMIT <= y0 <= LOS_COORD_LIMIT,
        -LOS_COORD_LIMIT <= x1 <= LOS_COORD_LIMIT,
        -LOS_COORD_LIMIT <= y1 <= LOS_COORD_LIMIT,
    ensures
        r == los_spec(*m, x0 as int, y0 as int, x1 as int, y1 as int),
{
    if x0 == x1 && y0 == y1 {
        return true;
    }
    let bs = m.block_size();
    let step: i64 = {
        let q = (bs as u32) / 4;
        if q > 2 {
            q as i64
        } else {
            2
        }
    };
    let dx: i64 = (x1 as i64) - (x0 as i64);
    let dy: i64 = (y1 as i64) - (y0 as i64);
    let ax: i64 = if dx >= 0 {
        dx
    } else {
        -dx
    };
    let ay: i64 = if dy >= 0 {
        dy
    } else {
        -dy
    };
    let li: i64 = if ax >= ay {
        ax
    } else {
        ay
    };
    let n: i64 = (((2 * li + step - 1) as u64) / (step as u64)) as i64;
    let ghost gn = los_gaps(x0 as int, y0 as int, x1 as int, y1 as int, m.spec_block_size());
    proof {
        assert(n == gn);
        assert(li >= 1);
        assert(1 <= n <= 0x2000000) by {
            assert(1 <= ((2 * li + step - 1) as int) / (step as int) <= li + 1) by (nonlinear_arith)
                requires
                    1 <= li <= 0x1000000,
                    2 <= step <= 1024,
            ;
        }
    }
    let width = m.width() as i64;
    let height = m.height() as i64;
    let mut k: i64 = 0;
    while k <= n
        invariant
            1 <= n <= 0x2000000,
            0 <= k <= n + 1,
            forall|k0: int|
                0 <= k0 < k ==> !(#[trigger] los_sample_blocked(
                    *m,
                    x0 as int,
                    y0 as int,
                    x1 as int,
                    y1 as int,
                    n as int,
                    k0,
                )),
        decreases n + 1 - k,
    {
        proof {
            assert(-0x800000i64 * 0x2000000 <= (x0 as i64) * n <= 0x800000i64 * 0x2000000)
                by (nonlinear_arith)
                requires
                    -0x800000 <= x0 as i64 <= 0x800000,
                    1 <= n <= 0x2000000,
            ;
            assert(-0x800000i64 * 0x2000000 <= (y0 as i64) * n <= 0x800000i64 * 0x2000000)
                by (nonlinear_arith)
                requires
                    -0x800000 <= y0 as i64 <= 0x800000,
                    1 <= n <= 0x2000000,
            ;
            assert(-0x1000000i64 * 0x2000000 <= dx * k <= 0x1000000i64 * 0x2000000)
                by (nonlinear_arith)
                requires
                    -0x1000000 <= dx <= 0x1000000,
                    0 <= k <= 0x2000000,
            ;
            assert(-0x1000000i64 * 0x2000000 <= dy * k <= 0x1000000i64 * 0x2000000)
                by (nonlinear_arith)
                requires
                    -0x1000000 <= dy <= 0x1000000,
                    0 <= k <= 0x2000000,
            ;
            assert(n <= n * m.spec_block_size() <= 0x2000000i64 * 1024) by (nonlinear_arith)
                requires
                    1 <= n <= 0x2000000,
                    1 <= m.spec_block_size() <= 1024,
            ;
        }
        let xs: i64 = (x0 as i64) * n + dx * k;
        let ys: i64 = (y0 as i64) * n + dy * k;
        if xs < 0 || ys < 0 {
            proof {
                assert(los_sample_blocked(
                    *m,
                    x0 as int,
                    y0 as int,
                    x1 as int,
                    y1 as int,
                    n as int,
                    k as int,
                ));
            }
            return false;
        }
        let den: i64 = n * (bs as i64);
        let ci: i64 = ((xs as u64) / (den as u64)) as i64;
        let cj: i64 = ((ys as u64) / (den as u64)) as i64;
        proof {
            assert(ci == xs as int / (n * m.spec_block_size()));
            assert(cj == ys as int / (n * m.spec_block_size()));
        }
        if ci >= width || cj >= height {
            // Out of bounds is blocking.
            proof {
                assert(los_sample_blocked(
                    *m,
                    x0 as int,
                    y0 as int,
                    x1 as int,
                    y1 as int,
                    n as int,
                    k as int,
                ));
            }
            return false;
        }
        if m.is_blocking_at(ci as isize, cj as isize) {
            proof {
                assert(los_sample_blocked(
                    *m,
                    x0 as int,
                    y0 as int,
                    x1 as int,
                    y1 as int,
                    n as int,
                    k as int,
                ));
            }
            return false;
        }
        k = k + 1;
    }
    true
}

} // verus!
