use vstd::prelude::*;

use crate::maze::Maze;
use crate::tile::Tile;

verus! {

/// World units a ray advances per sample.
pub const RAY_STEP: i32 = 2;

/// Result of one ray query. The impact point is kept exact as numerators over
/// `DIR_SCALE`: the world point is `(x_num / 1024, y_num / 1024)`.
pub struct Hit {
    /// Raw (radial) traveled distance in world units.
    pub distance: i32,
    /// The tile the ray stopped on; a wall for the implicit map boundary.
    pub impact: Tile,
    /// Impact X coordinate, scaled by `DIR_SCALE`.
    pub x_num: i64,
    /// Impact Y coordinate, scaled by `DIR_SCALE`.
    pub y_num: i64,
}

/// X numerator (scale `DIR_SCALE`) of the ray point at distance `d`.
pub open spec fn ray_x_num(px: int, dir_x: int, d: int) -> int {
    px * 1024 + dir_x * d
}

/// Whether the ray point at distance `d` lies outside the map.
pub open spec fn ray_oob(m: Maze, px: int, py: int, dir_x: int, dir_y: int, d: int) -> bool {
    let xn = ray_x_num(px, dir_x, d);
    let yn = ray_x_num(py, dir_y, d);
    ||| xn < 0
    ||| yn < 0
    ||| xn >= m.spec_width() * m.spec_block_size() * 1024
    ||| yn >= m.spec_height() * m.spec_block_size() * 1024
}

/// The grid cell of the in-bounds ray point at distance `d`.
pub open spec fn ray_cell(m: Maze, px: int, py: int, dir_x: int, dir_y: int, d: int) -> (
    int,
    int,
) {
    (
        ray_x_num(px, dir_x, d) / (m.spec_block_size() * 1024),
        ray_x_num(py, dir_y, d) / (m.spec_block_size() * 1024),
    )
}

/// Whether the ray stops at distance `d`: it has left the map, or the sampled
/// cell is a surface.
pub open spec fn ray_stops(m: Maze, px: int, py: int, dir_x: int, dir_y: int, d: int) -> bool {
    ||| ray_oob(m, px, py, dir_x, dir_y, d)
    ||| m.surface(
        ray_cell(m, px, py, dir_x, dir_y, d).0,
        ray_cell(m, px, py, dir_x, dir_y, d).1,
    )
}

/// Upper bound on the distance any ray can travel before stopping: leaving
/// the map bounds it by twice the map extent.
pub open spec fn ray_dist_bound(m: Maze) -> int {
    2 * (m.spec_width() + m.spec_height()) * m.spec_block_size() + 2
}

/// A heading vector suitable for casting: fixed-point components of a unit
/// vector, whose larger component is at least `DIR_SCALE / 2` in magnitude.
pub open spec fn ray_dir_ok(dir_x: int, dir_y: int) -> bool {
    &&& -1024 <= dir_x <= 1024
    &&& -1024 <= dir_y <= 1024
    &&& (dir_x >= 512 || dir_x <= -512 || dir_y >= 512 || dir_y <= -512)
}

/// Steps a ray from `(px, py)` along the fixed-point heading `(dir_x, dir_y)`
/// in `RAY_STEP`-unit increments until it meets a surface or leaves the map;
/// leaving counts as hitting the implicit boundary wall. The returned distance
/// is the first stopping sample; every earlier sample was free.
#[verifier::loop_isolation(false)]
#[verifier::rlimit(60)]
pub fn cast_ray_topdown(m: &Maze, px: i32, py: i32, dir_x: i32, dir_y: i32) -> (h: Hit)
    requires
        m.wf(),
        0 <= px <= m.spec_width() * m.spec_block_size(),
        0 <= py <= m.spec_height() * m.spec_block_size(),
        ray_dir_ok(dir_x as int, dir_y as int),
    ensures
        h.distance % 2 == 0,
        0 <= h.distance <= ray_dist_bound(*m),
        ray_stops(*m, px as int, py as int, dir_x as int, dir_y as int, h.distance as int),
        forall|d0: int|
            0 <= d0 < h.distance && d0 % 2 == 0 ==> !ray_stops(
                *m,
                px as int,
                py as int,
                dir_x as int,
                dir_y as int,
                d0,
            ),
        h.x_num == ray_x_num(px as int, dir_x as int, h.distance as int),
        h.y_num == ray_x_num(py as int, dir_y as int, h.distance as int),
        h.impact == if ray_oob(*m, px as int, py as int, dir_x as int, dir_y as int, h.distance as int) {
            Tile::Wall
        } else {
            m.tile(
                ray_cell(*m, px as int, py as int, dir_x as int, dir_y as int, h.distance as int).0,
                ray_cell(*m, px as int, py as int, dir_x as int, dir_y as int, h.distance as int).1,
            )
        },
{
    let bs = m.block_size() as i64;
    let w = m.width() as i64;
    let hgt = m.height() as i64;
    proof {
        assert(1 <= w * bs <= 1024i64 * 1024 && 1 <= hgt * bs <= 1024i64 * 1024 && 2 * (w + hgt)
            * bs + 2 <= 2 * (1024 + 1024) * 1024i64 + 2) by (nonlinear_arith)
            requires
                1 <= w <= 1024,
                1 <= bs <= 1024,
                1 <= hgt <= 1024,
        ;
    }
    let maxx: i64 = (w * bs) * 1024;
    let maxy: i64 = (hgt * bs) * 1024;
    let ghost bound = ray_dist_bound(*m);
    proof {
        assert(bound == 2 * (w + hgt) * bs + 2);
        assert(bound <= 0x500000);
        assert(maxx == m.spec_width() * m.spec_block_size() * 1024);
        assert(maxy == m.spec_height() * m.spec_block_size() * 1024);
    }
    let mut d: i32 = 0;
    loop
        invariant
            d % 2 == 0,
            0 <= d <= bound,
            forall|d0: int|
                0 <= d0 < d && d0 % 2 == 0 ==> !ray_stops(
                    *m,
                    px as int,
                    py as int,
                    dir_x as int,
                    dir_y as int,
                    d0,
                ),
        decreases bound - d,
    {
        proof {
            assert(-1024i64 * 0x500000 <= (dir_x as i64) * (d as i64) <= 1024i64 * 0x500000)
                by (nonlinear_arith)
                requires
                    -1024 <= dir_x as i64 <= 1024,
                    0 <= d as i64 <= 0x500000,
            ;
            assert(-1024i64 * 0x500000 <= (dir_y as i64) * (d as i64) <= 1024i64 * 0x500000)
                by (nonlinear_arith)
                requires
                    -1024 <= dir_y as i64 <= 1024,
                    0 <= d as i64 <= 0x500000,
            ;
        }
        let xn: i64 = (px as i64) * 1024 + (dir_x as i64) * (d as i64);
        let yn: i64 = (py as i64) * 1024 + (dir_y as i64) * (d as i64);
        if xn < 0 || yn < 0 || xn >= maxx || yn >= maxy {
            return Hit { distance: d, impact: Tile::Wall, x_num: xn, y_num: yn };
        }
        let den: i64 = bs * 1024;
        let ci: i64 = ((xn as u64) / (den as u64)) as i64;
        let cj: i64 = ((yn as u64) / (den as u64)) as i64;
        proof {
            assert(ci < w && cj < hgt) by (nonlinear_arith)
                requires
                    0 <= xn < (w * bs) * 1024,
                    0 <= yn < (hgt * bs) * 1024,
                    bs * 1024 >= 1,
                    ci == (xn as int) / ((bs as int) * 1024),
                    cj == (yn as int) / ((bs as int) * 1024),
            ;
        }
        if m.is_surface_at(ci as i32, cj as i32) {
            return Hit { distance: d, impact: m.tile_at(ci as i32, cj as i32), x_num: xn, y_num: yn };
        }
        proof {
            // The sample at `d` is in bounds and free, so `d` is still well
            // below the travel bound: the major direction component has moved
            // the point by at least `d / 2` world units inside the map.
            if dir_x as int >= 512 || dir_x as int <= -512 {
                assert(512 * (d as int) <= m.spec_width() * m.spec_block_size() * 1024)
                    by (nonlinear_arith)
                    requires
                        0 <= xn < m.spec_width() * m.spec_block_size() * 1024,
                        0 <= px * 1024 <= m.spec_width() * m.spec_block_size() * 1024,
                        xn == px * 1024 + dir_x * d,
                        512 <= dir_x <= 1024 || -1024 <= dir_x <= -512,
                        d >= 0,
                ;
                assert(d + 2 <= bound) by (nonlinear_arith)
                    requires
                        512 * (d as int) <= m.spec_width() * m.spec_block_size() * 1024,
                        bound == 2 * (m.spec_width() + m.spec_height()) * m.spec_block_size() + 2,
                        m.spec_height() >= 1,
                        m.spec_block_size() >= 1,
                        m.spec_width() >= 1,
                ;
            } else {
                assert(512 * (d as int) <= m.spec_height() * m.spec_block_size() * 1024)
                    by (nonlinear_arith)
                    requires
                        0 <= yn < m.spec_height() * m.spec_block_size() * 1024,
                        0 <= py * 1024 <= m.spec_height() * m.spec_block_size() * 1024,
                        yn == py * 1024 + dir_y * d,
                        512 <= dir_y <= 1024 || -1024 <= dir_y <= -512,
                        d >= 0,
                ;
                assert(d + 2 <= bound) by (nonlinear_arith)
                    requires
                        512 * (d as int) <= m.spec_height() * m.spec_block_size() * 1024,
                        bound == 2 * (m.spec_width() + m.spec_height()) * m.spec_block_size() + 2,
                        m.spec_height() >= 1,
                        m.spec_block_size() >= 1,
                        m.spec_width() >= 1,
                ;
            }
        }
        d = d + RAY_STEP;
    }
}

/// Perpendicular (fisheye-corrected) distance: the raw distance scaled by the
/// cosine of the angle between the ray and the camera heading, computed as a
/// fixed-point dot product; clamped below at 1 so projection never divides by
/// zero.
pub open spec fn fisheye_spec(d: int, rdx: int, rdy: int, cdx: int, cdy: int) -> int {
    let dot = rdx * cdx + rdy * cdy;
    let adot = if dot >= 0 {
        dot
    } else {
        -dot
    };
    let c = (d * adot) / (1048576 as int);
    if c >= 1 {
        c
    } else {
        1
    }
}

/// Executable fisheye correction.
pub fn fisheye_correct(d: i32, rdx: i32, rdy: i32, cdx: i32, cdy: i32) -> (r: i32)
    requires
        0 <= d <= 0x500000,
        -1024 <= rdx <= 1024,
        -1024 <= rdy <= 1024,
        -1024 <= cdx <= 1024,
        -1024 <= cdy <= 1024,
    ensures
        r == fisheye_spec(d as int, rdx as int, rdy as int, cdx as int, cdy as int),
        1 <= r <= 0x500000 * 2,
{
    proof {
        assert(-1024i64 * 1024 <= (rdx as i64) * (cdx as i64) <= 1024i64 * 1024)
            by (nonlinear_arith)
            requires
                -1024 <= rdx as i64 <= 1024,
                -1024 <= cdx as i64 <= 1024,
        ;
        assert(-1024i64 * 1024 <= (rdy as i64) * (cdy as i64) <= 1024i64 * 1024)
            by (nonlinear_arith)
            requires
                -1024 <= rdy as i64 <= 1024,
                -1024 <= cdy as i64 <= 1024,
        ;
    }
    let dot: i64 = (rdx as i64) * (cdx as i64) + (rdy as i64) * (cdy as i64);
    let adot: i64 = if dot >= 0 {
        dot
    } else {
        -dot
    };
    proof {
        assert(0 <= (d as i64) * adot <= 0x500000i64 * 2048 * 1024) by (nonlinear_arith)
            requires
                0 <= d as i64 <= 0x500000,
                0 <= adot <= 2048i64 * 1024,
        ;
        assert(((d as i64) * adot) as int / (1048576 as int) <= 0x500000i64 * 2) by (nonlinear_arith)
            requires
                0 <= (d as i64) * adot <= 0x500000i64 * 2048 * 1024,
        ;
    }
    let c: i64 = (((d as i64) * adot) as u64 / (1024 * 1024)) as i64;
    if c >= 1 {
        proof {
            assert(((d as i64) * adot) as int / (1048576 as int) <= (d as i64) * 2) by (nonlinear_arith)
                requires
                    0 <= d as i64,
                    0 <= adot <= 2048i64 * 1024,
            ;
        }
        c as i32
    } else {
        1
    }
}

/// Projected wall-column height: `block_size * projection_plane_distance /
/// perpendicular_distance`.
pub open spec fn wall_height_spec(bs: int, proj: int, corrected: int) -> int {
    (bs * proj) / corrected
}

/// Executable wall-column height.
pub fn project_wall_height(bs: i32, proj: i32, corrected: i32) -> (r: i32)
    requires
        1 <= bs <= 1024,
        0 <= proj <= 0x100000,
        1 <= corrected,
    ensures
        r == wall_height_spec(bs as int, proj as int, corrected as int),
        0 <= r <= 0x40000000,
{
    proof {
        assert(0 <= (bs as i64) * (proj as i64) <= 0x40000000) by (nonlinear_arith)
            requires
                1 <= bs as i64 <= 1024,
                0 <= proj as i64 <= 0x100000,
        ;
        assert(((bs as int) * (proj as int)) / (corrected as int) <= 0x40000000) by (nonlinear_arith)
            requires
                0 <= (bs as i64) * (proj as i64) <= 0x40000000,
                1 <= corrected as i64,
        ;
    }
    let num: i64 = (bs as i64) * (proj as i64);
    ((num as u64) / (corrected as u64)) as i32
}

/// Vertical extent of a wall column of height `stake_h` centered on the
/// horizon row `hh`, clipped to the screen.
pub fn wall_span(hh: i32, screen_h: i32, stake_h: i32) -> (span: (i32, i32))
    requires
        0 < screen_h <= 32768,
        0 <= hh <= screen_h,
        0 <= stake_h <= 0x40000000,
    ensures
        span.0 == if hh - stake_h / 2 >= 0 {
            hh - stake_h / 2
        } else {
            0
        },
        span.1 == if hh + stake_h / 2 <= screen_h - 1 {
            hh + stake_h / 2
        } else {
            screen_h - 1
        },
{
    let half: i32 = ((stake_h as u32) / 2) as i32;
    let top: i32 = if hh >= half {
        hh - half
    } else {
        0
    };
    let bot: i32 = if (screen_h - 1) - hh >= half {
        hh + half
    } else {
        screen_h - 1
    };
    (top, bot)
}

/// Which face of the hit cell a ray struck and the texture column within it,
/// both derived from the exact in-cell offsets of the impact point. The face
/// whose edge the point sits closest to wins; the texture coordinate comes
/// from the other axis's fractional offset, mirrored when the ray's sign
/// would reverse it. Scale: offsets and the result are in `DIR_SCALE`ths of a
/// cell, i.e. `u_num` ranges over `[0, bs * 1024)`.
pub open spec fn wall_face_spec(x_num: int, y_num: int, bs: int, dx_pos: bool, dy_neg: bool) -> (
    bool,
    int,
) {
    let cell_w = bs * 1024;
    let fx = x_num % cell_w;
    let fy = y_num % cell_w;
    let near_x = if fx < cell_w - fx {
        fx
    } else {
        cell_w - fx
    };
    let near_y = if fy < cell_w - fy {
        fy
    } else {
        cell_w - fy
    };
    let vertical = near_x < near_y;
    let u0 = if vertical {
        fy
    } else {
        fx
    };
    let u1 = if (vertical && dx_pos) || (!vertical && dy_neg) {
        cell_w - u0
    } else {
        u0
    };
    let u2 = if u1 >= cell_w {
        cell_w - 1
    } else {
        u1
    };
    (vertical, u2)
}

/// Executable face/texture-column computation for an in-bounds impact point.
pub fn wall_face_u(x_num: i64, y_num: i64, bs: i32, dx_pos: bool, dy_neg: bool) -> (r: (
    bool,
    i64,
))
    requires
        0 <= x_num <= 0x40000000000,
        0 <= y_num <= 0x40000000000,
        1 <= bs <= 1024,
    ensures
        (r.0, r.1 as int) == wall_face_spec(x_num as int, y_num as int, bs as int, dx_pos, dy_neg),
        0 <= r.1 < bs * 1024,
{
    let cell_w: i64 = (bs as i64) * 1024;
    let fx: i64 = ((x_num as u64) % (cell_w as u64)) as i64;
    let fy: i64 = ((y_num as u64) % (cell_w as u64)) as i64;
    let near_x: i64 = if fx < cell_w - fx {
        fx
    } else {
        cell_w - fx
    };
    let near_y: i64 = if fy < cell_w - fy {
        fy
    } else {
        cell_w - fy
    };
    let vertical = near_x < near_y;
    let u0: i64 = if vertical {
        fy
    } else {
        fx
    };
    let u1: i64 = if (vertical && dx_pos) || (!vertical && dy_neg) {
        cell_w - u0
    } else {
        u0
    };
    let u2: i64 = if u1 >= cell_w {
        cell_w - 1
    } else {
        u1
    };
    (vertical, u2)
}

} // verus!
