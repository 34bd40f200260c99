use vstd::prelude::*;

use crate::geom::tdiv;

verus! {

/// Per-screen-column nearest-surface distance, written by the wall pass and
/// read and updated by the sprite pass. A fresh buffer holds `i64::MAX` in
/// every column, standing for "no surface yet".
pub struct DepthBuffer {
    z: Vec<i64>,
}

impl DepthBuffer {
    pub closed spec fn depths(self) -> Seq<i64> {
        self.z@
    }

    pub fn new(width: usize) -> (b: DepthBuffer)
        ensures
            b.depths().len() == width,
            forall|c: int| 0 <= c < width ==> #[trigger] b.depths()[c] == i64::MAX,
    {
        let mut z: Vec<i64> = Vec::new();
        let mut k: usize = 0;
        while k < width
            invariant
                k <= width,
                z@.len() == k,
                forall|c: int| 0 <= c < k ==> #[trigger] z@[c] == i64::MAX,
            decreases width - k,
        {
            z.push(i64::MAX);
            k = k + 1;
        }
        DepthBuffer { z }
    }

    pub fn len(&self) -> (n: usize)
        ensures
            n == self.depths().len(),
    {
        self.z.len()
    }

    pub fn get(&self, col: usize) -> (v: i64)
        requires
            col < self.depths().len(),
        ensures
            v == self.depths()[col as int],
    {
        self.z[col]
    }

    /// Wall pass: record the perpendicular distance of the wall drawn in
    /// `col`.
    pub fn set(&mut self, col: usize, v: i64)
        requires
            col < old(self).depths().len(),
        ensures
            final(self).depths() == old(self).depths().update(col as int, v),
    {
        self.z[col] = v;
    }

    /// Sprite pass, one column: the sprite pixel column is drawn exactly when
    /// its perpendicular depth is nearer than the recorded surface; a drawn
    /// column takes over the buffer slot so that anything farther drawn later
    /// is occluded in turn.
    pub fn sprite_column(&mut self, col: usize, perp: i64) -> (drawn: bool)
        requires
            col < old(self).depths().len(),
        ensures
            drawn == (perp < old(self).depths()[col as int]),
            final(self).depths() == if perp < old(self).depths()[col as int] {
                old(self).depths().update(col as int, perp)
            } else {
                old(self).depths()
            },
    {
        if perp < self.z[col] {
            self.z[col] = perp;
            true
        } else {
            proof {
                assert(self.z@ =~= old(self).z@);
            }
            false
        }
    }
}

/// Camera-space depth of a world point, scaled by `DIR_SCALE`: the dot
/// product of the camera-to-point vector with the camera's forward unit
/// vector.
pub open spec fn sprite_perp_num(ex: int, ey: int, px: int, py: int, cdx: int, cdy: int) -> int {
    (ex - px) * cdx + (ey - py) * cdy
}

/// Camera-space lateral offset, scaled by `DIR_SCALE`: the dot product with
/// the camera's right vector `(-cdy, cdx)`.
pub open spec fn sprite_side_num(ex: int, ey: int, px: int, py: int, cdx: int, cdy: int) -> int {
    (ex - px) * (-cdy) + (ey - py) * cdx
}

/// Clamp to a closed interval.
pub open spec fn clamp_spec(v: int, lo: int, hi: int) -> int {
    if v < lo {
        lo
    } else if v > hi {
        hi
    } else {
        v
    }
}

/// Screen rectangle of a projected billboard sprite, plus the depth to test
/// against the wall buffer.
pub struct SpriteBox {
    /// Inclusive clipped column range.
    pub x0: i32,
    pub x1: i32,
    /// Inclusive clipped row range.
    pub y0: i32,
    pub y1: i32,
    /// Perpendicular depth in world units, for the depth buffer.
    pub perp: i64,
    /// Unclipped horizontal center on screen.
    pub screen_x: i64,
    /// Unclipped sprite width and height in pixels.
    pub sprite_w: i64,
    pub sprite_h: i64,
}

/// Projects the enemy billboard at `(ex, ey)` for a camera at `(px, py)`
/// heading along the fixed-point unit vector `(cdx, cdy)`:
/// - rejected if its camera-space depth is at most one world unit;
/// - horizontal center `hw * (1 + side / (perp * plane))` with `plane` the
///   fixed-point `tan(fov / 2)`;
/// - height by the wall projection formula, width scaled by the texture's
///   aspect ratio;
/// - the rectangle is clipped to the screen and rejected when nothing is
///   left.
pub fn project_sprite(
    ex: i32,
    ey: i32,
    px: i32,
    py: i32,
    cdx: i32,
    cdy: i32,
    plane: i32,
    proj: i32,
    bs: i32,
    tex_w: i32,
    tex_h: i32,
    screen_w: i32,
    screen_h: i32,
) -> (r: Option<SpriteBox>)
    requires
        -4_000_000 <= ex <= 4_000_000,
        -4_000_000 <= ey <= 4_000_000,
        -4_000_000 <= px <= 4_000_000,
        -4_000_000 <= py <= 4_000_000,
        -1024 <= cdx <= 1024,
        -1024 <= cdy <= 1024,
        1 <= plane <= 16384,
        0 <= proj <= 0x100000,
        1 <= bs <= 1024,
        1 <= tex_w <= 8192,
        1 <= tex_h <= 8192,
        2 <= screen_w <= 16384,
        2 <= screen_h <= 16384,
    ensures
        ({
            let perp_num = sprite_perp_num(ex as int, ey as int, px as int, py as int, cdx as int, cdy as int);
            let side_num = sprite_side_num(ex as int, ey as int, px as int, py as int, cdx as int, cdy as int);
            let hw = screen_w as int / 2;
            let hh = screen_h as int / 2;
            let screen_x = hw + tdiv(hw * side_num * 1024, perp_num * plane);
            let sprite_h = (bs * proj * 1024) / (perp_num as int);
            let sprite_w = (sprite_h * tex_w) / (tex_h as int);
            let x0 = clamp_spec(screen_x - sprite_w / 2, 0, screen_w - 1);
            let x1 = clamp_spec(screen_x + sprite_w / 2, 0, screen_w - 1);
            let y0 = clamp_spec(hh - sprite_h / 2, 0, screen_h - 1);
            let y1 = clamp_spec(hh + sprite_h / 2, 0, screen_h - 1);
            if perp_num <= 1024 {
                r is None
            } else if x0 > x1 || y0 > y1 {
                r is None
            } else {
                match r {
                    Some(b) => {
                        &&& b.x0 == x0
                        &&& b.x1 == x1
                        &&& b.y0 == y0
                        &&& b.y1 == y1
                        &&& b.perp == perp_num / (1024 as int)
                        &&& b.screen_x == screen_x
                        &&& b.sprite_w == sprite_w
                        &&& b.sprite_h == sprite_h
                    },
                    None => false,
                }
            }
        }),
{
    let vx: i64 = (ex as i64) - (px as i64);
    let vy: i64 = (ey as i64) - (py as i64);
    proof {
        assert(-8_000_000i64 * 1024 <= vx * (cdx as i64) <= 8_000_000i64 * 1024)
            by (nonlinear_arith)
            requires
                -8_000_000 <= vx <= 8_000_000,
                -1024 <= cdx as i64 <= 1024,
        ;
        assert(-8_000_000i64 * 1024 <= vy * (cdy as i64) <= 8_000_000i64 * 1024)
            by (nonlinear_arith)
            requires
                -8_000_000 <= vy <= 8_000_000,
                -1024 <= cdy as i64 <= 1024,
        ;
        assert(-8_000_000i64 * 1024 <= vx * (-(cdy as i64)) <= 8_000_000i64 * 1024)
            by (nonlinear_arith)
            requires
                -8_000_000 <= vx <= 8_000_000,
                -1024 <= cdy as i64 <= 1024,
        ;
        assert(-8_000_000i64 * 1024 <= vy * (cdx as i64) <= 8_000_000i64 * 1024)
            by (nonlinear_arith)
            requires
                -8_000_000 <= vy <= 8_000_000,
                -1024 <= cdx as i64 <= 1024,
        ;
    }
    let perp_num: i64 = vx * (cdx as i64) + vy * (cdy as i64);
    let side_num: i64 = vx * (-(cdy as i64)) + vy * (cdx as i64);
    if perp_num <= 1024 {
        return None;
    }
    let hw: i64 = ((screen_w as u32) / 2) as i64;
    let hh: i64 = ((screen_h as u32) / 2) as i64;
    proof {
        assert(-8192i64 * 16_384_000_000 * 1024 <= (hw * side_num) * 1024 <= 8192i64
            * 16_384_000_000 * 1024 && (hw * side_num) * 1024 == hw * side_num * 1024)
            by (nonlinear_arith)
            requires
                0 <= hw <= 8192,
                -16_384_000_000 <= side_num <= 16_384_000_000,
        ;
        assert(1024 < perp_num * (plane as i64) <= 16_384_000_000i64 * 16384
            && perp_num * (plane as i64) >= perp_num) by (nonlinear_arith)
            requires
                1024 < perp_num <= 16_384_000_000,
                1 <= plane as i64 <= 16384,
        ;
    }
    let sx_off: i64 = crate::geom::tdiv64(hw * side_num * 1024, perp_num * (plane as i64));
    let screen_x: i64 = hw + sx_off;
    proof {
        assert(0 <= ((bs as i64) * (proj as i64)) * 1024 <= 0x40000000i64 * 1024
            && ((bs as i64) * (proj as i64)) * 1024 == (bs as i64) * (proj as i64) * 1024)
            by (nonlinear_arith)
            requires
                1 <= bs as i64 <= 1024,
                0 <= proj as i64 <= 0x100000,
        ;
    }
    let h_num: i64 = (bs as i64) * (proj as i64) * 1024;
    let sprite_h: i64 = ((h_num as u64) / (perp_num as u64)) as i64;
    proof {
        assert(0 <= (h_num as int) / (perp_num as int) <= h_num) by (nonlinear_arith)
            requires
                0 <= h_num,
                1 <= perp_num,
        ;
        assert(0 <= (sprite_h * (tex_w as i64)) <= 0x10000000000i64 * 8192 && 0 <= ((sprite_h
            * (tex_w as i64)) as int) / (tex_h as int) <= sprite_h * (tex_w as i64))
            by (nonlinear_arith)
            requires
                0 <= sprite_h <= 0x10000000000,
                1 <= tex_w as i64 <= 8192,
                1 <= tex_h as i64 <= 8192,
        ;
    }
    let sprite_w: i64 = (((sprite_h * (tex_w as i64)) as u64) / (tex_h as u64)) as i64;
    let half_w: i64 = ((sprite_w as u64) / 2) as i64;
    let half_h: i64 = ((sprite_h as u64) / 2) as i64;
    let x0 = clamp_i64(screen_x - half_w, 0, (screen_w - 1) as i64) as i32;
    let x1 = clamp_i64(screen_x + half_w, 0, (screen_w - 1) as i64) as i32;
    let y0 = clamp_i64(hh - half_h, 0, (screen_h - 1) as i64) as i32;
    let y1 = clamp_i64(hh + half_h, 0, (screen_h - 1) as i64) as i32;
    if x0 > x1 || y0 > y1 {
        return None;
    }
    let perp: i64 = ((perp_num as u64) / 1024) as i64;
    Some(SpriteBox { x0, x1, y0, y1, perp, screen_x, sprite_w, sprite_h })
}

/// Executable clamp on `i64`.
pub fn clamp_i64(v: i64, lo: i64, hi: i64) -> (r: i64)
    requires
        lo <= hi,
    ensures
        r == clamp_spec(v as int, lo as int, hi as int),
        lo <= r <= hi,
{
    if v < lo {
        lo
    } else if v > hi {
        hi
    } else {
        v
    }
}

} // verus!
