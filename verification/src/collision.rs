use vstd::prelude::*;

use crate::maze::Maze;

verus! {

/// Radius of the player's bounding box, in world units.
pub const PLAYER_RADIUS: i32 = 10;

/// Radius of the enemy's bounding box, in world units.
pub const ENEMY_RADIUS: i32 = 10;

/// Coordinate magnitude accepted by the collision routines; far beyond any
/// in-map position, small enough that all intermediate sums fit `i32`.
pub const COORD_LIMIT: i32 = 16_000_000;

/// Slightly wider bound for individual corner points.
pub const POINT_LIMIT: i32 = 20_000_000;

/// Whether the world point `(x, y)` lies in a blocking cell. Negative
/// coordinates count as out of bounds, hence blocking.
pub open spec fn point_blocked(m: Maze, x: int, y: int) -> bool {
    if x < 0 || y < 0 {
        true
    } else {
        m.blocking(x / m.spec_block_size(), y / m.spec_block_size())
    }
}

/// Whether a square body of half-width `r` centered at `(x, y)` overlaps a
/// blocking cell at one of its four corners.
pub open spec fn collides_spec(m: Maze, x: int, y: int, r: int) -> bool {
    ||| point_blocked(m, x - r, y - r)
    ||| point_blocked(m, x + r, y - r)
    ||| point_blocked(m, x - r, y + r)
    ||| point_blocked(m, x + r, y + r)
}

/// Axis-separated collision resolution: the X displacement commits only if
/// the X-displaced box is clear, then the Y displacement commits against the
/// (possibly updated) X position. Blocked diagonal movement thus degrades to
/// a slide along the free axis instead of a full stop.
pub open spec fn resolve_move_spec(m: Maze, x: int, y: int, dx: int, dy: int, r: int) -> (
    int,
    int,
) {
    let nx = if !collides_spec(m, x + dx, y, r) {
        x + dx
    } else {
        x
    };
    let ny = if !collides_spec(m, nx, y + dy, r) {
        y + dy
    } else {
        y
    };
    (nx, ny)
}

/// Executable corner test for one world point.
fn point_blocked_at(m: &Maze, x: i32, y: i32) -> (b: bool)
    requires
        m.wf(),
        -POINT_LIMIT <= x <= POINT_LIMIT,
        -POINT_LIMIT <= y <= POINT_LIMIT,
    ensures
        b == point_blocked(*m, x as int, y as int),
{
    if x < 0 || y < 0 {
        return true;
    }
    let bs = m.block_size() as u32;
    let ci = (x as u32) / bs;
    let cj = (y as u32) / bs;
    m.is_blocking_at(ci as isize, cj as isize)
}

/// Executable four-corner collision test.
pub fn collides(m: &Maze, x: i32, y: i32, r: i32) -> (b: bool)
    requires
        m.wf(),
        0 <= r <= 2048,
        -COORD_LIMIT <= x <= COORD_LIMIT,
        -COORD_LIMIT <= y <= COORD_LIMIT,
    ensures
        b == collides_spec(*m, x as int, y as int, r as int),
{
    if point_blocked_at(m, x - r, y - r) {
        return true;
    }
    if point_blocked_at(m, x + r, y - r) {
        return true;
    }
    if point_blocked_at(m, x - r, y + r) {
        return true;
    }
    point_blocked_at(m, x + r, y + r)
}

/// Executable axis-separated movement resolution.
pub fn resolve_move(m: &Maze, x: i32, y: i32, dx: i32, dy: i32, r: i32) -> (np: (i32, i32))
    requires
        m.wf(),
        0 <= r <= 2048,
        -8_000_000 <= x <= 8_000_000,
        -8_000_000 <= y <= 8_000_000,
        -8_000_000 <= dx <= 8_000_000,
        -8_000_000 <= dy <= 8_000_000,
    ensures
        (np.0 as int, np.1 as int) == resolve_move_spec(
            *m,
            x as int,
            y as int,
            dx as int,
            dy as int,
            r as int,
        ),
{
    let mut nx = x;
    let mut ny = y;
    if !collides(m, x + dx, y, r) {
        nx = x + dx;
    }
    if !collides(m, nx, y + dy, r) {
        ny = y + dy;
    }
    (nx, ny)
}

/// A committed move lands strictly inside the map: an accepted destination's
/// corners were all unblocked, so they lie in in-bounds cells.
pub proof fn lemma_resolve_move_in_range(m: Maze, x: int, y: int, dx: int, dy: int, r: int)
    requires
        m.wf(),
        r >= 0,
    ensures
        ({
            let np = resolve_move_spec(m, x, y, dx, dy, r);
            &&& (np.0 == x || (0 <= np.0 - r && np.0 + r < m.spec_width() * m.spec_block_size()))
            &&& (np.1 == y || (0 <= np.1 - r && np.1 + r < m.spec_height() * m.spec_block_size()))
        }),
{
    let bs = m.spec_block_size();
    let w = m.spec_width();
    let h = m.spec_height();
    let np = resolve_move_spec(m, x, y, dx, dy, r);
    if np.0 != x {
        assert(!collides_spec(m, x + dx, y, r));
        assert(!point_blocked(m, x + dx - r, y - r));
        assert(!point_blocked(m, x + dx + r, y + r));
        assert(m.in_bounds((x + dx + r) / bs, (y + r) / bs));
        assert(x + dx + r < w * bs) by (nonlinear_arith)
            requires
                0 <= x + dx + r,
                (x + dx + r) / bs < w,
                bs >= 1,
        ;
    }
    if np.1 != y {
        assert(!collides_spec(m, np.0, y + dy, r));
        assert(!point_blocked(m, np.0 - r, y + dy - r));
        assert(!point_blocked(m, np.0 + r, y + dy + r));
        assert(m.in_bounds((np.0 + r) / bs, (y + dy + r) / bs));
        assert(y + dy + r < h * bs) by (nonlinear_arith)
            requires
                0 <= y + dy + r,
                (y + dy + r) / bs < h,
                bs >= 1,
        ;
    }
}

/// Diagonal movement into a corner where only the X axis is blocked slides:
/// the body keeps its full Y displacement instead of stopping.
pub proof fn lemma_corner_slide(m: Maze, x: int, y: int, dx: int, dy: int, r: int)
    requires
        collides_spec(m, x + dx, y, r),
        !collides_spec(m, x, y + dy, r),
    ensures
        resolve_move_spec(m, x, y, dx, dy, r) == (x, y + dy),
{
}

/// The symmetric slide: only the Y axis blocked, the X displacement commits.
pub proof fn lemma_corner_slide_x(m: Maze, x: int, y: int, dx: int, dy: int, r: int)
    requires
        !collides_spec(m, x + dx, y, r),
        collides_spec(m, x + dx, y + dy, r),
    ensures
        resolve_move_spec(m, x, y, dx, dy, r) == (x + dx, y),
{
}

} // verus!
