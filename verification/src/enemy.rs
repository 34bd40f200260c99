use vstd::prelude::*;

use crate::collision::{ENEMY_RADIUS, resolve_move, resolve_move_spec};
use crate::geom::{dist2, dist2_spec, is_isqrt, isqrt, tdiv, step_toward_spec};
use crate::los::{has_los, los_spec};
use crate::maze::Maze;
use crate::pathfind::{
    DistField, at_s, bfs_distances, bfs_path, dist_field_wf, is_path, path_view,
    lemma_dist_field_unique,
};
use crate::player::{Player, cell_center};
use crate::tile::Tile;

verus! {

/// Patrol speed in world units per second.
pub const ENEMY_SPEED: i32 = 95;

/// Chase speed while the enemy sees the player.
pub const ENEMY_CHASE_SPEED: i32 = 125;

/// Catch distance between centers, before adding the enemy radius.
pub const KILL_DIST: i32 = 16;

/// Minimum interval between path recomputations.
pub const REPATH_EVERY_MS: i32 = 600;

/// Arrival radius around a waypoint.
pub const REACH_WAYPOINT: i32 = 6;

/// Minimum BFS distance from the player for the designated spawn tile.
pub const MIN_SPAWN_DIST_CELLS: i32 = 10;

/// Dormancy right after spawning or relocating.
pub const SPAWN_GRACE_MS: i32 = 1200;

/// Sustained pathlessness that triggers relocation.
pub const RETREAT_UNREACHABLE_MS: i32 = 2500;

/// The pursuing enemy: position, current waypoint path, and its three
/// timers (repath cooldown, dormancy, frustration), all in milliseconds.
pub struct Enemy {
    pub x: i32,
    pub y: i32,
    pub path: Vec<(usize, usize)>,
    pub time_to_repath: i32,
    pub awake: i32,
    pub frustration: i32,
}

/// Whether the enemy at `(ex, ey)` catches a player at `(px, py)`.
pub open spec fn caught(ex: int, ey: int, px: int, py: int) -> bool {
    dist2_spec(ex, ey, px, py) <= (KILL_DIST + ENEMY_RADIUS) * (KILL_DIST + ENEMY_RADIUS)
}

/// `(i, j)` is the first cell in row-major order holding tile `t`.
pub open spec fn is_first_tile(m: Maze, t: Tile, i: int, j: int) -> bool {
    &&& m.in_bounds(i, j)
    &&& m.tile(i, j) == t
    &&& forall|a: int, b: int|
        0 <= b < m.spec_height() && 0 <= a < m.spec_width() && (b < j || (b == j && a < i))
            ==> #[trigger] m.tile(a, b) != t
}

/// `(ci, cj)` is the first row-major walkable reachable cell of maximal BFS
/// distance: the spawn fallback target.
pub open spec fn spawn_far_ok(m: Maze, fv: Seq<i32>, ci: int, cj: int) -> bool {
    let w = m.spec_width();
    &&& m.walkable(ci, cj)
    &&& at_s(fv, w, ci, cj) >= 0
    &&& forall|a: int, b: int|
        m.walkable(a, b) && #[trigger] at_s(fv, w, a, b) >= 0 ==> at_s(fv, w, a, b) <= at_s(
            fv,
            w,
            ci,
            cj,
        )
    &&& forall|a: int, b: int|
        m.walkable(a, b) && #[trigger] at_s(fv, w, a, b) >= 0 && (b < cj || (b == cj && a < ci))
            ==> at_s(fv, w, a, b) < at_s(fv, w, ci, cj)
}

/// Relocation score of a walkable cell: its BFS distance from the player,
/// with unreachable cells counting as farthest of all.
pub open spec fn retreat_score(m: Maze, fv: Seq<i32>, a: int, b: int) -> int {
    if at_s(fv, m.spec_width(), a, b) >= 0 {
        at_s(fv, m.spec_width(), a, b)
    } else {
        99_999
    }
}

/// `(ci, cj)` is the first row-major walkable cell of maximal relocation
/// score: the retreat target.
pub open spec fn retreat_far_ok(m: Maze, fv: Seq<i32>, ci: int, cj: int) -> bool {
    &&& m.walkable(ci, cj)
    &&& forall|a: int, b: int|
        m.walkable(a, b) ==> #[trigger] retreat_score(m, fv, a, b) <= retreat_score(m, fv, ci, cj)
    &&& forall|a: int, b: int|
        m.walkable(a, b) && (b < cj || (b == cj && a < ci)) ==> #[trigger] retreat_score(
            m,
            fv,
            a,
            b,
        ) < retreat_score(m, fv, ci, cj)
}

/// First row-major walkable reachable cell of maximal BFS distance.
#[verifier::loop_isolation(false)]
#[verifier::rlimit(60)]
fn farthest_reachable_cell(m: &Maze, f: &DistField) -> (r: Option<(usize, usize)>)
    requires
        m.wf(),
        f.spec_width() == m.spec_width(),
        f.spec_height() == m.spec_height(),
        f.dists().len() == m.spec_width() * m.spec_height(),
    ensures
        match r {
            Some(c) => spawn_far_ok(*m, f.dists(), c.0 as int, c.1 as int),
            None => forall|a: int, b: int|
                m.walkable(a, b) ==> #[trigger] at_s(f.dists(), m.spec_width(), a, b) < 0,
        },
{
    let width = m.width();
    let height = m.height();
    let mut best_i: usize = 0;
    let mut best_j: usize = 0;
    let mut best_d: i32 = -1;
    let mut found = false;
    let mut j: usize = 0;
    while j < height
        invariant
            j <= height,
            found ==> m.walkable(best_i as int, best_j as int) && best_d == at_s(
                f.dists(),
                m.spec_width(),
                best_i as int,
                best_j as int,
            ) && best_d >= 0 && best_j < j,
            !found ==> best_d == -1,
            forall|a: int, b: int|
                0 <= b < j && 0 <= a < m.spec_width() && m.walkable(a, b) && #[trigger] at_s(
                    f.dists(),
                    m.spec_width(),
                    a,
                    b,
                ) >= 0 ==> at_s(f.dists(), m.spec_width(), a, b) <= best_d,
            forall|a: int, b: int|
                0 <= b < j && 0 <= a < m.spec_width() && m.walkable(a, b) && #[trigger] at_s(
                    f.dists(),
                    m.spec_width(),
                    a,
                    b,
                ) >= 0 && (b < best_j || (b == best_j && a < best_i) || !found) ==> at_s(
                    f.dists(),
                    m.spec_width(),
                    a,
                    b,
                ) < best_d,
        decreases height - j,
    {
        let mut i: usize = 0;
        while i < width
            invariant
                j < height,
                i <= width,
                found ==> m.walkable(best_i as int, best_j as int) && best_d == at_s(
                    f.dists(),
                    m.spec_width(),
                    best_i as int,
                    best_j as int,
                ) && best_d >= 0 && (best_j < j || (best_j == j && best_i < i)),
                !found ==> best_d == -1,
                forall|a: int, b: int|
                    0 <= b < m.spec_height() && 0 <= a < m.spec_width() && (b < j || (b == j && a
                        < i)) && m.walkable(a, b) && #[trigger] at_s(f.dists(), m.spec_width(), a, b)
                        >= 0 ==> at_s(f.dists(), m.spec_width(), a, b) <= best_d,
                forall|a: int, b: int|
                    0 <= b < m.spec_height() && 0 <= a < m.spec_width() && (b < j || (b == j && a
                        < i)) && m.walkable(a, b) && #[trigger] at_s(f.dists(), m.spec_width(), a, b)
                        >= 0 && (b < best_j || (b == best_j && a < best_i) || !found) ==> at_s(
                        f.dists(),
                        m.spec_width(),
                        a,
                        b,
                    ) < best_d,
            decreases width - i,
        {
            if crate::maze::is_walkable_cell(m, i as i32, j as i32) {
                let d = f.get(i, j);
                if d > best_d {
                    best_i = i;
                    best_j = j;
                    best_d = d;
                    found = true;
                }
            }
            i = i + 1;
        }
        j = j + 1;
    }
    if found {
        Some((best_i, best_j))
    } else {
        None
    }
}

/// First row-major walkable cell of maximal relocation score.
#[verifier::loop_isolation(false)]
#[verifier::rlimit(60)]
fn farthest_retreat_cell(m: &Maze, f: &DistField) -> (r: Option<(usize, usize)>)
    requires
        m.wf(),
        f.spec_width() == m.spec_width(),
        f.spec_height() == m.spec_height(),
        f.dists().len() == m.spec_width() * m.spec_height(),
    ensures
        match r {
            Some(c) => retreat_far_ok(*m, f.dists(), c.0 as int, c.1 as int),
            None => forall|a: int, b: int| !m.walkable(a, b),
        },
{
    let width = m.width();
    let height = m.height();
    let mut best_i: usize = 0;
    let mut best_j: usize = 0;
    let mut best_s: i32 = -1;
    let mut found = false;
    let mut j: usize = 0;
    while j < height
        invariant
            j <= height,
            found ==> m.walkable(best_i as int, best_j as int) && best_s == retreat_score(
                *m,
                f.dists(),
                best_i as int,
                best_j as int,
            ) && best_j < j,
            !found ==> best_s == -1,
            forall|a: int, b: int|
                0 <= b < j && 0 <= a < m.spec_width() && m.walkable(a, b) ==> #[trigger] retreat_score(
                    *m,
                    f.dists(),
                    a,
                    b,
                ) <= best_s,
            forall|a: int, b: int|
                0 <= b < j && 0 <= a < m.spec_width() && m.walkable(a, b) && (b < best_j || (b
                    == best_j && a < best_i) || !found) ==> #[trigger] retreat_score(
                    *m,
                    f.dists(),
                    a,
                    b,
                ) < best_s,
        decreases height - j,
    {
        let mut i: usize = 0;
        while i < width
            invariant
                j < height,
                i <= width,
                found ==> m.walkable(best_i as int, best_j as int) && best_s == retreat_score(
                    *m,
                    f.dists(),
                    best_i as int,
                    best_j as int,
                ) && (best_j < j || (best_j == j && best_i < i)),
                !found ==> best_s == -1,
                forall|a: int, b: int|
                    0 <= b < m.spec_height() && 0 <= a < m.spec_width() && (b < j || (b == j && a
                        < i)) && m.walkable(a, b) ==> #[trigger] retreat_score(*m, f.dists(), a, b)
                        <= best_s,
                forall|a: int, b: int|
                    0 <= b < m.spec_height() && 0 <= a < m.spec_width() && (b < j || (b == j && a
                        < i)) && m.walkable(a, b) && (b < best_j || (b == best_j && a < best_i)
                        || !found) ==> #[trigger] retreat_score(*m, f.dists(), a, b) < best_s,
            decreases width - i,
        {
            if crate::maze::is_walkable_cell(m, i as i32, j as i32) {
                let d = f.get(i, j);
                let s: i32 = if d >= 0 {
                    d
                } else {
                    99_999
                };
                proof {
                    assert(s == retreat_score(*m, f.dists(), i as int, j as int));
                }
                if s > best_s {
                    best_i = i;
                    best_j = j;
                    best_s = s;
                    found = true;
                }
            }
            i = i + 1;
        }
        j = j + 1;
    }
    if found {
        proof {
            assert(m.walkable(best_i as int, best_j as int));
            assert forall|a: int, b: int| m.walkable(a, b) implies #[trigger] retreat_score(
                *m,
                f.dists(),
                a,
                b,
            ) <= retreat_score(*m, f.dists(), best_i as int, best_j as int) by {
                assert(m.in_bounds(a, b));
            }
            assert forall|a: int, b: int|
                m.walkable(a, b) && (b < best_j || (b == best_j && a
                    < best_i)) implies #[trigger] retreat_score(*m, f.dists(), a, b)
                < retreat_score(*m, f.dists(), best_i as int, best_j as int) by {
                assert(m.in_bounds(a, b));
            }
        }
        Some((best_i, best_j))
    } else {
        proof {
            assert forall|a: int, b: int| !m.walkable(a, b) by {
                if m.walkable(a, b) {
                    assert(retreat_score(*m, f.dists(), a, b) <= -1);
                }
            }
        }
        None
    }
}

/// The grid cell of an in-map position.
fn cell_of_pos(m: &Maze, x: i32, y: i32) -> (c: (usize, usize))
    requires
        m.wf(),
        0 <= x < m.spec_width() * m.spec_block_size(),
        0 <= y < m.spec_height() * m.spec_block_size(),
    ensures
        c.0 == x as int / m.spec_block_size(),
        c.1 == y as int / m.spec_block_size(),
        m.in_bounds(c.0 as int, c.1 as int),
{
    let bs = m.block_size() as u32;
    let ci = (x as u32) / bs;
    let cj = (y as u32) / bs;
    proof {
        assert(ci < m.spec_width() && cj < m.spec_height()) by (nonlinear_arith)
            requires
                0 <= x < m.spec_width() * m.spec_block_size(),
                0 <= y < m.spec_height() * m.spec_block_size(),
                m.spec_block_size() >= 1,
                ci == x as int / m.spec_block_size(),
                cj == y as int / m.spec_block_size(),
        ;
    }
    (ci as usize, cj as usize)
}

/// Two distance vectors agreeing on every in-bounds cell.
pub open spec fn fields_agree(m: Maze, fv1: Seq<i32>, fv2: Seq<i32>) -> bool {
    forall|i: int, j: int|
        m.in_bounds(i, j) ==> #[trigger] at_s(fv1, m.spec_width(), i, j) == at_s(
            fv2,
            m.spec_width(),
            i,
            j,
        )
}

/// Where a fresh enemy stands, as a function of the BFS field from the
/// player's cell `(pci, pcj)`:
/// - at the designated spawn tile when one exists at sufficient distance;
/// - otherwise at the farthest reachable walkable cell;
/// - at the player's own cell when nothing reachable exists.
pub open spec fn spawn_placement_ok(
    m: Maze,
    fv: Seq<i32>,
    pci: int,
    pcj: int,
    ex: int,
    ey: int,
) -> bool {
    let w = m.spec_width();
    let bs = m.spec_block_size();
    &&& forall|ti: int, tj: int|
        #[trigger] is_first_tile(m, Tile::MonsterSpawn, ti, tj) && at_s(fv, w, ti, tj)
            >= MIN_SPAWN_DIST_CELLS ==> ex == cell_center(ti, bs) && ey == cell_center(tj, bs)
    &&& forall|ci: int, cj: int|
        #[trigger] spawn_far_ok(m, fv, ci, cj) && (forall|ti: int, tj: int|
            #[trigger] is_first_tile(m, Tile::MonsterSpawn, ti, tj) ==> at_s(fv, w, ti, tj)
                < MIN_SPAWN_DIST_CELLS) ==> ex == cell_center(ci, bs) && ey == cell_center(cj, bs)
    &&& ((forall|a: int, b: int|
        m.walkable(a, b) ==> #[trigger] at_s(fv, w, a, b) < 0) && (forall|ti: int, tj: int|
        #[trigger] is_first_tile(m, Tile::MonsterSpawn, ti, tj) ==> at_s(fv, w, ti, tj)
            < MIN_SPAWN_DIST_CELLS)) ==> ex == cell_center(pci, bs) && ey == cell_center(pcj, bs)
}

/// Where a relocated enemy stands, as a function of the BFS field from the
/// player's current cell: the farthest-scoring walkable cell, unreachable
/// cells counting as farthest; nowhere new if the maze has no walkable cell.
pub open spec fn retreat_placement_ok(m: Maze, fv: Seq<i32>, ex: int, ey: int) -> bool {
    let bs = m.spec_block_size();
    forall|ci: int, cj: int|
        #[trigger] retreat_far_ok(m, fv, ci, cj) ==> ex == cell_center(ci, bs) && ey == cell_center(
            cj,
            bs,
        )
}

/// Agreeing fields admit the same spawn placements.
proof fn lemma_spawn_placement_transfer(
    m: Maze,
    fv1: Seq<i32>,
    fv2: Seq<i32>,
    pci: int,
    pcj: int,
    ex: int,
    ey: int,
)
    requires
        fields_agree(m, fv1, fv2),
        spawn_placement_ok(m, fv1, pci, pcj, ex, ey),
    ensures
        spawn_placement_ok(m, fv2, pci, pcj, ex, ey),
{
    let w = m.spec_width();
    let bs = m.spec_block_size();
    assert forall|ti: int, tj: int|
        #[trigger] is_first_tile(m, Tile::MonsterSpawn, ti, tj) && at_s(fv2, w, ti, tj)
            >= MIN_SPAWN_DIST_CELLS implies ex == cell_center(ti, bs) && ey == cell_center(
        tj,
        bs,
    ) by {
        assert(at_s(fv1, w, ti, tj) == at_s(fv2, w, ti, tj));
    }
    assert forall|ci: int, cj: int|
        #[trigger] spawn_far_ok(m, fv2, ci, cj) && (forall|ti: int, tj: int|
            #[trigger] is_first_tile(m, Tile::MonsterSpawn, ti, tj) ==> at_s(fv2, w, ti, tj)
                < MIN_SPAWN_DIST_CELLS) implies ex == cell_center(ci, bs) && ey == cell_center(
        cj,
        bs,
    ) by {
        assert(spawn_far_ok(m, fv1, ci, cj)) by {
            assert(at_s(fv1, w, ci, cj) == at_s(fv2, w, ci, cj));
            assert forall|a: int, b: int|
                m.walkable(a, b) && #[trigger] at_s(fv1, w, a, b) >= 0 implies at_s(fv1, w, a, b)
                <= at_s(fv1, w, ci, cj) && ((b < cj || (b == cj && a < ci)) ==> at_s(fv1, w, a, b)
                < at_s(fv1, w, ci, cj)) by {
                assert(at_s(fv1, w, a, b) == at_s(fv2, w, a, b));
                assert(at_s(fv2, w, a, b) <= at_s(fv2, w, ci, cj));
            }
        }
        assert forall|ti: int, tj: int|
            #[trigger] is_first_tile(m, Tile::MonsterSpawn, ti, tj) implies at_s(fv1, w, ti, tj)
            < MIN_SPAWN_DIST_CELLS by {
            assert(at_s(fv1, w, ti, tj) == at_s(fv2, w, ti, tj));
        }
    }
    if (forall|a: int, b: int| m.walkable(a, b) ==> #[trigger] at_s(fv2, w, a, b) < 0) && (
    forall|ti: int, tj: int|
        #[trigger] is_first_tile(m, Tile::MonsterSpawn, ti, tj) ==> at_s(fv2, w, ti, tj)
            < MIN_SPAWN_DIST_CELLS) {
        assert forall|a: int, b: int| m.walkable(a, b) implies #[trigger] at_s(fv1, w, a, b)
            < 0 by {
            assert(at_s(fv1, w, a, b) == at_s(fv2, w, a, b));
        }
        assert forall|ti: int, tj: int|
            #[trigger] is_first_tile(m, Tile::MonsterSpawn, ti, tj) implies at_s(fv1, w, ti, tj)
            < MIN_SPAWN_DIST_CELLS by {
            assert(at_s(fv1, w, ti, tj) == at_s(fv2, w, ti, tj));
        }
    }
}

/// Agreeing fields admit the same retreat placements.
proof fn lemma_retreat_placement_transfer(m: Maze, fv1: Seq<i32>, fv2: Seq<i32>, ex: int, ey: int)
    requires
        fields_agree(m, fv1, fv2),
        retreat_placement_ok(m, fv1, ex, ey),
    ensures
        retreat_placement_ok(m, fv2, ex, ey),
{
    let w = m.spec_width();
    let bs = m.spec_block_size();
    assert forall|ci: int, cj: int| #[trigger] retreat_far_ok(m, fv2, ci, cj) implies ex
        == cell_center(ci, bs) && ey == cell_center(cj, bs) by {
        assert(retreat_far_ok(m, fv1, ci, cj)) by {
            assert forall|a: int, b: int| m.walkable(a, b) implies #[trigger] retreat_score(
                m,
                fv1,
                a,
                b,
            ) <= retreat_score(m, fv1, ci, cj) && ((b < cj || (b == cj && a < ci))
                ==> retreat_score(m, fv1, a, b) < retreat_score(m, fv1, ci, cj)) by {
                assert(at_s(fv1, w, a, b) == at_s(fv2, w, a, b));
                assert(at_s(fv1, w, ci, cj) == at_s(fv2, w, ci, cj));
                assert(retreat_score(m, fv2, a, b) <= retreat_score(m, fv2, ci, cj));
            }
        }
    }
}

/// The square root a distance squared pins down.
pub open spec fn sqrt_of(n: int) -> int {
    choose|r: int| is_isqrt(n, r)
}

proof fn lemma_sqrt_of_value(n: int, r: int)
    requires
        is_isqrt(n, r),
    ensures
        sqrt_of(n) == r,
{
    assert(is_isqrt(n, sqrt_of(n)));
    let rc = sqrt_of(n);
    assert(rc == r) by (nonlinear_arith)
        requires
            0 <= r,
            0 <= rc,
            r * r <= n < (r + 1) * (r + 1),
            rc * rc <= n < (rc + 1) * (rc + 1),
    ;
}

/// One frame's displacement toward a target: a step of `speed * dt / 1000`
/// world units along the straight line, each axis truncated.
pub open spec fn move_disp(ex: int, ey: int, tx: int, ty: int, speed: int, dt: int) -> (int, int) {
    let step = (speed * dt) / 1000;
    let len = sqrt_of(dist2_spec(ex, ey, tx, ty));
    (step_toward_spec(tx - ex, step, len), step_toward_spec(ty - ey, step, len))
}

/// The enemy stepped from `(ex, ey)` toward `(tx, ty)` at `speed` for `dt`,
/// with axis-separated wall sliding.
pub open spec fn moved_to(
    m: Maze,
    ex: int,
    ey: int,
    tx: int,
    ty: int,
    speed: int,
    dt: int,
    nx: int,
    ny: int,
) -> bool {
    let disp = move_disp(ex, ey, tx, ty, speed, dt);
    (nx, ny) == resolve_move_spec(m, ex, ey, disp.0, disp.1, ENEMY_RADIUS as int)
}

/// What a path recomputation yields: exactly the contract of the
/// breadth-first path search.
pub open spec fn valid_repath(m: Maze, s: (int, int), g: (int, int), pr: Seq<(usize, usize)>) -> bool {
    &&& (s == g ==> pr.len() == 0)
    &&& (s != g && pr.len() > 0 ==> is_path(m, s, path_view(pr), g) && forall|q: Seq<(int, int)>|
        #[trigger] is_path(m, s, q, g) ==> pr.len() <= q.len())
    &&& (s != g && pr.len() == 0 ==> forall|q: Seq<(int, int)>| !is_path(m, s, q, g))
}

/// The full path-follow outcome of one pursuing frame without line of
/// sight, relative to the recomputed (or kept) path `pr`.
pub open spec fn pursuit_post(
    m: Maze,
    e0: Enemy,
    p: Player,
    dt: int,
    pr: Seq<(usize, usize)>,
    e1: Enemy,
    r: bool,
) -> bool {
    let bs = m.spec_block_size();
    let ec = (e0.x as int / bs, e0.y as int / bs);
    let pc = (p.x as int / bs, p.y as int / bs);
    let repath = e0.spec_path().len() == 0 || e0.spec_repath_ms() <= dt;
    let ttr1 = if repath {
        REPATH_EVERY_MS as int
    } else {
        e0.spec_repath_ms() - dt
    };
    &&& (repath ==> valid_repath(m, ec, pc, pr))
    &&& (!repath ==> pr == e0.spec_path())
    &&& if pr.len() == 0 {
        if e0.spec_frustration() + dt >= RETREAT_UNREACHABLE_MS {
            &&& !r
            &&& e1.spec_awake() == SPAWN_GRACE_MS
            &&& e1.spec_frustration() == 0
            &&& e1.spec_repath_ms() == 0
            &&& e1.spec_path().len() == 0
            &&& forall|fv: Seq<i32>|
                #[trigger] dist_field_wf(m, pc.0, pc.1, fv) ==> retreat_placement_ok(
                    m,
                    fv,
                    e1.x as int,
                    e1.y as int,
                )
        } else {
            &&& e1.spec_frustration() == e0.spec_frustration() + dt
            &&& e1.spec_awake() == 0
            &&& e1.spec_repath_ms() == ttr1
            &&& e1.spec_path().len() == 0
            &&& moved_to(m, e0.x as int, e0.y as int, p.x as int, p.y as int, ENEMY_SPEED as int, dt, e1.x as int, e1.y as int)
            &&& (r <==> caught(e1.x as int, e1.y as int, p.x as int, p.y as int))
        }
    } else {
        let w0 = (cell_center(pr[0].0 as int, bs), cell_center(pr[0].1 as int, bs));
        let close = dist2_spec(e0.x as int, e0.y as int, w0.0, w0.1) <= REACH_WAYPOINT
            * REACH_WAYPOINT;
        let path1 = if close {
            pr.drop_first()
        } else {
            pr
        };
        let target = if close {
            if pr.len() >= 2 {
                (cell_center(pr[1].0 as int, bs), cell_center(pr[1].1 as int, bs))
            } else {
                (p.x as int, p.y as int)
            }
        } else {
            w0
        };
        &&& e1.spec_frustration() == 0
        &&& e1.spec_awake() == 0
        &&& e1.spec_repath_ms() == ttr1
        &&& e1.spec_path() == path1
        &&& moved_to(m, e0.x as int, e0.y as int, target.0, target.1, ENEMY_SPEED as int, dt, e1.x as int, e1.y as int)
        &&& (r <==> caught(e1.x as int, e1.y as int, p.x as int, p.y as int))
    }
}

/// Steps a body at `(ex, ey)` one frame toward `(tx, ty)`, resolving the
/// displacement against the maze with wall sliding.
#[verifier::rlimit(60)]
fn step_move(m: &Maze, ex: i32, ey: i32, tx: i32, ty: i32, speed: i32, dt_ms: i32) -> (np: (
    i32,
    i32,
))
    requires
        m.wf(),
        0 <= ex < m.spec_width() * m.spec_block_size(),
        0 <= ey < m.spec_height() * m.spec_block_size(),
        -8_000_000 <= tx <= 8_000_000,
        -8_000_000 <= ty <= 8_000_000,
        0 <= speed <= 1000,
        0 <= dt_ms <= 60_000,
    ensures
        moved_to(
            *m,
            ex as int,
            ey as int,
            tx as int,
            ty as int,
            speed as int,
            dt_ms as int,
            np.0 as int,
            np.1 as int,
        ),
        0 <= np.0 < m.spec_width() * m.spec_block_size(),
        0 <= np.1 < m.spec_height() * m.spec_block_size(),
{
    proof {
        assert(0 <= speed * dt_ms <= 1000 * 60_000) by (nonlinear_arith)
            requires
                0 <= speed <= 1000,
                0 <= dt_ms <= 60_000,
        ;
        assert(m.spec_width() * m.spec_block_size() <= 1024 * 1024 && m.spec_height()
            * m.spec_block_size() <= 1024 * 1024) by (nonlinear_arith)
            requires
                1 <= m.spec_width() <= 1024,
                1 <= m.spec_height() <= 1024,
                1 <= m.spec_block_size() <= 1024,
        ;
    }
    let step: i64 = ((speed as u32 * dt_ms as u32) / 1000) as i64;
    let d2 = dist2(ex, ey, tx, ty);
    proof {
        assert(ex <= 1_048_576 && ey <= 1_048_576);
        assert(d2 <= 2i64 * 10_000_000 * 10_000_000) by (nonlinear_arith)
            requires
                d2 == (ex - tx) * (ex - tx) + (ey - ty) * (ey - ty),
                -10_000_000 <= ex - tx <= 10_000_000,
                -10_000_000 <= ey - ty <= 10_000_000,
        ;
    }
    let len_u: u64 = isqrt(d2 as u64);
    proof {
        assert((d2 as u64) as int == d2 as int);
        assert(is_isqrt(d2 as int, len_u as int));
        assert(len_u as int <= 0x2000000) by (nonlinear_arith)
            requires
                is_isqrt(d2 as int, len_u as int),
                0 <= d2 <= 200_000_000_000_000,
        ;
    }
    let len: i64 = len_u as i64;
    proof {
        assert(is_isqrt(d2 as int, len as int));
        lemma_sqrt_of_value(d2 as int, len as int);
    }
    let dx: i64;
    let dy: i64;
    if len == 0 {
        dx = 0;
        dy = 0;
    } else {
        let ddx: i64 = (tx as i64) - (ex as i64);
        let ddy: i64 = (ty as i64) - (ey as i64);
        proof {
            assert(ddx * ddx <= d2 && ddy * ddy <= d2) by (nonlinear_arith)
                requires
                    d2 == (ex - tx) * (ex - tx) + (ey - ty) * (ey - ty),
                    ddx == tx - ex,
                    ddy == ty - ey,
            ;
            assert(-len <= ddx <= len && -len <= ddy <= len) by (nonlinear_arith)
                requires
                    ddx * ddx <= d2,
                    ddy * ddy <= d2,
                    is_isqrt(d2 as int, len as int),
                    0 <= len,
            ;
            assert(-0x2000000i64 * 60_000 <= ddx * step <= 0x2000000i64 * 60_000
                && -0x2000000i64 * 60_000 <= ddy * step <= 0x2000000i64 * 60_000)
                by (nonlinear_arith)
                requires
                    -0x2000000 <= ddx <= 0x2000000,
                    -0x2000000 <= ddy <= 0x2000000,
                    0 <= step <= 60_000,
            ;
        }
        dx = crate::geom::tdiv64(ddx * step, len);
        dy = crate::geom::tdiv64(ddy * step, len);
        proof {
            assert(-step <= tdiv(ddx * step, len as int) <= step && -step <= tdiv(
                ddy * step,
                len as int,
            ) <= step) by (nonlinear_arith)
                requires
                    -len <= ddx <= len,
                    -len <= ddy <= len,
                    1 <= len,
                    0 <= step,
                    tdiv(ddx * step, len as int) == (if ddx * step >= 0 {
                        (ddx * step) / (len as int)
                    } else {
                        -((-(ddx * step)) / (len as int))
                    }),
                    tdiv(ddy * step, len as int) == (if ddy * step >= 0 {
                        (ddy * step) / (len as int)
                    } else {
                        -((-(ddy * step)) / (len as int))
                    }),
            ;
        }
    }
    let (nx, ny) = resolve_move(m, ex, ey, dx as i32, dy as i32, ENEMY_RADIUS);
    proof {
        crate::collision::lemma_resolve_move_in_range(
            *m,
            ex as int,
            ey as int,
            dx as int,
            dy as int,
            ENEMY_RADIUS as int,
        );
    }
    (nx, ny)
}

impl Enemy {
    pub open spec fn spec_path(self) -> Seq<(usize, usize)> {
        self.path@
    }

    pub open spec fn spec_repath_ms(self) -> int {
        self.time_to_repath as int
    }

    pub open spec fn spec_awake(self) -> int {
        self.awake as int
    }

    pub open spec fn spec_frustration(self) -> int {
        self.frustration as int
    }

    /// An enemy fit for `update` against maze `m`.
    pub open spec fn wf(self, m: Maze) -> bool {
        &&& 0 <= self.x < m.spec_width() * m.spec_block_size()
        &&& 0 <= self.y < m.spec_height() * m.spec_block_size()
        &&& 0 <= self.spec_awake() <= SPAWN_GRACE_MS
        &&& 0 <= self.spec_frustration() < RETREAT_UNREACHABLE_MS
        &&& 0 <= self.spec_repath_ms() <= REPATH_EVERY_MS
        &&& forall|k: int|
            0 <= k < self.spec_path().len() ==> m.in_bounds(
                (#[trigger] self.spec_path()[k]).0 as int,
                self.spec_path()[k].1 as int,
            )
    }

    pub fn awake_ms(&self) -> (v: i32)
        ensures
            v == self.spec_awake(),
    {
        self.awake
    }

    pub fn frustration_ms(&self) -> (v: i32)
        ensures
            v == self.spec_frustration(),
    {
        self.frustration
    }

    pub fn time_to_repath_ms(&self) -> (v: i32)
        ensures
            v == self.spec_repath_ms(),
    {
        self.time_to_repath
    }

    pub fn path_cells(&self) -> (p: &Vec<(usize, usize)>)
        ensures
            p@ == self.spec_path(),
    {
        &self.path
    }

    /// Spawns the enemy at the designated spawn tile if it lies at least
    /// `MIN_SPAWN_DIST_CELLS` BFS hops from the player's cell, else at the
    /// farthest reachable walkable cell; dormant for the spawn grace.
    #[verifier::rlimit(100)]
    pub fn spawn_from_map_or_far(maze: &Maze, player: &Player) -> (e: Enemy)
        requires
            maze.wf(),
            player.wf(),
            0 <= player.x < maze.spec_width() * maze.spec_block_size(),
            0 <= player.y < maze.spec_height() * maze.spec_block_size(),
        ensures
            e.wf(*maze),
            e.spec_awake() == SPAWN_GRACE_MS,
            e.spec_frustration() == 0,
            e.spec_repath_ms() == 0,
            e.spec_path().len() == 0,
            forall|fv: Seq<i32>|
                #[trigger] dist_field_wf(
                    *maze,
                    player.x as int / maze.spec_block_size(),
                    player.y as int / maze.spec_block_size(),
                    fv,
                ) ==> spawn_placement_ok(
                    *maze,
                    fv,
                    player.x as int / maze.spec_block_size(),
                    player.y as int / maze.spec_block_size(),
                    e.x as int,
                    e.y as int,
                ),
    {
        let (pci, pcj) = cell_of_pos(maze, player.x, player.y);
        let f = bfs_distances(maze, pci, pcj);
        let ghost fv0 = f.dists();
        let ghost w = maze.spec_width();
        let ghost bs = maze.spec_block_size();
        proof {
            // The "first" predicates admit at most one cell each.
            assert forall|t1: int, u1: int, t2: int, u2: int|
                is_first_tile(*maze, Tile::MonsterSpawn, t1, u1) && is_first_tile(
                    *maze,
                    Tile::MonsterSpawn,
                    t2,
                    u2,
                ) implies t1 == t2 && u1 == u2 by {
                if u1 < u2 || (u1 == u2 && t1 < t2) {
                    assert(maze.tile(t1, u1) != Tile::MonsterSpawn);
                } else if u2 < u1 || (u2 == u1 && t2 < t1) {
                    assert(maze.tile(t2, u2) != Tile::MonsterSpawn);
                }
            }
            assert forall|a1: int, b1: int, a2: int, b2: int|
                spawn_far_ok(*maze, fv0, a1, b1) && spawn_far_ok(
                    *maze,
                    fv0,
                    a2,
                    b2,
                ) implies a1 == a2 && b1 == b2 by {
                if b1 < b2 || (b1 == b2 && a1 < a2) {
                    assert(at_s(fv0, w, a1, b1) < at_s(fv0, w, a2, b2));
                    assert(at_s(fv0, w, a2, b2) <= at_s(fv0, w, a1, b1));
                } else if b2 < b1 || (b2 == b1 && a2 < a1) {
                    assert(at_s(fv0, w, a2, b2) < at_s(fv0, w, a1, b1));
                    assert(at_s(fv0, w, a1, b1) <= at_s(fv0, w, a2, b2));
                }
            }
        }
        let (ci, cj): (usize, usize) = match maze.find_first(Tile::MonsterSpawn) {
            Some((ti, tj)) => {
                proof {
                    assert(is_first_tile(*maze, Tile::MonsterSpawn, ti as int, tj as int));
                }
                let d = f.get(ti as usize, tj as usize);
                if d >= MIN_SPAWN_DIST_CELLS {
                    proof {
                        assert(spawn_placement_ok(
                            *maze,
                            fv0,
                            pci as int,
                            pcj as int,
                            cell_center(ti as int, bs),
                            cell_center(tj as int, bs),
                        )) by {
                            assert forall|t1: int, u1: int|
                                #[trigger] is_first_tile(*maze, Tile::MonsterSpawn, t1, u1) && at_s(
                                    fv0,
                                    w,
                                    t1,
                                    u1,
                                ) >= MIN_SPAWN_DIST_CELLS implies cell_center(ti as int, bs)
                                == cell_center(t1, bs) && cell_center(tj as int, bs) == cell_center(
                                u1,
                                bs,
                            ) by {
                                assert(t1 == ti as int && u1 == tj as int);
                            }
                            assert forall|c1: int, c2: int|
                                #[trigger] spawn_far_ok(*maze, fv0, c1, c2) && (forall|
                                    t1: int,
                                    u1: int,
                                |
                                    #[trigger] is_first_tile(*maze, Tile::MonsterSpawn, t1, u1)
                                        ==> at_s(fv0, w, t1, u1)
                                        < MIN_SPAWN_DIST_CELLS) implies false by {
                                assert(at_s(fv0, w, ti as int, tj as int) < MIN_SPAWN_DIST_CELLS);
                            }
                        }
                    }
                    (ti as usize, tj as usize)
                } else {
                    let fb = farthest_reachable_cell(maze, &f);
                    proof {
                        assert forall|t1: int, u1: int|
                            #[trigger] is_first_tile(*maze, Tile::MonsterSpawn, t1, u1) implies at_s(
                            fv0,
                            w,
                            t1,
                            u1,
                        ) < MIN_SPAWN_DIST_CELLS by {
                            assert(t1 == ti as int && u1 == tj as int);
                        }
                    }
                    match fb {
                        Some(c) => {
                            proof {
                                assert(spawn_placement_ok(
                                    *maze,
                                    fv0,
                                    pci as int,
                                    pcj as int,
                                    cell_center(c.0 as int, bs),
                                    cell_center(c.1 as int, bs),
                                )) by {
                                    assert(spawn_far_ok(*maze, fv0, c.0 as int, c.1 as int));
                                    assert forall|c1: int, c2: int| #[trigger] spawn_far_ok(
                                        *maze,
                                        fv0,
                                        c1,
                                        c2,
                                    ) implies cell_center(c.0 as int, bs) == cell_center(c1, bs)
                                        && cell_center(c.1 as int, bs) == cell_center(c2, bs) by {
                                        assert(c1 == c.0 as int && c2 == c.1 as int);
                                    }
                                    assert(maze.walkable(c.0 as int, c.1 as int) && at_s(
                                        fv0,
                                        w,
                                        c.0 as int,
                                        c.1 as int,
                                    ) >= 0);
                                }
                            }
                            c
                        },
                        None => {
                            proof {
                                assert(spawn_placement_ok(
                                    *maze,
                                    fv0,
                                    pci as int,
                                    pcj as int,
                                    cell_center(pci as int, bs),
                                    cell_center(pcj as int, bs),
                                )) by {
                                    assert forall|c1: int, c2: int| !spawn_far_ok(
                                        *maze,
                                        fv0,
                                        c1,
                                        c2,
                                    ) by {
                                        if spawn_far_ok(*maze, fv0, c1, c2) {
                                            assert(maze.walkable(c1, c2) && at_s(fv0, w, c1, c2)
                                                >= 0);
                                        }
                                    }
                                }
                            }
                            (pci, pcj)
                        },
                    }
                }
            },
            None => {
                proof {
                    assert forall|t1: int, u1: int|
                        !is_first_tile(*maze, Tile::MonsterSpawn, t1, u1) by {
                        if is_first_tile(*maze, Tile::MonsterSpawn, t1, u1) {
                            assert(maze.tile(t1, u1) == Tile::MonsterSpawn);
                        }
                    }
                }
                let fb = farthest_reachable_cell(maze, &f);
                match fb {
                    Some(c) => {
                        proof {
                            assert(spawn_placement_ok(
                                *maze,
                                fv0,
                                pci as int,
                                pcj as int,
                                cell_center(c.0 as int, bs),
                                cell_center(c.1 as int, bs),
                            )) by {
                                assert(spawn_far_ok(*maze, fv0, c.0 as int, c.1 as int));
                                assert forall|c1: int, c2: int| #[trigger] spawn_far_ok(
                                    *maze,
                                    fv0,
                                    c1,
                                    c2,
                                ) implies cell_center(c.0 as int, bs) == cell_center(c1, bs)
                                    && cell_center(c.1 as int, bs) == cell_center(c2, bs) by {
                                    assert(c1 == c.0 as int && c2 == c.1 as int);
                                }
                                assert(maze.walkable(c.0 as int, c.1 as int) && at_s(
                                    fv0,
                                    w,
                                    c.0 as int,
                                    c.1 as int,
                                ) >= 0);
                            }
                        }
                        c
                    },
                    None => {
                        proof {
                            assert(spawn_placement_ok(
                                *maze,
                                fv0,
                                pci as int,
                                pcj as int,
                                cell_center(pci as int, bs),
                                cell_center(pcj as int, bs),
                            )) by {
                                assert forall|c1: int, c2: int| !spawn_far_ok(
                                    *maze,
                                    fv0,
                                    c1,
                                    c2,
                                ) by {
                                    if spawn_far_ok(*maze, fv0, c1, c2) {
                                        assert(maze.walkable(c1, c2) && at_s(fv0, w, c1, c2) >= 0);
                                    }
                                }
                            }
                        }
                        (pci, pcj)
                    },
                }
            },
        };
        let e = Self::place_at_cell(maze, ci, cj);
        proof {
            assert(spawn_placement_ok(*maze, fv0, pci as int, pcj as int, e.x as int, e.y as int));
            assert forall|fv: Seq<i32>|
                #[trigger] dist_field_wf(
                    *maze,
                    player.x as int / maze.spec_block_size(),
                    player.y as int / maze.spec_block_size(),
                    fv,
                ) implies spawn_placement_ok(
                *maze,
                fv,
                player.x as int / maze.spec_block_size(),
                player.y as int / maze.spec_block_size(),
                e.x as int,
                e.y as int,
            ) by {
                lemma_dist_field_unique(*maze, pci as int, pcj as int, fv0, fv);
                lemma_spawn_placement_transfer(
                    *maze,
                    fv0,
                    fv,
                    pci as int,
                    pcj as int,
                    e.x as int,
                    e.y as int,
                );
            }
        }
        e
    }

    /// A fresh, dormant enemy standing at the center of cell `(ci, cj)`.
    fn place_at_cell(maze: &Maze, ci: usize, cj: usize) -> (e: Enemy)
        requires
            maze.wf(),
            ci < maze.spec_width(),
            cj < maze.spec_height(),
        ensures
            e.wf(*maze),
            e.x == cell_center(ci as int, maze.spec_block_size()),
            e.y == cell_center(cj as int, maze.spec_block_size()),
            e.spec_awake() == SPAWN_GRACE_MS,
            e.spec_frustration() == 0,
            e.spec_repath_ms() == 0,
            e.spec_path().len() == 0,
    {
        let bs = maze.block_size();
        let half = (bs as u32 / 2) as i32;
        proof {
            assert(ci * bs + bs / 2 < maze.spec_width() * bs && cj * bs + bs / 2
                < maze.spec_height() * bs && ci * bs <= 1024 * 1024 && cj * bs <= 1024 * 1024
                && maze.spec_width() * bs <= 1024 * 1024 && maze.spec_height() * bs <= 1024
                * 1024) by (nonlinear_arith)
                requires
                    0 <= ci < maze.spec_width(),
                    0 <= cj < maze.spec_height(),
                    1 <= bs <= 1024,
                    maze.spec_width() <= 1024,
                    maze.spec_height() <= 1024,
            ;
        }
        Enemy {
            x: (ci as i32) * bs + half,
            y: (cj as i32) * bs + half,
            path: Vec::new(),
            time_to_repath: 0,
            awake: SPAWN_GRACE_MS,
            frustration: 0,
        }
    }

    /// Relocates the enemy to the walkable cell farthest (by relocation
    /// score) from the player's current cell, clears its path state and
    /// re-enters dormancy. Without any walkable cell the enemy stays put.
    #[verifier::rlimit(100)]
    pub fn retreat_far_from_player(&mut self, maze: &Maze, player: &Player)
        requires
            maze.wf(),
            player.wf(),
            old(self).wf(*maze),
            0 <= player.x < maze.spec_width() * maze.spec_block_size(),
            0 <= player.y < maze.spec_height() * maze.spec_block_size(),
        ensures
            final(self).wf(*maze),
            final(self).spec_awake() == SPAWN_GRACE_MS,
            final(self).spec_frustration() == 0,
            final(self).spec_repath_ms() == 0,
            final(self).spec_path().len() == 0,
            forall|fv: Seq<i32>|
                #[trigger] dist_field_wf(
                    *maze,
                    player.x as int / maze.spec_block_size(),
                    player.y as int / maze.spec_block_size(),
                    fv,
                ) ==> retreat_placement_ok(*maze, fv, final(self).x as int, final(self).y as int),
            (forall|a: int, b: int| !maze.walkable(a, b)) ==> final(self).x == old(self).x
                && final(self).y == old(self).y,
    {
        let (pci, pcj) = cell_of_pos(maze, player.x, player.y);
        let f = bfs_distances(maze, pci, pcj);
        let ghost fv0 = f.dists();
        match farthest_retreat_cell(maze, &f) {
            Some((ci, cj)) => {
                let bs = maze.block_size();
                let half = (bs as u32 / 2) as i32;
                proof {
                    assert(ci * bs + bs / 2 < maze.spec_width() * bs && cj * bs + bs / 2
                        < maze.spec_height() * bs && ci * bs <= 1024 * 1024 && cj * bs <= 1024
                        * 1024 && maze.spec_width() * bs <= 1024 * 1024 && maze.spec_height() * bs
                        <= 1024 * 1024) by (nonlinear_arith)
                        requires
                            0 <= ci < maze.spec_width(),
                            0 <= cj < maze.spec_height(),
                            1 <= bs <= 1024,
                            maze.spec_width() <= 1024,
                            maze.spec_height() <= 1024,
                    ;
                }
                self.x = (ci as i32) * bs + half;
                self.y = (cj as i32) * bs + half;
            },
            None => {},
        }
        self.path = Vec::new();
        self.time_to_repath = 0;
        self.awake = SPAWN_GRACE_MS;
        self.frustration = 0;
        proof {
            assert(retreat_placement_ok(*maze, fv0, self.x as int, self.y as int)) by {
                assert forall|a1: int, b1: int, a2: int, b2: int|
                    retreat_far_ok(*maze, fv0, a1, b1) && retreat_far_ok(
                        *maze,
                        fv0,
                        a2,
                        b2,
                    ) implies a1 == a2 && b1 == b2 by {
                    if b1 < b2 || (b1 == b2 && a1 < a2) {
                        assert(retreat_score(*maze, fv0, a1, b1) < retreat_score(
                            *maze,
                            fv0,
                            a2,
                            b2,
                        ));
                        assert(retreat_score(*maze, fv0, a2, b2) <= retreat_score(
                            *maze,
                            fv0,
                            a1,
                            b1,
                        ));
                    } else if b2 < b1 || (b2 == b1 && a2 < a1) {
                        assert(retreat_score(*maze, fv0, a2, b2) < retreat_score(
                            *maze,
                            fv0,
                            a1,
                            b1,
                        ));
                        assert(retreat_score(*maze, fv0, a1, b1) <= retreat_score(
                            *maze,
                            fv0,
                            a2,
                            b2,
                        ));
                    }
                }
            }
            assert forall|fv: Seq<i32>|
                #[trigger] dist_field_wf(
                    *maze,
                    player.x as int / maze.spec_block_size(),
                    player.y as int / maze.spec_block_size(),
                    fv,
                ) implies retreat_placement_ok(*maze, fv, self.x as int, self.y as int) by {
                lemma_dist_field_unique(*maze, pci as int, pcj as int, fv0, fv);
                lemma_retreat_placement_transfer(*maze, fv0, fv, self.x as int, self.y as int);
            }
        }
    }

    /// One frame of the pursuit state machine: dormancy ticks down first and
    /// blocks catching; on contact the catch is signalled; with line of sight
    /// the enemy charges the player directly and drops its path; without it
    /// the enemy follows breadth-first waypoints, recomputing the path at
    /// most every repath interval, and relocates once it has been pathless
    /// for the frustration threshold.
    #[verifier::loop_isolation(false)]
    #[verifier::rlimit(100)]
    #[verifier::spinoff_prover]
    pub fn update(&mut self, maze: &Maze, player: &Player, dt_ms: i32) -> (r: bool)
        requires
            maze.wf(),
            player.wf(),
            old(self).wf(*maze),
            0 <= dt_ms <= 60_000,
            0 <= player.x < maze.spec_width() * maze.spec_block_size(),
            0 <= player.y < maze.spec_height() * maze.spec_block_size(),
        ensures
            final(self).wf(*maze),
            old(self).spec_awake() > 0 ==> !r && final(self).spec_awake() == (if old(self).spec_awake() > dt_ms {
                old(self).spec_awake() - dt_ms
            } else {
                0int
            }) && final(self).x == old(self).x && final(self).y == old(self).y && final(self).spec_path() == old(self).spec_path() && final(self).spec_frustration() == old(self).spec_frustration() && final(self).spec_repath_ms() == old(self).spec_repath_ms(),
            old(self).spec_awake() == 0 && caught(
                old(self).x as int,
                old(self).y as int,
                player.x as int,
                player.y as int,
            ) ==> r && *final(self) == *old(self),
            r ==> old(self).spec_awake() == 0,
            old(self).spec_awake() == 0 && !caught(
                old(self).x as int,
                old(self).y as int,
                player.x as int,
                player.y as int,
            ) && los_spec(
                *maze,
                old(self).x as int,
                old(self).y as int,
                player.x as int,
                player.y as int,
            ) ==> final(self).spec_path().len() == 0 && final(self).spec_frustration() == 0
                && final(self).spec_awake() == 0 && final(self).spec_repath_ms() == old(self).spec_repath_ms() && moved_to(
                *maze,
                old(self).x as int,
                old(self).y as int,
                player.x as int,
                player.y as int,
                ENEMY_CHASE_SPEED as int,
                dt_ms as int,
                final(self).x as int,
                final(self).y as int,
            ) && (r <==> caught(
                final(self).x as int,
                final(self).y as int,
                player.x as int,
                player.y as int,
            )),
            old(self).spec_awake() == 0 && !caught(
                old(self).x as int,
                old(self).y as int,
                player.x as int,
                player.y as int,
            ) && !los_spec(
                *maze,
                old(self).x as int,
                old(self).y as int,
                player.x as int,
                player.y as int,
            ) ==> exists|pr: Seq<(usize, usize)>|
                #[trigger] pursuit_post(
                    *maze,
                    *old(self),
                    *player,
                    dt_ms as int,
                    pr,
                    *final(self),
                    r,
                ),
    {
        proof {
            assert(maze.spec_width() * maze.spec_block_size() <= 1024 * 1024
                && maze.spec_height() * maze.spec_block_size() <= 1024 * 1024)
                by (nonlinear_arith)
                requires
                    1 <= maze.spec_width() <= 1024,
                    1 <= maze.spec_height() <= 1024,
                    1 <= maze.spec_block_size() <= 1024,
            ;
        }
        if self.awake > 0 {
            self.awake = if self.awake > dt_ms {
                self.awake - dt_ms
            } else {
                0
            };
            proof {
                assert(0 <= self.x < maze.spec_width() * maze.spec_block_size());
                assert(0 <= self.spec_awake() <= SPAWN_GRACE_MS);
                assert(0 <= self.spec_frustration() < RETREAT_UNREACHABLE_MS);
                assert(0 <= self.spec_repath_ms() <= REPATH_EVERY_MS);
                assert forall|k: int| 0 <= k < self.spec_path().len() implies maze.in_bounds(
                    (#[trigger] self.spec_path()[k]).0 as int,
                    self.spec_path()[k].1 as int,
                ) by {
                    assert(self.spec_path() == old(self).spec_path());
                    assert(maze.in_bounds(
                        old(self).spec_path()[k].0 as int,
                        old(self).spec_path()[k].1 as int,
                    ));
                }
            }
            return false;
        }
        let kd: i64 = ((KILL_DIST + ENEMY_RADIUS) as i64) * ((KILL_DIST + ENEMY_RADIUS) as i64);
        if dist2(self.x, self.y, player.x, player.y) <= kd {
            return true;
        }
        let chase = has_los(maze, self.x, self.y, player.x, player.y);
        if chase {
            self.frustration = 0;
            self.path = Vec::new();
            let (nx, ny) = step_move(
                maze,
                self.x,
                self.y,
                player.x,
                player.y,
                ENEMY_CHASE_SPEED,
                dt_ms,
            );
            self.x = nx;
            self.y = ny;
            let cr = dist2(self.x, self.y, player.x, player.y) <= kd;
            return cr;
        }
        let repath = self.path.len() == 0 || self.time_to_repath <= dt_ms;
        let (eci, ecj) = cell_of_pos(maze, self.x, self.y);
        let (pci, pcj) = cell_of_pos(maze, player.x, player.y);
        if repath {
            self.path = bfs_path(maze, eci, ecj, pci, pcj);
            self.time_to_repath = REPATH_EVERY_MS;
        } else {
            self.time_to_repath = self.time_to_repath - dt_ms;
        }
        let ghost pr = self.path@;
        proof {
            // Every path cell is in bounds: fresh paths walk walkable cells,
            // kept paths were in bounds already.
            assert forall|k: int| 0 <= k < pr.len() implies maze.in_bounds(
                (#[trigger] pr[k]).0 as int,
                pr[k].1 as int,
            ) by {
                if repath && pr.len() > 0 {
                    assert(is_path(
                        *maze,
                        (eci as int, ecj as int),
                        path_view(pr),
                        (pci as int, pcj as int),
                    ));
                    assert(path_view(pr)[k] == (pr[k].0 as int, pr[k].1 as int));
                    assert(maze.walkable(path_view(pr)[k].0, path_view(pr)[k].1));
                }
                if !repath {
                    assert(pr == old(self).spec_path());
                    assert(maze.in_bounds(
                        old(self).spec_path()[k].0 as int,
                        old(self).spec_path()[k].1 as int,
                    ));
                }
            }
        }
        if self.path.len() == 0 {
            let nf = self.frustration + dt_ms;
            if nf >= RETREAT_UNREACHABLE_MS {
                self.retreat_far_from_player(maze, player);
                proof {
                    assert(pursuit_post(
                        *maze,
                        *old(self),
                        *player,
                        dt_ms as int,
                        pr,
                        *self,
                        false,
                    ));
                }
                return false;
            }
            self.frustration = nf;
            let (nx, ny) = step_move(maze, self.x, self.y, player.x, player.y, ENEMY_SPEED, dt_ms);
            self.x = nx;
            self.y = ny;
            let cr = dist2(self.x, self.y, player.x, player.y) <= kd;
            proof {
                assert(pursuit_post(*maze, *old(self), *player, dt_ms as int, pr, *self, cr));
            }
            return cr;
        }
        self.frustration = 0;
        let (wi, wj) = self.path[0];
        let bs = maze.block_size();
        let half = (bs as u32 / 2) as i32;
        proof {
            assert(wi * bs + bs / 2 < maze.spec_width() * bs && wj * bs + bs / 2
                < maze.spec_height() * bs && maze.spec_width() * bs <= 1024 * 1024
                && maze.spec_height() * bs <= 1024 * 1024) by (nonlinear_arith)
                requires
                    0 <= wi < maze.spec_width(),
                    0 <= wj < maze.spec_height(),
                    1 <= bs <= 1024,
                    maze.spec_width() <= 1024,
                    maze.spec_height() <= 1024,
            ;
        }
        let wx = (wi as i32) * bs + half;
        let wy = (wj as i32) * bs + half;
        let mut tx = player.x;
        let mut ty = player.y;
        let dw = dist2(self.x, self.y, wx, wy);
        let reach2: i64 = (REACH_WAYPOINT * REACH_WAYPOINT) as i64;
        if dw <= reach2 {
            self.path.remove(0);
            proof {
                assert(self.path@ =~= pr.drop_first());
            }
            if self.path.len() > 0 {
                let (ni, nj) = self.path[0];
                proof {
                    assert(pr.drop_first()[0] == pr[1]);
                    assert(ni * bs + bs / 2 < maze.spec_width() * bs && nj * bs + bs / 2
                        < maze.spec_height() * bs) by (nonlinear_arith)
                        requires
                            0 <= ni < maze.spec_width(),
                            0 <= nj < maze.spec_height(),
                            1 <= bs <= 1024,
                            maze.spec_width() <= 1024,
                            maze.spec_height() <= 1024,
                    ;
                }
                tx = (ni as i32) * bs + half;
                ty = (nj as i32) * bs + half;
            }
        } else {
            tx = wx;
            ty = wy;
        }
        let (nx, ny) = step_move(maze, self.x, self.y, tx, ty, ENEMY_SPEED, dt_ms);
        self.x = nx;
        self.y = ny;
        let cr = dist2(self.x, self.y, player.x, player.y) <= kd;
        proof {
            assert(pursuit_post(*maze, *old(self), *player, dt_ms as int, pr, *self, cr));
        }
        cr
    }
}

} // verus!
