use vstd::prelude::*;

use crate::collision::{PLAYER_RADIUS, resolve_move, resolve_move_spec};
use crate::geom::tdiv;
use crate::maze::Maze;

verus! {

/// World units per second the player walks at.
pub const PLAYER_SPEED: i32 = 120;

/// The player's pose: a world position and a fixed-point unit heading
/// (`dir = round(unit vector * 1024)`).
pub struct Player {
    pub x: i32,
    pub y: i32,
    pub dir_x: i32,
    pub dir_y: i32,
    pub move_speed: i32,
}

/// X coordinate of a cell's center.
pub open spec fn cell_center(idx: int, bs: int) -> int {
    idx * bs + bs / 2
}

impl Player {
    /// A pose fit for the movement routines: within sane coordinates, with a
    /// bounded heading and speed.
    pub open spec fn wf(self) -> bool {
        &&& -8_000_000 <= self.x <= 8_000_000
        &&& -8_000_000 <= self.y <= 8_000_000
        &&& -1024 <= self.dir_x <= 1024
        &&& -1024 <= self.dir_y <= 1024
        &&& 0 <= self.move_speed <= 1000
    }

    /// Spawns the player at the center of the maze's recorded spawn cell,
    /// facing along the given heading.
    pub fn from_maze(maze: &Maze, dir_x: i32, dir_y: i32) -> (p: Player)
        requires
            maze.wf(),
            -1024 <= dir_x <= 1024,
            -1024 <= dir_y <= 1024,
        ensures
            p.wf(),
            p.x == cell_center(maze.spec_spawn().0, maze.spec_block_size()),
            p.y == cell_center(maze.spec_spawn().1, maze.spec_block_size()),
            p.dir_x == dir_x,
            p.dir_y == dir_y,
            p.move_speed == PLAYER_SPEED,
    {
        let (si, sj) = maze.player_spawn();
        let bs = maze.block_size();
        let half = (bs as u32 / 2) as i32;
        proof {
            assert(si * bs + bs / 2 <= 1024 * 1024 + 512 && sj * bs + bs / 2 <= 1024 * 1024 + 512)
                by (nonlinear_arith)
                requires
                    0 <= si < 1024,
                    0 <= sj < 1024,
                    1 <= bs <= 1024,
            ;
        }
        Player {
            x: (si as i32) * bs + half,
            y: (sj as i32) * bs + half,
            dir_x,
            dir_y,
            move_speed: PLAYER_SPEED,
        }
    }
}

/// Displacement along one axis for an intent pair: heading and sideways unit
/// vectors scaled by intent per-milles, speed and elapsed time, truncated to
/// whole world units.
pub open spec fn intent_disp(
    fwd_component: int,
    strafe_component: int,
    forward: int,
    strafe: int,
    speed: int,
    dt_ms: int,
) -> int {
    tdiv((fwd_component * forward + strafe_component * strafe) * speed * dt_ms, 1_024_000_000)
}

/// Axis-separated move of the player by `(dx, dy)`, sliding along walls.
pub fn try_move(player: &mut Player, maze: &Maze, dx: i32, dy: i32)
    requires
        maze.wf(),
        old(player).wf(),
        -1_000_000 <= dx <= 1_000_000,
        -1_000_000 <= dy <= 1_000_000,
    ensures
        (final(player).x as int, final(player).y as int) == resolve_move_spec(
            *maze,
            old(player).x as int,
            old(player).y as int,
            dx as int,
            dy as int,
            PLAYER_RADIUS as int,
        ),
        final(player).dir_x == old(player).dir_x,
        final(player).dir_y == old(player).dir_y,
        final(player).move_speed == old(player).move_speed,
        final(player).wf(),
    {
    let (nx, ny) = resolve_move(maze, player.x, player.y, dx, dy, PLAYER_RADIUS);
    proof {
        crate::collision::lemma_resolve_move_in_range(
            *maze,
            player.x as int,
            player.y as int,
            dx as int,
            dy as int,
            PLAYER_RADIUS as int,
        );
        assert(maze.spec_width() * maze.spec_block_size() <= 1024 * 1024 && maze.spec_height()
            * maze.spec_block_size() <= 1024 * 1024) by (nonlinear_arith)
            requires
                1 <= maze.spec_width() <= 1024,
                1 <= maze.spec_height() <= 1024,
                1 <= maze.spec_block_size() <= 1024,
        ;
    }
    player.x = nx;
    player.y = ny;
}

/// Applies one frame of movement intent: forward/strafe per-milles, an
/// optional sprint multiplier of 1.8, elapsed time in milliseconds. The
/// displacement is resolved against the maze with wall sliding.
pub fn advance_player(
    player: &mut Player,
    maze: &Maze,
    forward: i32,
    strafe: i32,
    sprint: bool,
    dt_ms: i32,
)
    requires
        maze.wf(),
        old(player).wf(),
        -1000 <= forward <= 1000,
        -1000 <= strafe <= 1000,
        0 <= dt_ms <= 60_000,
    ensures
        ({
            let speed = if sprint {
                old(player).move_speed * 9 / 5
            } else {
                old(player).move_speed as int
            };
            let dx = intent_disp(
                old(player).dir_x as int,
                -old(player).dir_y as int,
                forward as int,
                strafe as int,
                speed,
                dt_ms as int,
            );
            let dy = intent_disp(
                old(player).dir_y as int,
                old(player).dir_x as int,
                forward as int,
                strafe as int,
                speed,
                dt_ms as int,
            );
            (final(player).x as int, final(player).y as int) == resolve_move_spec(
                *maze,
                old(player).x as int,
                old(player).y as int,
                dx,
                dy,
                PLAYER_RADIUS as int,
            )
        }),
        final(player).dir_x == old(player).dir_x,
        final(player).dir_y == old(player).dir_y,
        final(player).move_speed == old(player).move_speed,
        final(player).wf(),
{
    let speed: i64 = if sprint {
        ((player.move_speed as i64) * 9) / 5
    } else {
        player.move_speed as i64
    };
    proof {
        assert(speed == if sprint {
            player.move_speed * 9 / 5
        } else {
            player.move_speed as int
        });
        assert(0 <= speed <= 1800);
    }
    let fx: i64 = player.dir_x as i64;
    let fy: i64 = player.dir_y as i64;
    proof {
        assert(-1_024_000i64 <= fx * (forward as i64) <= 1_024_000 && -1_024_000i64 <= (-fy) * (
        strafe as i64) <= 1_024_000 && -1_024_000i64 <= fy * (forward as i64) <= 1_024_000
            && -1_024_000i64 <= fx * (strafe as i64) <= 1_024_000) by (nonlinear_arith)
            requires
                -1024 <= fx <= 1024,
                -1024 <= fy <= 1024,
                -1000 <= forward as i64 <= 1000,
                -1000 <= strafe as i64 <= 1000,
        ;
    }
    let base_x: i64 = fx * (forward as i64) + (-fy) * (strafe as i64);
    let base_y: i64 = fy * (forward as i64) + fx * (strafe as i64);
    proof {
        assert(-2_048_000i64 * 1800 <= base_x * speed <= 2_048_000i64 * 1800
            && -2_048_000i64 * 1800 <= base_y * speed <= 2_048_000i64 * 1800) by (nonlinear_arith)
            requires
                -2_048_000 <= base_x <= 2_048_000,
                -2_048_000 <= base_y <= 2_048_000,
                0 <= speed <= 1800,
        ;
        assert(-3_686_400_000i64 * 60_000 <= (base_x * speed) * (dt_ms as i64)
            <= 3_686_400_000i64 * 60_000 && -3_686_400_000i64 * 60_000 <= (base_y * speed) * (
        dt_ms as i64) <= 3_686_400_000i64 * 60_000) by (nonlinear_arith)
            requires
                -3_686_400_000 <= base_x * speed <= 3_686_400_000,
                -3_686_400_000 <= base_y * speed <= 3_686_400_000,
                0 <= dt_ms as i64 <= 60_000,
        ;
    }
    let num_x: i64 = base_x * speed * (dt_ms as i64);
    let num_y: i64 = base_y * speed * (dt_ms as i64);
    let dx64 = crate::geom::tdiv64(num_x, 1_024_000_000);
    let dy64 = crate::geom::tdiv64(num_y, 1_024_000_000);
    proof {
        assert(-1_000_000 <= dx64 <= 1_000_000 && -1_000_000 <= dy64 <= 1_000_000)
            by (nonlinear_arith)
            requires
                -221_184_000_000_000 <= num_x <= 221_184_000_000_000,
                -221_184_000_000_000 <= num_y <= 221_184_000_000_000,
                dx64 == tdiv(num_x as int, 1_024_000_000),
                dy64 == tdiv(num_y as int, 1_024_000_000),
        ;
    }
    try_move(player, maze, dx64 as i32, dy64 as i32);
}

} // verus!
