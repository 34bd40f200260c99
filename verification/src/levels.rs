use vstd::prelude::*;

use crate::action::cell_of;
use crate::geom::tdiv;
use crate::maze::Maze;
use crate::player::{Player, cell_center};
use crate::tile::Tile;

verus! {

/// World units the player is nudged forward after a level change, so the
/// exit tile is not re-triggered at once.
pub const LEVEL_BUMP: i32 = 6;

/// What standing on the current cell means for level progression.
#[derive(Clone, Copy, PartialEq, Eq, Structural, Debug)]
pub enum Transition {
    Stay,
    NextLevel,
    Won,
}

/// The ordered level set and the index of the level being played.
pub struct Levels {
    maps: Vec<Maze>,
    current: usize,
}

impl Levels {
    pub closed spec fn maps_view(self) -> Seq<Maze> {
        self.maps@
    }

    pub closed spec fn spec_current(self) -> int {
        self.current as int
    }

    pub open spec fn wf(self) -> bool {
        &&& self.maps_view().len() >= 1
        &&& 0 <= self.spec_current() < self.maps_view().len()
        &&& forall|k: int| 0 <= k < self.maps_view().len() ==> (#[trigger] self.maps_view()[k]).wf()
    }

    /// The transition the active maze's tile under the player calls for:
    /// a final exit wins outright; a stair exit advances, or wins on the
    /// last level; anything else stays.
    pub open spec fn transition_spec(self, p: Player) -> Transition {
        let m = self.maps_view()[self.spec_current()];
        let c = cell_of(p.x as int, p.y as int, m.spec_block_size());
        if !m.in_bounds(c.0, c.1) {
            Transition::Stay
        } else if m.tile(c.0, c.1) == Tile::ExitFinal {
            Transition::Won
        } else if m.tile(c.0, c.1) == Tile::ExitNext {
            if self.spec_current() + 1 >= self.maps_view().len() {
                Transition::Won
            } else {
                Transition::NextLevel
            }
        } else {
            Transition::Stay
        }
    }

    pub fn new(maps: Vec<Maze>) -> (lv: Levels)
        requires
            maps@.len() >= 1,
            forall|k: int| 0 <= k < maps@.len() ==> (#[trigger] maps@[k]).wf(),
        ensures
            lv.wf(),
            lv.maps_view() == maps@,
            lv.spec_current() == 0,
    {
        Levels { maps, current: 0 }
    }

    pub fn active(&self) -> (m: &Maze)
        requires
            self.wf(),
        ensures
            *m == self.maps_view()[self.spec_current()],
            m.wf(),
    {
        &self.maps[self.current]
    }

    pub fn active_mut(&mut self) -> (m: &mut Maze)
        requires
            old(self).wf(),
        ensures
            *m == old(self).maps_view()[old(self).spec_current()],
            final(self).maps_view() == old(self).maps_view().update(
                old(self).spec_current(),
                *final(m),
            ),
            final(self).spec_current() == old(self).spec_current(),
    {
        &mut self.maps[self.current]
    }

    pub fn total_levels(&self) -> (n: usize)
        ensures
            n == self.maps_view().len(),
    {
        self.maps.len()
    }

    pub fn current(&self) -> (c: usize)
        ensures
            c == self.spec_current(),
    {
        self.current
    }

    /// Switches to level `idx` and places the player at its spawn center.
    pub fn set_current(&mut self, idx: usize, player: &mut Player)
        requires
            old(self).wf(),
            old(player).wf(),
            idx < old(self).maps_view().len(),
        ensures
            final(self).wf(),
            final(self).maps_view() == old(self).maps_view(),
            final(self).spec_current() == idx,
            ({
                let m = old(self).maps_view()[idx as int];
                &&& final(player).x == cell_center(m.spec_spawn().0, m.spec_block_size())
                &&& final(player).y == cell_center(m.spec_spawn().1, m.spec_block_size())
            }),
            final(player).dir_x == old(player).dir_x,
            final(player).dir_y == old(player).dir_y,
            final(player).move_speed == old(player).move_speed,
            final(player).wf(),
    {
        self.current = idx;
        place_player_at_spawn(player, &self.maps[idx]);
    }

    pub fn check_transition(&self, player: &Player) -> (t: Transition)
        requires
            self.wf(),
            player.wf(),
        ensures
            t == self.transition_spec(*player),
    {
        let m = self.active();
        let bs = m.block_size();
        let i = crate::geom::tdiv32(player.x, bs);
        let j = crate::geom::tdiv32(player.y, bs);
        let tile = m.cell(i as isize, j as isize);
        if tile == Tile::ExitFinal {
            return Transition::Won;
        }
        if tile == Tile::ExitNext {
            let n = self.maps.len();
            if self.current + 1 >= n {
                Transition::Won
            } else {
                Transition::NextLevel
            }
        } else {
            Transition::Stay
        }
    }

    /// Moves to the next level, places the player at its spawn center and
    /// nudges them a short step along their heading.
    pub fn advance_to_next(&mut self, player: &mut Player)
        requires
            old(self).wf(),
            old(player).wf(),
            old(self).spec_current() + 1 < old(self).maps_view().len(),
        ensures
            final(self).wf(),
            final(self).maps_view() == old(self).maps_view(),
            final(self).spec_current() == old(self).spec_current() + 1,
            ({
                let m = old(self).maps_view()[old(self).spec_current() + 1];
                &&& final(player).x == cell_center(m.spec_spawn().0, m.spec_block_size()) + tdiv(
                    old(player).dir_x * LEVEL_BUMP,
                    1024,
                )
                &&& final(player).y == cell_center(m.spec_spawn().1, m.spec_block_size()) + tdiv(
                    old(player).dir_y * LEVEL_BUMP,
                    1024,
                )
            }),
            final(player).dir_x == old(player).dir_x,
            final(player).dir_y == old(player).dir_y,
            final(player).wf(),
    {
        let n = self.maps.len();
        let next = self.current + 1;
        self.current = next;
        place_player_at_spawn(player, &self.maps[next]);
        let bx = crate::geom::tdiv32(player.dir_x * LEVEL_BUMP, 1024);
        let by = crate::geom::tdiv32(player.dir_y * LEVEL_BUMP, 1024);
        proof {
            assert(-6 <= tdiv(player.dir_x * LEVEL_BUMP, 1024) <= 6 && -6 <= tdiv(
                player.dir_y * LEVEL_BUMP,
                1024,
            ) <= 6) by (nonlinear_arith)
                requires
                    -1024 <= player.dir_x <= 1024,
                    -1024 <= player.dir_y <= 1024,
            ;
        }
        player.x = player.x + bx;
        player.y = player.y + by;
    }
}

/// Sets the player's position to the center of the maze's spawn cell.
pub fn place_player_at_spawn(player: &mut Player, maze: &Maze)
    requires
        maze.wf(),
        old(player).wf(),
    ensures
        final(player).x == cell_center(maze.spec_spawn().0, maze.spec_block_size()),
        final(player).y == cell_center(maze.spec_spawn().1, maze.spec_block_size()),
        final(player).dir_x == old(player).dir_x,
        final(player).dir_y == old(player).dir_y,
        final(player).move_speed == old(player).move_speed,
        final(player).wf(),
        0 <= final(player).x <= 2_000_000,
        0 <= final(player).y <= 2_000_000,
{
    let (si, sj) = maze.player_spawn();
    let bs = maze.block_size();
    let half = (bs as u32 / 2) as i32;
    proof {
        assert(si * bs + bs / 2 <= 1024 * 1024 + 512 && sj * bs + bs / 2 <= 1024 * 1024 + 512)
            by (nonlinear_arith)
            requires
                0 <= si < 1024,
                0 <= sj < 1024,
                1 <= bs <= 1024,
        ;
    }
    player.x = (si as i32) * bs + half;
    player.y = (sj as i32) * bs + half;
}

} // verus!
