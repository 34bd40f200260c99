use vstd::prelude::*;

use crate::geom::tdiv;
use crate::maze::{Maze, AUTO_CLOSE_MS};
use crate::player::Player;
use crate::tile::{Tile, is_wall_tile};

verus! {

/// The two mazes agree everywhere except that the door at `(i, j)` has been
/// flipped: opened with a fresh grace timer, or closed.
pub open spec fn door_toggle_effect(m0: Maze, m1: Maze, i: int, j: int) -> bool {
    &&& m1.wf()
    &&& m0.same_static(m1)
    &&& m0.tile(i, j) == Tile::Door
    &&& forall|a: int, b: int|
        m0.in_bounds(a, b) && !(a == i && b == j) ==> #[trigger] m1.door_remaining(a, b)
            == m0.door_remaining(a, b)
    &&& m1.door_open(i, j) == !m0.door_open(i, j)
    &&& m1.door_remaining(i, j) == if m0.door_open(i, j) {
        0int
    } else {
        AUTO_CLOSE_MS as int
    }
}

/// Outcome of stepping a short ray from `(px, py)` along `(dx, dy)` in
/// `step`-unit increments up to `maxd`: the first door cell met, or nothing
/// if a hard wall, the map edge or the range limit comes first.
pub open spec fn front_scan(
    m: Maze,
    px: int,
    py: int,
    dx: int,
    dy: int,
    d: int,
    maxd: int,
    step: int,
) -> Option<(int, int)>
    decreases maxd + step - d
        when step >= 1
{
    if d > maxd {
        None
    } else {
        let xn = px * 1024 + dx * d;
        let yn = py * 1024 + dy * d;
        let lim_x = m.spec_width() * m.spec_block_size() * 1024;
        let lim_y = m.spec_height() * m.spec_block_size() * 1024;
        if xn < 0 || yn < 0 || xn >= lim_x || yn >= lim_y {
            None
        } else {
            let ci = xn / (m.spec_block_size() * 1024);
            let cj = yn / (m.spec_block_size() * 1024);
            if m.tile(ci, cj) == Tile::Door {
                Some((ci, cj))
            } else if is_wall_tile(m.tile(ci, cj)) {
                None
            } else {
                front_scan(m, px, py, dx, dy, d + step, maxd, step)
            }
        }
    }
}

/// The door the interact action would reach by the short forward ray.
pub open spec fn front_door(m: Maze, p: Player) -> Option<(int, int)> {
    let bs = m.spec_block_size();
    let step = if bs / 5 >= 1 {
        bs / 5
    } else {
        1
    };
    front_scan(m, p.x as int, p.y as int, p.dir_x as int, p.dir_y as int, 0, bs + bs / 2, step)
}

/// First door among the four orthogonal neighbors of cell `(ci, cj)`, in the
/// order right, left, below, above.
pub open spec fn near_door(m: Maze, ci: int, cj: int) -> Option<(int, int)> {
    if m.in_bounds(ci + 1, cj) && m.tile(ci + 1, cj) == Tile::Door {
        Some((ci + 1, cj))
    } else if m.in_bounds(ci - 1, cj) && m.tile(ci - 1, cj) == Tile::Door {
        Some((ci - 1, cj))
    } else if m.in_bounds(ci, cj + 1) && m.tile(ci, cj + 1) == Tile::Door {
        Some((ci, cj + 1))
    } else if m.in_bounds(ci, cj - 1) && m.tile(ci, cj - 1) == Tile::Door {
        Some((ci, cj - 1))
    } else {
        None
    }
}

/// The grid cell under a world point, coordinates truncated toward zero.
pub open spec fn cell_of(x: int, y: int, bs: int) -> (int, int) {
    (tdiv(x, bs), tdiv(y, bs))
}

impl Maze {
    /// Scans ahead of the player for the first door within about one and a
    /// half cells, stopping early at hard walls and the map edge.
    #[verifier::loop_isolation(false)]
    #[verifier::rlimit(60)]
    fn find_front_door(&self, player: &Player) -> (r: Option<(usize, usize)>)
        requires
            self.wf(),
            player.wf(),
        ensures
            match r {
                Some(c) => front_door(*self, *player) == Some((c.0 as int, c.1 as int))
                    && self.in_bounds(c.0 as int, c.1 as int) && self.tile(c.0 as int, c.1 as int)
                    == Tile::Door,
                None => front_door(*self, *player) is None,
            },
    {
        let bs = self.block_size();
        let step: i32 = {
            let q = (bs as u32 / 5) as i32;
            if q >= 1 {
                q
            } else {
                1
            }
        };
        let maxd: i32 = bs + bs / 2;
        let w = self.width() as i64;
        let h = self.height() as i64;
        proof {
            assert(w * (bs as i64) <= 1024i64 * 1024 && h * (bs as i64) <= 1024i64 * 1024)
                by (nonlinear_arith)
                requires
                    1 <= w <= 1024,
                    1 <= h <= 1024,
                    1 <= bs as i64 <= 1024,
            ;
        }
        let lim_x: i64 = (w * (bs as i64)) * 1024;
        let lim_y: i64 = (h * (bs as i64)) * 1024;
        let mut d: i32 = 0;
        while d <= maxd
            invariant
                0 <= d <= maxd + step,
                front_scan(
                    *self,
                    player.x as int,
                    player.y as int,
                    player.dir_x as int,
                    player.dir_y as int,
                    d as int,
                    maxd as int,
                    step as int,
                ) == front_door(*self, *player),
            decreases maxd + step - d,
        {
            proof {
                assert(-1024i64 * 2048 <= (player.dir_x as i64) * (d as i64) <= 1024i64 * 2048
                    && -1024i64 * 2048 <= (player.dir_y as i64) * (d as i64) <= 1024i64 * 2048)
                    by (nonlinear_arith)
                    requires
                        -1024 <= player.dir_x as i64 <= 1024,
                        -1024 <= player.dir_y as i64 <= 1024,
                        0 <= d as i64 <= 2048,
                ;
            }
            let xn: i64 = (player.x as i64) * 1024 + (player.dir_x as i64) * (d as i64);
            let yn: i64 = (player.y as i64) * 1024 + (player.dir_y as i64) * (d as i64);
            if xn < 0 || yn < 0 || xn >= lim_x || yn >= lim_y {
                return None;
            }
            let den: i64 = (bs as i64) * 1024;
            let ci: i64 = ((xn as u64) / (den as u64)) as i64;
            let cj: i64 = ((yn as u64) / (den as u64)) as i64;
            proof {
                assert(ci < w && cj < h) by (nonlinear_arith)
                    requires
                        0 <= xn < (w * (bs as i64)) * 1024,
                        0 <= yn < (h * (bs as i64)) * 1024,
                        (bs as i64) * 1024 >= 1,
                        ci == (xn as int) / ((bs as i64) * 1024),
                        cj == (yn as int) / ((bs as i64) * 1024),
                ;
            }
            let t = self.tile_at(ci as i32, cj as i32);
            if t == Tile::Door {
                return Some((ci as usize, cj as usize));
            }
            match t {
                Tile::Wall | Tile::WallA | Tile::WallB => {
                    return None;
                },
                _ => {},
            }
            d = d + step;
        }
        None
    }

    /// Toggles the first door among the four orthogonal neighbors of the
    /// player's cell, if any.
    fn toggle_door_near(&mut self, player: &Player) -> (r: bool)
        requires
            old(self).wf(),
            player.wf(),
        ensures
            final(self).wf(),
            ({
                let c = cell_of(player.x as int, player.y as int, old(self).spec_block_size());
                match near_door(*old(self), c.0, c.1) {
                    Some(dc) => r && door_toggle_effect(*old(self), *final(self), dc.0, dc.1),
                    None => !r && *final(self) == *old(self),
                }
            }),
    {
        let bs = self.block_size();
        let ci = crate::geom::tdiv32(player.x, bs);
        let cj = crate::geom::tdiv32(player.y, bs);
        if self.tile_at(ci + 1, cj) == Tile::Door {
            self.toggle_door_at((ci + 1) as usize, cj as usize);
            return true;
        }
        if self.tile_at(ci - 1, cj) == Tile::Door {
            self.toggle_door_at((ci - 1) as usize, cj as usize);
            return true;
        }
        if self.tile_at(ci, cj + 1) == Tile::Door {
            self.toggle_door_at(ci as usize, (cj + 1) as usize);
            return true;
        }
        if self.tile_at(ci, cj - 1) == Tile::Door {
            self.toggle_door_at(ci as usize, (cj - 1) as usize);
            return true;
        }
        false
    }

    /// Resolves an "interact" request: first a door in the short ray ahead of
    /// the player toggles; failing that, the first door among the four
    /// orthogonal neighbors of the player's cell. Reports whether any door
    /// changed state.
    pub fn use_action(&mut self, player: &Player) -> (r: bool)
        requires
            old(self).wf(),
            player.wf(),
        ensures
            final(self).wf(),
            ({
                let front = front_door(*old(self), *player);
                let c = cell_of(player.x as int, player.y as int, old(self).spec_block_size());
                match front {
                    Some(dc) => r && door_toggle_effect(*old(self), *final(self), dc.0, dc.1),
                    None => match near_door(*old(self), c.0, c.1) {
                        Some(dc) => r && door_toggle_effect(*old(self), *final(self), dc.0, dc.1),
                        None => !r && *final(self) == *old(self),
                    },
                }
            }),
    {
        match self.find_front_door(player) {
            Some((di, dj)) => {
                self.toggle_door_at(di, dj);
                true
            },
            None => {
                let r = self.toggle_door_near(player);
                proof {
                    if r {
                    } else {
                        assert(*final(self) == *old(self));
                    }
                }
                r
            },
        }
    }
}

} // verus!
