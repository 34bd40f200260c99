use vstd::prelude::*;

use crate::tile::{Tile, is_wall_tile, is_exit_tile};

verus! {

/// Grace duration in milliseconds before an opened door closes on its own.
pub const AUTO_CLOSE_MS: i32 = 1500;

/// A rectangular tile grid with a uniform cell size, the runtime state of its
/// doors, and the player's spawn cell.
///
/// Door runtime state is one grace timer per cell, in milliseconds: the door
/// at a cell is open exactly while its timer is positive, and a cell that does
/// not hold a door always carries a zero timer.
pub struct Maze {
    grid: Vec<Vec<Tile>>,
    width: usize,
    height: usize,
    block_size: i32,
    door_ms: Vec<i32>,
    player_spawn: (usize, usize),
}

/// Row-major cell index.
pub open spec fn rm_index(width: int, i: int, j: int) -> int {
    j * width + i
}

/// Row-major indexing is injective over in-bounds cells.
pub proof fn lemma_rm_index_injective(width: int, a: int, b: int, i: int, j: int)
    requires
        0 <= a < width,
        0 <= i < width,
        0 <= b,
        0 <= j,
    ensures
        (rm_index(width, a, b) == rm_index(width, i, j)) <==> (a == i && b == j),
{
    assert((b * width + a == j * width + i) <==> (a == i && b == j)) by (nonlinear_arith)
        requires
            0 <= a < width,
            0 <= i < width,
            0 <= b,
            0 <= j,
    ;
}

/// A row-major index lies within the dense table.
pub proof fn lemma_rm_index_range(width: int, height: int, i: int, j: int)
    requires
        0 <= i < width,
        0 <= j < height,
    ensures
        0 <= rm_index(width, i, j) < width * height,
{
    assert(0 <= j * width + i < width * height) by (nonlinear_arith)
        requires
            0 <= i < width,
            0 <= j < height,
    ;
}

impl Maze {
    pub closed spec fn grid_view(self) -> Seq<Seq<Tile>> {
        self.grid@.map_values(|r: Vec<Tile>| r@)
    }

    pub closed spec fn spec_width(self) -> int {
        self.width as int
    }

    pub closed spec fn spec_height(self) -> int {
        self.height as int
    }

    pub closed spec fn spec_block_size(self) -> int {
        self.block_size as int
    }

    pub closed spec fn door_ms_view(self) -> Seq<i32> {
        self.door_ms@
    }

    pub closed spec fn spec_spawn(self) -> (int, int) {
        (self.player_spawn.0 as int, self.player_spawn.1 as int)
    }

    pub open spec fn in_bounds(self, i: int, j: int) -> bool {
        0 <= i < self.spec_width() && 0 <= j < self.spec_height()
    }

    /// The static tile at an in-bounds cell.
    pub open spec fn tile(self, i: int, j: int) -> Tile
        recommends
            self.in_bounds(i, j),
    {
        self.grid_view()[j][i]
    }

    /// Remaining grace of the door at `(i, j)`; zero when closed.
    pub open spec fn door_remaining(self, i: int, j: int) -> int
        recommends
            self.in_bounds(i, j),
    {
        self.door_ms_view()[rm_index(self.spec_width(), i, j)] as int
    }

    /// Whether the door at `(i, j)` is currently open.
    pub open spec fn door_open(self, i: int, j: int) -> bool {
        self.in_bounds(i, j) && self.door_remaining(i, j) > 0
    }

    /// Door-table well-formedness: a positive grace timer only at door tiles,
    /// every timer within the grace range.
    pub open spec fn doors_wf(self) -> bool {
        &&& self.door_ms_view().len() == self.spec_width() * self.spec_height()
        &&& forall|i: int, j: int|
            self.in_bounds(i, j) ==> 0 <= #[trigger] self.door_remaining(i, j) <= AUTO_CLOSE_MS
        &&& forall|i: int, j: int|
            self.in_bounds(i, j) && #[trigger] self.door_remaining(i, j) > 0 ==> self.tile(i, j)
                == Tile::Door
    }

    pub open spec fn wf(self) -> bool {
        &&& 1 <= self.spec_width() <= 1024
        &&& 1 <= self.spec_height() <= 1024
        &&& 1 <= self.spec_block_size() <= 1024
        &&& self.grid_view().len() == self.spec_height()
        &&& forall|j: int|
            0 <= j < self.spec_height() ==> (#[trigger] self.grid_view()[j]).len()
                == self.spec_width()
        &&& self.doors_wf()
        &&& self.in_bounds(self.spec_spawn().0, self.spec_spawn().1)
        &&& self.tile(self.spec_spawn().0, self.spec_spawn().1) == Tile::Floor
    }

    /// Movement blocking: out-of-bounds cells and wall tiles always block,
    /// a door blocks exactly when closed, everything else never blocks.
    pub open spec fn blocking(self, i: int, j: int) -> bool {
        if !self.in_bounds(i, j) {
            true
        } else if is_wall_tile(self.tile(i, j)) {
            true
        } else if self.tile(i, j) == Tile::Door {
            !self.door_open(i, j)
        } else {
            false
        }
    }

    /// Ray-terminating surfaces: walls, closed doors and exits. Out-of-bounds
    /// cells do not count; the caster treats leaving the map as a boundary hit.
    pub open spec fn surface(self, i: int, j: int) -> bool {
        if !self.in_bounds(i, j) {
            false
        } else if is_wall_tile(self.tile(i, j)) {
            true
        } else if self.tile(i, j) == Tile::Door {
            !self.door_open(i, j)
        } else {
            is_exit_tile(self.tile(i, j))
        }
    }

    /// Walkable cells, as the pathfinder sees them: in bounds and not blocking.
    pub open spec fn walkable(self, i: int, j: int) -> bool {
        self.in_bounds(i, j) && !self.blocking(i, j)
    }

    /// Builds a maze from already-validated parts; the loader's backend.
    pub(crate) fn assemble(
        grid: Vec<Vec<Tile>>,
        width: usize,
        height: usize,
        block_size: i32,
        door_ms: Vec<i32>,
        player_spawn: (usize, usize),
    ) -> (m: Maze)
        ensures
            m.grid_view() == grid@.map_values(|r: Vec<Tile>| r@),
            m.spec_width() == width,
            m.spec_height() == height,
            m.spec_block_size() == block_size,
            m.door_ms_view() == door_ms@,
            m.spec_spawn() == (player_spawn.0 as int, player_spawn.1 as int),
    {
        Maze { grid, width, height, block_size, door_ms, player_spawn }
    }

    pub fn width(&self) -> (w: usize)
        ensures
            w == self.spec_width(),
    {
        self.width
    }

    pub fn height(&self) -> (h: usize)
        ensures
            h == self.spec_height(),
    {
        self.height
    }

    pub fn block_size(&self) -> (b: i32)
        ensures
            b == self.spec_block_size(),
    {
        self.block_size
    }

    pub fn player_spawn(&self) -> (s: (usize, usize))
        ensures
            (s.0 as int, s.1 as int) == self.spec_spawn(),
    {
        self.player_spawn
    }

    /// Grid lookup for an in-bounds cell.
    fn grid_at(&self, x: usize, y: usize) -> (t: Tile)
        requires
            self.wf(),
            x < self.spec_width(),
            y < self.spec_height(),
        ensures
            t == self.tile(x as int, y as int),
    {
        proof {
            assert(self.grid_view()[y as int] == self.grid@[y as int]@);
        }
        self.grid[y][x]
    }

    /// The row-major timer index of an in-bounds cell.
    fn door_index(&self, i: usize, j: usize) -> (k: usize)
        requires
            self.wf(),
            i < self.spec_width(),
            j < self.spec_height(),
        ensures
            k == rm_index(self.spec_width(), i as int, j as int),
            k < self.door_ms_view().len(),
    {
        proof {
            assert(j * self.spec_width() + i < self.spec_width() * self.spec_height()
                && j * self.spec_width() + i <= 1024 * 1024) by (nonlinear_arith)
                requires
                    0 <= i < self.spec_width() <= 1024,
                    0 <= j < self.spec_height() <= 1024,
            ;
        }
        j * self.width + i
    }

    /// The tile at `(i, j)`, with every out-of-bounds cell read as a wall.
    pub fn cell(&self, i: isize, j: isize) -> (t: Tile)
        requires
            self.wf(),
        ensures
            t == if self.in_bounds(i as int, j as int) {
                self.tile(i as int, j as int)
            } else {
                Tile::Wall
            },
    {
        if i < 0 || j < 0 {
            return Tile::Wall;
        }
        let x = i as usize;
        let y = j as usize;
        if y >= self.height || x >= self.width {
            return Tile::Wall;
        }
        self.grid_at(x, y)
    }

    pub fn tile_at(&self, i: i32, j: i32) -> (t: Tile)
        requires
            self.wf(),
        ensures
            t == if self.in_bounds(i as int, j as int) {
                self.tile(i as int, j as int)
            } else {
                Tile::Wall
            },
    {
        self.cell(i as isize, j as isize)
    }

    pub fn door_is_open(&self, i: usize, j: usize) -> (r: bool)
        requires
            self.wf(),
        ensures
            r == self.door_open(i as int, j as int),
    {
        if i >= self.width || j >= self.height {
            return false;
        }
        let k = self.door_index(i, j);
        self.door_ms[k] > 0
    }

    /// Everything about the maze except the runtime door state.
    pub open spec fn same_static(self, other: Maze) -> bool {
        &&& other.grid_view() == self.grid_view()
        &&& other.spec_width() == self.spec_width()
        &&& other.spec_height() == self.spec_height()
        &&& other.spec_block_size() == self.spec_block_size()
        &&& other.spec_spawn() == self.spec_spawn()
    }

    /// Flips the door at `(i, j)`: a closed door opens with a fresh grace
    /// timer, an open door closes and drops its remaining grace. Cells that do
    /// not hold a door are left untouched.
    pub fn toggle_door_at(&mut self, i: usize, j: usize)
        requires
            old(self).wf(),
            i < old(self).spec_width(),
            j < old(self).spec_height(),
        ensures
            final(self).wf(),
            old(self).same_static(*final(self)),
            old(self).tile(i as int, j as int) != Tile::Door ==> final(self).door_ms_view() == old(
                self,
            ).door_ms_view(),
            old(self).tile(i as int, j as int) == Tile::Door ==> {
                &&& forall|a: int, b: int|
                    old(self).in_bounds(a, b) && !(a == i && b == j)
                        ==> #[trigger] final(self).door_remaining(a, b) == old(self).door_remaining(
                        a,
                        b,
                    )
                &&& final(self).door_open(i as int, j as int) == !old(self).door_open(
                    i as int,
                    j as int,
                )
                &&& final(self).door_remaining(i as int, j as int) == if old(self).door_open(
                    i as int,
                    j as int,
                ) {
                    0
                } else {
                    AUTO_CLOSE_MS as int
                }
            },
    {
        if self.grid_at(i, j) != Tile::Door {
            return ;
        }
        let k = self.door_index(i, j);
        let fresh: i32 = if self.door_ms[k] > 0 {
            0
        } else {
            AUTO_CLOSE_MS
        };
        self.door_ms[k] = fresh;
        proof {
            let w = self.spec_width();
            let h = self.spec_height();
            assert forall|a: int, b: int|
                self.in_bounds(a, b) && !(a == i && b == j) implies #[trigger] self.door_remaining(
                a,
                b,
            ) == old(self).door_remaining(a, b) by {
                lemma_rm_index_range(w, h, a, b);
                lemma_rm_index_injective(w, a, b, i as int, j as int);
            }
            assert forall|a: int, b: int| self.in_bounds(a, b) implies 0
                <= #[trigger] self.door_remaining(a, b) <= AUTO_CLOSE_MS by {
                lemma_rm_index_range(w, h, a, b);
                lemma_rm_index_injective(w, a, b, i as int, j as int);
            }
            assert forall|a: int, b: int|
                self.in_bounds(a, b) && #[trigger] self.door_remaining(a, b)
                    > 0 implies self.tile(a, b) == Tile::Door by {
                lemma_rm_index_range(w, h, a, b);
                lemma_rm_index_injective(w, a, b, i as int, j as int);
            }
        }
    }

    /// Advances every door grace timer by `dt_ms`; a door whose grace runs
    /// out closes. This is the only path by which a door closes on its own.
    #[verifier::loop_isolation(false)]
    pub fn update_doors(&mut self, dt_ms: i32)
        requires
            old(self).wf(),
            dt_ms >= 0,
        ensures
            final(self).wf(),
            old(self).same_static(*final(self)),
            forall|a: int, b: int|
                old(self).in_bounds(a, b) ==> #[trigger] final(self).door_remaining(a, b) == if old(
                    self,
                ).door_remaining(a, b) > dt_ms {
                    old(self).door_remaining(a, b) - dt_ms
                } else {
                    0
                },
    {
        let n = self.door_ms.len();
        let mut k: usize = 0;
        while k < n
            invariant
                k <= n,
                self.door_ms@.len() == n,
                forall|m: int|
                    0 <= m < k ==> #[trigger] self.door_ms@[m] == if old(self).door_ms_view()[m]
                        > dt_ms {
                        old(self).door_ms_view()[m] - dt_ms
                    } else {
                        0
                    },
                forall|m: int| k <= m < n ==> self.door_ms@[m] == old(self).door_ms_view()[m],
                old(self).same_static(*self),
            decreases n - k,
        {
            let cur = self.door_ms[k];
            if cur > dt_ms {
                self.door_ms[k] = cur - dt_ms;
            } else {
                self.door_ms[k] = 0;
            }
            k = k + 1;
        }
        proof {
            assert forall|a: int, b: int| self.in_bounds(a, b) implies {
                &&& #[trigger] self.door_remaining(a, b) == if old(self).door_remaining(a, b)
                    > dt_ms {
                    old(self).door_remaining(a, b) - dt_ms
                } else {
                    0
                }
                &&& 0 <= self.door_remaining(a, b) <= AUTO_CLOSE_MS
                &&& self.door_remaining(a, b) > 0 ==> self.tile(a, b) == Tile::Door
            } by {
                let w = self.spec_width();
                assert(0 <= rm_index(w, a, b) < w * self.spec_height()) by (nonlinear_arith)
                    requires
                        0 <= a < w,
                        0 <= b < self.spec_height(),
                ;
            }
        }
    }

    /// Row-major search for the first cell holding `tile`.
    #[verifier::loop_isolation(false)]
    pub fn find_first(&self, tile: Tile) -> (r: Option<(i32, i32)>)
        requires
            self.wf(),
        ensures
            match r {
                Some(c) => {
                    &&& self.in_bounds(c.0 as int, c.1 as int)
                    &&& self.tile(c.0 as int, c.1 as int) == tile
                    &&& forall|a: int, b: int|
                        0 <= b < self.spec_height() && 0 <= a < self.spec_width() && (b < c.1 || (b
                            == c.1 && a < c.0)) ==> #[trigger] self.tile(a, b) != tile
                },
                None => forall|a: int, b: int|
                    0 <= b < self.spec_height() && 0 <= a < self.spec_width()
                        ==> #[trigger] self.tile(a, b) != tile,
            },
    {
        let mut j: usize = 0;
        while j < self.height
            invariant
                j <= self.spec_height(),
                forall|a: int, b: int|
                    0 <= b < j && 0 <= a < self.spec_width() ==> #[trigger] self.tile(a, b) != tile,
            decreases self.spec_height() - j,
        {
            let mut i: usize = 0;
            while i < self.width
                invariant
                    j < self.spec_height(),
                    i <= self.spec_width(),
                    forall|a: int| 0 <= a < i ==> #[trigger] self.tile(a, j as int) != tile,
                decreases self.spec_width() - i,
            {
                if self.grid_at(i, j) == tile {
                    return Some((i as i32, j as i32));
                }
                i = i + 1;
            }
            j = j + 1;
        }
        None
    }

    pub fn is_blocking_at(&self, i: isize, j: isize) -> (r: bool)
        requires
            self.wf(),
        ensures
            r == self.blocking(i as int, j as int),
    {
        if i < 0 || j < 0 {
            return true;
        }
        let x = i as usize;
        let y = j as usize;
        if y >= self.height || x >= self.width {
            return true;
        }
        let t = self.grid_at(x, y);
        match t {
            Tile::Wall | Tile::WallA | Tile::WallB => true,
            Tile::Door => !self.door_is_open(x, y),
            _ => false,
        }
    }

    pub fn is_surface_at(&self, i: i32, j: i32) -> (r: bool)
        requires
            self.wf(),
        ensures
            r == self.surface(i as int, j as int),
    {
        if i < 0 || j < 0 {
            return false;
        }
        let x = i as usize;
        let y = j as usize;
        if y >= self.height || x >= self.width {
            return false;
        }
        let t = self.grid_at(x, y);
        match t {
            Tile::Wall | Tile::WallA | Tile::WallB => true,
            Tile::Door => !self.door_is_open(x, y),
            Tile::ExitNext | Tile::ExitFinal => true,
            _ => false,
        }
    }
}

/// What one call of `update_doors` with `dt` does to a door's remaining
/// grace, per its contract.
pub open spec fn ticked(r: int, dt: int) -> int {
    if r > dt {
        r - dt
    } else {
        0
    }
}

/// Remaining grace after a run of door ticks.
pub open spec fn remaining_after(r: int, dts: Seq<int>) -> int
    decreases dts.len(),
{
    if dts.len() == 0 {
        r
    } else {
        remaining_after(ticked(r, dts[0]), dts.drop_first())
    }
}

/// Total elapsed time of a run of ticks.
pub open spec fn total_ms(dts: Seq<int>) -> int
    decreases dts.len(),
{
    if dts.len() == 0 {
        0
    } else {
        dts[0] + total_ms(dts.drop_first())
    }
}

/// An open door always blocks again once enough ticking has elapsed: with no
/// further toggle, any run of `update_doors` calls whose durations sum to at
/// least the door's remaining grace leaves the grace at zero — and a door
/// with zero grace is closed and blocking. This is the only path by which a
/// door closes on its own.
pub proof fn lemma_door_autocloses(r: int, dts: Seq<int>)
    requires
        0 <= r,
        forall|k: int| 0 <= k < dts.len() ==> #[trigger] dts[k] >= 0,
        total_ms(dts) >= r,
    ensures
        remaining_after(r, dts) == 0,
    decreases dts.len(),
{
    if dts.len() == 0 {
        assert(r <= 0);
    } else {
        let rest = dts.drop_first();
        assert(dts[0] >= 0);
        assert forall|k: int| 0 <= k < rest.len() implies #[trigger] rest[k] >= 0 by {
            assert(rest[k] == dts[k + 1]);
        }
        assert(total_ms(rest) == total_ms(dts) - dts[0]);
        lemma_total_ms_nonneg(rest);
        lemma_door_autocloses(ticked(r, dts[0]), rest);
    }
}

proof fn lemma_total_ms_nonneg(dts: Seq<int>)
    requires
        forall|k: int| 0 <= k < dts.len() ==> #[trigger] dts[k] >= 0,
    ensures
        total_ms(dts) >= 0,
    decreases dts.len(),
{
    if dts.len() > 0 {
        let rest = dts.drop_first();
        assert forall|k: int| 0 <= k < rest.len() implies #[trigger] rest[k] >= 0 by {
            assert(rest[k] == dts[k + 1]);
        }
        lemma_total_ms_nonneg(rest);
    }
}

/// A closed door blocks; an open one does not. Together with the toggle and
/// tick contracts this pins the whole door state machine: toggling a closed
/// door makes its cell passable at once, and it stays passable exactly until
/// a toggle back or until ticking exhausts the grace.
pub proof fn lemma_door_blocking_iff_closed(m: Maze, i: int, j: int)
    requires
        m.wf(),
        m.in_bounds(i, j),
        m.tile(i, j) == Tile::Door,
    ensures
        m.blocking(i, j) <==> !m.door_open(i, j),
{
}

/// Walkability as the pathfinder and spawn logic use it.
pub fn is_walkable_cell(maze: &Maze, i: i32, j: i32) -> (r: bool)
    requires
        maze.wf(),
    ensures
        r == maze.walkable(i as int, j as int),
{
    if i < 0 || j < 0 {
        return false;
    }
    !maze.is_blocking_at(i as isize, j as isize)
}

} // verus!
