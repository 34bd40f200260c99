use vstd::prelude::*;

use crate::maze::Maze;
use crate::tile::{Tile, symbol_tile, tile_from_symbol};

verus! {

/// Why a level text was rejected. Each variant reports the violated rule and,
/// where applicable, the offending place.
#[derive(Clone, Copy, PartialEq, Eq, Structural, Debug)]
pub enum LoadError {
    /// No rows, or an empty first row.
    Empty,
    /// `row`'s length differs from the first row's.
    RaggedRow { row: usize },
    /// The byte at `(row, col)` is not an allowed symbol.
    BadSymbol { row: usize, col: usize, symbol: u8 },
    /// The level holds `found` player-spawn symbols instead of exactly one.
    PlayerCount { found: usize },
    /// The level holds no exit symbol.
    NoExit,
}

/// Number of cells of `row` whose symbol maps to tile `t`.
pub open spec fn count_in_row(row: Seq<u8>, t: Tile) -> int
    decreases row.len(),
{
    if row.len() == 0 {
        0
    } else {
        count_in_row(row.drop_last(), t) + if symbol_tile(row.last()) == Some(t) {
            1int
        } else {
            0int
        }
    }
}

/// Number of cells of the whole level whose symbol maps to tile `t`.
pub open spec fn count_tiles(rows: Seq<Seq<u8>>, t: Tile) -> int
    decreases rows.len(),
{
    if rows.len() == 0 {
        0
    } else {
        count_tiles(rows.drop_last(), t) + count_in_row(rows.last(), t)
    }
}

/// Every byte of `row` is an allowed symbol.
pub open spec fn row_symbols_ok(row: Seq<u8>) -> bool {
    forall|k: int| 0 <= k < row.len() ==> (#[trigger] symbol_tile(row[k])).is_some()
}

/// All rows have the first row's length.
pub open spec fn rectangular(rows: Seq<Seq<u8>>) -> bool {
    forall|j: int| 0 <= j < rows.len() ==> (#[trigger] rows[j]).len() == rows[0].len()
}

/// A level text that loads successfully: nonempty, rectangular, made of
/// allowed symbols, with exactly one player spawn and at least one exit.
pub open spec fn valid_level(rows: Seq<Seq<u8>>) -> bool {
    &&& rows.len() > 0
    &&& rows[0].len() > 0
    &&& rectangular(rows)
    &&& forall|j: int| 0 <= j < rows.len() ==> row_symbols_ok(#[trigger] rows[j])
    &&& count_tiles(rows, Tile::PlayerSpawn) == 1
    &&& count_tiles(rows, Tile::ExitNext) + count_tiles(rows, Tile::ExitFinal) >= 1
}

/// The byte grid a `Vec` of rows denotes.
pub open spec fn byte_grid(rows: Seq<Vec<u8>>) -> Seq<Seq<u8>> {
    rows.map_values(|r: Vec<u8>| r@)
}

proof fn lemma_count_in_row_take(row: Seq<u8>, t: Tile, i: int)
    requires
        0 <= i < row.len(),
    ensures
        count_in_row(row.take(i + 1), t) == count_in_row(row.take(i), t) + if symbol_tile(row[i])
            == Some(t) {
            1int
        } else {
            0int
        },
{
    assert(row.take(i + 1).drop_last() =~= row.take(i));
    assert(row.take(i + 1).last() == row[i]);
}

proof fn lemma_count_tiles_take(rows: Seq<Seq<u8>>, t: Tile, j: int)
    requires
        0 <= j < rows.len(),
    ensures
        count_tiles(rows.take(j + 1), t) == count_tiles(rows.take(j), t) + count_in_row(rows[j], t),
{
    assert(rows.take(j + 1).drop_last() =~= rows.take(j));
    assert(rows.take(j + 1).last() == rows[j]);
}

proof fn lemma_count_in_row_bounds(row: Seq<u8>, t: Tile)
    ensures
        0 <= count_in_row(row, t) <= row.len(),
    decreases row.len(),
{
    if row.len() > 0 {
        lemma_count_in_row_bounds(row.drop_last(), t);
    }
}

proof fn lemma_count_tiles_bounds(rows: Seq<Seq<u8>>, t: Tile)
    requires
        forall|j: int| 0 <= j < rows.len() ==> (#[trigger] rows[j]).len() <= 1024,
    ensures
        0 <= count_tiles(rows, t) <= 1024 * rows.len(),
    decreases rows.len(),
{
    if rows.len() > 0 {
        lemma_count_tiles_bounds(rows.drop_last(), t);
        lemma_count_in_row_bounds(rows.last(), t);
    }
}

impl Maze {
    /// Parses a level text, one byte row per grid row, into a fresh maze with
    /// every door closed. The player-spawn symbol is consumed: its cell
    /// becomes floor and is recorded as the spawn cell.
    #[verifier::loop_isolation(false)]
    #[verifier::rlimit(60)]
    pub fn from_lines(rows: &Vec<Vec<u8>>, block_size: i32) -> (r: Result<Maze, LoadError>)
        requires
            1 <= block_size <= 1024,
            rows@.len() <= 1024,
            forall|j: int| 0 <= j < rows@.len() ==> (#[trigger] rows@[j])@.len() <= 1024,
        ensures
            r.is_ok() <==> valid_level(byte_grid(rows@)),
            match r {
                Ok(m) => {
                    let g = byte_grid(rows@);
                    &&& m.wf()
                    &&& m.spec_height() == g.len()
                    &&& m.spec_width() == g[0].len()
                    &&& m.spec_block_size() == block_size
                    &&& symbol_tile(g[m.spec_spawn().1][m.spec_spawn().0]) == Some(
                        Tile::PlayerSpawn,
                    )
                    &&& forall|i: int, j: int|
                        m.in_bounds(i, j) ==> #[trigger] m.tile(i, j) == (if symbol_tile(g[j][i])
                            == Some(Tile::PlayerSpawn) {
                            Tile::Floor
                        } else {
                            symbol_tile(g[j][i]).unwrap()
                        })
                    &&& forall|i: int, j: int|
                        m.in_bounds(i, j) ==> #[trigger] m.door_remaining(i, j) == 0
                },
                Err(e) => {
                    let g = byte_grid(rows@);
                    match e {
                        LoadError::Empty => g.len() == 0 || g[0].len() == 0,
                        LoadError::RaggedRow { row } => {
                            &&& g.len() > 0 && g[0].len() > 0
                            &&& row < g.len()
                            &&& g[row as int].len() != g[0].len()
                            &&& forall|j: int| 0 <= j < row ==> (#[trigger] g[j]).len() == g[0].len()
                        },
                        LoadError::BadSymbol { row, col, symbol } => {
                            &&& g.len() > 0 && g[0].len() > 0 && rectangular(g)
                            &&& row < g.len() && col < g[0].len()
                            &&& symbol == g[row as int][col as int]
                            &&& symbol_tile(symbol).is_none()
                            &&& forall|j: int, k: int|
                                0 <= j < g.len() && 0 <= k < g[0].len() && (j < row || (j == row
                                    && k < col)) ==> (#[trigger] symbol_tile(g[j][k])).is_some()
                        },
                        LoadError::PlayerCount { found } => {
                            &&& g.len() > 0 && g[0].len() > 0 && rectangular(g)
                            &&& forall|j: int| 0 <= j < g.len() ==> row_symbols_ok(#[trigger] g[j])
                            &&& found == count_tiles(g, Tile::PlayerSpawn)
                            &&& found != 1
                        },
                        LoadError::NoExit => {
                            &&& g.len() > 0 && g[0].len() > 0 && rectangular(g)
                            &&& forall|j: int| 0 <= j < g.len() ==> row_symbols_ok(#[trigger] g[j])
                            &&& count_tiles(g, Tile::PlayerSpawn) == 1
                            &&& count_tiles(g, Tile::ExitNext) + count_tiles(g, Tile::ExitFinal)
                                == 0
                        },
                    }
                },
            },
    {
        let ghost g = byte_grid(rows@);
        let height = rows.len();
        if height == 0 {
            return Err(LoadError::Empty);
        }
        let width = rows[0].len();
        if width == 0 {
            return Err(LoadError::Empty);
        }
        // Rectangularity.
        let mut j: usize = 0;
        while j < height
            invariant
                j <= height,
                forall|j0: int| 0 <= j0 < j ==> (#[trigger] g[j0]).len() == g[0].len(),
            decreases height - j,
        {
            if rows[j].len() != width {
                proof {
                    assert(g[j as int] == rows@[j as int]@);
                    assert(!valid_level(g)) by {
                        if valid_level(g) {
                            assert(g[j as int].len() == g[0].len());
                        }
                    }
                }
                return Err(LoadError::RaggedRow { row: j });
            }
            j = j + 1;
        }
        assert(rectangular(g));
        // Symbols and tile counts.
        let mut p_count: usize = 0;
        let mut exit_count: usize = 0;
        let mut spawn_i: usize = 0;
        let mut spawn_j: usize = 0;
        let mut spawn_found: bool = false;
        let mut j: usize = 0;
        while j < height
            invariant
                j <= height,
                p_count == count_tiles(g.take(j as int), Tile::PlayerSpawn),
                exit_count == count_tiles(g.take(j as int), Tile::ExitNext) + count_tiles(
                    g.take(j as int),
                    Tile::ExitFinal,
                ),
                forall|j0: int, k: int|
                    0 <= j0 < j && 0 <= k < g[0].len() ==> (#[trigger] symbol_tile(
                        g[j0][k],
                    )).is_some(),
                spawn_found ==> p_count >= 1,
                p_count >= 1 ==> spawn_found,
                spawn_found ==> spawn_i < width && spawn_j < height && symbol_tile(
                    g[spawn_j as int][spawn_i as int],
                ) == Some(Tile::PlayerSpawn),
            decreases height - j,
        {
            let mut i: usize = 0;
            proof {
                assert forall|j0: int| 0 <= j0 < g.take(j as int).len() implies (
                #[trigger] g.take(j as int)[j0]).len() <= 1024 by {
                    assert(g[j0] == rows@[j0]@);
                }
                lemma_count_tiles_bounds(g.take(j as int), Tile::PlayerSpawn);
                lemma_count_tiles_bounds(g.take(j as int), Tile::ExitNext);
                lemma_count_tiles_bounds(g.take(j as int), Tile::ExitFinal);
                assert(g[j as int].take(0) =~= Seq::<u8>::empty());
            }
            while i < width
                invariant
                    j < height,
                    i <= width,
                    p_count == count_tiles(g.take(j as int), Tile::PlayerSpawn) + count_in_row(
                        g[j as int].take(i as int),
                        Tile::PlayerSpawn,
                    ),
                    exit_count == count_tiles(g.take(j as int), Tile::ExitNext) + count_tiles(
                        g.take(j as int),
                        Tile::ExitFinal,
                    ) + count_in_row(g[j as int].take(i as int), Tile::ExitNext) + count_in_row(
                        g[j as int].take(i as int),
                        Tile::ExitFinal,
                    ),
                    p_count <= 1024 * 1024 + i,
                    exit_count <= 2 * 1024 * 1024 + 2 * i,
                    forall|j0: int, k: int|
                        0 <= j0 < j && 0 <= k < g[0].len() ==> (#[trigger] symbol_tile(
                            g[j0][k],
                        )).is_some(),
                    forall|k: int|
                        0 <= k < i ==> (#[trigger] symbol_tile(g[j as int][k])).is_some(),
                    spawn_found ==> p_count >= 1,
                    p_count >= 1 ==> spawn_found,
                    spawn_found ==> spawn_i < width && spawn_j < height && symbol_tile(
                        g[spawn_j as int][spawn_i as int],
                    ) == Some(Tile::PlayerSpawn),
                decreases width - i,
            {
                let b = rows[j][i];
                proof {
                    lemma_count_in_row_take(g[j as int], Tile::PlayerSpawn, i as int);
                    lemma_count_in_row_take(g[j as int], Tile::ExitNext, i as int);
                    lemma_count_in_row_take(g[j as int], Tile::ExitFinal, i as int);
                }
                match tile_from_symbol(b) {
                    None => {
                        return Err(LoadError::BadSymbol { row: j, col: i, symbol: b });
                    },
                    Some(t) => {
                        if t == Tile::PlayerSpawn {
                            p_count = p_count + 1;
                            spawn_i = i;
                            spawn_j = j;
                            spawn_found = true;
                        }
                        if t == Tile::ExitNext || t == Tile::ExitFinal {
                            exit_count = exit_count + 1;
                        }
                    },
                }
                i = i + 1;
            }
            proof {
                lemma_count_tiles_take(g, Tile::PlayerSpawn, j as int);
                lemma_count_tiles_take(g, Tile::ExitNext, j as int);
                lemma_count_tiles_take(g, Tile::ExitFinal, j as int);
                assert(g[j as int].take(width as int) =~= g[j as int]);
                lemma_count_in_row_bounds(g.take(j as int + 1).last(), Tile::PlayerSpawn);
            }
            j = j + 1;
        }
        proof {
            assert(g.take(height as int) =~= g);
        }
        if p_count != 1 {
            return Err(LoadError::PlayerCount { found: p_count });
        }
        if exit_count == 0 {
            return Err(LoadError::NoExit);
        }
        // Build the tile grid, consuming the player spawn.
        let mut grid: Vec<Vec<Tile>> = Vec::new();
        let mut j: usize = 0;
        while j < height
            invariant
                j <= height,
                grid@.len() == j,
                forall|j0: int|
                    0 <= j0 < j ==> (#[trigger] grid@[j0])@.len() == width,
                forall|j0: int, k: int|
                    0 <= j0 < j && 0 <= k < width ==> (#[trigger] grid@[j0]@[k]) == (if symbol_tile(
                        g[j0][k],
                    ) == Some(Tile::PlayerSpawn) {
                        Tile::Floor
                    } else {
                        symbol_tile(g[j0][k]).unwrap()
                    }),
            decreases height - j,
        {
            let mut rowv: Vec<Tile> = Vec::new();
            let mut i: usize = 0;
            while i < width
                invariant
                    j < height,
                    i <= width,
                    rowv@.len() == i,
                    forall|k: int|
                        0 <= k < i ==> (#[trigger] rowv@[k]) == (if symbol_tile(g[j as int][k])
                            == Some(Tile::PlayerSpawn) {
                            Tile::Floor
                        } else {
                            symbol_tile(g[j as int][k]).unwrap()
                        }),
                decreases width - i,
            {
                let b = rows[j][i];
                let t = match tile_from_symbol(b) {
                    Some(Tile::PlayerSpawn) => Tile::Floor,
                    Some(t0) => t0,
                    None => {
                        proof {
                            assert(false);
                        }
                        Tile::Floor
                    },
                };
                rowv.push(t);
                i = i + 1;
            }
            grid.push(rowv);
            j = j + 1;
        }
        // All doors start closed.
        let mut door_ms: Vec<i32> = Vec::new();
        proof {
            assert(width * height <= 1024 * 1024) by (nonlinear_arith)
                requires
                    width <= 1024,
                    height <= 1024,
            ;
        }
        let total = width * height;
        let mut k: usize = 0;
        while k < total
            invariant
                k <= total,
                door_ms@.len() == k,
                forall|m: int| 0 <= m < k ==> (#[trigger] door_ms@[m]) == 0i32,
            decreases total - k,
        {
            door_ms.push(0);
            k = k + 1;
        }
        let m = Maze::assemble(grid, width, height, block_size, door_ms, (spawn_i, spawn_j));
        proof {
            assert(m.grid_view().len() == height);
            assert forall|j0: int| 0 <= j0 < height implies (#[trigger] m.grid_view()[j0]).len()
                == width by {}
            assert forall|i0: int, j0: int| m.in_bounds(i0, j0) implies #[trigger] m.door_remaining(
                i0,
                j0,
            ) == 0 by {
                crate::maze::lemma_rm_index_range(width as int, height as int, i0, j0);
            }
            assert(m.tile(spawn_i as int, spawn_j as int) == Tile::Floor);
        }
        Ok(m)
    }
}

} // verus!
