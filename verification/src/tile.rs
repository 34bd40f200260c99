use vstd::prelude::*;

verus! {

/// Static content of one grid cell. `PlayerSpawn` only occurs in level text;
/// the loader replaces it with `Floor` after recording the spawn cell.
#[derive(Clone, Copy, PartialEq, Eq, Structural, Debug)]
pub enum Tile {
    Floor,
    Wall,
    WallA,
    WallB,
    Door,
    ExitNext,
    ExitFinal,
    MonsterSpawn,
    PlayerSpawn,
}

/// The level-text symbol of each tile kind, if the byte is an allowed symbol.
pub open spec fn symbol_tile(b: u8) -> Option<Tile> {
    if b == 35 {  // '#'
        Some(Tile::Wall)
    } else if b == 46 {  // '.'
        Some(Tile::Floor)
    } else if b == 80 {  // 'P'
        Some(Tile::PlayerSpawn)
    } else if b == 65 {  // 'A'
        Some(Tile::WallA)
    } else if b == 66 {  // 'B'
        Some(Tile::WallB)
    } else if b == 67 {  // 'C'
        Some(Tile::Door)
    } else if b == 69 {  // 'E'
        Some(Tile::ExitNext)
    } else if b == 70 {  // 'F'
        Some(Tile::ExitFinal)
    } else if b == 84 {  // 'T'
        Some(Tile::MonsterSpawn)
    } else {
        None
    }
}

/// Executable mapping from a level-text byte to its tile.
pub fn tile_from_symbol(b: u8) -> (t: Option<Tile>)
    ensures
        t == symbol_tile(b),
{
    match b {
        35 => Some(Tile::Wall),
        46 => Some(Tile::Floor),
        80 => Some(Tile::PlayerSpawn),
        65 => Some(Tile::WallA),
        66 => Some(Tile::WallB),
        67 => Some(Tile::Door),
        69 => Some(Tile::ExitNext),
        70 => Some(Tile::ExitFinal),
        84 => Some(Tile::MonsterSpawn),
        _ => None,
    }
}

/// Wall tiles: the only tiles that block regardless of runtime state.
pub open spec fn is_wall_tile(t: Tile) -> bool {
    t == Tile::Wall || t == Tile::WallA || t == Tile::WallB
}

/// Exit tiles: visible to the renderer, never blocking.
pub open spec fn is_exit_tile(t: Tile) -> bool {
    t == Tile::ExitNext || t == Tile::ExitFinal
}

} // verus!
