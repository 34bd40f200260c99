use maze_caster::loader::LoadError;
use maze_caster::levels::{Levels, Transition, place_player_at_spawn};
use maze_caster::maze::{Maze, AUTO_CLOSE_MS};
use maze_caster::player::Player;
use maze_caster::tile::Tile;

fn rows(lines: &[&str]) -> Vec<Vec<u8>> {
    lines.iter().map(|l| l.as_bytes().to_vec()).collect()
}

fn load(lines: &[&str]) -> Maze {
    match Maze::from_lines(&rows(lines), 48) {
        Ok(m) => m,
        Err(_) => panic!("level should load"),
    }
}

fn load_err(lines: &[&str]) -> LoadError {
    match Maze::from_lines(&rows(lines), 48) {
        Ok(_) => panic!("level should be rejected"),
        Err(e) => e,
    }
}

#[test]
fn loads_valid_room() {
    let m = load(&["#####", "#P..#", "#..C#", "#..E#", "#####"]);
    assert_eq!(m.width(), 5);
    assert_eq!(m.height(), 5);
    assert_eq!(m.block_size(), 48);
    assert_eq!(m.player_spawn(), (1, 1));
    // The player symbol is consumed into floor.
    assert_eq!(m.tile_at(1, 1), Tile::Floor);
    assert_eq!(m.tile_at(3, 2), Tile::Door);
    assert_eq!(m.tile_at(3, 3), Tile::ExitNext);
    assert_eq!(m.tile_at(0, 0), Tile::Wall);
    // Out of bounds reads as wall.
    assert_eq!(m.tile_at(-1, 2), Tile::Wall);
    assert_eq!(m.tile_at(5, 0), Tile::Wall);
}

#[test]
fn rejects_empty_and_ragged() {
    assert_eq!(load_err(&[]), LoadError::Empty);
    assert_eq!(load_err(&["", "#"]), LoadError::Empty);
    assert_eq!(
        load_err(&["###", "##", "###"]),
        LoadError::RaggedRow { row: 1 },
    );
}

#[test]
fn rejects_bad_symbol_with_position() {
    assert_eq!(
        load_err(&["###", "#Pz", "#E#"]),
        LoadError::BadSymbol { row: 1, col: 2, symbol: b'z' },
    );
}

#[test]
fn rejects_wrong_player_count() {
    assert_eq!(
        load_err(&["###", "#.#", "#E#"]),
        LoadError::PlayerCount { found: 0 },
    );
    assert_eq!(
        load_err(&["#P#", "#P#", "#E#"]),
        LoadError::PlayerCount { found: 2 },
    );
}

#[test]
fn rejects_missing_exit() {
    assert_eq!(
        load_err(&["###", "#P#", "###"]),
        LoadError::NoExit,
    );
}

#[test]
fn accepts_all_symbols() {
    let m = load(&["#AB##", "#P.T#", "#C.F#", "#..E#", "#####"]);
    assert_eq!(m.tile_at(1, 0), Tile::WallA);
    assert_eq!(m.tile_at(2, 0), Tile::WallB);
    assert_eq!(m.tile_at(3, 1), Tile::MonsterSpawn);
    assert_eq!(m.tile_at(1, 2), Tile::Door);
    assert_eq!(m.tile_at(3, 2), Tile::ExitFinal);
}

#[test]
fn door_toggle_and_blocking() {
    let mut m = load(&["#####", "#P.C#", "#...#", "#..E#", "#####"]);
    // Closed door blocks and is a render surface.
    assert!(m.is_blocking_at(3, 1));
    assert!(m.is_surface_at(3, 1));
    assert!(!m.door_is_open(3, 1));
    m.toggle_door_at(3, 1);
    assert!(m.door_is_open(3, 1));
    assert!(!m.is_blocking_at(3, 1));
    assert!(!m.is_surface_at(3, 1));
    // Manual toggle closes again.
    m.toggle_door_at(3, 1);
    assert!(!m.door_is_open(3, 1));
    assert!(m.is_blocking_at(3, 1));
    // Toggling a non-door cell does nothing.
    m.toggle_door_at(1, 1);
    assert!(!m.is_blocking_at(1, 1));
}

#[test]
fn door_autocloses_after_grace() {
    let mut m = load(&["#####", "#P.C#", "#...#", "#..E#", "#####"]);
    m.toggle_door_at(3, 1);
    assert!(!m.is_blocking_at(3, 1));
    // Ticks summing to just under the grace keep it open.
    m.update_doors(1000);
    assert!(m.door_is_open(3, 1));
    m.update_doors(400);
    assert!(m.door_is_open(3, 1));
    // The remaining 100 ms close it with no further toggle.
    m.update_doors(100);
    assert!(!m.door_is_open(3, 1));
    assert!(m.is_blocking_at(3, 1));
    assert_eq!(AUTO_CLOSE_MS, 1500);
}

#[test]
fn reopening_resets_the_grace() {
    let mut m = load(&["#####", "#P.C#", "#...#", "#..E#", "#####"]);
    m.toggle_door_at(3, 1);
    m.update_doors(1400);
    // Close and reopen: the timer starts afresh.
    m.toggle_door_at(3, 1);
    m.toggle_door_at(3, 1);
    m.update_doors(1400);
    assert!(m.door_is_open(3, 1));
    m.update_doors(100);
    assert!(!m.door_is_open(3, 1));
}

#[test]
fn use_action_toggles_door_ahead() {
    let mut m = load(&["#####", "#P.C#", "#...#", "#..E#", "#####"]);
    // Player at the center of (1,1) facing east: the door at (3,1) is about
    // 1.5 cells ahead.
    let p = Player { x: 72, y: 72, dir_x: 1024, dir_y: 0, move_speed: 120 };
    assert!(m.use_action(&p));
    assert!(m.door_is_open(3, 1));
    // A second use closes it again.
    assert!(m.use_action(&p));
    assert!(!m.door_is_open(3, 1));
}

#[test]
fn use_action_stops_at_walls_and_falls_back_to_neighbors() {
    let mut m = load(&["#####", "#P#C#", "#C..#", "#..E#", "#####"]);
    // Facing east the scan meets the wall at (2,1) before any door; the
    // neighbor fallback finds the door below at (1,2).
    let p = Player { x: 72, y: 72, dir_x: 1024, dir_y: 0, move_speed: 120 };
    assert!(m.use_action(&p));
    assert!(m.door_is_open(1, 2));
    assert!(!m.door_is_open(3, 1));
}

#[test]
fn use_action_reports_nothing_to_toggle() {
    let mut m = load(&["#####", "#P..#", "#...#", "#..E#", "#####"]);
    let p = Player { x: 72, y: 72, dir_x: 1024, dir_y: 0, move_speed: 120 };
    assert!(!m.use_action(&p));
}

#[test]
fn level_transitions() {
    let m0 = load(&["#####", "#P.E#", "#####"]);
    let m1 = load(&["#####", "#P.F#", "#####"]);
    let mut lv = Levels::new(vec![m0, m1]);
    let mut p = Player { x: 72, y: 72, dir_x: 1024, dir_y: 0, move_speed: 120 };
    assert_eq!(lv.check_transition(&p), Transition::Stay);
    // Step onto the stair exit of level 0.
    p.x = 3 * 48 + 24;
    assert_eq!(lv.check_transition(&p), Transition::NextLevel);
    lv.advance_to_next(&mut p);
    assert_eq!(lv.current(), 1);
    // Spawn center of level 1, bumped forward along the heading.
    assert_eq!(p.x, 72 + 6);
    assert_eq!(p.y, 72);
    // Standing on the final exit wins.
    p.x = 3 * 48 + 24;
    assert_eq!(lv.check_transition(&p), Transition::Won);
}

#[test]
fn set_current_places_player_at_spawn() {
    let m0 = load(&["#####", "#P.E#", "#####"]);
    let m1 = load(&["#####", "#.PE#", "#####"]);
    let mut lv = Levels::new(vec![m0, m1]);
    let mut p = Player { x: 0, y: 0, dir_x: 1024, dir_y: 0, move_speed: 120 };
    lv.set_current(1, &mut p);
    assert_eq!(lv.current(), 1);
    assert_eq!((p.x, p.y), (2 * 48 + 24, 72));
    place_player_at_spawn(&mut p, lv.active());
    assert_eq!((p.x, p.y), (2 * 48 + 24, 72));
}

#[test]
fn find_first_scans_row_major() {
    let m = load(&["#####", "#P.T#", "#T..#", "#..E#", "#####"]);
    assert_eq!(m.find_first(Tile::MonsterSpawn), Some((3, 1)));
    assert_eq!(m.find_first(Tile::ExitFinal), None);
}
