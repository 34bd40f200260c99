use maze_caster::collision::{collides, resolve_move};
use maze_caster::enemy::Enemy;
use maze_caster::los::has_los;
use maze_caster::maze::Maze;
use maze_caster::pathfind::{bfs_distances, bfs_path};
use maze_caster::player::{Player, advance_player, try_move};

fn rows(lines: &[&str]) -> Vec<Vec<u8>> {
    lines.iter().map(|l| l.as_bytes().to_vec()).collect()
}

fn load(lines: &[&str]) -> Maze {
    match Maze::from_lines(&rows(lines), 48) {
        Ok(m) => m,
        Err(_) => panic!("level should load"),
    }
}

#[test]
fn bfs_distance_field_basics() {
    let m = load(&["#####", "#P..#", "#.#.#", "#..E#", "#####"]);
    let f = bfs_distances(&m, 1, 1);
    // The source reads zero.
    assert_eq!(f.get(1, 1), 0);
    assert_eq!(f.get(2, 1), 1);
    assert_eq!(f.get(3, 1), 2);
    assert_eq!(f.get(1, 2), 1);
    assert_eq!(f.get(3, 2), 3);
    assert_eq!(f.get(3, 3), 4);
    // Walls are never reached.
    assert_eq!(f.get(2, 2), -1);
    assert_eq!(f.get(0, 0), -1);
}

#[test]
fn bfs_path_length_matches_distance() {
    let m = load(&["#####", "#P..#", "#.#.#", "#..E#", "#####"]);
    let f = bfs_distances(&m, 1, 1);
    for (gi, gj) in [(3usize, 1usize), (3, 2), (3, 3), (1, 3), (2, 3)] {
        let p = bfs_path(&m, 1, 1, gi, gj);
        // The number of edges of the shortest path equals the BFS distance.
        assert_eq!(p.len() as i32, f.get(gi, gj));
        assert_eq!(p[p.len() - 1], (gi, gj));
    }
    // Same start and goal: empty path.
    assert_eq!(bfs_path(&m, 1, 1, 1, 1).len(), 0);
}

#[test]
fn bfs_path_empty_when_unreachable() {
    let m = load(&["#####", "#P#.#", "###E#", "#####"]);
    let f = bfs_distances(&m, 1, 1);
    assert_eq!(f.get(3, 1), -1);
    assert_eq!(bfs_path(&m, 1, 1, 3, 1).len(), 0);
}

#[test]
fn closed_door_blocks_bfs_open_door_admits() {
    let m = load(&["#####", "#P.C#", "#..E#", "#####"]);
    let f = bfs_distances(&m, 1, 1);
    assert_eq!(f.get(3, 1), -1);
    let mut m2 = load(&["#####", "#P.C#", "#..E#", "#####"]);
    m2.toggle_door_at(3, 1);
    let f2 = bfs_distances(&m2, 1, 1);
    assert_eq!(f2.get(3, 1), 2);
}

#[test]
fn los_sees_down_clear_lines_only() {
    let m = load(&["#####", "#P..#", "#.#.#", "#..E#", "#####"]);
    // Degenerate segment is always visible.
    assert!(has_los(&m, 72, 72, 72, 72));
    // Straight down the open row.
    assert!(has_los(&m, 72, 72, 168, 72));
    // Across the central wall block.
    assert!(!has_los(&m, 72, 72, 168, 168));
}

#[test]
fn los_blocked_by_closed_door_only() {
    let mut m = load(&["#####", "#P.C#", "#..E#", "#####"]);
    assert!(!has_los(&m, 72, 72, 3 * 48 + 24, 72));
    m.toggle_door_at(3, 1);
    assert!(has_los(&m, 72, 72, 3 * 48 + 24, 72));
}

#[test]
fn diagonal_slide_keeps_free_axis() {
    let m = load(&["#####", "#P#.#", "#..E#", "#####"]);
    // Player centered in (1,1); the cell east (2,1) is a wall, the cell
    // south (1,2) is floor. A diagonal move commits only its Y part.
    let (nx, ny) = resolve_move(&m, 72, 72, 20, 20, 10);
    assert_eq!(nx, 72);
    assert_eq!(ny, 92);
    // The mirror case slides along X.
    let m2 = load(&["#####", "#P..#", "#.#E#", "#####"]);
    let (nx2, ny2) = resolve_move(&m2, 72, 72, 20, 20, 10);
    assert_eq!(nx2, 92);
    assert_eq!(ny2, 72);
}

#[test]
fn collides_reports_corner_overlap() {
    let m = load(&["#####", "#P..#", "#..E#", "#####"]);
    assert!(!collides(&m, 72, 72, 10));
    // Pressed against the west wall: a corner enters the wall cell.
    assert!(collides(&m, 52, 72, 10));
    // Out of bounds always collides.
    assert!(collides(&m, -100, 72, 10));
}

#[test]
fn try_move_slides_player() {
    let m = load(&["#####", "#P#.#", "#..E#", "#####"]);
    let mut p = Player { x: 72, y: 72, dir_x: 1024, dir_y: 0, move_speed: 120 };
    try_move(&mut p, &m, 20, 20);
    assert_eq!((p.x, p.y), (72, 92));
}

#[test]
fn advance_player_walks_and_sprints() {
    let m = load(&["##########", "#P.......#", "#........#", "#.......E#", "##########"]);
    let mut p = Player { x: 72, y: 72, dir_x: 1024, dir_y: 0, move_speed: 120 };
    advance_player(&mut p, &m, 1000, 0, false, 1000);
    assert_eq!((p.x, p.y), (192, 72));
    let mut q = Player { x: 72, y: 72, dir_x: 1024, dir_y: 0, move_speed: 120 };
    advance_player(&mut q, &m, 1000, 0, true, 1000);
    assert_eq!((q.x, q.y), (72 + 216, 72));
    // Strafe moves along the perpendicular.
    let mut s = Player { x: 72, y: 72, dir_x: 1024, dir_y: 0, move_speed: 120 };
    advance_player(&mut s, &m, 0, 1000, false, 500);
    assert_eq!((s.x, s.y), (72, 132));
}

#[test]
fn enemy_spawns_on_far_monster_tile() {
    // The designated tile is 12 BFS hops from the player's cell.
    let m = load(&["###############", "#P...........T#", "#............E#", "###############"]);
    let f = bfs_distances(&m, 1, 1);
    assert_eq!(f.get(13, 1), 12);
    let p = Player { x: 72, y: 72, dir_x: 1024, dir_y: 0, move_speed: 120 };
    let e = Enemy::spawn_from_map_or_far(&m, &p);
    assert_eq!((e.x, e.y), (13 * 48 + 24, 72));
    assert_eq!(e.awake, 1200);
    assert_eq!(e.frustration, 0);
    assert_eq!(e.path.len(), 0);
}

#[test]
fn enemy_spawn_falls_back_to_farthest_cell() {
    // The designated tile is too close, so the farthest reachable walkable
    // cell is chosen instead.
    let m = load(&["###########", "#PT.......#", "#.........#", "#........E#", "###########"]);
    let p = Player { x: 72, y: 72, dir_x: 1024, dir_y: 0, move_speed: 120 };
    let e = Enemy::spawn_from_map_or_far(&m, &p);
    // Farthest from (1,1) is the corner (9,3).
    assert_eq!((e.x, e.y), (9 * 48 + 24, 3 * 48 + 24));
}

#[test]
fn dormant_enemy_cannot_catch() {
    let m = load(&["#####", "#P..#", "#..E#", "#####"]);
    let p = Player { x: 72, y: 72, dir_x: 1024, dir_y: 0, move_speed: 120 };
    let mut e = Enemy::spawn_from_map_or_far(&m, &p);
    // Force the positions to coincide: dormancy still blocks the catch for
    // its full 1.2 s.
    e.x = p.x;
    e.y = p.y;
    assert!(!e.update(&m, &p, 600));
    assert!(!e.update(&m, &p, 600));
    // Grace over: contact now registers.
    assert!(e.update(&m, &p, 600));
}

#[test]
fn enemy_navigates_around_closed_door() {
    // A closed door on the straight line, an open corridor below of length 6.
    let m = load(&["#######", "#P.C..#", "#.....#", "#....E#", "#######"]);
    assert!(!has_los(&m, 72, 72, 5 * 48 + 24, 72));
    let path = bfs_path(&m, 5, 1, 1, 1);
    assert_eq!(path.len(), 6);
    let p = Player { x: 72, y: 72, dir_x: 1024, dir_y: 0, move_speed: 120 };
    let mut e = Enemy {
        x: 5 * 48 + 24,
        y: 72,
        path: Vec::new(),
        time_to_repath: 0,
        awake: 0,
        frustration: 0,
    };
    let mut caught = false;
    for _ in 0..400 {
        if e.update(&m, &p, 50) {
            caught = true;
            break;
        }
    }
    assert!(caught);
}

#[test]
fn stuck_enemy_relocates_and_resets() {
    // The enemy's chamber has no path to the player.
    let m = load(&["#######", "#P.#..#", "#..#.E#", "#######"]);
    let p = Player { x: 72, y: 72, dir_x: 1024, dir_y: 0, move_speed: 120 };
    let mut e = Enemy {
        x: 4 * 48 + 24,
        y: 2 * 48 + 24,
        path: Vec::new(),
        time_to_repath: 0,
        awake: 0,
        frustration: 0,
    };
    let mut relocated = false;
    for _ in 0..10 {
        e.update(&m, &p, 600);
        if e.awake > 0 {
            relocated = true;
            break;
        }
    }
    assert!(relocated);
    // Relocation picks the first row-major walkable cell unreachable from
    // the player (its score beats every reachable one), resets all pursuit
    // state and re-enters dormancy.
    assert_eq!((e.x, e.y), (4 * 48 + 24, 48 + 24));
    assert_eq!(e.frustration, 0);
    assert_eq!(e.path.len(), 0);
    assert_eq!(e.awake, 1200);
}

#[test]
fn chasing_enemy_closes_in_with_line_of_sight() {
    let m = load(&["#######", "#P....#", "#....E#", "#######"]);
    let p = Player { x: 5 * 48 + 24, y: 72, dir_x: 1024, dir_y: 0, move_speed: 120 };
    let mut e = Enemy { x: 72, y: 72, path: Vec::new(), time_to_repath: 0, awake: 0, frustration: 0 };
    let d0 = (p.x - e.x).abs();
    assert!(!e.update(&m, &p, 100));
    let d1 = (p.x - e.x).abs();
    // Chase speed 125 for 100 ms: 12 world units closer.
    assert_eq!(d0 - d1, 12);
    assert_eq!(e.path.len(), 0);
}
