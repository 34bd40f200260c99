use maze_caster::geom::{DIR_SCALE, dist2, isqrt, tdiv32, tdiv64};
use maze_caster::maze::Maze;
use maze_caster::raycast::{cast_ray_topdown, fisheye_correct, project_wall_height, wall_face_u, wall_span};
use maze_caster::sprite::{DepthBuffer, project_sprite};
use maze_caster::tile::Tile;

fn rows(lines: &[&str]) -> Vec<Vec<u8>> {
    lines.iter().map(|l| l.as_bytes().to_vec()).collect()
}

fn load(lines: &[&str]) -> Maze {
    match Maze::from_lines(&rows(lines), 48) {
        Ok(m) => m,
        Err(_) => panic!("level should load"),
    }
}

#[test]
fn fixed_point_division_truncates_toward_zero() {
    assert_eq!(tdiv32(7, 2), 3);
    assert_eq!(tdiv32(-7, 2), -3);
    assert_eq!(tdiv64(1_000_000, 1024), 976);
    assert_eq!(tdiv64(-1_000_000, 1024), -976);
}

#[test]
fn integer_square_root_floors() {
    assert_eq!(isqrt(0), 0);
    assert_eq!(isqrt(1), 1);
    assert_eq!(isqrt(35), 5);
    assert_eq!(isqrt(36), 6);
    assert_eq!(isqrt(48 * 48 * 2), 67);
}

#[test]
fn squared_distance_is_exact() {
    assert_eq!(dist2(0, 0, 3, 4), 25);
    assert_eq!(dist2(-3, 0, 0, -4), 25);
}

#[test]
fn corridor_center_ray_hits_far_wall() {
    // A 20-cell straight corridor; the player stands at the center of the
    // first cell, looking straight down it.
    let mut wall = String::new();
    for _ in 0..22 {
        wall.push('#');
    }
    let mut mid = String::from("#P");
    for _ in 0..19 {
        mid.push('.');
    }
    mid.push('#');
    let mut lower = String::from("#E");
    for _ in 0..19 {
        lower.push('.');
    }
    lower.push('#');
    let m = load(&[&wall, &mid, &lower, &wall]);
    assert_eq!(m.width(), 22);
    let h = cast_ray_topdown(&m, 72, 72, DIR_SCALE, 0);
    // The far wall's near face is at x = 21 * 48 = 1008; the ray samples
    // every 2 units from x = 72, so it stops after 936 units of travel.
    assert_eq!(h.distance, 936);
    assert_eq!(h.impact, Tile::Wall);
    assert_eq!(h.x_num, (72 + 936) * 1024);
    assert_eq!(h.y_num, 72 * 1024);
    // Looking straight ahead the fisheye correction changes nothing.
    assert_eq!(fisheye_correct(h.distance, DIR_SCALE, 0, DIR_SCALE, 0), 936);
}

#[test]
fn enclosed_room_rays_stay_under_the_diagonal() {
    let m = load(&[
        "##########",
        "#P.......#",
        "#........#",
        "#........#",
        "#........#",
        "#........#",
        "#........#",
        "#........#",
        "#.......E#",
        "##########",
    ]);
    assert_eq!(m.width(), 10);
    assert_eq!(m.height(), 10);
    // 10x10 cells of size 48: the room diagonal is under 679 world units.
    let dirs = [
        (1024, 0),
        (0, 1024),
        (-1024, 0),
        (0, -1024),
        (724, 724),
        (-724, 724),
        (724, -724),
        (-724, -724),
        (920, 450),
        (-530, 880),
    ];
    for (dx, dy) in dirs {
        let h = cast_ray_topdown(&m, 239, 241, dx, dy);
        assert!(h.distance <= 680);
        assert!(h.distance % 2 == 0);
    }
}

#[test]
fn ray_stops_at_closed_door_and_exit() {
    let m = load(&["#####", "#P.C#", "#..E#", "#####"]);
    let hit_door = cast_ray_topdown(&m, 72, 72, DIR_SCALE, 0);
    assert_eq!(hit_door.impact, Tile::Door);
    // Opening the door lets the ray through to the boundary wall behind it.
    let mut m2 = load(&["#####", "#P.C#", "#..E#", "#####"]);
    m2.toggle_door_at(3, 1);
    let through = cast_ray_topdown(&m2, 72, 72, DIR_SCALE, 0);
    assert_eq!(through.impact, Tile::Wall);
    assert!(through.distance > hit_door.distance);
    // Exits terminate rays without blocking movement.
    let hit_exit = cast_ray_topdown(&m, 72, 120, DIR_SCALE, 0);
    assert_eq!(hit_exit.impact, Tile::ExitNext);
    assert!(!m.is_blocking_at(3, 2));
}

#[test]
fn wall_projection_formulas() {
    assert_eq!(project_wall_height(48, 692, 100), 332);
    assert_eq!(project_wall_height(48, 692, 1), 33216);
    let (top, bot) = wall_span(300, 600, 200);
    assert_eq!((top, bot), (200, 400));
    // Tall columns clip to the screen.
    let (t2, b2) = wall_span(300, 600, 10_000);
    assert_eq!((t2, b2), (0, 599));
}

#[test]
fn wall_face_orientation_and_texture_column() {
    // Impact near a vertical (west/east) face: the X offset within the cell
    // is nearer an edge than the Y offset, and the texture column comes from
    // the Y fraction.
    let bs = 48;
    let cell_w = (bs as i64) * 1024;
    let x_num = 2 * cell_w + 10; // just inside cell 2 from the west
    let y_num = cell_w / 2; // vertically centered in cell 0
    let (vertical, u) = wall_face_u(x_num, y_num, bs, false, false);
    assert!(vertical);
    assert_eq!(u, cell_w / 2);
    // Mirroring for a ray travelling east.
    let (v2, u2) = wall_face_u(x_num, y_num, bs, true, false);
    assert!(v2);
    assert_eq!(u2, cell_w - cell_w / 2);
    // Impact near a horizontal face takes the X fraction instead.
    let (v3, u3) = wall_face_u(cell_w / 2, 3 * cell_w + 7, bs, false, false);
    assert!(!v3);
    assert_eq!(u3, cell_w / 2);
}

#[test]
fn depth_buffer_occludes_farther_sprites() {
    let mut z = DepthBuffer::new(4);
    assert_eq!(z.len(), 4);
    assert_eq!(z.get(0), i64::MAX);
    // The wall pass records a surface at depth 500 in column 2.
    z.set(2, 500);
    // A sprite behind the wall is rejected and leaves the buffer alone.
    assert!(!z.sprite_column(2, 700));
    assert_eq!(z.get(2), 500);
    // A sprite at exactly the wall depth is also rejected.
    assert!(!z.sprite_column(2, 500));
    // A nearer sprite draws and takes over the column.
    assert!(z.sprite_column(2, 300));
    assert_eq!(z.get(2), 300);
    // Later, farther sprites in the same column are occluded in turn.
    assert!(!z.sprite_column(2, 400));
    // An untouched column still accepts anything.
    assert!(z.sprite_column(0, 700));
}

#[test]
fn sprite_projection_centered_ahead() {
    // Camera at the origin cell facing east, enemy 480 units straight ahead.
    let b = project_sprite(480, 0, 0, 0, 1024, 0, 591, 692, 48, 64, 64, 800, 600);
    let b = match b { Some(b) => b, None => panic!("sprite should project") };
    assert_eq!(b.perp, 480);
    assert_eq!(b.screen_x, 400);
    // Height: 48 * 692 * 1024 / (480 * 1024) = 69; square texture keeps the
    // aspect ratio.
    assert_eq!(b.sprite_h, 69);
    assert_eq!(b.sprite_w, 69);
    assert_eq!((b.x0, b.x1), (400 - 34, 400 + 34));
    assert_eq!((b.y0, b.y1), (300 - 34, 300 + 34));
}

#[test]
fn sprite_behind_camera_is_rejected() {
    assert!(project_sprite(-100, 0, 0, 0, 1024, 0, 591, 692, 48, 64, 64, 800, 600).is_none());
    // At most one world unit of depth also rejects.
    assert!(project_sprite(1, 0, 0, 0, 1024, 0, 591, 692, 48, 64, 64, 800, 600).is_none());
}

#[test]
fn sprite_far_to_the_side_clips_to_the_screen_edge() {
    let b = match project_sprite(200, 100_000, 0, 0, 1024, 0, 591, 692, 48, 64, 64, 800, 600) {
        Some(b) => b,
        None => panic!("sprite should project"),
    };
    // The center lies far off screen; the clipped span collapses onto the
    // last column.
    assert!(b.screen_x > 799);
    assert_eq!((b.x0, b.x1), (799, 799));
}
