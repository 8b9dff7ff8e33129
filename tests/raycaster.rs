use maze_raycaster::caster::{cast_ray, march, Intersect, MAX_RAY_DISTANCE, RAY_STEP};
use maze_raycaster::color::Color;
use maze_raycaster::enemy::Enemy;
use maze_raycaster::fixed::{floor_div, floor_mod, isqrt};
use maze_raycaster::frame::{render_frame, reset_depth_buffer};
use maze_raycaster::framebuffer::Framebuffer;
use maze_raycaster::grid::{Grid, CELL_SIZE};
use maze_raycaster::player::{process_events, Controls, Player};
use maze_raycaster::render::{column_slice, render_world, DEPTH_INFINITY};
use maze_raycaster::sprite::{draw_sprite, project_sprite, sprite_plots, sprite_texel_at};
use maze_raycaster::textures::{TextureImage, TextureManager};
use maze_raycaster::tile::{Tile, WallKind};
use maze_raycaster::trig::{normalize_angle, TrigTable, ANGLE_UNITS, ATAN_STEPS, TRIG_ONE};

fn trig() -> TrigTable {
    let n = ANGLE_UNITS as usize;
    let mut sin = Vec::new();
    for k in 0..n {
        let a = 2.0 * std::f64::consts::PI * (k as f64) / (n as f64);
        sin.push((a.sin() * TRIG_ONE as f64).round() as i64);
    }
    let mut atan = Vec::new();
    for m in 0..=(ATAN_STEPS as usize) {
        let t = (m as f64 / ATAN_STEPS as f64).atan();
        atan.push((t * ANGLE_UNITS as f64 / (2.0 * std::f64::consts::PI)).round() as i64);
    }
    TrigTable::new(sin, atan).expect("sampled tables are valid")
}

fn grid(lines: &[&str]) -> Grid {
    let rows: Vec<Vec<char>> = lines.iter().map(|l| l.chars().collect()).collect();
    Grid::from_symbols(&rows).expect("rectangular maze")
}

/// A 3x3 open room inside a ring of `+` walls.
fn room() -> Grid {
    grid(&["+++++", "+   +", "+   +", "+   +", "+++++"])
}

fn player_at(x: i64, y: i64, a: i64) -> Player {
    Player { x, y, a, fov: ANGLE_UNITS / 4 }
}

fn solid(w: u32, h: u32, c: Color) -> TextureImage {
    TextureImage::new(w, h, vec![c; (w * h) as usize]).unwrap()
}

#[test]
fn center_column_hits_ring_at_one_and_a_half_cells() {
    let maze = room();
    let t = trig();
    let p = player_at(250, 250, 0);
    let s = column_slice(&maze, &p, &t, 32, 64, 48);
    assert_eq!(s.angle, 0);
    assert_eq!(s.hit.distance, 150);
    assert_eq!(s.hit.impact, WallKind::Corner);
    let hit = cast_ray(&maze, &p, 0, &t);
    assert_eq!(hit.distance, 3 * CELL_SIZE as u64 / 2);
    assert_eq!(hit.impact, WallKind::Corner);
}

#[test]
fn cardinal_rays_in_room_all_hit_at_one_and_a_half_cells() {
    let maze = room();
    let t = trig();
    let p = player_at(250, 250, 0);
    for q in 0..4 {
        let hit = cast_ray(&maze, &p, q * ANGLE_UNITS / 4, &t);
        // east and south land on the face; west and north need the sample past it
        let expected = if q < 2 { 150 } else { 160 };
        assert_eq!(hit.distance, expected);
        assert!(hit.distance >= 150 && hit.distance <= 150 + RAY_STEP as u64);
        assert_eq!(hit.impact, WallKind::Corner);
    }
}

#[test]
fn east_ray_distance_to_known_wall_within_one_step() {
    let maze = grid(&["      ", "     |", "      "]);
    let hit = march(&maze, 130, 150, TRIG_ONE, 0);
    let analytic = 5 * CELL_SIZE - 130;
    assert!(hit.distance as i64 >= analytic);
    assert!((hit.distance as i64) < analytic + RAY_STEP);
    assert_eq!(hit.distance, 370);
    assert_eq!(hit.impact, WallKind::Vertical);
    // the face is crossed along x, so the offset runs along y
    assert_eq!(hit.tx, 50);
}

#[test]
fn ray_leaving_grid_hits_boundary() {
    let maze = grid(&["   ", "   "]);
    let hit = march(&maze, 50, 50, 0, -TRIG_ONE);
    assert_eq!(hit.impact, WallKind::Boundary);
    assert_eq!(hit.distance, 60);
}

#[test]
fn ray_starting_in_wall_has_zero_distance_and_offset() {
    let maze = room();
    let hit = march(&maze, 30, 30, TRIG_ONE, 0);
    assert_eq!(hit, Intersect { distance: 0, impact: WallKind::Corner, tx: 0 });
}

#[test]
fn march_distance_is_bounded_for_every_angle() {
    let maze = room();
    let t = trig();
    let p = player_at(170, 320, 0);
    for a in (0..ANGLE_UNITS).step_by(37) {
        let hit = cast_ray(&maze, &p, a, &t);
        assert!(hit.distance <= MAX_RAY_DISTANCE);
        // from inside a 5x5 grid no ray needs more than the diagonal plus a cell
        assert!(hit.distance <= 800);
        assert!(hit.tx < CELL_SIZE as u64);
    }
}

#[test]
fn texture_offset_is_periodic_under_whole_cell_translation() {
    let maze = room();
    let b = Tile::Wall(WallKind::Boundary);
    // the same room shifted two columns right and one row down, padded with boundary walls
    let mut rows: Vec<Vec<Tile>> = Vec::new();
    rows.push(vec![b; 7]);
    for j in 0..5 {
        let mut row = vec![b, b];
        for i in 0..5 {
            row.push(maze.rows[j][i]);
        }
        rows.push(row);
    }
    let shifted = Grid::from_rows(rows).unwrap();
    let t = trig();
    for a in (0..ANGLE_UNITS).step_by(101) {
        let p = player_at(233, 261, a);
        let q = player_at(233 + 2 * CELL_SIZE, 261 + CELL_SIZE, a);
        assert_eq!(cast_ray(&maze, &p, a, &t), cast_ray(&shifted, &q, a, &t));
    }
}

fn textures() -> TextureManager {
    let mut tm = TextureManager::new();
    tm.insert('+', solid(4, 4, Color::new(200, 0, 0, 255)));
    tm.insert('f', solid(2, 2, Color::new(0, 200, 0, 255)));
    tm.insert('c', solid(2, 2, Color::new(0, 0, 200, 255)));
    tm
}

#[test]
fn render_world_fills_every_depth_entry() {
    let maze = room();
    let t = trig();
    let tm = textures();
    let p = player_at(250, 250, 100);
    let mut fb = Framebuffer::new(40, 30, Color::new(0, 0, 0, 255));
    let mut depth = vec![0u64; 40];
    reset_depth_buffer(&mut depth);
    assert!(depth.iter().all(|&d| d == DEPTH_INFINITY));
    render_world(&mut fb, &p, &maze, &tm, &mut depth, 3, &t);
    for x in 0..40u32 {
        assert_ne!(depth[x as usize], DEPTH_INFINITY);
        let s = column_slice(&maze, &p, &t, x, 40, 30);
        assert_eq!(depth[x as usize], s.hit.distance);
        // wall, floor and ceiling colours sit where the slice says
        for y in 0..30i32 {
            let c = fb.get_pixel_color(x as i32, y).unwrap();
            if (y as i64) >= s.top && (y as i64) < s.bottom {
                assert_eq!(c, Color::new(200, 0, 0, 255));
            } else if (y as i64) >= s.bottom {
                assert_eq!(c, Color::new(0, 200, 0, 255));
            } else {
                assert_eq!(c, Color::new(0, 0, 200, 255));
            }
        }
    }
}

#[test]
fn nearer_wall_gives_taller_slice() {
    let maze = room();
    let t = trig();
    let near = column_slice(&maze, &player_at(350, 250, 0), &t, 32, 64, 480);
    let far = column_slice(&maze, &player_at(150, 250, 0), &t, 32, 64, 480);
    assert!(near.hit.distance < far.hit.distance);
    assert!(near.bottom - near.top > far.bottom - far.top);
    // 240 * 70 / 50 = 336 rows, centred on row 240
    assert_eq!(near.hit.distance, 50);
    assert_eq!(near.top, 240 - 168);
    assert_eq!(near.bottom, 240 + 168);
}

fn sprite_textures() -> TextureManager {
    let mut tm = TextureManager::new();
    // left half opaque, right half transparent
    let mut colors = Vec::new();
    for _y in 0..4 {
        for x in 0..4 {
            colors.push(if x < 2 { Color::new(9, 9, 9, 255) } else { Color::new(0, 0, 0, 0) });
        }
    }
    tm.insert('e', TextureImage::new(4, 4, colors).unwrap());
    tm
}

#[test]
fn occluded_sprite_plots_nothing() {
    let t = trig();
    let tm = sprite_textures();
    let p = player_at(0, 0, 0);
    let e = Enemy::new(500, 0, vec!['e'], 1);
    let s = project_sprite(&p, &e, &tm, &t, 64, 48).unwrap();
    assert_eq!(s.distance, 500);
    let depth = vec![300u64; 64];
    assert!(sprite_plots(&s, &tm, &depth).is_empty());
    let mut fb = Framebuffer::new(64, 48, Color::new(1, 2, 3, 255));
    draw_sprite(&mut fb, &p, &e, &tm, &depth, &t);
    assert!(fb.pixel_data.iter().all(|&c| c == Color::new(1, 2, 3, 255)));
}

#[test]
fn visible_sprite_plots_each_opaque_texel_once() {
    let t = trig();
    let tm = sprite_textures();
    let p = player_at(0, 0, 0);
    let e = Enemy::new(100, 0, vec!['e'], 1);
    let s = project_sprite(&p, &e, &tm, &t, 64, 48).unwrap();
    let depth = vec![DEPTH_INFINITY; 64];
    let plots = sprite_plots(&s, &tm, &depth);
    let mut opaque = 0;
    for x in s.start_x..s.end_x {
        for y in s.start_y..s.end_y {
            if sprite_texel_at(&s, &tm, x, y).a != 0 {
                opaque += 1;
            }
        }
    }
    assert!(opaque > 0);
    assert_eq!(plots.len(), opaque);
}

#[test]
fn nearer_sprite_shows_and_farther_one_is_hidden_behind_wall() {
    let t = trig();
    let tm = sprite_textures();
    let p = player_at(0, 0, 0);
    let near = Enemy::new(100, 0, vec!['e'], 1);
    let far = Enemy::new(500, 0, vec!['e'], 1);
    let depth = vec![300u64; 64];
    let sn = project_sprite(&p, &near, &tm, &t, 64, 48).unwrap();
    let sf = project_sprite(&p, &far, &tm, &t, 64, 48).unwrap();
    assert_eq!(sn.distance, 100);
    assert_eq!(sf.distance, 500);
    // the far sprite's columns are all shared with the near one
    assert!(sn.start_x <= sf.start_x && sf.end_x <= sn.end_x);
    assert!(!sprite_plots(&sn, &tm, &depth).is_empty());
    assert!(sprite_plots(&sf, &tm, &depth).is_empty());
}

#[test]
fn sprite_near_the_edge_of_the_view_is_drawn() {
    let t = trig();
    let tm = sprite_textures();
    let p = player_at(0, 0, 0);
    // 0.45 of the field of view off-centre (about 40 degrees of 90)
    let e = Enemy::new(300, 252, vec!['e'], 1);
    let s = project_sprite(&p, &e, &tm, &t, 64, 48).unwrap();
    let depth = vec![DEPTH_INFINITY; 64];
    assert!(!sprite_plots(&s, &tm, &depth).is_empty());
}

#[test]
fn sprite_outside_field_of_view_or_range_is_not_projected() {
    let t = trig();
    let tm = sprite_textures();
    let p = player_at(0, 0, 0);
    assert!(project_sprite(&p, &Enemy::new(-300, 0, vec![], 1), &tm, &t, 64, 48).is_none());
    assert!(project_sprite(&p, &Enemy::new(20, 0, vec![], 1), &tm, &t, 64, 48).is_none());
    assert!(project_sprite(&p, &Enemy::new(2000, 0, vec![], 1), &tm, &t, 64, 48).is_none());
}

#[test]
fn render_frame_composites_sprites_after_walls() {
    let maze = grid(&["+++++++++", "+       +", "+       +", "+++++++++"]);
    let t = trig();
    let mut tm = sprite_textures();
    tm.insert('+', solid(4, 4, Color::new(200, 0, 0, 255)));
    let p = player_at(150, 150, 0);
    let enemies = vec![Enemy::new(300, 150, vec!['e'], 1)];
    let mut fb = Framebuffer::new(64, 48, Color::new(0, 0, 0, 255));
    let mut depth = vec![0u64; 64];
    render_frame(&mut fb, &p, &maze, &tm, &mut depth, &enemies, 3, &t);
    assert!(depth.iter().all(|&d| d != DEPTH_INFINITY));
    assert!(fb.pixel_data.iter().any(|&c| c == Color::new(9, 9, 9, 255)));
}

#[test]
fn texture_lookup_clamps_and_falls_back_to_white() {
    let mut tm = TextureManager::new();
    let img = TextureImage::new(2, 2, vec![
        Color::new(1, 0, 0, 255),
        Color::new(2, 0, 0, 255),
        Color::new(3, 0, 0, 255),
        Color::new(4, 0, 0, 255),
    ])
    .unwrap();
    tm.insert('x', img);
    assert_eq!(tm.get_pixel_color('x', 1, 0), Color::new(2, 0, 0, 255));
    assert_eq!(tm.get_pixel_color('x', 9, 9), Color::new(4, 0, 0, 255));
    assert_eq!(tm.get_pixel_color('y', 0, 0), Color::white());
    tm.insert('x', solid(1, 1, Color::new(7, 7, 7, 7)));
    assert_eq!(tm.get_pixel_color('x', 0, 0), Color::new(7, 7, 7, 7));
    assert_eq!(tm.images.len(), 1);
    assert!(TextureImage::new(0, 2, vec![]).is_none());
    assert!(TextureImage::new(2, 2, vec![Color::white()]).is_none());
}

#[test]
fn framebuffer_ignores_points_outside() {
    let mut fb = Framebuffer::new(4, 3, Color::new(0, 0, 0, 255));
    fb.set_current_color(Color::new(5, 5, 5, 255));
    fb.set_pixel(3, 2);
    fb.set_pixel(4, 0);
    fb.set_pixel(-1, 1);
    assert_eq!(fb.get_pixel_color(3, 2), Some(Color::new(5, 5, 5, 255)));
    assert_eq!(fb.get_pixel_color(4, 0), None);
    assert_eq!(fb.pixel_data.iter().filter(|&&c| c == Color::new(5, 5, 5, 255)).count(), 1);
    fb.set_background_color(Color::new(9, 9, 9, 255));
    assert!(fb.pixel_data.iter().all(|&c| c == Color::new(9, 9, 9, 255)));
    fb.draw_vignette(1, 1, 10, 4000);
    assert_eq!(fb.circle_overlays[0].darkness, 1000);
    fb.draw_text("piso 3", 1, 2, 20, Color::white());
    assert_eq!(fb.overlays[0].text, "piso 3");
    fb.queue_health(2, 3);
    assert_eq!(fb.health_to_draw, Some((2, 3)));
    fb.clear_overlays();
    assert!(fb.overlays.is_empty() && fb.circle_overlays.is_empty() && fb.health_to_draw.is_none());
}

#[test]
fn player_walks_forward_and_stops_at_walls() {
    let maze = room();
    let t = trig();
    let mut p = player_at(250, 250, 0);
    let up = Controls { left: false, right: false, up: true, down: false };
    process_events(&up, &mut p, &maze, &t);
    assert_eq!((p.x, p.y), (257, 250));
    let mut q = player_at(395, 250, 0);
    process_events(&up, &mut q, &maze, &t);
    assert_eq!((q.x, q.y), (395, 250));
    let turn = Controls { left: true, right: false, up: false, down: false };
    process_events(&turn, &mut q, &maze, &t);
    assert_eq!(q.a, ANGLE_UNITS - 82);
    let back = Controls { left: false, right: false, up: true, down: true };
    let mut r = player_at(250, 250, 0);
    process_events(&back, &mut r, &maze, &t);
    assert_eq!((r.x, r.y), (243, 250));
}

#[test]
fn enemy_chases_and_animates() {
    let maze = room();
    let p = player_at(350, 150, 0);
    let mut e = Enemy::new(150, 150, vec!['e', 'E'], 2);
    assert_eq!(e.current_key(), 'e');
    assert!(e.update(&p, &maze, 3));
    assert_eq!((e.x, e.y), (153, 150));
    assert_eq!(e.current_key(), 'e');
    assert!(e.update(&p, &maze, 3));
    assert_eq!(e.current_key(), 'E');
    let mut stuck = Enemy::new(150, 150, vec![], 0);
    assert_eq!(stuck.steps_per_frame, 1);
    assert_eq!(stuck.current_key(), 'e');
    let same = player_at(150, 150, 0);
    assert!(!stuck.update(&same, &maze, 3));
    assert!(!Enemy::is_free(50, 150, &maze));
    assert!(Enemy::is_free(150, 150, &maze));
    assert!(!Enemy::is_free(-1, 150, &maze));
}

#[test]
fn integer_helpers() {
    assert_eq!(floor_div(-7, 100), -1);
    assert_eq!(floor_div(250, 100), 2);
    assert_eq!(floor_mod(-7, 100), 93);
    assert_eq!(isqrt(0), 0);
    assert_eq!(isqrt(24), 4);
    assert_eq!(isqrt(25), 5);
    assert_eq!(isqrt(u64::MAX), 0xffff_ffff);
    assert_eq!(normalize_angle(3000), 3000 - 4096);
    assert_eq!(normalize_angle(-100), -100);
    assert_eq!(normalize_angle(2048), 2048);
    let t = trig();
    assert_eq!(t.atan2(0, 5), 0);
    assert_eq!(t.atan2(5, 0), 1024);
    assert_eq!(t.atan2(5, 5), 512);
    assert_eq!(t.atan2(-5, -5), 512 - 2048);
    assert_eq!(t.atan2(0, -5), 2048);
    assert_eq!(t.cos_of(0), TRIG_ONE);
    assert_eq!(t.sin_of(1024), TRIG_ONE);
}

#[test]
fn maze_symbols_map_to_tiles() {
    assert_eq!(Tile::from_symbol(' '), Tile::Empty);
    assert_eq!(Tile::from_symbol('g'), Tile::Exit);
    assert_eq!(Tile::from_symbol('s'), Tile::Spawn);
    assert_eq!(Tile::from_symbol('|'), Tile::Wall(WallKind::Vertical));
    assert_eq!(Tile::from_symbol('L'), Tile::Wall(WallKind::LevelSign));
    assert_eq!(Tile::from_symbol('#'), Tile::Wall(WallKind::Other('#')));
    assert_eq!(WallKind::LevelSign.texture_key(4), '4');
    assert_eq!(WallKind::LevelSign.texture_key(12), 'L');
    assert_eq!(WallKind::Boundary.texture_key(4), '+');
    assert!(Grid::from_symbols(&vec![vec![' ', ' '], vec![' ']]).is_none());
    assert!(Grid::from_symbols(&vec![]).is_none());
    let g = room();
    assert_eq!(g.tile_at(-1, 0), Tile::Wall(WallKind::Boundary));
    assert_eq!(g.tile_at(2, 2), Tile::Empty);
    assert_eq!((g.width(), g.height()), (5, 5));
}

#[test]
fn diagonal_ray_reports_straight_line_distance() {
    let maze = room();
    let t = trig();
    let p = player_at(250, 250, 0);
    let hit = cast_ray(&maze, &p, ANGLE_UNITS / 8, &t);
    // the first sample in a wall is (405, 405): 155 units along each axis
    assert_eq!(hit.distance, 219);
    let (wc, hc) = (5 * CELL_SIZE + RAY_STEP, 5 * CELL_SIZE + RAY_STEP);
    assert!((hit.distance * hit.distance) as i64 <= wc * wc + hc * hc);
}

#[test]
fn wall_texture_is_scaled_by_its_own_width() {
    let maze = room();
    let t = trig();
    let mut tm = TextureManager::new();
    let a = Color::new(1, 1, 1, 255);
    let b = Color::new(2, 2, 2, 255);
    tm.insert('+', TextureImage::new(2, 1, vec![a, b]).unwrap());
    let p = player_at(250, 250, 0);
    let mut fb = Framebuffer::new(64, 48, Color::new(0, 0, 0, 255));
    let mut depth = vec![0u64; 64];
    render_world(&mut fb, &p, &maze, &tm, &mut depth, 3, &t);
    // the centre column strikes the east wall halfway along its face: texel 1 of 2
    let s = column_slice(&maze, &p, &t, 32, 64, 48);
    assert_eq!(s.hit.tx, 50);
    assert_eq!(fb.get_pixel_color(32, 24), Some(b));
}

#[test]
fn trig_table_rejects_bad_samples() {
    let good = trig();
    let mut sin = good.sin.clone();
    sin[0] = 3;
    assert!(TrigTable::new(sin, good.atan.clone()).is_none());
    let mut sin = good.sin.clone();
    sin[512] = sin[512] / 2;
    assert!(TrigTable::new(sin, good.atan.clone()).is_none());
    assert!(TrigTable::new(good.sin.clone(), vec![0; 3]).is_none());
}
