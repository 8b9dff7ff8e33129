use maze_raycaster::color::Color;
use maze_raycaster::enemy::Enemy;
use maze_raycaster::framebuffer::{mask_alpha, vignette_mask, Framebuffer, MASK_SIZE};
use maze_raycaster::grid::Grid;
use maze_raycaster::level::{
    find_nearest_free_around, find_nearest_free_to_center, find_spawn_reachable, find_tile,
    maze_filename_for_level, nearest_free_cell, reachable_cells, tile_center_pos,
};
use maze_raycaster::minimap::{draw_cell, draw_minimap, fit_scale, render_maze, to_screen, MapView};
use maze_raycaster::player::Player;
use maze_raycaster::tile::Tile;
use maze_raycaster::trig::{TrigTable, ANGLE_UNITS, ATAN_STEPS, TRIG_ONE};

fn grid(lines: &[&str]) -> Grid {
    let rows: Vec<Vec<char>> = lines.iter().map(|l| l.chars().collect()).collect();
    Grid::from_symbols(&rows).expect("rectangular maze")
}

fn trig() -> TrigTable {
    let n = ANGLE_UNITS as usize;
    let sin: Vec<i64> = (0..n)
        .map(|k| ((2.0 * std::f64::consts::PI * k as f64 / n as f64).sin() * TRIG_ONE as f64).round() as i64)
        .collect();
    let atan: Vec<i64> = (0..=ATAN_STEPS as usize)
        .map(|m| {
            ((m as f64 / ATAN_STEPS as f64).atan() * ANGLE_UNITS as f64 / (2.0 * std::f64::consts::PI)).round()
                as i64
        })
        .collect();
    TrigTable::new(sin, atan).unwrap()
}

#[test]
fn level_files_alternate_with_a_final_one() {
    assert_eq!(maze_filename_for_level(7), "maze_final.txt");
    assert_eq!(maze_filename_for_level(4), "maze_even.txt");
    assert_eq!(maze_filename_for_level(3), "maze_odd.txt");
    assert_eq!(maze_filename_for_level(-3), "maze_odd.txt");
}

#[test]
fn tiles_are_found_in_row_major_order() {
    let g = grid(&["+g+", "s g", "+++"]);
    assert_eq!(find_tile(&g, Tile::Exit), Some((1, 0)));
    assert_eq!(find_tile(&g, Tile::Spawn), Some((0, 1)));
    assert_eq!(find_tile(&g, Tile::Wall(maze_raycaster::tile::WallKind::LevelSign)), None);
    assert_eq!(tile_center_pos(2, 3), (250, 350));
}

#[test]
fn nearest_free_cell_searches_growing_rings() {
    let g = grid(&["+++++", "+ +++", "+++++", "+++ +", "+++++"]);
    assert_eq!(nearest_free_cell(&g, 2, 2, 5), Some((1, 1)));
    assert_eq!(nearest_free_cell(&g, 3, 3, 5), Some((3, 3)));
    assert_eq!(nearest_free_cell(&g, 2, 2, 0), None);
    assert_eq!(find_nearest_free_to_center(&g), (150, 150));
    assert_eq!(find_nearest_free_around(&g, 4, 4, 1), (350, 350));
    // nothing within one ring of the corner: falls back to the middle search
    assert_eq!(find_nearest_free_around(&g, 0, 4, 1), (150, 150));
    // two walkable cells on the same ring: the left column is searched first
    let tie = grid(&["+++++", "++ ++", "+ + +", "+++++", "+++++"]);
    assert_eq!(nearest_free_cell(&tie, 2, 2, 2), Some((1, 2)));
    assert_eq!(find_nearest_free_around(&tie, 2, 2, 2), (150, 250));
    let walls = grid(&["++", "++"]);
    assert_eq!(find_nearest_free_to_center(&walls), (50, 50));
}

#[test]
fn spawn_is_reachable_and_central() {
    // two rooms: the right one cannot be reached from the left one
    let g = grid(&["+++++++", "+   + +", "+   + +", "+   + +", "+++++++"]);
    let (x, y) = find_spawn_reachable(&g, 150, 150, 0);
    // the middle of the maze is column 3, row 2: the left room's nearest cell is (3, 2)
    assert_eq!((x, y), (350, 250));
    // keeping two rings from the player at (1, 1) leaves column 3; (3, 2) is the most central
    let (x2, y2) = find_spawn_reachable(&g, 150, 150, 2);
    assert_eq!((x2, y2), (350, 250));
    // no reachable cell is ten rings away: the preference is dropped
    assert_eq!(find_spawn_reachable(&g, 150, 150, 10), (350, 250));
    // a start in the right room reaches only that column
    let (x3, _) = find_spawn_reachable(&g, 550, 150, 0);
    assert_eq!(x3, 550);
    // a start clamped into the grid corner, a wall, reaches nothing: middle search
    assert_eq!(find_spawn_reachable(&g, -500, -500, 0), find_nearest_free_to_center(&g));
}

#[test]
fn map_scale_fits_the_tighter_side() {
    assert_eq!(fit_scale(1268, 868, 500, 500), (868, 500));
    assert_eq!(fit_scale(200, 868, 500, 500), (200, 500));
    assert_eq!(to_screen(10, 250, 868, 500), 10 + 434);
    assert_eq!(to_screen(0, -1, 1, 2), -1);
    let v = MapView::fit(16, 16, 1268, 868, 5, 5).unwrap();
    assert_eq!((v.num, v.den), (868, 500));
    assert_eq!(v.off_x, 16 + (1268 - 868) / 2);
    assert_eq!(v.off_y, 16);
    assert!(MapView::fit(16, 16, 0, 868, 5, 5).is_none());
}

#[test]
fn draw_cell_fills_walls_only() {
    let mut fb = Framebuffer::new(8, 8, Color::new(0, 0, 0, 255));
    draw_cell(&mut fb, 2, 2, 3, Tile::Empty);
    assert!(fb.pixel_data.iter().all(|&c| c == Color::new(0, 0, 0, 255)));
    draw_cell(&mut fb, 2, 2, 3, Tile::Exit);
    assert_eq!(fb.pixel_data.iter().filter(|&&c| c == Color::new(255, 0, 0, 255)).count(), 9);
    assert_eq!(fb.get_pixel_color(4, 4), Some(Color::new(255, 0, 0, 255)));
    assert_eq!(fb.get_pixel_color(5, 4), Some(Color::new(0, 0, 0, 255)));
}

#[test]
fn maps_draw_walls_player_and_enemies() {
    let g = grid(&["+++++", "+   +", "+   +", "+   +", "+++++"]);
    let t = trig();
    let p = Player { x: 250, y: 250, a: 0, fov: ANGLE_UNITS / 4 };
    let bg = Color::new(0, 0, 0, 255);
    let mut fb = Framebuffer::new(132, 132, bg);
    render_maze(&mut fb, &g, &p, &t);
    // scale 100 / 500: the player's dot at (16 + 50, 16 + 50) is white, a corner wall is red
    assert_eq!(fb.get_pixel_color(66, 66), Some(Color::white()));
    assert_eq!(fb.get_pixel_color(20, 20), Some(Color::new(200, 40, 40, 255)));
    let mut small = Framebuffer::new(300, 200, bg);
    let enemies = vec![Enemy::new(150, 150, vec!['e'], 1)];
    draw_minimap(&mut small, &g, &p, &enemies, &t);
    // border of the minimap box at its top-left corner (30, 30)
    assert_eq!(small.get_pixel_color(30, 30), Some(Color::new(220, 220, 220, 180)));
    assert!(small.pixel_data.iter().any(|&c| c == Color::new(220, 40, 40, 255)));
    assert_eq!(small.get_pixel_color(0, 0), Some(bg));
}

#[test]
fn vignette_mask_is_clear_in_the_middle_and_dark_outside() {
    assert_eq!(mask_alpha(255, 255, 512), 0);
    assert_eq!(mask_alpha(256, 128, 512), 127);
    assert_eq!(mask_alpha(0, 0, 512), 255);
    assert_eq!(mask_alpha(511, 256, 512), 255);
    let m = vignette_mask(8);
    assert_eq!(m.len(), 64);
    assert_eq!(m[3 * 8 + 3], mask_alpha(3, 3, 8));
    assert_eq!(m[0], 255);
    assert_eq!(MASK_SIZE, 512);
}

#[test]
fn breadth_first_search_finds_each_reachable_cell() {
    let g = grid(&["+++++++", "+   + +", "+ +++ +", "+   + +", "+++++++"]);
    let mut left = reachable_cells(&g, 1, 1);
    left.sort();
    assert_eq!(left, vec![(1, 1), (1, 2), (1, 3), (2, 1), (2, 3), (3, 1), (3, 3)]);
    let right = reachable_cells(&g, 5, 2);
    assert_eq!(right.len(), 3);
    assert!(reachable_cells(&g, 0, 0).is_empty());
}
