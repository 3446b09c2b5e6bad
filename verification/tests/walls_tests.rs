use raycaster::color::Color;
use raycaster::framebuffer::{Framebuffer, FAR};
use raycaster::maze::Maze;
use raycaster::player::{Player, Point};
use raycaster::state::GameState;
use raycaster::textures::{Image, TextureManager};
use raycaster::trig::{TrigTable, ONE};
use raycaster::walls::{apply_flashlight, correct_distance, draw_strip, render_3D, spot_color, strip_bounds};

const TURN: usize = 3600;
const BLOCK: u32 = 80;
const UNIT: u64 = ONE as u64;

fn table(turn: usize) -> TrigTable {
    let mut cos = Vec::new();
    let mut sin = Vec::new();
    for a in 0..turn {
        let rad = (a as f64) * std::f64::consts::TAU / (turn as f64);
        cos.push((rad.cos() * ONE as f64).round() as i32);
        sin.push((rad.sin() * ONE as f64).round() as i32);
    }
    TrigTable::new(cos, sin).unwrap()
}

fn room(side: usize) -> Maze {
    let mut rows = Vec::new();
    for r in 0..side {
        let mut row = Vec::new();
        for c in 0..side {
            let edge = r == 0 || c == 0 || r == side - 1 || c == side - 1;
            row.push(if edge { '+' } else { ' ' });
        }
        rows.push(row);
    }
    Maze::new(rows).unwrap()
}

// a texture whose texel (x, y) has red = x and green = y
fn gradient(side: u32) -> Image {
    let mut data = Vec::new();
    for y in 0..side {
        for x in 0..side {
            data.push(x as u8);
            data.push(y as u8);
            data.push(7);
            data.push(255);
        }
    }
    Image::new(side, side, data).unwrap()
}

fn textures() -> TextureManager {
    let mut tm = TextureManager::new();
    tm.insert_image('+', gradient(128));
    tm
}

fn dark() -> GameState {
    GameState { flashlight_active: false, activation_min_x: 0, activation_min_y: 0, in_special_zone: false }
}

fn lit() -> GameState {
    GameState { flashlight_active: true, activation_min_x: 0, activation_min_y: 0, in_special_zone: true }
}

const SKY: Color = Color { r: 1, g: 2, b: 3, a: 255 };

#[test]
fn corrected_distance_scales_by_cosine() {
    assert_eq!(correct_distance(1000, ONE), 1000);
    assert_eq!(correct_distance(1000, ONE / 2), 500);
    assert_eq!(correct_distance(1001, ONE / 2), 500);
    assert_eq!(correct_distance(3 * UNIT, 1), 3);
    assert_eq!(correct_distance(1000, 0), 1);
    assert_eq!(correct_distance(1000, -ONE), 1);
    assert_eq!(correct_distance(0, ONE), 1);
    assert_eq!(correct_distance(u64::MAX, ONE), u64::MAX);
}

#[test]
fn strip_bounds_follow_the_projection() {
    // half of the strip is (400 / 2) * 50 / 100 = 100 rows
    assert_eq!(strip_bounds(400, 100 * UNIT), (100, 300));
    // at depth 50 the strip fills the screen exactly
    assert_eq!(strip_bounds(400, 50 * UNIT), (0, 400));
    // nearer than that it is cut off
    assert_eq!(strip_bounds(400, 10 * UNIT), (0, 400));
    assert_eq!(strip_bounds(400, 1), (0, 400));
    // half of the strip is 200 * 50 / 120 = 83.33 rows
    assert_eq!(strip_bounds(400, 120 * UNIT), (116, 283));
    // far away nothing is left of it
    assert_eq!(strip_bounds(400, 1_000_000 * UNIT), (199, 200));
    assert_eq!(strip_bounds(0, 5 * UNIT), (0, 0));
    assert_eq!(strip_bounds(401, u64::MAX), (200, 200));
}

#[test]
fn strips_never_grow_with_depth() {
    let mut last = 400u32;
    for d in 1..20000u64 {
        let (top, bottom) = strip_bounds(400, d * UNIT / 10);
        assert!(top <= bottom && bottom <= 400);
        assert!(bottom - top <= last);
        last = bottom - top;
    }
}

#[test]
fn draw_strip_spreads_the_texture_over_the_rows() {
    let tm = textures();
    let mut fb = Framebuffer::new(4, 64, SKY);
    draw_strip(&mut fb, &tm, 2, 16, 48, '+', 5);
    for y in 0..64u32 {
        for x in 0..4u32 {
            let c = fb.get_color(x, y);
            if x == 2 && (16..48).contains(&y) {
                assert_eq!(c, Color::new(5, ((y - 16) * 128 / 32) as u8, 7, 255));
            } else {
                assert_eq!(c, SKY);
            }
        }
    }
}

#[test]
fn draw_strip_without_texture_is_white() {
    let tm = textures();
    let mut fb = Framebuffer::new(2, 8, SKY);
    draw_strip(&mut fb, &tm, 0, 2, 4, '?', 0);
    assert_eq!(fb.get_color(0, 2), Color::white());
    assert_eq!(fb.get_color(0, 3), Color::white());
    assert_eq!(fb.get_color(0, 4), SKY);
    assert_eq!(fb.get_color(1, 2), SKY);
}

#[test]
fn five_by_five_room_centre_column() {
    let trig = table(TURN);
    let maze = room(5);
    let tm = textures();
    let player = Player { pos: Point { x: 2 * BLOCK, y: 2 * BLOCK + BLOCK / 2 }, a: 0, fov: 600 };
    let mut fb = Framebuffer::new(100, 80, SKY);
    render_3D(&mut fb, &maze, BLOCK, &player, &tm, &trig, &dark());
    // the centre ray runs along the x axis and meets the east wall two
    // blocks away
    assert_eq!(fb.depth(50), 2 * BLOCK as u64 * UNIT);
    let (top, bottom) = strip_bounds(80, 160 * UNIT);
    assert_eq!((top, bottom), (27, 52));
    // centred on the horizon: as far above the middle as below it
    assert!((40 - top as i32 - (bottom as i32 - 40)).abs() <= 1);
    for y in 0..80u32 {
        let c = fb.get_color(50, y);
        if y >= top && y < bottom {
            // hit half way down the cell: texture column 64
            assert_eq!(c, Color::new(64, ((y - top) * 128 / (bottom - top)) as u8, 7, 255));
        } else {
            assert_eq!(c, SKY);
        }
    }
}

#[test]
fn every_column_gets_a_positive_finite_depth() {
    let trig = table(TURN);
    let maze = room(9);
    let tm = textures();
    for a in [0u32, 450, 900, 1234, 1800, 2700, 3599] {
        let player = Player { pos: Point { x: 333, y: 417 }, a, fov: 600 };
        let mut fb = Framebuffer::new(64, 48, SKY);
        for x in 0..64 {
            assert_eq!(fb.depth(x), FAR);
        }
        render_3D(&mut fb, &maze, BLOCK, &player, &tm, &trig, &dark());
        for x in 0..64 {
            let d = fb.depth(x);
            assert!(d >= 1 && d < 9 * BLOCK as u64 * 2 * UNIT, "column {} depth {}", x, d);
        }
    }
}

#[test]
fn flat_wall_has_level_strips() {
    // facing the east wall squarely: every ray that meets it has the same
    // depth, up to rounding, whatever its angle
    let trig = table(TURN);
    let maze = room(41);
    let tm = textures();
    let player = Player { pos: Point { x: 39 * BLOCK - 100, y: 20 * BLOCK + 40 }, a: 0, fov: 600 };
    let mut fb = Framebuffer::new(101, 200, SKY);
    render_3D(&mut fb, &maze, BLOCK, &player, &tm, &trig, &dark());
    let mut last_height = u32::MAX;
    for off in 0..=50u32 {
        for x in [50 - off, 50 + off] {
            let d = fb.depth(x) as f64 / ONE as f64;
            assert!((d - 180.0).abs() < 0.01, "column {} depth {}", x, d);
            let (top, bottom) = strip_bounds(200, fb.depth(x));
            assert_eq!((top, bottom), strip_bounds(200, 180 * UNIT));
            assert!(bottom - top <= last_height);
            last_height = bottom - top;
        }
    }
}

#[test]
fn render_overwrites_depths_of_an_earlier_frame() {
    let trig = table(TURN);
    let maze = room(9);
    let tm = textures();
    let mut fb = Framebuffer::new(32, 32, SKY);
    let near = Player { pos: Point { x: 600, y: 360 }, a: 0, fov: 600 };
    let far = Player { pos: Point { x: 100, y: 360 }, a: 0, fov: 600 };
    render_3D(&mut fb, &maze, BLOCK, &near, &tm, &trig, &dark());
    assert_eq!(fb.depth(16), 40 * UNIT);
    render_3D(&mut fb, &maze, BLOCK, &far, &tm, &trig, &dark());
    assert_eq!(fb.depth(16), 540 * UNIT);
}

#[test]
fn zero_field_of_view_casts_one_ray_for_all_columns() {
    let trig = table(TURN);
    let maze = room(5);
    let tm = textures();
    let player = Player { pos: Point { x: 200, y: 200 }, a: 900, fov: 0 };
    let mut fb = Framebuffer::new(8, 8, SKY);
    render_3D(&mut fb, &maze, BLOCK, &player, &tm, &trig, &dark());
    for x in 0..8 {
        assert_eq!(fb.depth(x), 120 * UNIT);
    }
}

#[test]
fn empty_framebuffer_renders_nothing() {
    let trig = table(TURN);
    let maze = room(5);
    let tm = textures();
    let player = Player { pos: Point { x: 200, y: 200 }, a: 0, fov: 600 };
    let mut fb = Framebuffer::new(0, 10, SKY);
    render_3D(&mut fb, &maze, BLOCK, &player, &tm, &trig, &lit());
    assert_eq!(fb.width(), 0);
    let mut fb = Framebuffer::new(10, 0, SKY);
    render_3D(&mut fb, &maze, BLOCK, &player, &tm, &trig, &lit());
    assert_eq!(fb.depth(5) / UNIT, 120);
}

#[test]
fn flashlight_blacks_out_the_rim() {
    let c = Color::new(200, 100, 50, 9);
    // middle of the screen: untouched
    assert_eq!(spot_color(100, 100, 50, 50, c), c);
    // the light reaches a fifth of the width: 20 pixels
    assert_eq!(spot_color(100, 100, 66, 50, c), c);
    assert_eq!(spot_color(100, 100, 71, 50, c), Color::black());
    assert_eq!(spot_color(100, 100, 0, 0, c), Color::black());
    // at 18 of 20 pixels the square of the distance is 0.81 of the reach:
    // the color is faded to (1 - 0.81) / 0.3 of itself
    assert_eq!(spot_color(100, 100, 68, 50, c), Color::new(126, 63, 31, 255));
    // exactly at the reach: faded to nothing, but not beyond it
    assert_eq!(spot_color(100, 100, 70, 50, c), Color::new(0, 0, 0, 255));
}

#[test]
fn flashlight_is_an_ellipse_on_a_wide_screen() {
    let c = Color::new(90, 90, 90, 255);
    // 40 columns to the side, but only 10 rows up and down
    assert_eq!(spot_color(200, 50, 100 + 30, 25, c), c);
    assert_eq!(spot_color(200, 50, 100, 25 + 11, c), Color::black());
    assert_eq!(spot_color(200, 50, 100 + 41, 25, c), Color::black());
}

#[test]
fn apply_flashlight_filters_every_pixel() {
    let c = Color::new(200, 100, 50, 255);
    let mut fb = Framebuffer::new(20, 10, c);
    apply_flashlight(&mut fb);
    for y in 0..10 {
        for x in 0..20 {
            assert_eq!(fb.get_color(x, y), spot_color(20, 10, x, y, c));
        }
    }
    assert_eq!(fb.get_color(10, 5), c);
    assert_eq!(fb.get_color(0, 0), Color::black());
}

#[test]
fn render_with_flashlight_darkens_the_walls() {
    let trig = table(TURN);
    let maze = room(5);
    let tm = textures();
    let player = Player { pos: Point { x: 200, y: 200 }, a: 0, fov: 600 };
    let mut plain = Framebuffer::new(40, 30, SKY);
    render_3D(&mut plain, &maze, BLOCK, &player, &tm, &trig, &dark());
    let mut spot = Framebuffer::new(40, 30, SKY);
    render_3D(&mut spot, &maze, BLOCK, &player, &tm, &trig, &lit());
    for y in 0..30 {
        for x in 0..40 {
            assert_eq!(spot.get_color(x, y), spot_color(40, 30, x, y, plain.get_color(x, y)));
            assert_eq!(spot.depth(x), plain.depth(x));
        }
    }
}

#[test]
fn rounding_can_add_a_row_to_a_strip() {
    // a wall 100 units ahead: seen under a cosine just below one, its
    // depth loses one unit of fixed point, and its strip gains a row
    let raw = 100 * UNIT * UNIT / 65_535;
    assert_eq!(correct_distance(raw, 65_535), 100 * UNIT - 1);
    assert_eq!(correct_distance(100 * UNIT, ONE), 100 * UNIT);
    assert_eq!(strip_bounds(400, 100 * UNIT), (100, 300));
    assert_eq!(strip_bounds(400, 100 * UNIT - 1), (99, 300));
}

// texel (x, y) has red = x and green = y
fn picture(width: u32, height: u32) -> Image {
    let mut data = Vec::new();
    for y in 0..height {
        for x in 0..width {
            data.extend_from_slice(&[x as u8, y as u8, 7, 255]);
        }
    }
    Image::new(width, height, data).unwrap()
}

#[test]
fn low_texture_is_spread_over_the_whole_strip() {
    // two rows of texture over four rows of screen: each shows twice
    let mut tm = TextureManager::new();
    tm.insert_image('+', picture(128, 2));
    let mut fb = Framebuffer::new(1, 6, SKY);
    draw_strip(&mut fb, &tm, 0, 1, 5, '+', 9);
    let greens: Vec<u8> = (0..6).map(|y| fb.get_color(0, y).g).collect();
    assert_eq!(greens, vec![SKY.g, 0, 0, 1, 1, SKY.g]);
    assert_eq!(fb.get_color(0, 2), Color::new(9, 0, 7, 255));
}

#[test]
fn high_texture_is_spread_over_the_whole_strip() {
    let mut tm = TextureManager::new();
    tm.insert_image('+', picture(128, 200));
    let mut fb = Framebuffer::new(1, 4, SKY);
    draw_strip(&mut fb, &tm, 0, 0, 4, '+', 0);
    let greens: Vec<u8> = (0..4).map(|y| fb.get_color(0, y).g).collect();
    assert_eq!(greens, vec![0, 50, 100, 150]);
}

#[test]
fn texture_of_another_width_covers_the_side_of_a_cell() {
    let mut tm = TextureManager::new();
    tm.insert_image('n', picture(64, 4));
    tm.insert_image('w', picture(255, 4));
    tm.insert_image('e', Image::new(0, 0, Vec::new()).unwrap());
    for (tx, narrow, wide) in [(0u32, 0u8, 0u8), (1, 0, 1), (64, 32, 127), (127, 63, 253)] {
        let mut fb = Framebuffer::new(3, 1, SKY);
        draw_strip(&mut fb, &tm, 0, 0, 1, 'n', tx);
        draw_strip(&mut fb, &tm, 1, 0, 1, 'w', tx);
        draw_strip(&mut fb, &tm, 2, 0, 1, 'e', tx);
        assert_eq!(fb.get_color(0, 0).r, narrow);
        assert_eq!(fb.get_color(1, 0).r, wide);
        // an image without texels answers every request in magenta
        assert_eq!(fb.get_color(2, 0), Color::magenta());
    }
    assert_eq!(tm.get_texture_size('n'), (64, 4));
    assert_eq!(tm.get_texture_size('?'), (128, 128));
    // a column beyond any that a ray reports is answered from the edge
    let mut fb = Framebuffer::new(1, 1, SKY);
    draw_strip(&mut fb, &tm, 0, 0, 1, 'w', u32::MAX);
    assert_eq!(fb.get_color(0, 0).r, 254);
}

#[test]
fn render_spreads_a_small_texture_over_the_wall() {
    let trig = table(TURN);
    let maze = room(5);
    let mut tm = TextureManager::new();
    tm.insert_image('+', picture(64, 2));
    let player = Player { pos: Point { x: 2 * BLOCK, y: 2 * BLOCK + BLOCK / 2 }, a: 0, fov: 600 };
    let mut fb = Framebuffer::new(100, 80, SKY);
    render_3D(&mut fb, &maze, BLOCK, &player, &tm, &trig, &dark());
    let (top, bottom) = strip_bounds(80, 160 * UNIT);
    for y in top..bottom {
        // hit half way along the cell: column 32 of 64; rows 0 and 1 each
        // over half of the strip
        let row = (y - top) * 2 / (bottom - top);
        assert_eq!(fb.get_color(50, y), Color::new(32, row as u8, 7, 255));
    }
    assert_eq!(fb.get_color(50, top).g, 0);
    assert_eq!(fb.get_color(50, bottom - 1).g, 1);
}

#[test]
fn both_edges_of_a_strip_can_move_between_neighbouring_depths() {
    // some 3333 units away half of the strip is just under three rows
    // high; one unit of fixed point nearer it is just over three
    assert_eq!(strip_bounds(400, 218_453_334), (197, 202));
    assert_eq!(strip_bounds(400, 218_453_333), (196, 203));
}

#[test]
fn strip_edges_move_by_a_row_at_most() {
    for d in (70_000u64..40_000_000).step_by(7919) {
        let (top, bottom) = strip_bounds(400, d);
        let (near_top, near_bottom) = strip_bounds(400, d - 1);
        assert!(near_top <= top && top <= near_top + 1);
        assert!(bottom <= near_bottom && near_bottom <= bottom + 1);
    }
}
