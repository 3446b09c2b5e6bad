use raycaster::caster::{cast_along, cast_ray, Ray, TEXTURE_SIZE};
use raycaster::maze::Maze;
use raycaster::player::{Player, Point};
use raycaster::trig::{TrigTable, ONE};

const TURN: usize = 3600;
const BLOCK: u32 = 80;
const UNIT: u64 = ONE as u64;

fn table(turn: usize) -> TrigTable {
    let mut cos = Vec::new();
    let mut sin = Vec::new();
    for a in 0..turn {
        let rad = (a as f64) * std::f64::consts::TAU / (turn as f64);
        cos.push((rad.cos() * ONE as f64).round() as i32);
        sin.push((rad.sin() * ONE as f64).round() as i32);
    }
    TrigTable::new(cos, sin).unwrap()
}

fn room(side: usize) -> Maze {
    let mut rows = Vec::new();
    for r in 0..side {
        let mut row = Vec::new();
        for c in 0..side {
            let edge = r == 0 || c == 0 || r == side - 1 || c == side - 1;
            row.push(if edge { '+' } else { ' ' });
        }
        rows.push(row);
    }
    Maze::new(rows).unwrap()
}

fn ray(x: u32, y: u32, dx: i32, dy: i32) -> Ray {
    Ray { x, y, dx, dy, block_size: BLOCK }
}

#[test]
fn ray_along_x_axis_hits_east_wall() {
    let maze = room(5);
    let hit = cast_along(&maze, ray(200, 200, ONE, 0));
    assert_eq!(hit.distance, 120 * UNIT);
    assert_eq!(hit.impact, '+');
    assert!(!hit.side);
    // the hit point is half way down its cell
    assert_eq!(hit.tx, 64);
}

#[test]
fn ray_against_x_axis_hits_west_wall() {
    let maze = room(5);
    let hit = cast_along(&maze, ray(200, 200, -ONE, 0));
    assert_eq!(hit.distance, 120 * UNIT);
    assert_eq!(hit.impact, '+');
    assert!(!hit.side);
}

#[test]
fn ray_along_y_axis_hits_south_wall() {
    let maze = room(5);
    let hit = cast_along(&maze, ray(200, 210, 0, ONE));
    assert_eq!(hit.distance, 110 * UNIT);
    assert_eq!(hit.impact, '+');
    assert!(hit.side);
    assert_eq!(hit.tx, 64);
}

#[test]
fn ray_against_y_axis_hits_north_wall() {
    let maze = room(5);
    let hit = cast_along(&maze, ray(200, 210, 0, -ONE));
    assert_eq!(hit.distance, 130 * UNIT);
    assert!(hit.side);
}

#[test]
fn axis_aligned_rays_end_in_every_room() {
    for side in 3..12usize {
        let maze = room(side);
        let mid = (side as u32) * BLOCK / 2;
        for (dx, dy) in [(ONE, 0), (-ONE, 0), (0, ONE), (0, -ONE)] {
            let hit = cast_along(&maze, ray(mid, mid, dx, dy));
            assert_eq!(hit.impact, '+');
            assert!(hit.distance <= (side as u64) * (BLOCK as u64) * UNIT);
            assert_eq!(hit.distance, ((side as u64) * (BLOCK as u64) / 2 - BLOCK as u64) * UNIT);
        }
    }
}

#[test]
fn only_the_ratio_of_the_direction_decides_the_cell() {
    let maze = room(7);
    let a = cast_along(&maze, ray(250, 270, 3, 2));
    let b = cast_along(&maze, ray(250, 270, 3000, 2000));
    assert_eq!(a.impact, b.impact);
    assert_eq!(a.side, b.side);
    assert_eq!(a.tx, b.tx);
}

#[test]
fn diagonal_ray_reports_exact_distance() {
    // from (200, 200) with direction (3, 4) scaled: the east wall at x = 320
    // is 120 away on x, the south wall at y = 320 is 120 away on y; y is
    // covered faster, so the south wall is hit, after 120 / 4 direction
    // steps of length ONE / 5 each on y.
    let maze = room(5);
    let dx = 3 * ONE / 5;
    let dy = 4 * ONE / 5;
    let hit = cast_along(&maze, ray(200, 200, dx, dy));
    assert!(hit.side);
    let expect = 120u64 * UNIT * UNIT / (dy as u64);
    assert_eq!(hit.distance, expect);
    // 150 world units, but for the rounding of the direction
    assert_eq!(hit.distance / UNIT, 150);
    // the hit point lies at x = 200 + 120 * 3 / 4 = 290, 50 into its cell
    assert_eq!(hit.tx, (50 * TEXTURE_SIZE / BLOCK) as usize);
}

#[test]
fn tie_between_both_lines_crosses_the_horizontal_one_first() {
    // heading exactly for the corner shared by four cells
    let rows = vec![
        vec![' ', ' ', ' '],
        vec![' ', ' ', 'a'],
        vec![' ', 'b', 'c'],
    ];
    let maze = Maze::new(rows).unwrap();
    let hit = cast_along(&maze, ray(120, 120, 1, 1));
    assert_eq!(hit.impact, 'b');
    assert!(hit.side);
}

#[test]
fn origin_inside_a_wall_is_not_tested() {
    let rows = vec![vec!['x', ' ', 'y']];
    let maze = Maze::new(rows).unwrap();
    let hit = cast_along(&maze, ray(40, 40, ONE, 0));
    assert_eq!(hit.impact, 'y');
    assert_eq!(hit.distance, 120 * UNIT);
}

#[test]
fn leaving_the_grid_hits_the_boundary() {
    let rows = vec![vec![' ', ' '], vec![' ', ' ']];
    let maze = Maze::new(rows).unwrap();
    let hit = cast_along(&maze, ray(40, 40, ONE, 0));
    assert_eq!(hit.impact, '#');
    assert_eq!(hit.distance, 120 * UNIT);
    let out = cast_along(&maze, ray(4000, 4000, ONE, 0));
    assert_eq!(out.impact, '#');
}

#[test]
fn empty_maze_stops_every_ray_at_once() {
    let maze = Maze::new(Vec::new()).unwrap();
    let hit = cast_along(&maze, ray(10, 10, 0, ONE));
    assert_eq!(hit.impact, '#');
    assert_eq!(hit.distance, 70 * UNIT);
}

#[test]
fn distance_is_cut_off_at_the_largest_value() {
    let maze = Maze::new(vec![vec![' '; 70_000]]).unwrap();
    let farthest = cast_along(&maze, Ray { x: 5, y: 7, dx: 1, dy: 0, block_size: 0xffff_ffff });
    assert_eq!(farthest.impact, '#');
    assert_eq!(farthest.distance, u64::MAX);
    let near = cast_along(&maze, Ray { x: 5, y: 7, dx: 1, dy: 0, block_size: 50 });
    assert_eq!(near.distance, (70_000u64 * 50 - 5) * UNIT * UNIT);
    let far = cast_along(&maze, Ray { x: 5, y: 7, dx: 1, dy: 0, block_size: 100_000 });
    assert_eq!(far.distance, u64::MAX);
}

#[test]
fn cast_ray_in_square_room_matches_analytic_distance() {
    let trig = table(TURN);
    let side = 9usize;
    let maze = room(side);
    let centre = (side as u32) * BLOCK / 2;
    let player = Player { pos: Point { x: centre, y: centre }, a: 0, fov: (TURN / 6) as u32 };
    let half = ((side as f64) / 2.0 - 1.0) * BLOCK as f64;
    for a in 0..TURN as u32 {
        let hit = cast_ray(&maze, &player, BLOCK, &trig, a);
        let c = trig.cos(a) as f64 / ONE as f64;
        let s = trig.sin(a) as f64 / ONE as f64;
        let expect = half / c.abs().max(s.abs());
        let got = hit.distance as f64 / ONE as f64;
        assert!((got - expect).abs() <= 1e-3 * BLOCK as f64, "angle {}: {} vs {}", a, got, expect);
        assert_eq!(hit.impact, '+');
    }
}

#[test]
fn cast_ray_wraps_the_angle() {
    let trig = table(TURN);
    let maze = room(5);
    let player = Player { pos: Point { x: 170, y: 230 }, a: 0, fov: 600 };
    let once = cast_ray(&maze, &player, BLOCK, &trig, 100);
    let again = cast_ray(&maze, &player, BLOCK, &trig, 100 + TURN as u32);
    assert_eq!(once.distance, again.distance);
    assert_eq!(once.tx, again.tx);
    assert_eq!(once.side, again.side);
}

#[test]
fn centre_ray_from_cell_two_two_hits_east_border_two_blocks_away() {
    let trig = table(TURN);
    let maze = room(5);
    let player = Player { pos: Point { x: 2 * BLOCK, y: 2 * BLOCK + BLOCK / 2 }, a: 0, fov: (TURN / 6) as u32 };
    let hit = cast_ray(&maze, &player, BLOCK, &trig, 0);
    assert_eq!(hit.distance, 2 * BLOCK as u64 * UNIT);
    assert_eq!(hit.impact, '+');
    assert!(!hit.side);
}

// The walk in floating point: side distances are advanced cell by cell.
fn float_cast(rows: &Vec<Vec<char>>, x: u32, y: u32, block: u32, dx: f64, dy: f64) -> (f64, char, bool) {
    let px = x as f64 / block as f64;
    let py = y as f64 / block as f64;
    let mut map_x = (x / block) as i64;
    let mut map_y = (y / block) as i64;
    let delta_x = if dx == 0.0 { 1e30 } else { (1.0 / dx).abs() };
    let delta_y = if dy == 0.0 { 1e30 } else { (1.0 / dy).abs() };
    let (mut side_x, step_x) = if dx < 0.0 {
        ((px - map_x as f64) * delta_x, -1)
    } else {
        ((map_x as f64 + 1.0 - px) * delta_x, 1)
    };
    let (mut side_y, step_y) = if dy < 0.0 {
        ((py - map_y as f64) * delta_y, -1)
    } else {
        ((map_y as f64 + 1.0 - py) * delta_y, 1)
    };
    loop {
        let side;
        if side_x < side_y {
            side_x += delta_x;
            map_x += step_x;
            side = false;
        } else {
            side_y += delta_y;
            map_y += step_y;
            side = true;
        }
        let inside = map_y >= 0 && (map_y as usize) < rows.len() && map_x >= 0 && (map_x as usize) < rows[0].len();
        let cell = if inside { rows[map_y as usize][map_x as usize] } else { '#' };
        if cell != ' ' {
            let perp = if !side {
                (map_x as f64 - px + (1.0 - step_x as f64) / 2.0) / dx
            } else {
                (map_y as f64 - py + (1.0 - step_y as f64) / 2.0) / dy
            };
            return (perp * block as f64, cell, side);
        }
    }
}

#[test]
fn walk_agrees_with_floating_point_in_random_mazes() {
    let trig = table(TURN);
    let mut seed: u64 = 99;
    let mut next = move |n: u64| {
        seed = seed.wrapping_mul(6364136223846793005).wrapping_add(1442695040888963407);
        (seed >> 33) % n
    };
    let mut compared = 0;
    for _ in 0..40 {
        let side = 4 + next(12) as usize;
        let mut rows = Vec::new();
        for _ in 0..side {
            let mut row = Vec::new();
            for _ in 0..side {
                row.push(if next(4) == 0 { ['+', '-', '|'][next(3) as usize] } else { ' ' });
            }
            rows.push(row);
        }
        let maze = Maze::new(rows.clone()).unwrap();
        for _ in 0..200 {
            let block = 1 + next(100) as u32;
            let x = next(side as u64 * block as u64) as u32;
            let y = next(side as u64 * block as u64) as u32;
            let a = next(TURN as u64) as u32;
            let player = Player { pos: Point { x, y }, a: 0, fov: 600 };
            let hit = cast_ray(&maze, &player, block, &trig, a);
            let dx = trig.cos(a) as f64 / ONE as f64;
            let dy = trig.sin(a) as f64 / ONE as f64;
            let (distance, cell, side_hit) = float_cast(&rows, x, y, block, dx, dy);
            let got = hit.distance as f64 / ONE as f64;
            if (got - distance).abs() > 1e-3 {
                // a ray through the corner of a cell: rounding decides in
                // floating point which of two walls is met
                assert!(hit.impact != cell || hit.side != side_hit, "{} {} {} {}: {} vs {}", x, y, block, a, got, distance);
                continue;
            }
            if hit.side == side_hit {
                assert_eq!(hit.impact, cell);
            }
            compared += 1;
        }
    }
    assert!(compared > 7900, "{}", compared);
}

#[test]
fn finer_unit_gives_a_fractional_origin() {
    // cells one unit wide and an origin at (2.5, 2.25): in quarters of a
    // unit the cells are 4 wide and the origin is (10, 9)
    let maze = room(5);
    let east = cast_along(&maze, Ray { x: 10, y: 9, dx: ONE, dy: 0, block_size: 4 });
    // the wall begins at x = 4: 1.5 units, or 6 quarters, away
    assert_eq!(east.distance, 6 * UNIT);
    assert_eq!(east.tx, 32);
    let north = cast_along(&maze, Ray { x: 10, y: 9, dx: 0, dy: -ONE, block_size: 4 });
    // the wall ends at y = 1: 1.25 units, or 5 quarters, away
    assert_eq!(north.distance, 5 * UNIT);
    assert_eq!(north.tx, 64);
}
