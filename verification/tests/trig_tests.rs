use raycaster::arith::{isqrt, wrap};
use raycaster::player::Point;
use raycaster::trig::{TrigTable, MAX_TURN, ONE};

fn table(turn: usize) -> TrigTable {
    let mut cos = Vec::new();
    let mut sin = Vec::new();
    for a in 0..turn {
        let rad = (a as f64) * std::f64::consts::TAU / (turn as f64);
        cos.push((rad.cos() * ONE as f64).round() as i32);
        sin.push((rad.sin() * ONE as f64).round() as i32);
    }
    TrigTable::new(cos, sin).unwrap()
}

#[test]
fn table_answers_cosine_and_sine() {
    let t = table(360);
    assert_eq!(t.len(), 360);
    assert_eq!((t.cos(0), t.sin(0)), (ONE, 0));
    assert_eq!((t.cos(90), t.sin(90)), (0, ONE));
    assert_eq!((t.cos(180), t.sin(180)), (-ONE, 0));
    assert_eq!((t.cos(270), t.sin(270)), (0, -ONE));
    assert_eq!(t.cos(60), ONE / 2);
    assert_eq!(t.sin(30), ONE / 2);
}

#[test]
fn angles_wrap_around() {
    let t = table(360);
    assert_eq!(t.cos(360 + 60), t.cos(60));
    assert_eq!(t.sin(7 * 360 + 30), t.sin(30));
    assert_eq!(t.wrap_angle(-1), 359);
    assert_eq!(t.wrap_angle(-360), 0);
    assert_eq!(t.wrap_angle(-361), 359);
    assert_eq!(t.wrap_angle(725), 5);
    assert_eq!(t.wrap_angle(i64::MIN), ((i64::MIN as i128).rem_euclid(360)) as u32);
    assert_eq!(t.wrap_angle(i64::MAX), (i64::MAX % 360) as u32);
}

#[test]
fn wrap_is_the_remainder_that_is_not_negative() {
    assert_eq!(wrap(7, 5), 2);
    assert_eq!(wrap(-7, 5), 3);
    assert_eq!(wrap(-5, 5), 0);
    assert_eq!(wrap(0, 1), 0);
    assert_eq!(wrap(-1, u32::MAX), u32::MAX - 1);
    for a in -50i64..50 {
        for n in 1u32..9 {
            assert_eq!(wrap(a, n) as i64, a.rem_euclid(n as i64));
        }
    }
}

#[test]
fn bad_tables_are_refused() {
    assert!(TrigTable::new(vec![], vec![]).is_none());
    assert!(TrigTable::new(vec![ONE], vec![]).is_none());
    assert!(TrigTable::new(vec![ONE, 0], vec![0]).is_none());
    assert!(TrigTable::new(vec![ONE + 1], vec![0]).is_none());
    assert!(TrigTable::new(vec![0], vec![-ONE - 1]).is_none());
    assert!(TrigTable::new(vec![ONE, 0], vec![0, 0]).is_none());
    assert!(TrigTable::new(vec![ONE, -ONE], vec![0, 0]).is_some());
    assert!(TrigTable::new(vec![0], vec![1]).is_some());
    assert_eq!(MAX_TURN, 1 << 30);
}

#[test]
fn bearing_is_the_angle_of_the_offset() {
    let t = table(360);
    let o = Point { x: 1000, y: 1000 };
    assert_eq!(t.bearing(o, Point { x: 1500, y: 1000 }), 0);
    assert_eq!(t.bearing(o, Point { x: 1500, y: 1500 }), 45);
    assert_eq!(t.bearing(o, Point { x: 1000, y: 1001 }), 90);
    assert_eq!(t.bearing(o, Point { x: 0, y: 2000 }), 135);
    assert_eq!(t.bearing(o, Point { x: 0, y: 1000 }), 180);
    assert_eq!(t.bearing(o, Point { x: 900, y: 900 }), 225);
    assert_eq!(t.bearing(o, Point { x: 1000, y: 0 }), 270);
    assert_eq!(t.bearing(o, Point { x: 1001, y: 999 }), 315);
    // a point is seen from itself under angle zero
    assert_eq!(t.bearing(o, o), 0);
}

#[test]
fn bearing_agrees_with_the_arc_tangent() {
    let t = table(3600);
    let o = Point { x: 5000, y: 5000 };
    let mut seed: u64 = 12345;
    for _ in 0..300 {
        seed = seed.wrapping_mul(6364136223846793005).wrapping_add(1442695040888963407);
        let x = (seed >> 33) as u32 % 10_000;
        seed = seed.wrapping_mul(6364136223846793005).wrapping_add(1442695040888963407);
        let y = (seed >> 33) as u32 % 10_000;
        if (x as i64 - 5000).abs() + (y as i64 - 5000).abs() < 50 {
            continue;
        }
        let got = t.bearing(o, Point { x, y }) as f64;
        let rad = (y as f64 - 5000.0).atan2(x as f64 - 5000.0);
        let want = (rad / std::f64::consts::TAU * 3600.0).rem_euclid(3600.0);
        let off = (got - want).abs();
        assert!(off <= 1.0 || off >= 3599.0, "{} {}: {} vs {}", x, y, got, want);
    }
}

#[test]
fn bearing_spans_the_whole_range_of_positions() {
    let t = table(8);
    assert_eq!(t.bearing(Point { x: 0, y: 0 }, Point { x: u32::MAX, y: u32::MAX }), 1);
    assert_eq!(t.bearing(Point { x: u32::MAX, y: u32::MAX }, Point { x: 0, y: 0 }), 5);
    assert_eq!(t.bearing(Point { x: u32::MAX, y: 0 }, Point { x: 0, y: u32::MAX }), 3);
}

#[test]
fn integer_square_roots() {
    assert_eq!(isqrt(0), 0);
    assert_eq!(isqrt(1), 1);
    assert_eq!(isqrt(3), 1);
    assert_eq!(isqrt(4), 2);
    assert_eq!(isqrt(99), 9);
    assert_eq!(isqrt(100), 10);
    assert_eq!(isqrt(u64::MAX as u128), u32::MAX as u64);
    assert_eq!(isqrt(1u128 << 64), 1u64 << 32);
    assert_eq!(isqrt(u128::MAX), u64::MAX);
    for n in 0..2000u128 {
        let r = isqrt(n) as u128;
        assert!(r * r <= n && n < (r + 1) * (r + 1));
    }
}
