use raycaster::color::Color;
use raycaster::framebuffer::{Framebuffer, Letterbox, FAR};

const BG: Color = Color { r: 1, g: 2, b: 3, a: 255 };

#[test]
fn new_framebuffer_is_filled_with_background() {
    let fb = Framebuffer::new(4, 3, BG);
    assert_eq!(fb.width(), 4);
    assert_eq!(fb.height(), 3);
    for y in 0..3 {
        for x in 0..4 {
            assert_eq!(fb.get_color(x, y), BG);
        }
    }
    for x in 0..4 {
        assert_eq!(fb.depth(x), FAR);
    }
}

#[test]
fn set_pixel_draws_in_the_current_color() {
    let mut fb = Framebuffer::new(4, 3, BG);
    fb.set_pixel(1, 2);
    assert_eq!(fb.get_color(1, 2), Color::white());
    let red = Color::new(255, 0, 0, 255);
    fb.set_current_color(red);
    fb.set_pixel(3, 0);
    assert_eq!(fb.get_color(3, 0), red);
    assert_eq!(fb.get_color(1, 2), Color::white());
    assert_eq!(fb.get_color(0, 0), BG);
    // row-major: (3, 0) is not (0, 1)
    assert_eq!(fb.get_color(0, 1), BG);
}

#[test]
fn pixels_outside_of_the_buffer_are_ignored() {
    let mut fb = Framebuffer::new(4, 3, BG);
    fb.set_pixel(4, 0);
    fb.set_pixel(0, 3);
    fb.set_pixel(u32::MAX, u32::MAX);
    fb.set_pixel_color(7, 1, Color::black());
    for y in 0..3 {
        for x in 0..4 {
            assert_eq!(fb.get_color(x, y), BG);
        }
    }
    assert_eq!(fb.get_color(4, 0), Color::black());
    assert_eq!(fb.get_color(0, 3), Color::black());
}

#[test]
fn clear_fills_with_the_background_and_keeps_depths() {
    let mut fb = Framebuffer::new(3, 2, BG);
    fb.set_pixel(1, 1);
    fb.set_depth(2, 77);
    let green = Color::new(0, 255, 0, 255);
    fb.set_background_color(green);
    assert_eq!(fb.get_color(0, 0), BG);
    fb.clear();
    for y in 0..2 {
        for x in 0..3 {
            assert_eq!(fb.get_color(x, y), green);
        }
    }
    assert_eq!(fb.depth(2), 77);
    assert_eq!(fb.depth(1), FAR);
}

#[test]
fn depths_are_kept_by_column() {
    let mut fb = Framebuffer::new(3, 2, BG);
    fb.set_depth(0, 5);
    fb.set_depth(2, 9);
    fb.set_depth(3, 1);
    assert_eq!(fb.depth(0), 5);
    assert_eq!(fb.depth(1), FAR);
    assert_eq!(fb.depth(2), 9);
    assert_eq!(fb.depth(3), FAR);
}

#[test]
fn horizon_divides_sky_and_floor() {
    let sky = Color::new(126, 104, 166, 255);
    let floor = Color::new(45, 38, 59, 255);
    let mut fb = Framebuffer::new(3, 5, BG);
    fb.fill_horizon(sky, floor);
    for y in 0..5 {
        for x in 0..3 {
            assert_eq!(fb.get_color(x, y), if y < 2 { sky } else { floor });
        }
    }
}

#[test]
fn empty_framebuffer_holds_no_pixel() {
    let mut fb = Framebuffer::new(0, 0, BG);
    fb.set_pixel(0, 0);
    fb.clear();
    fb.fill_horizon(BG, BG);
    assert_eq!(fb.get_color(0, 0), Color::black());
    assert_eq!(fb.depth(0), FAR);
}

#[test]
fn colors_fade_by_a_fraction() {
    let c = Color::new(200, 100, 51, 7);
    assert_eq!(c.faded(1, 2), Color::new(100, 50, 25, 255));
    assert_eq!(c.faded(0, 9), Color::new(0, 0, 0, 255));
    assert_eq!(c.faded(9, 9), Color::new(200, 100, 51, 255));
    assert_eq!(c.faded(u64::MAX, u64::MAX), Color::new(200, 100, 51, 255));
    assert!(c.is_visible());
    assert!(!Color::new(9, 9, 9, 0).is_visible());
    assert_eq!(Color::magenta(), Color::new(255, 0, 255, 255));
    assert_eq!(Color::violet(), Color::new(135, 60, 190, 255));
}

#[test]
fn picture_is_shown_as_large_as_it_fits() {
    let fb = Framebuffer::new(500, 400, BG);
    // same proportions: the whole window
    assert_eq!(fb.letterbox(1000, 800), Some(Letterbox { x: 0, y: 0, width: 1000, height: 800 }));
    // a wider window: bars to the left and to the right
    assert_eq!(fb.letterbox(1200, 800), Some(Letterbox { x: 100, y: 0, width: 1000, height: 800 }));
    // a higher window: bars above and below
    assert_eq!(fb.letterbox(1000, 1000), Some(Letterbox { x: 0, y: 100, width: 1000, height: 800 }));
    // rounded down
    assert_eq!(fb.letterbox(7, 100), Some(Letterbox { x: 0, y: 47, width: 7, height: 5 }));
    assert_eq!(fb.letterbox(0, 0), Some(Letterbox { x: 0, y: 0, width: 0, height: 0 }));
    assert_eq!(fb.letterbox(u32::MAX, u32::MAX), Some(Letterbox { x: 0, y: 429496729, width: u32::MAX, height: 3435973836 }));
    assert_eq!(Framebuffer::new(0, 400, BG).letterbox(1000, 800), None);
    assert_eq!(Framebuffer::new(500, 0, BG).letterbox(1000, 800), None);
}

#[test]
fn drawing_colors_can_be_read_back() {
    let mut fb = Framebuffer::new(2, 2, BG);
    assert_eq!(fb.background_color(), BG);
    assert_eq!(fb.current_color(), Color::white());
    fb.set_current_color(Color::violet());
    fb.set_background_color(Color::magenta());
    assert_eq!(fb.background_color(), Color::magenta());
    assert_eq!(fb.current_color(), Color::violet());
}
