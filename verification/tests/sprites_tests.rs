use raycaster::audio::{proximity_command, AudioSystem, MusicSwitch, SoundCommand, MUSIC_VOLUME, PROXIMITY_RADIUS};
use raycaster::player::Point;
use raycaster::sprites::{Sprite, SpriteType, FRAME_DELAY};
use raycaster::state::GameState;
use raycaster::trig::ONE;

#[test]
fn new_sprite_starts_at_its_first_frame() {
    let s = Sprite::new(500, 100, 'C', 4, SpriteType::creature);
    assert_eq!(s.pos, Point { x: 500, y: 100 });
    assert_eq!(s.texture_key, 'C');
    assert_eq!(s.current_frame, 0);
    assert_eq!(s.frame_count, 4);
    assert_eq!(s.frame_delay, 200_000);
    assert_eq!(s.frame_time, 0);
    assert!(s.is_alive);
    assert_eq!(s.sprite_type, SpriteType::creature);
    assert_eq!(s.sound_key, "creature_whisper");
    let p = Sprite::new(850, 875, 'P', 1, SpriteType::prize);
    assert_eq!(p.sound_key, "shimmering");
    assert_eq!(p.sprite_type, SpriteType::prize);
}

#[test]
fn animation_advances_one_frame_when_the_delay_has_passed() {
    // five steps of 0.05 s against a delay of 0.2 s: the fourth step
    // reaches the delay, the fifth exceeds it; the frame advances once,
    // and the timer starts anew
    let mut s = Sprite::new(0, 0, 'C', 4, SpriteType::creature);
    assert_eq!(FRAME_DELAY, 200_000);
    let mut frames = Vec::new();
    for _ in 0..5 {
        s.update(50_000);
        frames.push((s.current_frame, s.frame_time));
    }
    assert_eq!(frames, vec![(0, 50_000), (0, 100_000), (0, 150_000), (0, 200_000), (1, 0)]);
}

#[test]
fn frame_shown_for_exactly_the_delay_stays() {
    let mut s = Sprite::new(0, 0, 'C', 4, SpriteType::creature);
    s.update(200_000);
    assert_eq!((s.current_frame, s.frame_time), (0, 200_000));
    s.update(1);
    assert_eq!((s.current_frame, s.frame_time), (1, 0));
}

#[test]
fn animation_cycles_through_its_frames() {
    let mut s = Sprite::new(0, 0, 'C', 4, SpriteType::creature);
    let mut seen = Vec::new();
    for _ in 0..9 {
        s.update(200_001);
        seen.push(s.current_frame);
    }
    assert_eq!(seen, vec![1, 2, 3, 0, 1, 2, 3, 0, 1]);
}

#[test]
fn long_step_advances_one_frame_only() {
    let mut s = Sprite::new(0, 0, 'C', 4, SpriteType::creature);
    s.update(1_000_000);
    assert_eq!((s.current_frame, s.frame_time), (1, 0));
    s.frame_time = 199_999;
    s.update(u64::MAX);
    assert_eq!((s.current_frame, s.frame_time), (2, 0));
    s.update(199_999);
    assert_eq!((s.current_frame, s.frame_time), (2, 199_999));
    s.update(1);
    assert_eq!((s.current_frame, s.frame_time), (2, 200_000));
    s.update(1);
    assert_eq!((s.current_frame, s.frame_time), (3, 0));
}

#[test]
fn dead_sprite_does_not_animate() {
    let mut s = Sprite::new(0, 0, 'C', 4, SpriteType::creature);
    s.update(50_000);
    s.is_alive = false;
    s.update(500_000);
    assert_eq!((s.current_frame, s.frame_time), (0, 50_000));
    // not even one without frames
    let mut none = Sprite::new(0, 0, 'C', 0, SpriteType::creature);
    none.is_alive = false;
    none.update(500_000);
    assert_eq!((none.current_frame, none.frame_time, none.frame_count), (0, 0, 0));
}

#[test]
fn frame_beyond_the_count_comes_back_into_the_cycle() {
    let mut s = Sprite::new(0, 0, 'C', 4, SpriteType::creature);
    s.current_frame = 9;
    s.update(300_000);
    assert_eq!(s.current_frame, 2);
    s.current_frame = usize::MAX;
    s.update(300_000);
    assert_eq!(s.current_frame as u128, (usize::MAX as u128 + 1) % 4);
}

#[test]
fn single_frame_stays() {
    let mut s = Sprite::new(0, 0, 'P', 1, SpriteType::prize);
    s.update(300_000);
    assert_eq!((s.current_frame, s.frame_time), (0, 0));
}

#[test]
fn frame_rectangle_lies_side_by_side() {
    let mut s = Sprite::new(0, 0, 'C', 4, SpriteType::creature);
    assert_eq!(s.get_frame_coords(512), (0, 0, 128, 128));
    s.current_frame = 3;
    assert_eq!(s.get_frame_coords(512), (384, 0, 128, 128));
    assert_eq!(s.get_frame_coords(514), (384, 0, 128, 128));
    assert_eq!(s.get_frame_coords(3), (0, 0, 0, 128));
    assert_eq!(s.get_frame_coords(u32::MAX), (3 * (u32::MAX / 4), 0, u32::MAX / 4, 128));
}

#[test]
fn near_sprites_are_heard() {
    let me = Point { x: 1000, y: 1000 };
    assert_eq!(PROXIMITY_RADIUS, 200);
    assert_eq!(proximity_command(me, me), SoundCommand::Play { volume: 2 * ONE as u32 });
    // half of the radius away: 2 - 0.25
    assert_eq!(proximity_command(me, Point { x: 1100, y: 1000 }), SoundCommand::Play { volume: 7 * ONE as u32 / 4 });
    assert_eq!(proximity_command(me, Point { x: 1000, y: 900 }), SoundCommand::Play { volume: 7 * ONE as u32 / 4 });
    // 120 and 160 away on the axes: exactly the radius
    assert_eq!(proximity_command(me, Point { x: 1120, y: 1160 }), SoundCommand::Stop);
    assert_eq!(proximity_command(me, Point { x: 1119, y: 1160 }), SoundCommand::Play { volume: 2 * 65536 - (39_761u32 * 65536 / 40_000) });
    assert_eq!(proximity_command(me, Point { x: 0, y: u32::MAX }), SoundCommand::Stop);
}

#[test]
fn every_sprite_gets_a_command() {
    let system = AudioSystem::new();
    let sprites = vec![
        Sprite::new(500, 100, 'C', 4, SpriteType::creature),
        Sprite::new(850, 875, 'P', 1, SpriteType::prize),
        Sprite::new(160, 150, 'P', 1, SpriteType::prize),
    ];
    let commands = system.play_proximity_sounds(Point { x: 150, y: 150 }, &sprites);
    assert_eq!(commands.len(), 3);
    assert_eq!(commands[0], SoundCommand::Stop);
    assert_eq!(commands[1], SoundCommand::Stop);
    assert_eq!(commands[2], SoundCommand::Play { volume: 2 * 65536 - 100 * 65536 / 40_000 });
    assert!(system.play_proximity_sounds(Point { x: 0, y: 0 }, &Vec::new()).is_empty());
}

#[test]
fn music_follows_the_zone() {
    let mut system = AudioSystem::new();
    assert!(system.background_playing);
    assert_eq!(system.update_zone_music(false), MusicSwitch::Keep);
    assert!(system.background_playing);
    assert_eq!(system.update_zone_music(true), MusicSwitch::ToZone);
    assert!(!system.background_playing);
    assert_eq!(system.update_zone_music(true), MusicSwitch::Keep);
    assert!(!system.background_playing);
    assert_eq!(system.update_zone_music(false), MusicSwitch::ToBackground);
    assert!(system.background_playing);
    assert_eq!(MUSIC_VOLUME, ONE as u32 / 2);
}

#[test]
fn flashlight_is_on_in_the_zone() {
    let mut state = GameState { flashlight_active: false, activation_min_x: 327, activation_min_y: 160, in_special_zone: false };
    state.update(Point { x: 150, y: 150 });
    assert!(!state.in_special_zone && !state.flashlight_active);
    state.update(Point { x: 327, y: 160 });
    assert!(state.in_special_zone && state.flashlight_active);
    state.update(Point { x: 326, y: 900 });
    assert!(!state.in_special_zone && !state.flashlight_active);
    state.update(Point { x: 900, y: 159 });
    assert!(!state.in_special_zone && !state.flashlight_active);
    assert_eq!((state.activation_min_x, state.activation_min_y), (327, 160));
}
