use flappy_core::anim::{ClipId, Spritesheet};
use flappy_core::geom::Rect;
use flappy_core::SimError;

fn player_sheet() -> Spritesheet {
    // One frame is 32 by 25 pixels, frames sit 35 pixels apart.
    let mut s = Spritesheet::new(3_200, 2_500, 3_500);
    s.add_animation(ClipId::Idle, 14_500, 14_500, 0, 0);
    s.add_animation_looping(ClipId::Flap, 500, 14_400, 3, false, 1);
    s
}

#[test]
fn flap_clip_advances_and_wraps_to_a_stop() {
    let mut s = Spritesheet::new(3_200, 2_500, 3_500);
    s.add_animation_looping(ClipId::Flap, 500, 14_400, 3, false, 1);
    assert!(s.start_animation(ClipId::Flap).is_ok());
    assert_eq!(s.clips[0].current_frame_index, 0);
    assert!(s.clips[0].is_playing);

    s.tick();
    assert_eq!(s.clips[0].current_frame_index, 1);
    assert!(s.clips[0].is_playing);
    s.tick();
    assert_eq!(s.clips[0].current_frame_index, 2);
    assert!(s.clips[0].is_playing);
    s.tick();
    assert_eq!(s.clips[0].current_frame_index, 3);
    assert!(s.clips[0].is_playing);
    // The wrap: the cursor reached the frame count, so it returns to zero
    // and the non-looping clip stops.
    s.tick();
    assert_eq!(s.clips[0].current_frame_index, 0);
    assert!(!s.clips[0].is_playing);
}

#[test]
fn frame_delay_spaces_out_advances() {
    let mut s = Spritesheet::new(3_200, 2_500, 3_500);
    s.add_animation_looping(ClipId::Flap, 0, 0, 5, true, 2);
    assert!(s.start_animation(ClipId::Flap).is_ok());
    s.tick();
    assert_eq!(s.clips[0].current_frame_index, 1);
    s.tick();
    assert_eq!(s.clips[0].current_frame_index, 1);
    s.tick();
    assert_eq!(s.clips[0].current_frame_index, 2);
}

#[test]
fn looping_clip_keeps_playing_after_wrap() {
    let mut s = Spritesheet::new(3_200, 2_500, 3_500);
    s.add_animation(ClipId::Idle, 0, 0, 1, 1);
    assert!(s.start_animation(ClipId::Idle).is_ok());
    s.tick();
    s.tick();
    assert_eq!(s.clips[0].current_frame_index, 0);
    assert!(s.clips[0].is_playing);
}

#[test]
fn starting_an_unknown_clip_is_a_reported_no_op() {
    let mut s = Spritesheet::new(3_200, 2_500, 3_500);
    s.add_animation(ClipId::Idle, 14_500, 14_500, 0, 0);
    let before = s.clips.clone();
    assert_eq!(s.start_animation(ClipId::Flap), Err(SimError::UnknownClipRequested));
    assert_eq!(s.clips, before);
    assert!(!s.is_animating());
}

#[test]
fn registering_again_replaces_the_clip() {
    let mut s = player_sheet();
    assert!(s.start_animation(ClipId::Flap).is_ok());
    assert!(s.is_animating());
    s.add_animation_looping(ClipId::Flap, 600, 14_400, 4, true, 2);
    assert_eq!(s.clips.len(), 2);
    assert_eq!(s.clips[1].origin_x, 600);
    assert_eq!(s.clips[1].frame_count, 4);
    // The replacement starts stopped.
    assert!(!s.is_animating());
}

#[test]
fn draw_prefers_the_first_playing_clip() {
    let mut s = player_sheet();
    assert!(s.start_animation(ClipId::Idle).is_ok());
    assert!(s.start_animation(ClipId::Flap).is_ok());
    // Idle was registered first, so it wins the tie-break.
    let r = s.draw().unwrap();
    assert_eq!(r, Rect { pos_x: 14_500, pos_y: 14_500, size_x: 3_200, size_y: 2_500 });
}

#[test]
fn draw_falls_back_to_the_default_clip() {
    let mut s = player_sheet();
    assert!(s.start_animation(ClipId::Flap).is_ok());
    s.tick();
    let playing = s.draw().unwrap();
    // The flap clip advanced one frame: one step right on the sheet.
    assert_eq!(playing, Rect { pos_x: 500 + 3_500, pos_y: 14_400, size_x: 3_200, size_y: 2_500 });
    s.tick();
    s.tick();
    s.tick();
    // The flap cycle is over: sampling falls back to the idle clip.
    assert!(!s.is_animating());
    let idle = s.draw().unwrap();
    assert_eq!(idle, Rect { pos_x: 14_500, pos_y: 14_500, size_x: 3_200, size_y: 2_500 });
}

#[test]
fn missing_default_clip_is_a_configuration_error() {
    let s = Spritesheet::new(3_200, 2_500, 3_500);
    assert_eq!(s.draw(), Err(SimError::ConfigurationError));
}

#[test]
fn contains_clip_reports_registration() {
    let s = player_sheet();
    assert!(s.contains_clip(ClipId::Idle));
    assert!(s.contains_clip(ClipId::Flap));
    let empty = Spritesheet::new(1, 1, 1);
    assert!(!empty.contains_clip(ClipId::Idle));
}

#[test]
fn stop_rewinds_a_clip() {
    let mut s = player_sheet();
    assert!(s.start_animation(ClipId::Flap).is_ok());
    s.tick();
    s.tick();
    assert_eq!(s.clips[1].current_frame_index, 2);
    let mut c = s.clips[1];
    c.stop();
    assert!(!c.is_playing);
    assert_eq!(c.current_frame_index, 0);
}
