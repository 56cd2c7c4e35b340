use framebuf::input::{InputState, InputTracker, KeyMods};

fn mods() -> KeyMods {
    KeyMods::cleared()
}

#[test]
fn press_then_advance_reads_down() {
    let mut t = InputTracker::new();
    t.on_key_down(7, mods(), false);
    assert_eq!(t.get_key_state(7), Some(InputState::Pressed));
    t.advance_frame();
    assert_eq!(t.get_key_state(7), Some(InputState::Down));
    t.advance_frame();
    assert_eq!(t.get_key_state(7), Some(InputState::Down));
}

#[test]
fn press_release_same_cycle_shows_release_edge_once() {
    let mut t = InputTracker::new();
    t.on_key_down(7, mods(), false);
    t.on_key_up(7, mods());
    assert_eq!(t.get_key_state(7), Some(InputState::Released));
    t.advance_frame();
    assert_eq!(t.get_key_state(7), None);
    t.advance_frame();
    assert_eq!(t.get_key_state(7), None);
}

#[test]
fn held_key_released_later() {
    let mut t = InputTracker::new();
    t.on_key_down(3, mods(), false);
    t.advance_frame();
    t.advance_frame();
    assert_eq!(t.get_key_state(3), Some(InputState::Down));
    t.on_key_up(3, mods());
    assert_eq!(t.get_key_state(3), Some(InputState::Released));
    assert!(t.is_key_released(3));
    assert!(!t.is_key_down(3));
    t.advance_frame();
    assert_eq!(t.get_key_state(3), None);
}

#[test]
fn repeat_event_leaves_untracked_key_untracked() {
    let mut t = InputTracker::new();
    let with_shift = KeyMods { shift: true, ctrl: false, alt: false, logo: false };
    t.on_key_down(9, with_shift, true);
    assert_eq!(t.get_key_state(9), None);
    // the modifiers are still overwritten by a repeat event
    assert_eq!(t.get_key_mods(), with_shift);
}

#[test]
fn repeat_event_keeps_held_state() {
    let mut t = InputTracker::new();
    t.on_key_down(9, mods(), false);
    t.advance_frame();
    t.on_key_down(9, mods(), true);
    assert_eq!(t.get_key_state(9), Some(InputState::Down));
}

#[test]
fn release_then_press_same_cycle_collapses_to_pressed() {
    let mut t = InputTracker::new();
    t.on_key_down(4, mods(), false);
    t.advance_frame();
    t.on_key_up(4, mods());
    t.on_key_down(4, mods(), false);
    assert_eq!(t.get_key_state(4), Some(InputState::Pressed));
    assert!(t.is_key_pressed(4));
}

#[test]
fn release_of_untracked_key_still_creates_edge() {
    let mut t = InputTracker::new();
    t.on_key_up(42, mods());
    assert_eq!(t.get_key_state(42), Some(InputState::Released));
    t.advance_frame();
    assert_eq!(t.get_key_state(42), None);
}

#[test]
fn mouse_buttons_follow_same_automaton() {
    let mut t = InputTracker::new();
    t.on_mouse_button_down(1);
    assert_eq!(t.get_mouse_button_state(1), Some(InputState::Pressed));
    assert!(t.is_mouse_button_pressed(1));
    t.advance_frame();
    assert_eq!(t.get_mouse_button_state(1), Some(InputState::Down));
    assert!(t.is_mouse_button_down(1));
    t.on_mouse_button_up(1);
    assert_eq!(t.get_mouse_button_state(1), Some(InputState::Released));
    assert!(t.is_mouse_button_released(1));
    t.advance_frame();
    assert_eq!(t.get_mouse_button_state(1), None);
}

#[test]
fn wheel_resets_at_frame_advance() {
    let mut t = InputTracker::new();
    t.on_mouse_wheel((3.0f32).to_bits(), (-2.0f32).to_bits());
    let (dx, dy) = t.get_mouse_wheel();
    assert_eq!(f32::from_bits(dx), 3.0);
    assert_eq!(f32::from_bits(dy), -2.0);
    t.advance_frame();
    assert_eq!(t.get_mouse_wheel(), (0, 0));
    assert_eq!(f32::from_bits(0), 0.0);
}

#[test]
fn wheel_overwrites_not_accumulates() {
    let mut t = InputTracker::new();
    t.on_mouse_wheel((1.0f32).to_bits(), (1.0f32).to_bits());
    t.on_mouse_wheel((2.5f32).to_bits(), (0.5f32).to_bits());
    let (dx, dy) = t.get_mouse_wheel();
    assert_eq!(f32::from_bits(dx), 2.5);
    assert_eq!(f32::from_bits(dy), 0.5);
}

#[test]
fn mouse_position_is_stored_bit_for_bit() {
    let mut t = InputTracker::new();
    t.on_mouse_motion((12.75f32).to_bits(), (99.5f32).to_bits());
    let (x, y) = t.get_mouse_pos();
    assert_eq!(f32::from_bits(x), 12.75);
    assert_eq!(f32::from_bits(y), 99.5);
    t.advance_frame();
    // the position survives the frame advance, unlike the wheel
    let (x2, y2) = t.get_mouse_pos();
    assert_eq!(f32::from_bits(x2), 12.75);
    assert_eq!(f32::from_bits(y2), 99.5);
}

#[test]
fn mods_are_overwritten_wholesale() {
    let mut t = InputTracker::new();
    let with_shift = KeyMods { shift: true, ctrl: false, alt: false, logo: false };
    let with_ctrl = KeyMods { shift: false, ctrl: true, alt: false, logo: false };
    t.on_key_down(1, with_shift, false);
    assert_eq!(t.get_key_mods(), with_shift);
    t.on_key_up(1, with_ctrl);
    assert_eq!(t.get_key_mods(), with_ctrl);
    t.on_char(with_shift);
    assert_eq!(t.get_key_mods(), with_shift);
}

#[test]
fn all_keys_lists_every_tracked_key_once() {
    let mut t = InputTracker::new();
    t.on_key_down(5, mods(), false);
    t.on_key_down(6, mods(), false);
    t.on_key_up(8, mods());
    let entries = t.get_all_keys().entries().clone();
    assert_eq!(entries.len(), 3);
    let mut sorted = entries.clone();
    sorted.sort();
    assert_eq!(
        sorted,
        vec![
            (5, InputState::Pressed),
            (6, InputState::Pressed),
            (8, InputState::Released)
        ]
    );
    t.advance_frame();
    let mut after = t.get_all_keys().entries().clone();
    after.sort();
    assert_eq!(after, vec![(5, InputState::Down), (6, InputState::Down)]);
}

#[test]
fn fresh_tracker_is_empty() {
    let t = InputTracker::new();
    assert_eq!(t.get_key_state(0), None);
    assert_eq!(t.get_mouse_button_state(0), None);
    assert_eq!(t.get_mouse_wheel(), (0, 0));
    assert_eq!(t.get_mouse_pos(), (0, 0));
    assert_eq!(t.get_key_mods(), KeyMods::cleared());
    assert!(t.get_all_keys().entries().is_empty());
    assert!(t.get_all_mouse_buttons().entries().is_empty());
}
