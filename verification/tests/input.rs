use topple::input::{
    all_buttons, button_of_code, keyboard_button, map_key, menu_taps, Button, Key, Repeater, TapAction,
};

#[test]
fn menu_taps_walk_down_then_confirm() {
    assert_eq!(menu_taps(2, 5), vec![Button::Down, Button::Down, Button::Down, Button::A]);
}

#[test]
fn menu_taps_walk_up_then_confirm() {
    assert_eq!(menu_taps(3, 1), vec![Button::Up, Button::Up, Button::A]);
}

#[test]
fn menu_taps_on_the_selection_just_confirm() {
    assert_eq!(menu_taps(4, 4), vec![Button::A]);
}

#[test]
fn repeater_waits_for_the_delay_then_repeats_at_the_rate() {
    let mut r = Repeater::new();
    r.press(Button::Down);
    assert!(r.tick(379).is_empty());
    assert_eq!(r.tick(1), vec![Button::Down]);
    assert!(r.tick(119).is_empty());
    assert_eq!(r.tick(1), vec![Button::Down]);
    assert_eq!(r.tick(240), vec![Button::Down, Button::Down]);
    assert_eq!(r.tick(1000), vec![Button::Down; 8]);
}

#[test]
fn one_long_tick_fires_the_first_repeat_and_the_rest() {
    let mut r = Repeater::new();
    r.press(Button::Left);
    // 380 for the first repeat, then 120 each: 380 + 2 * 120 = 620.
    assert_eq!(r.tick(620), vec![Button::Left; 3]);
    assert_eq!(r.tick(119), vec![]);
}

#[test]
fn releasing_the_held_direction_stops_repeats() {
    let mut r = Repeater::new();
    r.press(Button::Right);
    r.release(Button::Up);
    assert_eq!(r.tick(380), vec![Button::Right]);
    r.release(Button::Right);
    assert!(r.tick(5000).is_empty());
}

#[test]
fn face_buttons_never_repeat() {
    let mut r = Repeater::default();
    r.press(Button::A);
    r.press(Button::Start);
    assert!(r.tick(10_000).is_empty());
}

#[test]
fn pressing_again_restarts_the_delay() {
    let mut r = Repeater::new();
    r.press(Button::Up);
    assert_eq!(r.tick(400), vec![Button::Up]);
    r.press(Button::Down);
    assert!(r.tick(379).is_empty());
    assert_eq!(r.tick(1), vec![Button::Down]);
}

#[test]
fn handheld_key_codes_map_to_buttons() {
    assert_eq!(map_key(103), Some(Button::Up));
    assert_eq!(map_key(108), Some(Button::Down));
    assert_eq!(map_key(105), Some(Button::Left));
    assert_eq!(map_key(106), Some(Button::Right));
    assert_eq!(map_key(57), Some(Button::A));
    assert_eq!(map_key(29), Some(Button::B));
    assert_eq!(map_key(42), Some(Button::X));
    assert_eq!(map_key(56), Some(Button::Y));
    assert_eq!(map_key(28), Some(Button::Start));
    assert_eq!(map_key(1), Some(Button::Start));
    assert_eq!(map_key(97), Some(Button::Select));
    assert_eq!(map_key(0), None);
    assert_eq!(map_key(104), None);
}

#[test]
fn every_button_once() {
    let all = all_buttons();
    assert_eq!(all.len(), 10);
    for (i, a) in all.iter().enumerate() {
        for b in &all[i + 1..] {
            assert_ne!(a, b);
        }
    }
}

#[test]
fn tap_actions_clone() {
    let a = TapAction::Press(menu_taps(0, 2));
    match a.clone() {
        TapAction::Press(v) => assert_eq!(v, vec![Button::Down, Button::Down, Button::A]),
        TapAction::Cursor(_) => panic!("wrong variant"),
    }
    match TapAction::Cursor(3).clone() {
        TapAction::Cursor(i) => assert_eq!(i, 3),
        TapAction::Press(_) => panic!("wrong variant"),
    }
}

#[test]
fn host_key_indices_name_buttons_in_pad_order() {
    assert_eq!(button_of_code(0), Some(Button::Up));
    assert_eq!(button_of_code(4), Some(Button::A));
    assert_eq!(button_of_code(9), Some(Button::Select));
    assert_eq!(button_of_code(10), None);
}

#[test]
fn desktop_keys_drive_the_pad() {
    assert_eq!(keyboard_button(Key::ArrowUp), Some(Button::Up));
    assert_eq!(keyboard_button(Key::KeyW), Some(Button::Up));
    assert_eq!(keyboard_button(Key::KeyS), Some(Button::Down));
    assert_eq!(keyboard_button(Key::ArrowLeft), Some(Button::Left));
    assert_eq!(keyboard_button(Key::ArrowRight), Some(Button::Right));
    assert_eq!(keyboard_button(Key::KeyT), Some(Button::X));
    assert_eq!(keyboard_button(Key::KeyF), Some(Button::B));
    assert_eq!(keyboard_button(Key::KeyZ), Some(Button::A));
    assert_eq!(keyboard_button(Key::KeyP), Some(Button::Y));
    assert_eq!(keyboard_button(Key::Escape), Some(Button::Start));
    assert_eq!(keyboard_button(Key::Backspace), Some(Button::Select));
    assert_eq!(keyboard_button(Key::Other), None);
}
