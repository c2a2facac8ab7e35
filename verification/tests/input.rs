use circuit_lab::input::{
    ButtonStatus, KeyMessageMacOS, KeyboardEnum, KeyboardInfo, MouseInfo, TextInfo,
};

fn empty_keyboard() -> KeyboardInfo {
    KeyboardInfo { key: Vec::new(), status: Vec::new() }
}

#[test]
fn new_mouse_is_still_and_released() {
    let m = MouseInfo::new();
    assert_eq!((m.x, m.y, m.delta_x, m.delta_y), (0, 0, 0, 0));
    assert_eq!(m.lbutton, ButtonStatus::Up);
    assert_eq!(m.old_rbutton, ButtonStatus::Up);
    assert!(!m.double_lbutton);
    assert_eq!(m.wheel, 0);
    assert!(!m.lclicked());
    assert!(!m.rclicked());
    assert_eq!(ButtonStatus::default(), ButtonStatus::Up);
}

#[test]
fn a_click_is_a_release_after_a_press() {
    let mut m = MouseInfo::new();
    m.old_lbutton = ButtonStatus::Down;
    assert!(m.lclicked());
    m.lbutton = ButtonStatus::Down;
    assert!(!m.lclicked());
    m.old_rbutton = ButtonStatus::Down;
    assert!(m.rclicked());
}

#[test]
fn pressed_and_released_keys_are_found() {
    let mut kb = empty_keyboard();
    kb.record_key(KeyboardEnum::Enter, true);
    kb.record_key(KeyboardEnum::Tab, false);
    assert!(kb.is_key_pressed(KeyboardEnum::Enter));
    assert!(!kb.is_key_released(KeyboardEnum::Enter));
    assert!(kb.is_key_released(KeyboardEnum::Tab));
    assert!(!kb.is_key_pressed(KeyboardEnum::Space));
}

#[test]
fn macos_codes_map_to_keys() {
    let mut kb = empty_keyboard();
    kb.update_keyboardinfo_macos(KeyMessageMacOS { keycode: 0x7B, keydown: 1 });
    kb.update_keyboardinfo_macos(KeyMessageMacOS { keycode: 0x00, keydown: 2 });
    kb.update_keyboardinfo_macos(KeyMessageMacOS { keycode: 0x7B, keydown: 0 });
    kb.update_keyboardinfo_macos(KeyMessageMacOS { keycode: 0x99, keydown: 1 });
    assert_eq!(kb.key, vec![KeyboardEnum::Leftarrow, KeyboardEnum::A]);
    assert_eq!(kb.status, vec![ButtonStatus::Down, ButtonStatus::Up]);
}

#[test]
fn windows_messages_map_to_keys() {
    let mut kb = empty_keyboard();
    kb.update_keyboardinfo_windows(0x0100, 0x41);
    kb.update_keyboardinfo_windows(0x0101, 0x0D);
    kb.update_keyboardinfo_windows(0x0200, 0x41);
    assert_eq!(kb.key, vec![KeyboardEnum::A, KeyboardEnum::Enter]);
    assert_eq!(kb.status, vec![ButtonStatus::Down, ButtonStatus::Up]);
}

#[test]
fn linux_shift_counts_as_two_keys() {
    let mut kb = empty_keyboard();
    kb.update_keyboardinfo_linux(0xffe1, true);
    kb.update_keyboardinfo_linux(0x7a, false);
    assert_eq!(kb.key, vec![KeyboardEnum::Lshift, KeyboardEnum::Shift, KeyboardEnum::Z]);
    assert_eq!(kb.status, vec![ButtonStatus::Down, ButtonStatus::Down, ButtonStatus::Up]);
}

#[test]
fn text_info_holds_characters_and_times() {
    let t = TextInfo { character: vec!['a'], timing: vec![3] };
    assert_eq!(t.character.len(), t.timing.len());
}
