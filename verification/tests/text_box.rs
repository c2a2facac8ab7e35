use circuit_lab::input::{KeyboardEnum, KeyboardInfo, TextInfo};
use circuit_lab::text_box::{place_cursor, update_text_box};
use circuit_lab::ui::TextBoxResult;

fn keys(events: &[(KeyboardEnum, bool)]) -> KeyboardInfo {
    let mut kb = KeyboardInfo { key: Vec::new(), status: Vec::new() };
    for (k, down) in events {
        kb.record_key(*k, *down);
    }
    kb
}

fn typed(s: &str) -> TextInfo {
    let character: Vec<char> = s.chars().collect();
    let timing = vec![0; character.len()];
    TextInfo { character, timing }
}

fn state(text: &str, active: bool, cursor: usize) -> TextBoxResult {
    TextBoxResult { text_buffer: text.to_string(), active, cursor }
}

#[test]
fn click_places_cursor_by_glyph_widths() {
    let text = "abc".to_string();
    let adv = vec![10, 10, 10];
    // The box is at 0; the glyphs start at pixel 2.
    assert_eq!(place_cursor(&text, &adv, 1, 0), Some(None));
    assert_eq!(place_cursor(&text, &adv, 2, 0), Some(Some(0)));
    assert_eq!(place_cursor(&text, &adv, 15, 0), Some(Some(1)));
    assert_eq!(place_cursor(&text, &adv, 22, 0), Some(Some(3)));
    assert_eq!(place_cursor(&text, &adv, 500, 0), Some(Some(3)));
    // The pixel offsets overflow.
    assert_eq!(place_cursor(&text, &adv, 0, i32::MAX), None);
}

#[test]
fn inactive_box_wakes_up_on_a_click_inside() {
    let mut s = state("abc", false, 0);
    let adv = vec![10, 10, 10];
    assert!(update_text_box(&mut s, 30, true, true, &adv, 13, 0, &keys(&[]), &typed("zz")));
    assert!(s.active);
    assert_eq!(s.cursor, 1);
    assert_eq!(s.text_buffer, "abc");

    let mut idle = state("abc", false, 2);
    assert!(update_text_box(&mut idle, 30, false, true, &adv, 13, 0, &keys(&[]), &typed("zz")));
    assert!(!idle.active);
    assert_eq!(idle.text_buffer, "abc");
}

#[test]
fn typing_inserts_at_the_cursor() {
    let mut s = state("xy", true, 1);
    let adv = vec![10, 10];
    assert!(update_text_box(&mut s, 30, true, false, &adv, 0, 0, &keys(&[]), &typed("ab")));
    assert_eq!(s.text_buffer, "xaby");
    assert_eq!(s.cursor, 3);
    assert!(s.active);
}

#[test]
fn backspace_and_arrows_and_delete() {
    let mut s = state("hello", true, 5);
    let adv = vec![10; 5];
    assert!(update_text_box(&mut s, 30, false, false, &adv, 0, 0, &keys(&[]), &typed("\u{8}")));
    assert_eq!(s.text_buffer, "hell");
    assert_eq!(s.cursor, 4);

    let adv = vec![10; 4];
    let kb = keys(&[
        (KeyboardEnum::Leftarrow, true),
        (KeyboardEnum::Leftarrow, true),
        (KeyboardEnum::Delete, true),
        (KeyboardEnum::Rightarrow, false),
    ]);
    assert!(update_text_box(&mut s, 30, false, false, &adv, 0, 0, &kb, &typed("")));
    assert_eq!(s.text_buffer, "hel");
    assert_eq!(s.cursor, 2);
}

#[test]
fn enter_or_a_click_outside_ends_editing() {
    let adv = vec![10; 2];
    let mut s = state("ok", true, 2);
    assert!(update_text_box(&mut s, 30, true, false, &adv, 0, 0, &keys(&[(KeyboardEnum::Enter, true)]), &typed("x")));
    assert!(!s.active);
    assert_eq!(s.text_buffer, "ok");

    let mut t = state("ok", true, 2);
    assert!(update_text_box(&mut t, 30, false, true, &adv, 0, 0, &keys(&[]), &typed("x")));
    assert!(!t.active);
    assert_eq!(t.text_buffer, "ok");
}

#[test]
fn text_stops_growing_at_max_char() {
    let mut s = state("abc", true, 3);
    let adv = vec![10; 3];
    assert!(update_text_box(&mut s, 4, false, false, &adv, 0, 0, &keys(&[]), &typed("def")));
    assert_eq!(s.text_buffer, "abcd");
    assert_eq!(s.cursor, 4);
}

#[test]
fn edits_inside_a_character_fail_and_change_nothing() {
    // Byte 1 lies inside the two bytes of 'é'.
    let mut s = state("éa", true, 1);
    let adv = vec![10, 10];
    let kb = keys(&[(KeyboardEnum::Delete, true)]);
    assert!(!update_text_box(&mut s, 30, false, false, &adv, 0, 0, &kb, &typed("")));
    assert_eq!(s.text_buffer, "éa");
    assert_eq!(s.cursor, 1);
    assert!(!update_text_box(&mut s, 30, false, false, &adv, 0, 0, &keys(&[]), &typed("x")));
    assert_eq!(s.text_buffer, "éa");
    // Backspace at the start of a non-empty text has no character to take out.
    let mut t = state("ab", true, 0);
    assert!(!update_text_box(&mut t, 30, false, false, &adv, 0, 0, &keys(&[]), &typed("\u{8}")));
    assert_eq!(t.text_buffer, "ab");
}

#[test]
fn multibyte_characters_are_edited_whole() {
    let adv = vec![10, 10];
    let mut s = state("éa", true, 0);
    let kb = keys(&[(KeyboardEnum::Delete, true)]);
    assert!(update_text_box(&mut s, 30, false, false, &adv, 0, 0, &kb, &typed("")));
    assert_eq!(s.text_buffer, "a");
    assert_eq!(s.cursor, 0);
    let mut t = state("éa", true, 3);
    assert!(update_text_box(&mut t, 30, false, false, &adv, 0, 0, &keys(&[]), &typed("\u{8}")));
    assert_eq!(t.text_buffer, "é");
    assert_eq!(t.cursor, 2);
}

#[test]
fn editing_keeps_text_within_max_char_and_cursor_within_text() {
    let max_char = 5;
    let mut s = state("abc", true, 1);
    let frames: Vec<(KeyboardInfo, TextInfo)> = vec![
        (keys(&[]), typed("xyzw")),
        (keys(&[(KeyboardEnum::Rightarrow, true), (KeyboardEnum::Rightarrow, true)]), typed("")),
        (keys(&[(KeyboardEnum::Rightarrow, true); 4]), typed("q")),
        (keys(&[(KeyboardEnum::Delete, true)]), typed("\u{8}")),
        (keys(&[(KeyboardEnum::Leftarrow, true); 9]), typed("mn")),
    ];
    for (kb, ti) in frames {
        let adv = vec![10; s.text_buffer.len()];
        assert!(update_text_box(&mut s, max_char, false, false, &adv, 0, 0, &kb, &ti));
        assert!(s.text_buffer.len() <= max_char as usize);
        assert!(s.cursor <= s.text_buffer.len());
    }
    assert_eq!(s.text_buffer.len(), 5);
}
