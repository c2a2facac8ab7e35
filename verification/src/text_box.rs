//! Editing in a text box: activation by the mouse, cursor placement, cursor keys, and
//! typed characters.
//!
//! The text is held in a `String` and the cursor is a byte offset into it, except where
//! the mouse places it, which counts characters. Glyph widths come from the font renderer
//! and whether the mouse is over the box from the caller.
use vstd::prelude::*;
use vstd::string::StringSliceAdditionalSpecFns;
use vstd::utf8::{encode_scalar, encode_utf8, is_ascii_chars};

use crate::input::{ButtonStatus, KeyboardEnum, KeyboardInfo, TextInfo};
use crate::lab_parser::chars_of;
use crate::ui::TextBoxResult;

verus! {

/// The number of bytes of the UTF-8 encoding of `t`.
pub open spec fn byte_len(t: Seq<char>) -> int {
    encode_utf8(t).len() as int
}

/// Character `p` of `t` starts at byte `idx` (with `p == t.len()` standing for the end).
pub open spec fn starts_at(t: Seq<char>, p: int, idx: int) -> bool {
    0 <= p <= t.len() && encode_utf8(t.take(p)).len() == idx
}

/// Byte `idx` of `t` lies on a character boundary.
pub open spec fn on_boundary(t: Seq<char>, idx: int) -> bool {
    exists|p: int| starts_at(t, p, idx)
}

/// The character that starts at byte `idx` of `t`.
pub open spec fn char_at_byte(t: Seq<char>, idx: int) -> int {
    choose|p: int| starts_at(t, p, idx)
}

/// `t` without the character that starts at byte `idx`; `None` where no character starts
/// there.
pub open spec fn removed_at(t: Seq<char>, idx: int) -> Option<Seq<char>> {
    if on_boundary(t, idx) && idx < byte_len(t) {
        Some(t.remove(char_at_byte(t, idx)))
    } else {
        None
    }
}

/// `t` with `c` put in at byte `idx`; `None` where `idx` is no character boundary.
pub open spec fn inserted_at(t: Seq<char>, idx: int, c: char) -> Option<Seq<char>> {
    if on_boundary(t, idx) {
        Some(t.insert(char_at_byte(t, idx), c))
    } else {
        None
    }
}

/// The low byte of a character's code, which tells the control characters apart.
pub open spec fn low_byte(c: char) -> u8 {
    ((c as u32) & 0xffu32) as u8
}

/// One key event acting on text `t` with the cursor at byte `cursor`: the left and right
/// arrows move the cursor within the text, `Delete` takes out the character under it.
/// `None` where the cursor is inside a character.
pub open spec fn key_step(t: Seq<char>, cursor: int, key: KeyboardEnum, st: ButtonStatus) -> Option<
    (Seq<char>, int),
> {
    if st != ButtonStatus::Down {
        Some((t, cursor))
    } else if key == KeyboardEnum::Leftarrow {
        Some((t, if cursor > 0 { cursor - 1 } else { cursor }))
    } else if key == KeyboardEnum::Rightarrow {
        Some((t, if cursor < byte_len(t) { cursor + 1 } else { cursor }))
    } else if key == KeyboardEnum::Delete {
        if byte_len(t) > cursor {
            match removed_at(t, cursor) {
                Some(t2) => Some((t2, cursor)),
                None => None,
            }
        } else {
            Some((t, cursor))
        }
    } else {
        Some((t, cursor))
    }
}

/// The first `n` key events, in order.
pub open spec fn keys_fold(
    t: Seq<char>,
    cursor: int,
    keys: Seq<KeyboardEnum>,
    sts: Seq<ButtonStatus>,
    n: int,
) -> Option<(Seq<char>, int)>
    decreases n,
{
    if n <= 0 {
        Some((t, cursor))
    } else {
        match keys_fold(t, cursor, keys, sts, n - 1) {
            None => None,
            Some((t2, c2)) => key_step(t2, c2, keys[n - 1], sts[n - 1]),
        }
    }
}

/// One typed character: backspace (low byte 8) takes out the character before the
/// cursor, low bytes 127 and from 239 up are ignored, and any other character goes in at
/// the cursor while the text is shorter than `max_char` bytes. The cursor then stays
/// within the text. `None` where backspace meets the start of the text or a cursor inside
/// a character.
pub open spec fn typed_step(t: Seq<char>, cursor: int, c: char, max_char: i32) -> Option<
    (Seq<char>, int),
> {
    let edited: Option<(Seq<char>, int)> = if low_byte(c) == 8 && byte_len(t) > 0 {
        if cursor == 0 {
            None
        } else {
            match removed_at(t, cursor - 1) {
                Some(t2) => Some((t2, cursor - 1)),
                None => None,
            }
        }
    } else if low_byte(c) >= 239 || low_byte(c) == 127 {
        Some((t, cursor))
    } else if byte_len(t) < (max_char as usize) {
        match inserted_at(t, cursor, c) {
            Some(t2) => Some((t2, cursor + 1)),
            None => None,
        }
    } else {
        Some((t, cursor))
    };
    match edited {
        None => None,
        Some((t2, c2)) => Some((t2, if c2 > byte_len(t2) { byte_len(t2) } else { c2 })),
    }
}

/// The first `n` typed characters, in order.
pub open spec fn typed_fold(t: Seq<char>, cursor: int, chars: Seq<char>, max_char: i32, n: int) -> Option<
    (Seq<char>, int),
>
    decreases n,
{
    if n <= 0 {
        Some((t, cursor))
    } else {
        match typed_fold(t, cursor, chars, max_char, n - 1) {
            None => None,
            Some((t2, c2)) => typed_step(t2, c2, chars[n - 1], max_char),
        }
    }
}

pub open spec fn fits_i32(x: int) -> bool {
    i32::MIN <= x <= i32::MAX
}

/// Cursor placement by the mouse at `mouse_x`, looking from character `i` on, whose left
/// edge is `position` pixels into a box at `box_x` (glyph widths `adv`): the character the
/// mouse is over, or the end where the mouse is right of the last character; `Some(None)`
/// where the mouse is left of them all, `None` where a pixel offset overflows.
pub open spec fn cursor_from(
    text: Seq<char>,
    adv: Seq<i32>,
    mouse_x: i32,
    box_x: i32,
    i: int,
    position: int,
) -> Option<Option<usize>>
    decreases text.len() - i,
{
    if i < 0 || i >= text.len() {
        Some(None)
    } else {
        let a = adv[i] as int;
        let left = position + box_x;
        if !fits_i32(left) || !fits_i32(left + 2) {
            None
        } else if i < byte_len(text) - 1 {
            if mouse_x >= left + 2 && (!fits_i32(position + a) || !fits_i32(position + a + box_x)
                || !fits_i32(position + a + box_x + 2)) {
                None
            } else if mouse_x >= left + 2 && mouse_x < position + a + box_x + 2 {
                Some(Some(i as usize))
            } else if !fits_i32(position + a) {
                None
            } else {
                cursor_from(text, adv, mouse_x, box_x, i + 1, position + a)
            }
        } else if mouse_x >= left + 2 {
            Some(Some((i + 1) as usize))
        } else if !fits_i32(position + a) {
            None
        } else {
            cursor_from(text, adv, mouse_x, box_x, i + 1, position + a)
        }
    }
}

/// The editing state of a text box.
pub struct TextBoxView {
    pub text: Seq<char>,
    pub active: bool,
    pub cursor: int,
}

pub open spec fn box_view(r: TextBoxResult) -> TextBoxView {
    TextBoxView { text: r.text_buffer@, active: r.active, cursor: r.cursor as int }
}

/// One frame of a text box in state `v`: `in_box` says whether the mouse is over the box,
/// `lbutton_down` whether its left button is down, `hit` where a click places the cursor.
/// An inactive box becomes active when clicked. An active box becomes inactive when the
/// button goes down outside it or `Enter` is pressed; otherwise a click inside places the
/// cursor, then the key events and the typed characters edit the text. `None` where the
/// frame fails: an `Enter` event without a status, fewer statuses than keys, or an edit
/// at a byte that is no character boundary.
pub open spec fn text_box_step(
    v: TextBoxView,
    in_box: bool,
    lbutton_down: bool,
    hit: Option<usize>,
    kb: KeyboardInfo,
    typed: Seq<char>,
    max_char: i32,
) -> Option<TextBoxView> {
    let clicked_in = in_box && lbutton_down;
    let placed = match hit {
        Some(c) => c as int,
        None => v.cursor,
    };
    if !v.active {
        if clicked_in {
            Some(TextBoxView { active: true, cursor: placed, ..v })
        } else {
            Some(v)
        }
    } else if !in_box && lbutton_down {
        Some(TextBoxView { active: false, ..v })
    } else {
        let c1 = if clicked_in {
            placed
        } else {
            v.cursor
        };
        if !kb.lookup_safe(KeyboardEnum::Enter, ButtonStatus::Down) {
            None
        } else if kb.has_event(KeyboardEnum::Enter, ButtonStatus::Down) {
            Some(TextBoxView { active: false, cursor: c1, ..v })
        } else if kb.status@.len() < kb.key@.len() {
            None
        } else {
            match keys_fold(v.text, c1, kb.key@, kb.status@, kb.key@.len() as int) {
                None => None,
                Some((t2, c2)) => match typed_fold(t2, c2, typed, max_char, typed.len() as int) {
                    None => None,
                    Some((t3, c3)) => Some(TextBoxView { text: t3, active: true, cursor: c3 }),
                },
            }
        }
    }
}

/// Takes out the character that starts at byte `idx` and returns it, by `String::remove`.
#[verifier::external_body]
fn remove_char(s: &mut String, idx: usize) -> (c: char)
    requires
        on_boundary(old(s)@, idx as int),
        (idx as int) < byte_len(old(s)@),
    ensures
        final(s)@ == old(s)@.remove(char_at_byte(old(s)@, idx as int)),
        c == old(s)@[char_at_byte(old(s)@, idx as int)],
{
    s.remove(idx)
}

/// Puts `c` in at byte `idx`, by `String::insert`.
#[verifier::external_body]
fn insert_char(s: &mut String, idx: usize, c: char)
    requires
        on_boundary(old(s)@, idx as int),
    ensures
        final(s)@ == old(s)@.insert(char_at_byte(old(s)@, idx as int), c),
{
    s.insert(idx, c)
}

/// The number of bytes of `s`.
fn text_bytes(s: &String) -> (n: usize)
    ensures
        n == byte_len(s@),
{
    s.as_str().as_bytes().len()
}

/// The number of bytes of the UTF-8 encoding of `c`.
fn utf8_width(c: char) -> (n: usize)
    ensures
        n == encode_scalar(c as u32).len(),
        1 <= n <= 4,
{
    proof {
        vstd::utf8::char_is_scalar(c);
    }
    let code = c as u32;
    if code <= 0x7F {
        1
    } else if code <= 0x7FF {
        2
    } else if code <= 0xFFFF {
        3
    } else {
        4
    }
}

/// Encoding a text with one more character appends that character's encoding.
proof fn lemma_encode_push(a: Seq<char>, c: char)
    ensures
        encode_utf8(a.push(c)) == encode_utf8(a) + encode_scalar(c as u32),
    decreases a.len(),
{
    if a.len() == 0 {
        assert(a.push(c).drop_first() =~= Seq::<char>::empty());
        assert(a.push(c)[0] == c);
        assert(encode_utf8(a.push(c).drop_first()) =~= Seq::<u8>::empty());
        assert(encode_utf8(a.push(c)) =~= encode_scalar(c as u32) + Seq::<u8>::empty());
        assert(encode_utf8(a.push(c)) =~= encode_scalar(c as u32));
        assert(encode_utf8(a) =~= Seq::<u8>::empty());
        assert(encode_utf8(a) + encode_scalar(c as u32) =~= encode_scalar(c as u32));
    } else {
        lemma_encode_push(a.drop_first(), c);
        assert(a.push(c).drop_first() =~= a.drop_first().push(c));
        assert(a.push(c)[0] == a[0]);
        assert(encode_utf8(a.push(c)) =~= encode_scalar(a[0] as u32) + (encode_utf8(
            a.drop_first(),
        ) + encode_scalar(c as u32)));
    }
}

/// The encoding of a prefix grows by the width of each next character.
proof fn lemma_encode_take_step(t: Seq<char>, p: int)
    requires
        0 <= p < t.len(),
    ensures
        encode_utf8(t.take(p + 1)).len() == encode_utf8(t.take(p)).len() + encode_scalar(
            t[p] as u32,
        ).len(),
        encode_utf8(t.take(p + 1)).len() > encode_utf8(t.take(p)).len(),
{
    assert(t.take(p + 1) =~= t.take(p).push(t[p]));
    lemma_encode_push(t.take(p), t[p]);
    vstd::utf8::char_is_scalar(t[p]);
}

/// Prefix encodings grow strictly, so at most one character starts at a byte.
proof fn lemma_encode_take_mono(t: Seq<char>, p: int, q: int)
    requires
        0 <= p < q <= t.len(),
    ensures
        encode_utf8(t.take(p)).len() < encode_utf8(t.take(q)).len(),
    decreases q - p,
{
    lemma_encode_take_step(t, q - 1);
    if p < q - 1 {
        lemma_encode_take_mono(t, p, q - 1);
    }
}

proof fn lemma_starts_at_unique(t: Seq<char>, p: int, idx: int)
    requires
        starts_at(t, p, idx),
    ensures
        char_at_byte(t, idx) == p,
{
    let q = char_at_byte(t, idx);
    assert(starts_at(t, q, idx));
    if q < p {
        lemma_encode_take_mono(t, q, p);
    } else if p < q {
        lemma_encode_take_mono(t, p, q);
    }
}

/// The character that starts at byte `idx` of `t`, if one does (`t.len()` for the end).
fn char_at_byte_of(t: &Vec<char>, idx: usize) -> (r: Option<usize>)
    ensures
        r is Some <==> on_boundary(t@, idx as int),
        r matches Some(p) ==> p as int == char_at_byte(t@, idx as int) && starts_at(
            t@,
            p as int,
            idx as int,
        ),
{
    let mut p: usize = 0;
    let mut pos: usize = 0;
    assert(t@.take(0) =~= Seq::<char>::empty());
    while p < t.len()
        invariant
            p <= t@.len(),
            pos == encode_utf8(t@.take(p as int)).len(),
            pos <= idx,
            forall|q: int| 0 <= q < p ==> !#[trigger] starts_at(t@, q, idx as int),
        decreases t.len() - p,
    {
        if pos == idx {
            proof {
                lemma_starts_at_unique(t@, p as int, idx as int);
            }
            return Some(p);
        }
        proof {
            lemma_encode_take_step(t@, p as int);
        }
        let w = utf8_width(t[p]);
        if w > idx - pos {
            proof {
                assert forall|q: int| 0 <= q <= t@.len() implies !#[trigger] starts_at(
                    t@,
                    q,
                    idx as int,
                ) by {
                    if q > p {
                        if q > p + 1 {
                            lemma_encode_take_mono(t@, p + 1, q);
                        }
                    }
                }
            }
            return None;
        }
        pos = pos + w;
        p = p + 1;
    }
    if pos == idx {
        proof {
            lemma_starts_at_unique(t@, p as int, idx as int);
        }
        return Some(p);
    }
    None
}

/// Whether byte `idx` of `text` lies on a character boundary.
fn boundary_at(text: &String, idx: usize) -> (b: bool)
    ensures
        b == on_boundary(text@, idx as int),
{
    let chars = chars_of(text.as_str());
    char_at_byte_of(&chars, idx).is_some()
}

/// Where a click at `mouse_x` places the cursor in text `text` shown in a box at `box_x`,
/// with glyph widths `advances`: `Some` of the number of the character under the mouse, of
/// the end where the mouse is right of the last character, or `None` where it is left of
/// them all; `None` where a pixel offset does not fit an `i32`.
pub fn place_cursor(text: &String, advances: &Vec<i32>, mouse_x: i32, box_x: i32) -> (r: Option<
    Option<usize>,
>)
    requires
        advances@.len() == text@.len(),
    ensures
        r == cursor_from(text@, advances@, mouse_x, box_x, 0, 0),
{
    let chars = chars_of(text.as_str());
    let len = text_bytes(text);
    let mut position: i32 = 0;
    let mut i: usize = 0;
    while i < chars.len()
        invariant
            chars@ == text@,
            len == byte_len(text@),
            advances@.len() == text@.len(),
            i <= chars@.len(),
            cursor_from(text@, advances@, mouse_x, box_x, 0, 0) == cursor_from(
                text@,
                advances@,
                mouse_x,
                box_x,
                i as int,
                position as int,
            ),
        decreases chars.len() - i,
    {
        let adv = advances[i];
        proof {
            lemma_encode_nonempty(text@);
        }
        let left = match position.checked_add(box_x) {
            Some(v) => match v.checked_add(2) {
                Some(v2) => v2,
                None => {
                    return None;
                },
            },
            None => {
                return None;
            },
        };
        if i < len - 1 {
            if mouse_x >= left {
                let right = match position.checked_add(adv) {
                    Some(a) => match a.checked_add(box_x) {
                        Some(b) => match b.checked_add(2) {
                            Some(c) => c,
                            None => {
                                return None;
                            },
                        },
                        None => {
                            return None;
                        },
                    },
                    None => {
                        return None;
                    },
                };
                if mouse_x < right {
                    return Some(Some(i));
                }
            }
        } else {
            if mouse_x >= left {
                return Some(Some(i + 1));
            }
        }
        position = match position.checked_add(adv) {
            Some(v) => v,
            None => {
                return None;
            },
        };
        i = i + 1;
    }
    Some(None)
}

proof fn lemma_encode_nonempty(t: Seq<char>)
    requires
        t.len() > 0,
    ensures
        encode_utf8(t).len() > 0,
{
    vstd::utf8::encode_utf8_first_scalar(t);
}

/// A prefix of a text encodes to at most as many bytes as the text.
proof fn lemma_encode_take_len(t: Seq<char>, p: int)
    requires
        0 <= p <= t.len(),
    ensures
        encode_utf8(t.take(p)).len() <= encode_utf8(t).len(),
    decreases t.len(),
{
    if p > 0 {
        let tp = t.take(p);
        assert(tp[0] == t[0]);
        assert(tp.drop_first() =~= t.drop_first().take(p - 1));
        lemma_encode_take_len(t.drop_first(), p - 1);
    } else {
        assert(t.take(0) =~= Seq::<char>::empty());
    }
}

/// A byte on a character boundary lies within the text.
proof fn lemma_boundary_within(t: Seq<char>, idx: int)
    requires
        on_boundary(t, idx),
    ensures
        0 <= idx <= byte_len(t),
{
    let p = choose|p: int| starts_at(t, p, idx);
    lemma_encode_take_len(t, p);
}

/// Applies the key events of a frame to the text and the cursor; `false` where an event
/// fails (then the text and cursor are left in between).
fn apply_keys(text: &mut String, cursor: &mut usize, kb: &KeyboardInfo) -> (ok: bool)
    requires
        kb.status@.len() >= kb.key@.len(),
    ensures
        ok == keys_fold(old(text)@, *old(cursor) as int, kb.key@, kb.status@, kb.key@.len() as int) is Some,
        ok ==> keys_fold(old(text)@, *old(cursor) as int, kb.key@, kb.status@, kb.key@.len() as int)
            == Some((final(text)@, *final(cursor) as int)),
{
    let ghost t0 = text@;
    let ghost c0 = *cursor as int;
    let mut i: usize = 0;
    while i < kb.key.len()
        invariant
            t0 == old(text)@,
            c0 == *old(cursor) as int,
            kb.status@.len() >= kb.key@.len(),
            i <= kb.key@.len(),
            keys_fold(t0, c0, kb.key@, kb.status@, i as int) == Some((text@, *cursor as int)),
        decreases kb.key.len() - i,
    {
        if kb.status[i] == ButtonStatus::Down {
            if kb.key[i] == KeyboardEnum::Leftarrow {
                if *cursor > 0 {
                    *cursor = *cursor - 1;
                }
            } else if kb.key[i] == KeyboardEnum::Rightarrow {
                if *cursor < text_bytes(text) {
                    *cursor = *cursor + 1;
                }
            } else if kb.key[i] == KeyboardEnum::Delete {
                if text_bytes(text) > *cursor {
                    if !boundary_at(text, *cursor) {
                        proof {
                            lemma_keys_fold_fails_after(t0, c0, kb.key@, kb.status@, i + 1, kb.key@.len() as int);
                        }
                        return false;
                    }
                    remove_char(text, *cursor);
                }
            }
        }
        i = i + 1;
    }
    true
}

/// Once a fold fails on a prefix, it fails on every longer prefix.
proof fn lemma_keys_fold_fails_after(
    t: Seq<char>,
    c: int,
    keys: Seq<KeyboardEnum>,
    sts: Seq<ButtonStatus>,
    m: int,
    n: int,
)
    requires
        0 <= m <= n,
        keys_fold(t, c, keys, sts, m) is None,
    ensures
        keys_fold(t, c, keys, sts, n) is None,
    decreases n - m,
{
    if m < n {
        lemma_keys_fold_fails_after(t, c, keys, sts, m, n - 1);
    }
}

proof fn lemma_typed_fold_fails_after(t: Seq<char>, c: int, chars: Seq<char>, max_char: i32, m: int, n: int)
    requires
        0 <= m <= n,
        typed_fold(t, c, chars, max_char, m) is None,
    ensures
        typed_fold(t, c, chars, max_char, n) is None,
    decreases n - m,
{
    if m < n {
        lemma_typed_fold_fails_after(t, c, chars, max_char, m, n - 1);
    }
}

/// A fold that succeeds on `n` characters succeeds on each shorter prefix.
proof fn lemma_typed_fold_prefix(t: Seq<char>, c: int, chars: Seq<char>, max_char: i32, m: int, n: int)
    requires
        0 <= m <= n,
        typed_fold(t, c, chars, max_char, n) is Some,
    ensures
        typed_fold(t, c, chars, max_char, m) is Some,
    decreases n - m,
{
    if m < n {
        lemma_typed_fold_prefix(t, c, chars, max_char, m + 1, n);
    }
}

/// Applies the typed characters of a frame to the text and the cursor; `false` where a
/// character fails (then the text and cursor are left in between).
fn apply_typed(text: &mut String, cursor: &mut usize, typed: &Vec<char>, max_char: i32) -> (ok: bool)
    ensures
        ok == typed_fold(old(text)@, *old(cursor) as int, typed@, max_char, typed@.len() as int) is Some,
        ok ==> typed_fold(old(text)@, *old(cursor) as int, typed@, max_char, typed@.len() as int)
            == Some((final(text)@, *final(cursor) as int)),
{
    let ghost t0 = text@;
    let ghost c0 = *cursor as int;
    let mut i: usize = 0;
    while i < typed.len()
        invariant
            t0 == old(text)@,
            c0 == *old(cursor) as int,
            i <= typed@.len(),
            typed_fold(t0, c0, typed@, max_char, i as int) == Some((text@, *cursor as int)),
        decreases typed.len() - i,
    {
        let c = typed[i];
        let low: u8 = ((c as u32) & 0xffu32) as u8;
        if low == 8 && text_bytes(text) > 0 {
            if *cursor == 0 || *cursor - 1 >= text_bytes(text) || !boundary_at(text, *cursor - 1) {
                proof {
                    lemma_typed_fold_fails_after(t0, c0, typed@, max_char, i + 1, typed@.len() as int);
                }
                return false;
            }
            remove_char(text, *cursor - 1);
            *cursor = *cursor - 1;
        } else if low >= 239 || low == 127 {
        } else {
            if text_bytes(text) < max_char as usize {
                if !boundary_at(text, *cursor) {
                    proof {
                        lemma_typed_fold_fails_after(t0, c0, typed@, max_char, i + 1, typed@.len() as int);
                    }
                    return false;
                }
                proof {
                    lemma_boundary_within(text@, *cursor as int);
                }
                insert_char(text, *cursor, c);
                *cursor = *cursor + 1;
            }
        }
        let n = text_bytes(text);
        if *cursor > n {
            *cursor = n;
        }
        i = i + 1;
    }
    true
}

/// Looks for a key event of `key` in status `st`; `None` where the search meets an event
/// of `key` that has no status before it finds one in status `st`.
fn find_event_checked(kb: &KeyboardInfo, key: KeyboardEnum, st: ButtonStatus) -> (r: Option<bool>)
    ensures
        r is None <==> !kb.lookup_safe(key, st),
        r matches Some(b) ==> b == kb.has_event(key, st),
{
    let mut i: usize = 0;
    while i < kb.key.len()
        invariant
            i <= kb.key@.len(),
            forall|j: int| 0 <= j < i && kb.key@[j] == key ==> j < kb.status@.len() && kb.status@[j] != st,
        decreases kb.key.len() - i,
    {
        if kb.key[i] == key {
            if i >= kb.status.len() {
                return None;
            }
            if kb.status[i] == st {
                return Some(true);
            }
        }
        i = i + 1;
    }
    Some(false)
}

/// One frame of a text box: see `text_box_step`. `in_box` says whether the mouse is over
/// the box, `lbutton_down` whether its left button is down; a click places the cursor by
/// the glyph widths `advances` of the text, the mouse at `mouse_x` and the box at `box_x`.
/// Returns `false`, leaving the state as it was, where the frame fails: a pixel offset of
/// the cursor placement overflows, or `text_box_step` fails.
pub fn update_text_box(
    state: &mut TextBoxResult,
    max_char: i32,
    in_box: bool,
    lbutton_down: bool,
    advances: &Vec<i32>,
    mouse_x: i32,
    box_x: i32,
    keyboardinfo: &KeyboardInfo,
    textinfo: &TextInfo,
) -> (ok: bool)
    requires
        advances@.len() == old(state).text_buffer@.len(),
    ensures
        ok == ({
            &&& (in_box && lbutton_down) ==> cursor_from(
                old(state).text_buffer@,
                advances@,
                mouse_x,
                box_x,
                0,
                0,
            ) is Some
            &&& text_box_step(
                box_view(*old(state)),
                in_box,
                lbutton_down,
                cursor_from(old(state).text_buffer@, advances@, mouse_x, box_x, 0, 0).unwrap(),
                *keyboardinfo,
                textinfo.character@,
                max_char,
            ) is Some
        }),
        ok ==> box_view(*final(state)) == text_box_step(
            box_view(*old(state)),
            in_box,
            lbutton_down,
            cursor_from(old(state).text_buffer@, advances@, mouse_x, box_x, 0, 0).unwrap(),
            *keyboardinfo,
            textinfo.character@,
            max_char,
        ).unwrap(),
        !ok ==> box_view(*final(state)) == box_view(*old(state)),
{
    let clicked_in = in_box && lbutton_down;
    let mut cursor = state.cursor;
    if clicked_in {
        match place_cursor(&state.text_buffer, advances, mouse_x, box_x) {
            None => {
                return false;
            },
            Some(Some(c)) => {
                cursor = c;
            },
            Some(None) => {},
        }
    }
    if !state.active {
        if clicked_in {
            state.active = true;
            state.cursor = cursor;
        }
        return true;
    }
    if !in_box && lbutton_down {
        state.active = false;
        return true;
    }
    match find_event_checked(keyboardinfo, KeyboardEnum::Enter, ButtonStatus::Down) {
        None => {
            return false;
        },
        Some(true) => {
            state.active = false;
            state.cursor = cursor;
            return true;
        },
        Some(false) => {},
    }
    if keyboardinfo.status.len() < keyboardinfo.key.len() {
        return false;
    }
    let mut text = state.text_buffer.clone();
    if !apply_keys(&mut text, &mut cursor, keyboardinfo) {
        return false;
    }
    if !apply_typed(&mut text, &mut cursor, &textinfo.character, max_char) {
        return false;
    }
    state.text_buffer = text;
    state.cursor = cursor;
    true
}

/// Typing never moves the cursor before the start of the text, and once a character has
/// been typed the cursor lies within the text.
pub proof fn lemma_typed_cursor_within(t: Seq<char>, c: int, chars: Seq<char>, max_char: i32, n: int)
    requires
        0 <= c,
        typed_fold(t, c, chars, max_char, n) is Some,
    ensures
        0 <= typed_fold(t, c, chars, max_char, n).unwrap().1,
        n >= 1 ==> typed_fold(t, c, chars, max_char, n).unwrap().1 <= byte_len(
            typed_fold(t, c, chars, max_char, n).unwrap().0,
        ),
    decreases n,
{
    if n > 0 {
        lemma_typed_fold_prefix(t, c, chars, max_char, n - 1, n);
        lemma_typed_cursor_within(t, c, chars, max_char, n - 1);
        let (t2, c2) = typed_fold(t, c, chars, max_char, n - 1).unwrap();
        assert(typed_fold(t, c, chars, max_char, n) == typed_step(t2, c2, chars[n - 1], max_char));
        let ch = chars[n - 1];
        if low_byte(ch) == 8 && byte_len(t2) > 0 {
        } else if low_byte(ch) >= 239 || low_byte(ch) == 127 {
        } else if byte_len(t2) < (max_char as usize) {
        }
        let r = typed_step(t2, c2, ch, max_char).unwrap();
        assert(0 <= byte_len(r.0));
    }
}

// ---------------------------------------------------------------------------------------
// Bounds kept by editing ASCII text
// ---------------------------------------------------------------------------------------

/// ASCII text whose cursor lies within it and whose length is at most `max_char`.
pub open spec fn edit_bounded(t: Seq<char>, c: int, max_char: i32) -> bool {
    &&& is_ascii_chars(t)
    &&& 0 <= c <= t.len()
    &&& t.len() <= max_char
}

/// In ASCII text each byte is one character: every byte up to the end is a boundary, and
/// the character that starts there has the byte's number.
proof fn lemma_ascii_boundary(t: Seq<char>, idx: int)
    requires
        is_ascii_chars(t),
        0 <= idx <= t.len(),
    ensures
        byte_len(t) == t.len(),
        on_boundary(t, idx),
        char_at_byte(t, idx) == idx,
{
    vstd::utf8::is_ascii_chars_encode_utf8(t);
    let pre = t.take(idx);
    assert(is_ascii_chars(pre)) by {
        assert forall|i| 0 <= i < pre.len() implies '\0' <= #[trigger] pre[i] <= '\u{7f}' by {
            assert(pre[i] == t[i]);
        }
    }
    vstd::utf8::is_ascii_chars_encode_utf8(pre);
    assert(starts_at(t, idx, idx));
    lemma_starts_at_unique(t, idx, idx);
}

proof fn lemma_ascii_remove(t: Seq<char>, p: int)
    requires
        is_ascii_chars(t),
        0 <= p < t.len(),
    ensures
        is_ascii_chars(t.remove(p)),
        t.remove(p).len() == t.len() - 1,
{
    let r = t.remove(p);
    assert forall|i| 0 <= i < r.len() implies '\0' <= #[trigger] r[i] <= '\u{7f}' by {
        if i < p {
            assert(r[i] == t[i]);
        } else {
            assert(r[i] == t[i + 1]);
        }
    }
}

proof fn lemma_ascii_insert(t: Seq<char>, p: int, c: char)
    requires
        is_ascii_chars(t),
        '\0' <= c <= '\u{7f}',
        0 <= p <= t.len(),
    ensures
        is_ascii_chars(t.insert(p, c)),
        t.insert(p, c).len() == t.len() + 1,
{
    let r = t.insert(p, c);
    assert forall|i| 0 <= i < r.len() implies '\0' <= #[trigger] r[i] <= '\u{7f}' by {
        if i < p {
            assert(r[i] == t[i]);
        } else if i == p {
            assert(r[i] == c);
        } else {
            assert(r[i] == t[i - 1]);
        }
    }
}

proof fn lemma_keys_keep_bounds(
    t: Seq<char>,
    c: int,
    keys: Seq<KeyboardEnum>,
    sts: Seq<ButtonStatus>,
    max_char: i32,
    n: int,
)
    requires
        edit_bounded(t, c, max_char),
        keys_fold(t, c, keys, sts, n) is Some,
    ensures
        edit_bounded(
            keys_fold(t, c, keys, sts, n).unwrap().0,
            keys_fold(t, c, keys, sts, n).unwrap().1,
            max_char,
        ),
    decreases n,
{
    if n > 0 {
        lemma_keys_keep_bounds(t, c, keys, sts, max_char, n - 1);
        let (t2, c2) = keys_fold(t, c, keys, sts, n - 1).unwrap();
        lemma_ascii_boundary(t2, c2);
        if c2 < t2.len() {
            lemma_ascii_remove(t2, c2);
        }
    }
}

proof fn lemma_typed_keep_bounds(t: Seq<char>, c: int, chars: Seq<char>, max_char: i32, n: int)
    requires
        edit_bounded(t, c, max_char),
        is_ascii_chars(chars),
        0 <= n <= chars.len(),
        typed_fold(t, c, chars, max_char, n) is Some,
    ensures
        edit_bounded(
            typed_fold(t, c, chars, max_char, n).unwrap().0,
            typed_fold(t, c, chars, max_char, n).unwrap().1,
            max_char,
        ),
    decreases n,
{
    if n > 0 {
        lemma_typed_keep_bounds(t, c, chars, max_char, n - 1);
        let (t2, c2) = typed_fold(t, c, chars, max_char, n - 1).unwrap();
        let ch = chars[n - 1];
        assert('\0' <= ch <= '\u{7f}');
        lemma_ascii_boundary(t2, c2);
        if c2 > 0 {
            lemma_ascii_boundary(t2, c2 - 1);
            lemma_ascii_remove(t2, c2 - 1);
            lemma_ascii_boundary(t2.remove(c2 - 1), 0);
        }
        lemma_ascii_insert(t2, c2, ch);
        lemma_ascii_boundary(t2.insert(c2, ch), 0);
        assert((max_char as usize) as int == max_char as int);
    }
}

/// A placed cursor lies within the text: it counts at most all of its characters.
proof fn lemma_cursor_from_within(
    text: Seq<char>,
    adv: Seq<i32>,
    mouse_x: i32,
    box_x: i32,
    i: int,
    position: int,
)
    requires
        0 <= i,
        text.len() <= usize::MAX,
    ensures
        cursor_from(text, adv, mouse_x, box_x, i, position) matches Some(Some(c)) ==> c
            <= text.len(),
    decreases text.len() - i,
{
    if i < text.len() {
        let a = adv[i] as int;
        lemma_cursor_from_within(text, adv, mouse_x, box_x, i + 1, position + a);
    }
}

/// Editing ASCII text with ASCII characters keeps it ASCII, keeps its length at most
/// `max_char` (where it started so), and keeps the cursor within it (where it started so):
/// every frame that succeeds, through clicks, arrows, delete, backspace and typing, whatever
/// the glyph widths `adv` a click is placed by.
pub proof fn lemma_text_box_bounds(
    v: TextBoxView,
    in_box: bool,
    lbutton_down: bool,
    adv: Seq<i32>,
    mouse_x: i32,
    box_x: i32,
    kb: KeyboardInfo,
    typed: Seq<char>,
    max_char: i32,
)
    requires
        edit_bounded(v.text, v.cursor, max_char),
        is_ascii_chars(typed),
        v.text.len() <= usize::MAX,
        (in_box && lbutton_down) ==> cursor_from(v.text, adv, mouse_x, box_x, 0, 0) is Some,
        text_box_step(
            v,
            in_box,
            lbutton_down,
            cursor_from(v.text, adv, mouse_x, box_x, 0, 0).unwrap(),
            kb,
            typed,
            max_char,
        ) is Some,
    ensures
        edit_bounded(
            text_box_step(
                v,
                in_box,
                lbutton_down,
                cursor_from(v.text, adv, mouse_x, box_x, 0, 0).unwrap(),
                kb,
                typed,
                max_char,
            ).unwrap().text,
            text_box_step(
                v,
                in_box,
                lbutton_down,
                cursor_from(v.text, adv, mouse_x, box_x, 0, 0).unwrap(),
                kb,
                typed,
                max_char,
            ).unwrap().cursor,
            max_char,
        ),
        byte_len(
            text_box_step(
                v,
                in_box,
                lbutton_down,
                cursor_from(v.text, adv, mouse_x, box_x, 0, 0).unwrap(),
                kb,
                typed,
                max_char,
            ).unwrap().text,
        ) == text_box_step(
            v,
            in_box,
            lbutton_down,
            cursor_from(v.text, adv, mouse_x, box_x, 0, 0).unwrap(),
            kb,
            typed,
            max_char,
        ).unwrap().text.len(),
{
    lemma_cursor_from_within(v.text, adv, mouse_x, box_x, 0, 0);
    let hit = cursor_from(v.text, adv, mouse_x, box_x, 0, 0).unwrap();
    let clicked_in = in_box && lbutton_down;
    let placed = match hit {
        Some(c) => c as int,
        None => v.cursor,
    };
    let c1 = if clicked_in { placed } else { v.cursor };
    assert(edit_bounded(v.text, c1, max_char));
    let r = text_box_step(v, in_box, lbutton_down, hit, kb, typed, max_char).unwrap();
    if v.active && !(!in_box && lbutton_down) && kb.lookup_safe(KeyboardEnum::Enter, ButtonStatus::Down)
        && !kb.has_event(KeyboardEnum::Enter, ButtonStatus::Down) && kb.status@.len()
        >= kb.key@.len() {
        let n = kb.key@.len() as int;
        lemma_keys_keep_bounds(v.text, c1, kb.key@, kb.status@, max_char, n);
        let (t2, c2) = keys_fold(v.text, c1, kb.key@, kb.status@, n).unwrap();
        lemma_typed_keep_bounds(t2, c2, typed, max_char, typed.len() as int);
    }
    lemma_ascii_boundary(r.text, 0);
}


/// A click inside an active box moves the cursor first: a frame in which the left button is
/// down inside the box and the click lands on cursor position `c` edits exactly as the same
/// keys and typed characters do, with no click, in the same box with its cursor at `c`.
pub proof fn lemma_click_then_edit(
    v: TextBoxView,
    c: usize,
    kb: KeyboardInfo,
    typed: Seq<char>,
    max_char: i32,
)
    requires
        v.active,
    ensures
        text_box_step(v, true, true, Some(c), kb, typed, max_char) == text_box_step(
            TextBoxView { text: v.text, active: true, cursor: c as int },
            true,
            false,
            None,
            kb,
            typed,
            max_char,
        ),
{
}

/// A click inside an inactive box activates it with the cursor where the click landed, and
/// changes nothing else.
pub proof fn lemma_click_activates(
    v: TextBoxView,
    c: usize,
    kb: KeyboardInfo,
    typed: Seq<char>,
    max_char: i32,
)
    requires
        !v.active,
    ensures
        text_box_step(v, true, true, Some(c), kb, typed, max_char) == Some(
            TextBoxView { text: v.text, active: true, cursor: c as int },
        ),
{
}


proof fn lemma_ascii_low_byte(c: char)
    requires
        '\0' <= c <= '\u{7f}',
    ensures
        low_byte(c) as u32 == c as u32,
{
    let x = c as u32;
    assert(x < 128);
    assert((x & 0xffu32) == x) by (bit_vector)
        requires
            x < 128,
    ;
}

/// Typing an ordinary ASCII character into ASCII text that is shorter than `max_char` puts it
/// in at the cursor and moves the cursor behind it; into text that is already `max_char` long,
/// it changes nothing.
pub proof fn lemma_typing_inserts_at_cursor(t: Seq<char>, cursor: int, c: char, max_char: i32)
    requires
        is_ascii_chars(t),
        0 <= cursor <= t.len(),
        '\0' <= c <= '\u{7f}',
        c != '\u{8}',
        c != '\u{7f}',
        0 <= max_char,
    ensures
        t.len() < max_char ==> typed_step(t, cursor, c, max_char) == Some(
            (t.subrange(0, cursor) + seq![c] + t.subrange(cursor, t.len() as int), cursor + 1),
        ),
        t.len() >= max_char ==> typed_step(t, cursor, c, max_char) == Some((t, cursor)),
{
    lemma_ascii_boundary(t, cursor);
    lemma_ascii_low_byte(c);
    if t.len() < max_char {
        lemma_ascii_insert(t, cursor, c);
        lemma_ascii_boundary(t.insert(cursor, c), 0);
        assert(t.insert(cursor, c) =~= t.subrange(0, cursor) + seq![c] + t.subrange(cursor, t.len() as int));
    }
}

/// Backspace in ASCII text takes out the character before the cursor and moves the cursor
/// back over it.
pub proof fn lemma_backspace_removes_before_cursor(t: Seq<char>, cursor: int, c: char, max_char: i32)
    requires
        is_ascii_chars(t),
        0 < cursor <= t.len(),
        c == '\u{8}',
    ensures
        typed_step(t, cursor, c, max_char) == Some(
            (t.subrange(0, cursor - 1) + t.subrange(cursor, t.len() as int), cursor - 1),
        ),
{
    lemma_ascii_boundary(t, cursor - 1);
    lemma_ascii_low_byte(c);
    lemma_ascii_remove(t, cursor - 1);
    lemma_ascii_boundary(t.remove(cursor - 1), 0);
    assert(t.remove(cursor - 1) =~= t.subrange(0, cursor - 1) + t.subrange(cursor, t.len() as int));
}

/// The keys on ASCII text: `Delete` takes out the character at the cursor (at the end it does
/// nothing), the arrows move the cursor one character within the text.
pub proof fn lemma_keys_on_ascii(t: Seq<char>, cursor: int)
    requires
        is_ascii_chars(t),
        0 <= cursor <= t.len(),
    ensures
        cursor < t.len() ==> key_step(t, cursor, KeyboardEnum::Delete, ButtonStatus::Down) == Some(
            (t.subrange(0, cursor) + t.subrange(cursor + 1, t.len() as int), cursor),
        ),
        cursor == t.len() ==> key_step(t, cursor, KeyboardEnum::Delete, ButtonStatus::Down) == Some(
            (t, cursor),
        ),
        key_step(t, cursor, KeyboardEnum::Leftarrow, ButtonStatus::Down) == Some(
            (t, if cursor > 0 { cursor - 1 } else { 0 }),
        ),
        key_step(t, cursor, KeyboardEnum::Rightarrow, ButtonStatus::Down) == Some(
            (t, if cursor < t.len() { cursor + 1 } else { cursor }),
        ),
{
    lemma_ascii_boundary(t, cursor);
    if cursor < t.len() {
        assert(t.remove(cursor) =~= t.subrange(0, cursor) + t.subrange(cursor + 1, t.len() as int));
    }
}

} // verus!
