//! Keyboard, mouse and text input as the operating system layers report it.
use vstd::prelude::*;

verus! {

/// Whether a button is up or down.
#[derive(PartialEq, Eq, Structural, Copy, Clone, Debug)]
pub enum ButtonStatus {
    Up,
    Down,
}

impl Default for ButtonStatus {
    fn default() -> (b: ButtonStatus)
        ensures
            b == ButtonStatus::Up,
    {
        ButtonStatus::Up
    }
}

/// A two-button mouse with a wheel.
#[derive(Debug)]
pub struct MouseInfo {
    pub x: i32,
    pub y: i32,
    pub delta_x: i32,
    pub delta_y: i32,
    pub lbutton: ButtonStatus,
    pub old_lbutton: ButtonStatus,
    pub double_lbutton: bool,
    pub rbutton: ButtonStatus,
    pub old_rbutton: ButtonStatus,
    pub wheel: isize,
    pub wheel_delta: i32,
}

impl MouseInfo {
    /// A mouse at the origin, not moving, with both buttons up.
    pub fn new() -> (m: MouseInfo)
        ensures
            m.x == 0 && m.y == 0 && m.delta_x == 0 && m.delta_y == 0,
            m.lbutton == ButtonStatus::Up && m.old_lbutton == ButtonStatus::Up,
            !m.double_lbutton,
            m.rbutton == ButtonStatus::Up && m.old_rbutton == ButtonStatus::Up,
            m.wheel == 0 && m.wheel_delta == 0,
    {
        MouseInfo {
            x: 0,
            y: 0,
            delta_x: 0,
            delta_y: 0,
            lbutton: ButtonStatus::Up,
            old_lbutton: ButtonStatus::Up,
            double_lbutton: false,
            rbutton: ButtonStatus::Up,
            old_rbutton: ButtonStatus::Up,
            wheel: 0,
            wheel_delta: 0,
        }
    }

    /// The left button was just released: it is up and was down before.
    pub fn lclicked(&self) -> (r: bool)
        ensures
            r == (self.lbutton == ButtonStatus::Up && self.old_lbutton == ButtonStatus::Down),
    {
        self.lbutton == ButtonStatus::Up && self.old_lbutton == ButtonStatus::Down
    }

    /// The right button was just released: it is up and was down before.
    pub fn rclicked(&self) -> (r: bool)
        ensures
            r == (self.rbutton == ButtonStatus::Up && self.old_rbutton == ButtonStatus::Down),
    {
        self.rbutton == ButtonStatus::Up && self.old_rbutton == ButtonStatus::Down
    }
}

/// The keys that the program tells apart.
#[derive(PartialEq, Eq, Structural, Copy, Clone, Debug)]
pub enum KeyboardEnum {
    A, B, C, D, E, F, G, H, I, J, K, L, M, N, O, P, Q, R, S, T, U, V, W, X, Y, Z,
    N1, N2, N3, N4, N5, N6, N7, N8, N9, N0,
    Pad1, Pad2, Pad3, Pad4, Pad5, Pad6, Pad7, Pad8, Pad9, Pad0,
    F1, F2, F3, F4, F5, F6, F7, F8, F9, F10, F11, F12,
    Lctrl, Rctrl, Ctrl,
    Lshift, Rshift, Shift,
    _Fn,
    Cmd,
    Tab,
    Space,
    Rightarrow,
    Leftarrow,
    Uparrow,
    Downarrow,
    Enter,
    Delete,
    Backspace,
    Default,
}

/// The characters typed, with their times.
pub struct TextInfo {
    pub character: Vec<char>,
    pub timing: Vec<i32>,
}

/// The key events of a frame: `key[i]` went to `status[i]`.
pub struct KeyboardInfo {
    pub key: Vec<KeyboardEnum>,
    pub status: Vec<ButtonStatus>,
}

/// A key event as the macOS layer reports it: `keydown` is 1 for down, 2 for up.
pub struct KeyMessageMacOS {
    pub keycode: usize,
    pub keydown: usize,
}

/// The keys that a table maps code `code` to, in table order.
pub open spec fn keys_for(table: Seq<(u64, KeyboardEnum)>, code: u64) -> Seq<KeyboardEnum>
    decreases table.len(),
{
    if table.len() == 0 {
        Seq::empty()
    } else {
        let rest = keys_for(table.drop_last(), code);
        if table.last().0 == code {
            rest.push(table.last().1)
        } else {
            rest
        }
    }
}

pub open spec fn status_of(is_down: bool) -> ButtonStatus {
    if is_down {
        ButtonStatus::Down
    } else {
        ButtonStatus::Up
    }
}

/// The macOS key codes.
pub open spec fn macos_table() -> Seq<(u64, KeyboardEnum)> {
    seq![
        (0x7B, KeyboardEnum::Leftarrow), (0x7C, KeyboardEnum::Rightarrow),
        (0x7E, KeyboardEnum::Uparrow), (0x7D, KeyboardEnum::Downarrow),
        (0x31, KeyboardEnum::Space), (0x24, KeyboardEnum::Enter), (117, KeyboardEnum::Delete),
        (51, KeyboardEnum::Backspace), (0x38, KeyboardEnum::Shift), (0x3B, KeyboardEnum::Ctrl),
        (0x30, KeyboardEnum::Tab),
        (0x00, KeyboardEnum::A), (0x0B, KeyboardEnum::B), (0x08, KeyboardEnum::C),
        (0x02, KeyboardEnum::D), (0x0E, KeyboardEnum::E), (0x03, KeyboardEnum::F),
        (0x05, KeyboardEnum::G), (0x04, KeyboardEnum::H), (0x22, KeyboardEnum::I),
        (0x26, KeyboardEnum::J), (0x28, KeyboardEnum::K), (0x25, KeyboardEnum::L),
        (0x2E, KeyboardEnum::M), (0x2D, KeyboardEnum::N), (0x1F, KeyboardEnum::O),
        (0x23, KeyboardEnum::P), (0x0C, KeyboardEnum::Q), (0x0F, KeyboardEnum::R),
        (0x01, KeyboardEnum::S), (0x11, KeyboardEnum::T), (0x20, KeyboardEnum::U),
        (0x09, KeyboardEnum::V), (0x0D, KeyboardEnum::W), (0x07, KeyboardEnum::X),
        (0x10, KeyboardEnum::Y), (0x06, KeyboardEnum::Z)
    ]
}

/// The Windows virtual-key codes.
pub open spec fn windows_table() -> Seq<(u64, KeyboardEnum)> {
    seq![
        (0x25, KeyboardEnum::Leftarrow), (0x27, KeyboardEnum::Rightarrow),
        (0x26, KeyboardEnum::Uparrow), (0x28, KeyboardEnum::Downarrow),
        (0x20, KeyboardEnum::Space), (0x0D, KeyboardEnum::Enter), (0x2E, KeyboardEnum::Delete),
        (0xA0, KeyboardEnum::Lshift), (0xA1, KeyboardEnum::Rshift), (0x10, KeyboardEnum::Shift),
        (0xA2, KeyboardEnum::Lctrl), (0xA3, KeyboardEnum::Rctrl), (0x11, KeyboardEnum::Ctrl),
        (0x09, KeyboardEnum::Tab),
        (0x70, KeyboardEnum::F1), (0x71, KeyboardEnum::F2), (0x72, KeyboardEnum::F3),
        (0x73, KeyboardEnum::F4), (0x74, KeyboardEnum::F5), (0x75, KeyboardEnum::F6),
        (0x76, KeyboardEnum::F7), (0x77, KeyboardEnum::F8), (0x78, KeyboardEnum::F9),
        (0x79, KeyboardEnum::F10), (0x7A, KeyboardEnum::F11), (0x7B, KeyboardEnum::F12),
        (0x60, KeyboardEnum::Pad0), (0x61, KeyboardEnum::Pad1), (0x62, KeyboardEnum::Pad2),
        (0x63, KeyboardEnum::Pad3), (0x64, KeyboardEnum::Pad4), (0x65, KeyboardEnum::Pad5),
        (0x66, KeyboardEnum::Pad6), (0x67, KeyboardEnum::Pad7), (0x68, KeyboardEnum::Pad8),
        (0x69, KeyboardEnum::Pad9),
        (0x30, KeyboardEnum::N0), (0x31, KeyboardEnum::N1), (0x32, KeyboardEnum::N2),
        (0x33, KeyboardEnum::N3), (0x34, KeyboardEnum::N4), (0x35, KeyboardEnum::N5),
        (0x36, KeyboardEnum::N6), (0x37, KeyboardEnum::N7), (0x38, KeyboardEnum::N8),
        (0x39, KeyboardEnum::N9),
        (0x41, KeyboardEnum::A), (0x42, KeyboardEnum::B), (0x43, KeyboardEnum::C),
        (0x44, KeyboardEnum::D), (0x45, KeyboardEnum::E), (0x46, KeyboardEnum::F),
        (0x47, KeyboardEnum::G), (0x48, KeyboardEnum::H), (0x49, KeyboardEnum::I),
        (0x4A, KeyboardEnum::J), (0x4B, KeyboardEnum::K), (0x4C, KeyboardEnum::L),
        (0x4D, KeyboardEnum::M), (0x4E, KeyboardEnum::N), (0x4F, KeyboardEnum::O),
        (0x50, KeyboardEnum::P), (0x51, KeyboardEnum::Q), (0x52, KeyboardEnum::R),
        (0x53, KeyboardEnum::S), (0x54, KeyboardEnum::T), (0x55, KeyboardEnum::U),
        (0x56, KeyboardEnum::V), (0x57, KeyboardEnum::W), (0x58, KeyboardEnum::X),
        (0x59, KeyboardEnum::Y), (0x5A, KeyboardEnum::Z)
    ]
}

/// The X11 key symbols.
pub open spec fn linux_table() -> Seq<(u64, KeyboardEnum)> {
    seq![
        (0xff51, KeyboardEnum::Leftarrow), (0xff53, KeyboardEnum::Rightarrow),
        (0xff52, KeyboardEnum::Uparrow), (0xff54, KeyboardEnum::Downarrow),
        (0x0020, KeyboardEnum::Space), (0xff0d, KeyboardEnum::Enter), (0xffff, KeyboardEnum::Delete),
        (0xffe1, KeyboardEnum::Lshift), (0xffe2, KeyboardEnum::Rshift),
        (0xffe1, KeyboardEnum::Shift), (0xffe2, KeyboardEnum::Shift),
        (0xffe3, KeyboardEnum::Lctrl), (0xffe4, KeyboardEnum::Rctrl),
        (0xffe3, KeyboardEnum::Ctrl), (0xffe4, KeyboardEnum::Ctrl),
        (0xff09, KeyboardEnum::Tab),
        (0xffbe, KeyboardEnum::F1), (0xffbf, KeyboardEnum::F2), (0xffc0, KeyboardEnum::F3),
        (0xffc1, KeyboardEnum::F4), (0xffc2, KeyboardEnum::F5), (0xffc3, KeyboardEnum::F6),
        (0xffc4, KeyboardEnum::F7),
        (0x61, KeyboardEnum::A), (0x62, KeyboardEnum::B), (0x63, KeyboardEnum::C),
        (0x64, KeyboardEnum::D), (0x65, KeyboardEnum::E), (0x66, KeyboardEnum::F),
        (0x67, KeyboardEnum::G), (0x68, KeyboardEnum::H), (0x69, KeyboardEnum::I),
        (0x6a, KeyboardEnum::J), (0x6b, KeyboardEnum::K), (0x6c, KeyboardEnum::L),
        (0x6d, KeyboardEnum::M), (0x6e, KeyboardEnum::N), (0x6f, KeyboardEnum::O),
        (0x70, KeyboardEnum::P), (0x71, KeyboardEnum::Q), (0x72, KeyboardEnum::R),
        (0x73, KeyboardEnum::S), (0x74, KeyboardEnum::T), (0x75, KeyboardEnum::U),
        (0x76, KeyboardEnum::V), (0x77, KeyboardEnum::W), (0x78, KeyboardEnum::X),
        (0x79, KeyboardEnum::Y), (0x7a, KeyboardEnum::Z)
    ]
}


fn macos_keys() -> (t: Vec<(u64, KeyboardEnum)>)
    ensures
        t@ == macos_table(),
{
    vec![
        (0x7B, KeyboardEnum::Leftarrow), (0x7C, KeyboardEnum::Rightarrow),
        (0x7E, KeyboardEnum::Uparrow), (0x7D, KeyboardEnum::Downarrow),
        (0x31, KeyboardEnum::Space), (0x24, KeyboardEnum::Enter), (117, KeyboardEnum::Delete),
        (51, KeyboardEnum::Backspace), (0x38, KeyboardEnum::Shift), (0x3B, KeyboardEnum::Ctrl),
        (0x30, KeyboardEnum::Tab),
        (0x00, KeyboardEnum::A), (0x0B, KeyboardEnum::B), (0x08, KeyboardEnum::C),
        (0x02, KeyboardEnum::D), (0x0E, KeyboardEnum::E), (0x03, KeyboardEnum::F),
        (0x05, KeyboardEnum::G), (0x04, KeyboardEnum::H), (0x22, KeyboardEnum::I),
        (0x26, KeyboardEnum::J), (0x28, KeyboardEnum::K), (0x25, KeyboardEnum::L),
        (0x2E, KeyboardEnum::M), (0x2D, KeyboardEnum::N), (0x1F, KeyboardEnum::O),
        (0x23, KeyboardEnum::P), (0x0C, KeyboardEnum::Q), (0x0F, KeyboardEnum::R),
        (0x01, KeyboardEnum::S), (0x11, KeyboardEnum::T), (0x20, KeyboardEnum::U),
        (0x09, KeyboardEnum::V), (0x0D, KeyboardEnum::W), (0x07, KeyboardEnum::X),
        (0x10, KeyboardEnum::Y), (0x06, KeyboardEnum::Z)
    ]
}

fn windows_keys() -> (t: Vec<(u64, KeyboardEnum)>)
    ensures
        t@ == windows_table(),
{
    vec![
        (0x25, KeyboardEnum::Leftarrow), (0x27, KeyboardEnum::Rightarrow),
        (0x26, KeyboardEnum::Uparrow), (0x28, KeyboardEnum::Downarrow),
        (0x20, KeyboardEnum::Space), (0x0D, KeyboardEnum::Enter), (0x2E, KeyboardEnum::Delete),
        (0xA0, KeyboardEnum::Lshift), (0xA1, KeyboardEnum::Rshift), (0x10, KeyboardEnum::Shift),
        (0xA2, KeyboardEnum::Lctrl), (0xA3, KeyboardEnum::Rctrl), (0x11, KeyboardEnum::Ctrl),
        (0x09, KeyboardEnum::Tab),
        (0x70, KeyboardEnum::F1), (0x71, KeyboardEnum::F2), (0x72, KeyboardEnum::F3),
        (0x73, KeyboardEnum::F4), (0x74, KeyboardEnum::F5), (0x75, KeyboardEnum::F6),
        (0x76, KeyboardEnum::F7), (0x77, KeyboardEnum::F8), (0x78, KeyboardEnum::F9),
        (0x79, KeyboardEnum::F10), (0x7A, KeyboardEnum::F11), (0x7B, KeyboardEnum::F12),
        (0x60, KeyboardEnum::Pad0), (0x61, KeyboardEnum::Pad1), (0x62, KeyboardEnum::Pad2),
        (0x63, KeyboardEnum::Pad3), (0x64, KeyboardEnum::Pad4), (0x65, KeyboardEnum::Pad5),
        (0x66, KeyboardEnum::Pad6), (0x67, KeyboardEnum::Pad7), (0x68, KeyboardEnum::Pad8),
        (0x69, KeyboardEnum::Pad9),
        (0x30, KeyboardEnum::N0), (0x31, KeyboardEnum::N1), (0x32, KeyboardEnum::N2),
        (0x33, KeyboardEnum::N3), (0x34, KeyboardEnum::N4), (0x35, KeyboardEnum::N5),
        (0x36, KeyboardEnum::N6), (0x37, KeyboardEnum::N7), (0x38, KeyboardEnum::N8),
        (0x39, KeyboardEnum::N9),
        (0x41, KeyboardEnum::A), (0x42, KeyboardEnum::B), (0x43, KeyboardEnum::C),
        (0x44, KeyboardEnum::D), (0x45, KeyboardEnum::E), (0x46, KeyboardEnum::F),
        (0x47, KeyboardEnum::G), (0x48, KeyboardEnum::H), (0x49, KeyboardEnum::I),
        (0x4A, KeyboardEnum::J), (0x4B, KeyboardEnum::K), (0x4C, KeyboardEnum::L),
        (0x4D, KeyboardEnum::M), (0x4E, KeyboardEnum::N), (0x4F, KeyboardEnum::O),
        (0x50, KeyboardEnum::P), (0x51, KeyboardEnum::Q), (0x52, KeyboardEnum::R),
        (0x53, KeyboardEnum::S), (0x54, KeyboardEnum::T), (0x55, KeyboardEnum::U),
        (0x56, KeyboardEnum::V), (0x57, KeyboardEnum::W), (0x58, KeyboardEnum::X),
        (0x59, KeyboardEnum::Y), (0x5A, KeyboardEnum::Z)
    ]
}

fn linux_keys() -> (t: Vec<(u64, KeyboardEnum)>)
    ensures
        t@ == linux_table(),
{
    vec![
        (0xff51, KeyboardEnum::Leftarrow), (0xff53, KeyboardEnum::Rightarrow),
        (0xff52, KeyboardEnum::Uparrow), (0xff54, KeyboardEnum::Downarrow),
        (0x0020, KeyboardEnum::Space), (0xff0d, KeyboardEnum::Enter), (0xffff, KeyboardEnum::Delete),
        (0xffe1, KeyboardEnum::Lshift), (0xffe2, KeyboardEnum::Rshift),
        (0xffe1, KeyboardEnum::Shift), (0xffe2, KeyboardEnum::Shift),
        (0xffe3, KeyboardEnum::Lctrl), (0xffe4, KeyboardEnum::Rctrl),
        (0xffe3, KeyboardEnum::Ctrl), (0xffe4, KeyboardEnum::Ctrl),
        (0xff09, KeyboardEnum::Tab),
        (0xffbe, KeyboardEnum::F1), (0xffbf, KeyboardEnum::F2), (0xffc0, KeyboardEnum::F3),
        (0xffc1, KeyboardEnum::F4), (0xffc2, KeyboardEnum::F5), (0xffc3, KeyboardEnum::F6),
        (0xffc4, KeyboardEnum::F7),
        (0x61, KeyboardEnum::A), (0x62, KeyboardEnum::B), (0x63, KeyboardEnum::C),
        (0x64, KeyboardEnum::D), (0x65, KeyboardEnum::E), (0x66, KeyboardEnum::F),
        (0x67, KeyboardEnum::G), (0x68, KeyboardEnum::H), (0x69, KeyboardEnum::I),
        (0x6a, KeyboardEnum::J), (0x6b, KeyboardEnum::K), (0x6c, KeyboardEnum::L),
        (0x6d, KeyboardEnum::M), (0x6e, KeyboardEnum::N), (0x6f, KeyboardEnum::O),
        (0x70, KeyboardEnum::P), (0x71, KeyboardEnum::Q), (0x72, KeyboardEnum::R),
        (0x73, KeyboardEnum::S), (0x74, KeyboardEnum::T), (0x75, KeyboardEnum::U),
        (0x76, KeyboardEnum::V), (0x77, KeyboardEnum::W), (0x78, KeyboardEnum::X),
        (0x79, KeyboardEnum::Y), (0x7a, KeyboardEnum::Z)
    ]
}

/// `n` copies of the status that `is_down` names.
pub open spec fn statuses(n: nat, is_down: bool) -> Seq<ButtonStatus> {
    Seq::new(n, |i: int| status_of(is_down))
}

impl KeyboardInfo {
    /// Every event of `key` that a search for status `st` reaches has a status: the search
    /// meets an event of `key` in status `st` before it runs past the statuses.
    pub open spec fn lookup_safe(&self, key: KeyboardEnum, st: ButtonStatus) -> bool {
        forall|i: int|
            0 <= i < self.key@.len() && self.key@[i] == key && i >= self.status@.len() ==> exists|j: int|
                0 <= j < i && j < self.status@.len() && self.key@[j] == key && self.status@[j] == st
    }

    /// Key `key` went to status `st` this frame.
    pub open spec fn has_event(&self, key: KeyboardEnum, st: ButtonStatus) -> bool {
        exists|i: int|
            0 <= i < self.key@.len() && i < self.status@.len() && self.key@[i] == key
                && self.status@[i] == st
    }

    fn find_event(&self, key: KeyboardEnum, st: ButtonStatus) -> (r: bool)
        requires
            self.lookup_safe(key, st),
        ensures
            r == self.has_event(key, st),
    {
        let mut i: usize = 0;
        while i < self.key.len()
            invariant
                i <= self.key@.len(),
                self.lookup_safe(key, st),
                forall|j: int|
                    0 <= j < i && j < self.status@.len() && self.key@[j] == key ==> self.status@[j]
                        != st,
            decreases self.key.len() - i,
        {
            if self.key[i] == key {
                if i >= self.status.len() {
                    proof {
                        let j = choose|j: int|
                            0 <= j < i && j < self.status@.len() && self.key@[j] == key
                                && self.status@[j] == st;
                    }
                }
                if self.status[i] == st {
                    return true;
                }
            }
            i = i + 1;
        }
        false
    }

    /// Key `key` was released this frame.
    pub fn is_key_released(&self, key: KeyboardEnum) -> (r: bool)
        requires
            self.lookup_safe(key, ButtonStatus::Up),
        ensures
            r == self.has_event(key, ButtonStatus::Up),
    {
        self.find_event(key, ButtonStatus::Up)
    }

    /// Key `key` was pressed this frame.
    pub fn is_key_pressed(&self, key: KeyboardEnum) -> (r: bool)
        requires
            self.lookup_safe(key, ButtonStatus::Down),
        ensures
            r == self.has_event(key, ButtonStatus::Down),
    {
        self.find_event(key, ButtonStatus::Down)
    }

    /// Records that `key` went down (`is_down`) or up.
    pub fn record_key(&mut self, key: KeyboardEnum, is_down: bool)
        ensures
            final(self).key@ == old(self).key@.push(key),
            final(self).status@ == old(self).status@.push(status_of(is_down)),
    {
        self.key.push(key);
        if is_down {
            self.status.push(ButtonStatus::Down);
        } else {
            self.status.push(ButtonStatus::Up);
        }
    }

    /// Records an event for each entry of `table` with code `code`, in table order.
    fn record_matching(&mut self, table: &Vec<(u64, KeyboardEnum)>, code: u64, is_down: bool)
        ensures
            final(self).key@ == old(self).key@ + keys_for(table@, code),
            final(self).status@ == old(self).status@ + statuses(
                keys_for(table@, code).len(),
                is_down,
            ),
    {
        let ghost k0 = self.key@;
        let ghost s0 = self.status@;
        let mut i: usize = 0;
        assert(table@.take(0) =~= Seq::<(u64, KeyboardEnum)>::empty());
        assert(self.key@ =~= k0 + keys_for(table@.take(0), code));
        assert(self.status@ =~= s0 + statuses(keys_for(table@.take(0), code).len(), is_down));
        while i < table.len()
            invariant
                i <= table@.len(),
                self.key@ == k0 + keys_for(table@.take(i as int), code),
                self.status@ == s0 + statuses(keys_for(table@.take(i as int), code).len(), is_down),
            decreases table.len() - i,
        {
            let ghost before = keys_for(table@.take(i as int), code);
            assert(table@.take(i + 1).drop_last() =~= table@.take(i as int));
            if table[i].0 == code {
                self.record_key(table[i].1, is_down);
                assert(self.key@ =~= k0 + keys_for(table@.take(i + 1), code));
                assert(self.status@ =~= s0 + statuses(keys_for(table@.take(i + 1), code).len(), is_down));
            }
            i = i + 1;
        }
        assert(table@.take(i as int) =~= table@);
    }

    /// Records a macOS key event (`keydown` 1 or 2), for the keys that its code names.
    pub fn update_keyboardinfo_macos(&mut self, message: KeyMessageMacOS)
        ensures
            (message.keydown == 1 || message.keydown == 2) ==> {
                &&& final(self).key@ == old(self).key@ + keys_for(macos_table(), message.keycode as u64)
                &&& final(self).status@ == old(self).status@ + statuses(
                    keys_for(macos_table(), message.keycode as u64).len(),
                    message.keydown == 1,
                )
            },
            !(message.keydown == 1 || message.keydown == 2) ==> final(self).key@ == old(self).key@
                && final(self).status@ == old(self).status@,
    {
        if message.keydown == 1 || message.keydown == 2 {
            let is_down = message.keydown == 1;
            let table = macos_keys();
            self.record_matching(&table, message.keycode as u64, is_down);
        }
    }

    /// Records a Windows key message (key down `0x0100` or key up `0x0101`), for the keys
    /// that its virtual-key code `wparam` names.
    pub fn update_keyboardinfo_windows(&mut self, message: u32, wparam: usize)
        ensures
            (message == 0x0100 || message == 0x0101) ==> {
                &&& final(self).key@ == old(self).key@ + keys_for(windows_table(), wparam as u64)
                &&& final(self).status@ == old(self).status@ + statuses(
                    keys_for(windows_table(), wparam as u64).len(),
                    message == 0x0100,
                )
            },
            !(message == 0x0100 || message == 0x0101) ==> final(self).key@ == old(self).key@
                && final(self).status@ == old(self).status@,
    {
        if message == 0x0100 || message == 0x0101 {
            let is_down = message == 0x0100;
            let table = windows_keys();
            self.record_matching(&table, wparam as u64, is_down);
        }
    }

    /// Records an X11 key event for the keys that key symbol `message` names.
    pub fn update_keyboardinfo_linux(&mut self, message: u64, keystatus: bool)
        ensures
            final(self).key@ == old(self).key@ + keys_for(linux_table(), message),
            final(self).status@ == old(self).status@ + statuses(
                keys_for(linux_table(), message).len(),
                keystatus,
            ),
    {
        let table = linux_keys();
        self.record_matching(&table, message, keystatus);
    }
}

} // verus!
