//! Results of the user-interface widgets, and the window geometry.
use vstd::prelude::*;

verus! {

/// What a button reports for a frame: whether the mouse is over it, whether it was
/// clicked, and the rectangle it covers (`x`, `y`, width, height).
pub struct ButtonResult {
    pub in_rect: bool,
    pub lclicked: bool,
    pub rect: [i32; 4],
}

impl Default for ButtonResult {
    fn default() -> (b: ButtonResult)
        ensures
            !b.in_rect,
            !b.lclicked,
            b.rect@ == seq![0i32, 0i32, 0i32, 0i32],
    {
        let b = ButtonResult { in_rect: false, lclicked: false, rect: [0, 0, 0, 0] };
        assert(b.rect@ =~= seq![0i32, 0i32, 0i32, 0i32]);
        b
    }
}

/// What a text box reports for a frame: its text, whether it takes input, and the cursor.
pub struct TextBoxResult {
    pub text_buffer: String,
    pub active: bool,
    pub cursor: usize,
}

/// The position and size of the program's window.
#[derive(PartialEq, Eq, Structural, Copy, Clone, Debug)]
pub struct WindowInfo {
    pub x: i32,
    pub y: i32,
    pub w: i32,
    pub h: i32,
}

impl Default for WindowInfo {
    fn default() -> (w: WindowInfo)
        ensures
            w.x == 0 && w.y == 0 && w.w == 0 && w.h == 0,
    {
        WindowInfo { x: 0, y: 0, w: 0, h: 0 }
    }
}

} // verus!
