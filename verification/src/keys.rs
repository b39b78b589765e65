//! Keys, mouse events and areas of the screen.

use vstd::prelude::*;

verus! {

/// The keys that the launcher tells apart.
#[derive(Debug, Clone, Copy, PartialEq, Eq, Structural)]
pub enum KeyCode {
    Esc,
    Enter,
    Tab,
    Up,
    Down,
    Left,
    Right,
    Backspace,
    Delete,
    Home,
    End,
    Char(char),
    /// Any other key.
    Other,
}

/// What happened to a key.
#[derive(Debug, Clone, Copy, PartialEq, Eq, Structural)]
pub enum KeyKind {
    Press,
    Repeat,
    Release,
}

/// The modifier bit of the shift key.
pub const SHIFT: u8 = 1;

/// The modifier bit of the control key.
pub const CONTROL: u8 = 2;

/// The modifier bits of the control and alt keys together.
pub const CONTROL_ALT: u8 = 6;

/// A key event.
#[derive(Debug, Clone, Copy, PartialEq, Eq, Structural)]
pub struct KeyEvent {
    pub code: KeyCode,
    /// The modifier keys that are held: 1 for shift, 2 for control, 4 for alt,
    /// 8 for super, 16 for hyper and 32 for meta.
    pub modifiers: u8,
    pub kind: KeyKind,
}

/// What the mouse did.
#[derive(Debug, Clone, Copy, PartialEq, Eq, Structural)]
pub enum MouseKind {
    /// The left button went down.
    LeftDown,
    ScrollUp,
    ScrollDown,
    /// Anything else.
    Other,
}

/// A mouse event.
#[derive(Debug, Clone, Copy, PartialEq, Eq, Structural)]
pub struct MouseEvent {
    pub kind: MouseKind,
    pub column: u16,
    pub row: u16,
}

/// An area of the screen.
#[derive(Debug, Clone, Copy, PartialEq, Eq, Structural)]
pub struct Rect {
    pub x: u16,
    pub y: u16,
    pub width: u16,
    pub height: u16,
}

impl KeyEvent {
    /// Whether the event is a character with nothing but the control key held.
    pub open spec fn is_control(self, c: char) -> bool {
        self.code == KeyCode::Char(c) && self.modifiers == CONTROL
    }

    /// Whether the event is a character with nothing but the control key held.
    pub fn control(&self, c: char) -> (r: bool)
        ensures
            r == self.is_control(c),
    {
        match self.code {
            KeyCode::Char(d) => c == d && self.modifiers == CONTROL,
            _ => false,
        }
    }

    /// Whether the event puts its character into a line of text.
    pub open spec fn types(self) -> bool {
        &&& self.code is Char
        &&& self.kind != KeyKind::Release
        &&& self.modifiers == 0 || self.modifiers == SHIFT || self.modifiers == CONTROL_ALT
    }

    /// Whether the event presses a key with no modifier held.
    pub open spec fn presses(self, code: KeyCode) -> bool {
        self.code == code && self.modifiers == 0 && self.kind != KeyKind::Release
    }

    /// Whether the event does nothing to a line of text.
    pub open spec fn leaves_text(self) -> bool {
        ||| self.kind == KeyKind::Release
        ||| self.code is Esc
        ||| self.code is Enter
        ||| self.code is Tab
        ||| self.code is Up
        ||| self.code is Down
        ||| self.code is Other
    }
}

impl Rect {
    /// Whether the far corner of the area has coordinates.
    pub open spec fn fits(self) -> bool {
        self.x + self.width <= u16::MAX && self.y + self.height <= u16::MAX
    }

    /// Whether a cell lies in the area.
    pub open spec fn holds(self, column: int, row: int) -> bool {
        self.x <= column < self.x + self.width && self.y <= row < self.y + self.height
    }

    /// The row of a bordered list in the area that a cell lies on.
    pub open spec fn list_row(self, column: int, row: int) -> Option<int> {
        if self.x < column < self.x + self.width - 1 && self.y < row < self.y + self.height - 1 {
            Some(row - self.y - 1)
        } else {
            None
        }
    }
}

/// Whether the far corner of an area has coordinates.
pub fn rect_fits(rect: Rect) -> (r: bool)
    ensures
        r == rect.fits(),
{
    rect.x <= u16::MAX - rect.width && rect.y <= u16::MAX - rect.height
}

/// Whether a cell lies in an area.
pub fn rect_contains(rect: Rect, col: u16, row: u16) -> (r: bool)
    requires
        rect.fits(),
    ensures
        r == rect.holds(col as int, row as int),
{
    col >= rect.x && col < rect.x + rect.width && row >= rect.y && row < rect.y + rect.height
}

/// The row of a bordered list in an area that a cell lies on, counted from 0
/// below the top border. There is none on the border and outside the area.
pub fn click_row_in_list(rect: Rect, col: u16, row: u16) -> (r: Option<usize>)
    requires
        rect.fits(),
    ensures
        match r {
            Some(n) => rect.list_row(col as int, row as int) == Some(n as int),
            None => rect.list_row(col as int, row as int) is None,
        },
{
    if rect.width < 2 || col <= rect.x || col >= rect.x + (rect.width - 1) {
        return None;
    }
    if rect.height < 2 || row <= rect.y || row >= rect.y + (rect.height - 1) {
        return None;
    }
    Some((row - rect.y - 1) as usize)
}

} // verus!
