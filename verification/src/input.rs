//! What keys and the mouse do, and when the map is loaded anew.

use vstd::prelude::*;

verus! {

/// A key that was pressed.
#[derive(Debug, Clone, Copy)]
pub enum Key {
    Char(char),
    Esc,
    Left,
    Right,
    Up,
    Down,
    Other,
}

/// What the mouse did, at a column and row where it matters.
#[derive(Debug, Clone, Copy)]
pub enum Mouse {
    ScrollUp,
    ScrollDown,
    LeftDown(u16, u16),
    LeftUp,
    LeftDrag(u16, u16),
    Other,
}

/// An event of the terminal.
#[derive(Debug, Clone, Copy)]
pub enum Input {
    Key(Key),
    Mouse(Mouse),
    Resize,
    Other,
}

/// What an event asks for.
#[derive(Debug, Clone, Copy, PartialEq, Eq, Structural)]
pub enum Action {
    Quit,
    /// Zoom in by the zoom step.
    ZoomIn,
    /// Zoom out by the zoom step.
    ZoomOut,
    /// Move the center by so many degrees of latitude and longitude at zoom
    /// level 0; each further level halves them.
    Move { lat: i8, lon: i8 },
    ToggleBraille,
    DragStart(u16, u16),
    DragTo(u16, u16),
    DragEnd,
    Redraw,
    Nothing,
}

/// What a key asks for: the arrow keys and `h`, `j`, `k`, `l` move, `a` and `z`
/// (or `y`) zoom, `c` toggles Braille, `q` and escape quit.
pub open spec fn key_action(key: Key) -> Action {
    match key {
        Key::Esc => Action::Quit,
        Key::Left => Action::Move { lat: 0, lon: (-8) as i8 },
        Key::Right => Action::Move { lat: 0, lon: 8 },
        Key::Up => Action::Move { lat: 6, lon: 0 },
        Key::Down => Action::Move { lat: (-6) as i8, lon: 0 },
        Key::Char(c) => if c == 'q' {
            Action::Quit
        } else if c == 'a' {
            Action::ZoomIn
        } else if c == 'z' || c == 'y' {
            Action::ZoomOut
        } else if c == 'h' {
            Action::Move { lat: 0, lon: (-8) as i8 }
        } else if c == 'l' {
            Action::Move { lat: 0, lon: 8 }
        } else if c == 'k' {
            Action::Move { lat: 6, lon: 0 }
        } else if c == 'j' {
            Action::Move { lat: (-6) as i8, lon: 0 }
        } else if c == 'c' {
            Action::ToggleBraille
        } else {
            Action::Nothing
        },
        Key::Other => Action::Nothing,
    }
}

/// What the mouse asks for: the wheel zooms, the left button drags.
pub open spec fn mouse_action(mouse: Mouse) -> Action {
    match mouse {
        Mouse::ScrollUp => Action::ZoomIn,
        Mouse::ScrollDown => Action::ZoomOut,
        Mouse::LeftDown(col, row) => Action::DragStart(col, row),
        Mouse::LeftUp => Action::DragEnd,
        Mouse::LeftDrag(col, row) => Action::DragTo(col, row),
        Mouse::Other => Action::Nothing,
    }
}

/// What an event asks for.
pub open spec fn input_action(input: Input) -> Action {
    match input {
        Input::Key(key) => key_action(key),
        Input::Mouse(mouse) => mouse_action(mouse),
        Input::Resize => Action::Redraw,
        Input::Other => Action::Nothing,
    }
}

fn decide_key(key: Key) -> (r: Action)
    ensures
        r == key_action(key),
{
    match key {
        Key::Esc => Action::Quit,
        Key::Left => Action::Move { lat: 0, lon: -8 },
        Key::Right => Action::Move { lat: 0, lon: 8 },
        Key::Up => Action::Move { lat: 6, lon: 0 },
        Key::Down => Action::Move { lat: -6, lon: 0 },
        Key::Char('q') => Action::Quit,
        Key::Char('a') => Action::ZoomIn,
        Key::Char('z') => Action::ZoomOut,
        Key::Char('y') => Action::ZoomOut,
        Key::Char('h') => Action::Move { lat: 0, lon: -8 },
        Key::Char('l') => Action::Move { lat: 0, lon: 8 },
        Key::Char('k') => Action::Move { lat: 6, lon: 0 },
        Key::Char('j') => Action::Move { lat: -6, lon: 0 },
        Key::Char('c') => Action::ToggleBraille,
        Key::Char(_) => Action::Nothing,
        Key::Other => Action::Nothing,
    }
}

/// Decide what an event asks for.
pub fn decide(input: Input) -> (r: Action)
    ensures
        r == input_action(input),
{
    match input {
        Input::Key(key) => decide_key(key),
        Input::Mouse(mouse) => match mouse {
            Mouse::ScrollUp => Action::ZoomIn,
            Mouse::ScrollDown => Action::ZoomOut,
            Mouse::LeftDown(col, row) => Action::DragStart(col, row),
            Mouse::LeftUp => Action::DragEnd,
            Mouse::LeftDrag(col, row) => Action::DragTo(col, row),
            Mouse::Other => Action::Nothing,
        },
        Input::Resize => Action::Redraw,
        Input::Other => Action::Nothing,
    }
}

/// How long navigation has to rest before the map is loaded anew, in
/// milliseconds.
pub const DEBOUNCE_MS: u64 = 50;

/// Decides when the visible tiles are loaded.
#[derive(Debug, Clone, Copy, PartialEq, Eq, Structural)]
pub struct Reload {
    /// Whether the view changed since the tiles were loaded.
    pub pending: bool,
}

/// Whether an action that was carried out changes what is visible. A drag that
/// was not active changes nothing.
pub open spec fn changes_view(action: Action, carried_out: bool) -> bool {
    match action {
        Action::ZoomIn | Action::ZoomOut | Action::Move { .. } | Action::Redraw => true,
        Action::DragTo(_, _) | Action::DragEnd => carried_out,
        _ => false,
    }
}

impl Reload {
    /// At the start the tiles are to be loaded.
    pub fn new() -> (r: Self)
        ensures
            r.pending,
    {
        Reload { pending: true }
    }

    /// Note an action. Returns whether the time since the last navigation
    /// starts anew.
    pub fn note(&mut self, action: Action, carried_out: bool) -> (r: bool)
        ensures
            r == changes_view(action, carried_out),
            final(self).pending == (old(self).pending || r),
    {
        let changes: bool = match action {
            Action::ZoomIn | Action::ZoomOut | Action::Move { .. } | Action::Redraw => true,
            Action::DragTo(_, _) | Action::DragEnd => carried_out,
            _ => false,
        };
        if changes {
            self.pending = true;
        }
        changes
    }

    /// Whether the tiles are to be loaded now, so long after the last
    /// navigation. If so, nothing is pending any more.
    pub fn is_due(&mut self, elapsed_ms: u64) -> (r: bool)
        ensures
            r == (old(self).pending && elapsed_ms >= DEBOUNCE_MS),
            final(self).pending == (old(self).pending && !r),
    {
        if self.pending && elapsed_ms >= DEBOUNCE_MS {
            self.pending = false;
            true
        } else {
            false
        }
    }
}

/// The arrow keys and their letters do the same. Up and down move along the
/// meridian, to the north and to the south, left and right along the parallel,
/// to the west and to the east, each key as far as its opposite.
pub proof fn law_opposite_keys_undo_each_other()
    ensures
        input_action(Input::Key(Key::Left)) == input_action(Input::Key(Key::Char('h'))),
        input_action(Input::Key(Key::Down)) == input_action(Input::Key(Key::Char('j'))),
        input_action(Input::Key(Key::Up)) == input_action(Input::Key(Key::Char('k'))),
        input_action(Input::Key(Key::Right)) == input_action(Input::Key(Key::Char('l'))),
        input_action(Input::Key(Key::Up)) matches Action::Move { lat: north, lon: up }
            && input_action(Input::Key(Key::Down)) matches Action::Move { lat: south, lon: down }
            && north == 6 && south == -6 && up == 0 && down == 0,
        input_action(Input::Key(Key::Right)) matches Action::Move { lat: right, lon: east }
            && input_action(Input::Key(Key::Left)) matches Action::Move { lat: left, lon: west }
            && east == 8 && west == -8 && right == 0 && left == 0,
        input_action(Input::Key(Key::Char('a'))) == Action::ZoomIn,
        input_action(Input::Mouse(Mouse::ScrollUp)) == Action::ZoomIn,
        input_action(Input::Key(Key::Char('z'))) == Action::ZoomOut,
        input_action(Input::Key(Key::Char('y'))) == Action::ZoomOut,
        input_action(Input::Mouse(Mouse::ScrollDown)) == Action::ZoomOut,
        input_action(Input::Key(Key::Char('q'))) == Action::Quit,
        input_action(Input::Key(Key::Esc)) == Action::Quit,
        input_action(Input::Key(Key::Char('c'))) == Action::ToggleBraille,
        input_action(Input::Resize) == Action::Redraw,
{
}

/// Only escape and `q` quit, only `c` toggles Braille, and a letter without a
/// meaning does nothing.
pub proof fn law_other_keys_do_nothing(c: char)
    ensures
        (input_action(Input::Key(Key::Char(c))) == Action::Quit) == (c == 'q'),
        (input_action(Input::Key(Key::Char(c))) == Action::ToggleBraille) == (c == 'c'),
        (input_action(Input::Key(Key::Char(c))) == Action::ZoomIn) == (c == 'a'),
        (input_action(Input::Key(Key::Char(c))) == Action::ZoomOut) == (c == 'z' || c == 'y'),
        (input_action(Input::Key(Key::Char(c))) is Move) == (c == 'h' || c == 'j' || c == 'k' || c
            == 'l'),
        (input_action(Input::Key(Key::Char(c))) == Action::Nothing) == !(c == 'q' || c == 'c' || c
            == 'a' || c == 'z' || c == 'y' || c == 'h' || c == 'j' || c == 'k' || c == 'l'),
{
}

/// A drag starts and goes on where the mouse is, column first; it ends with the
/// button. Starting a drag shows nothing new; going on and ending do exactly if
/// a drag was active; zooming, moving and resizing always do.
pub proof fn law_drags_follow_the_mouse(col: u16, row: u16, lat: i8, lon: i8, active: bool)
    ensures
        input_action(Input::Mouse(Mouse::LeftDown(col, row))) matches Action::DragStart(c, r) && c
            == col && r == row,
        input_action(Input::Mouse(Mouse::LeftDrag(col, row))) matches Action::DragTo(c, r) && c
            == col && r == row,
        input_action(Input::Mouse(Mouse::LeftUp)) == Action::DragEnd,
        !changes_view(input_action(Input::Mouse(Mouse::LeftDown(col, row))), active),
        changes_view(input_action(Input::Mouse(Mouse::LeftDrag(col, row))), active) == active,
        changes_view(input_action(Input::Mouse(Mouse::LeftUp)), active) == active,
        changes_view(Action::ZoomIn, active) && changes_view(Action::ZoomOut, active),
        changes_view(Action::Move { lat, lon }, active),
        changes_view(input_action(Input::Resize), active),
        !changes_view(Action::ToggleBraille, active) && !changes_view(Action::Nothing, active),
        !changes_view(Action::Quit, active),
{
}

} // verus!
