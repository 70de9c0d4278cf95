//! Tests of what keys and the mouse do.

use mapscii::input::{decide, Action, Input, Key, Mouse, Reload};

#[test]
fn keys_navigate() {
    let key = |c: char| decide(Input::Key(Key::Char(c)));
    assert_eq!(key('q'), Action::Quit);
    assert_eq!(decide(Input::Key(Key::Esc)), Action::Quit);
    assert_eq!(key('a'), Action::ZoomIn);
    assert_eq!(key('z'), Action::ZoomOut);
    assert_eq!(key('y'), Action::ZoomOut);
    assert_eq!(key('c'), Action::ToggleBraille);
    assert_eq!(key('x'), Action::Nothing);
    assert_eq!(key('h'), decide(Input::Key(Key::Left)));
    assert_eq!(key('l'), decide(Input::Key(Key::Right)));
    assert_eq!(key('k'), decide(Input::Key(Key::Up)));
    assert_eq!(key('j'), decide(Input::Key(Key::Down)));
    assert_eq!(key('h'), Action::Move { lat: 0, lon: -8 });
    assert_eq!(key('k'), Action::Move { lat: 6, lon: 0 });
}

#[test]
fn the_mouse_zooms_and_drags() {
    assert_eq!(decide(Input::Mouse(Mouse::ScrollUp)), Action::ZoomIn);
    assert_eq!(decide(Input::Mouse(Mouse::ScrollDown)), Action::ZoomOut);
    assert_eq!(decide(Input::Mouse(Mouse::LeftDown(3, 4))), Action::DragStart(3, 4));
    assert_eq!(decide(Input::Mouse(Mouse::LeftDrag(5, 6))), Action::DragTo(5, 6));
    assert_eq!(decide(Input::Mouse(Mouse::LeftUp)), Action::DragEnd);
    assert_eq!(decide(Input::Resize), Action::Redraw);
}

#[test]
fn tiles_are_loaded_after_a_rest() {
    let mut reload = Reload::new();
    assert!(!reload.is_due(49));
    assert!(reload.is_due(50));
    assert!(!reload.is_due(1000));
    assert!(reload.note(Action::ZoomIn, true));
    assert!(reload.is_due(60));
    // A drag that was not active changes nothing.
    assert!(!reload.note(Action::DragEnd, false));
    assert!(!reload.note(Action::ToggleBraille, true));
    assert!(!reload.is_due(1000));
    assert!(reload.note(Action::DragTo(1, 1), true));
    assert!(reload.pending);
}
