use bevy::window::CursorIcon;
use ui_commands::cursor::SetCursor;

#[test]
fn set_cursor_writes_only_when_different() {
    let mut current = Some(CursorIcon::Default);
    assert!(SetCursor { cursor: CursorIcon::Pointer }.apply(&mut current));
    assert_eq!(current, Some(CursorIcon::Pointer));
    assert!(!SetCursor { cursor: CursorIcon::Pointer }.apply(&mut current));
    assert_eq!(current, Some(CursorIcon::Pointer));
}

#[test]
fn set_cursor_without_primary_window_does_nothing() {
    let mut current: Option<CursorIcon> = None;
    assert!(!SetCursor { cursor: CursorIcon::Text }.apply(&mut current));
    assert_eq!(current, None);
}
