//! The command that sets the cursor icon of the primary window.
use vstd::prelude::*;

use bevy::window::CursorIcon;

verus! {

#[verifier::external_type_specification]
#[verifier::external_body]
pub struct ExCursorIcon(CursorIcon);

/// Compares two cursor icons with `bevy::window::CursorIcon`'s `PartialEq`,
/// which is derived on an enum whose variants carry no data: the contract
/// claims that it holds exactly when the two icons are the same variant.
#[verifier::external_body]
fn same_cursor_icon(a: &CursorIcon, b: &CursorIcon) -> (same: bool)
    ensures
        same == (*a == *b),
{
    *a == *b
}

/// Whether setting `requested` writes the cursor icon of the primary window,
/// whose icon is `current` (`None` when there is not exactly one primary
/// window): only when there is one and its icon differs.
pub open spec fn cursor_written(current: Option<CursorIcon>, requested: CursorIcon) -> bool {
    current.is_some() && current.unwrap() != requested
}

/// The cursor icon of the primary window after `requested` is set.
pub open spec fn cursor_after(current: Option<CursorIcon>, requested: CursorIcon) -> Option<
    CursorIcon,
> {
    match current {
        Some(_) => Some(requested),
        None => None,
    }
}

/// The command that sets the cursor icon of the primary window.
pub struct SetCursor {
    pub cursor: CursorIcon,
}

impl SetCursor {
    /// Applies the command to the cursor icon of the primary window
    /// (`None` when there is not exactly one primary window, and then nothing
    /// changes). The icon is written only when it differs from the requested
    /// one; returns whether it was written.
    pub fn apply(self, window_cursor: &mut Option<CursorIcon>) -> (written: bool)
        ensures
            written == cursor_written(*old(window_cursor), self.cursor),
            *final(window_cursor) == cursor_after(*old(window_cursor), self.cursor),
    {
        match window_cursor {
            Some(icon) => {
                if !same_cursor_icon(icon, &self.cursor) {
                    *icon = self.cursor;
                    true
                } else {
                    false
                }
            },
            None => false,
        }
    }
}

/// Setting the cursor icon a second time to the same icon writes nothing.
pub proof fn lemma_cursor_set_once(current: Option<CursorIcon>, requested: CursorIcon)
    ensures
        !cursor_written(cursor_after(current, requested), requested),
        cursor_after(cursor_after(current, requested), requested) == cursor_after(
            current,
            requested,
        ),
{
}

} // verus!
