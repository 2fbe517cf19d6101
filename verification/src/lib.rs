//! Verified core of a set of UI entity commands: the rendering of an entity
//! hierarchy as log lines, the ordering of themes and pseudo themes when a
//! theme is refreshed, and the updates of the pseudo-state, stopwatch-lock,
//! text and cursor data that the commands write.

pub mod entity;
pub mod hierarchy;
pub mod theme_refresh;
pub mod pseudo_states;
pub mod stopwatch_lock;
pub mod text;
pub mod cursor;
pub mod ui_surface;
