//! Decision and layout core of a keyboard-driven hint menu.
//!
//! The crate models a hierarchical set of key bindings, lays every level of
//! the hierarchy out into pages of columns, resolves incoming key chords into
//! actions, and computes the pixel geometry a host needs in order to draw the
//! current page.  All window, drawing and input plumbing stays with the host;
//! the host hands measured text extents and keyboard symbols in as plain
//! values and receives actions and render instructions back.

pub mod anchor;
pub mod entry;
pub mod errors;
pub mod key;
pub mod keysym;
pub mod laws;
pub mod menu;
pub mod render;
pub mod strutil;
