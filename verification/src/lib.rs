//! Terminal-oriented email body renderer.
//!
//! Converts HTML (or already-plain) email content into readable,
//! ANSI-colored, fixed-width terminal text, with heuristic detection of
//! tabular content, headers, and noisy markup artifacts.

pub mod cleanup;
pub mod laws;
pub mod layout;
pub mod render;
pub mod sync;
pub mod text;
