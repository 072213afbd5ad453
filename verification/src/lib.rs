//! A terminal image editor's core: colours, the escape-coded image format,
//! the character sheet, and the editor's reaction to key presses.

pub mod colour;
pub mod decimal;
pub mod escape;
pub mod image;
pub mod roundtrip;
pub mod editor;
