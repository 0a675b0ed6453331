//! What the selector shows: the host list's lines and the highlighted parts
//! of host names.

pub mod highlight;
pub mod renderer;
pub mod screen;
