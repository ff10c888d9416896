//! Editing a file as bytes: what to look for and finding it, which offset a
//! typed position means, and getting bytes out to somewhere else and back.
//!
//! Everything here is about bytes and offsets. Nothing knows about a window,
//! a font or a keystroke.

pub mod buffer;
pub mod clip;
pub mod find;
pub mod goto;
pub mod history;
pub mod session;

pub use buffer::{Buffer, Byte, Removed};
pub use clip::{parse_paste, render, Format, Pasted};
pub use find::{find_backward, find_forward, Bytes, Kind, Needle, Width};
pub use goto::resolve;
pub use history::History;
pub use session::{Bookmark, Column, Mode, Selection, Session, Summary};

