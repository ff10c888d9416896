//! Writing a disk image to a removable disk: a byte pump with progress,
//! cancellation, a checksum and a read-back comparison, the stages of the
//! whole operation, and what an image's own tables say its length is.

pub mod crc;
pub mod layout;
pub mod run;
pub mod write;

pub use crc::Crc32;
pub use layout::{declared_from, Declared, Layout};
pub use run::{Silent, Stage, Watcher};
pub use write::{copy, pad_to_sector, verify, Report, CHUNK, SECTOR};
