//! The decisions the filesystem layer makes: which host keys to trust,
//! where an archive's members may be written, how two folders compare,
//! what a folder's size is and where its space went.

pub mod archive;
pub mod compare;
pub mod connect;
pub mod folder_size;
pub mod host_keys;
pub mod local;
pub mod sessions;
pub mod tarball;
pub mod usage;

pub use compare::{pair_up, sort_rows, verdict, Comparison, Difference, Listed, Next, Pending, Progress, Row, Side, Walk};
pub use archive::{escapes, safe_destination, Extracted, Extraction, MemberPlan, MAX_MEMBER_BYTES, MAX_TOTAL_BYTES};
pub use tarball::{bare_listing, compression_of, inner_name, is_tar_header, listing, Compression, Kind, TarEntry, MAX_ENTRIES};
pub use local::{classify, EntryFacts, LocalProvider};
pub use host_keys::{entry_line, host_pattern, verify, HostKeyVerdict};
