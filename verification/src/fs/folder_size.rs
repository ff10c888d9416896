//! Folder sizes, measured on demand, and the cache that keeps a
//! measurement from being repeated.
//!
//! The walk reads directories and is the caller's; what it counts, when it
//! stops descending, and when a remembered measurement is still to be
//! trusted is decided here. Times are given as numbers: a monotonic clock
//! reading in nanoseconds, and a folder's modification time in nanoseconds
//! from the Unix epoch.

use vstd::prelude::*;

use crate::ordered::TextMap;

verus! {

/// How deep a measurement walks.
pub const MAX_DEPTH: usize = 64;

/// How many folders' sizes are remembered.
pub const MAX_CACHED: usize = 4096;

/// How long a measurement is trusted when nothing looks changed, in
/// nanoseconds: ten minutes.
pub const FRESH_FOR_NANOS: u128 = 600_000_000_000;

/// What a measurement found.
#[derive(Debug, Clone, Copy, PartialEq, Eq, Structural)]
pub struct FolderSize {
    /// Total bytes of every file beneath the folder.
    pub bytes: u64,
    /// How many files were counted.
    pub files: u64,
    /// How many directories were entered.
    pub folders: u64,
    /// Whether the walk stopped early, at the depth bound, on cancellation
    /// or at something it could not read.
    pub partial: bool,
}

impl FolderSize {
    /// Nothing measured yet.
    pub fn empty() -> (r: Self)
        ensures
            r == (FolderSize { bytes: 0, files: 0, folders: 0, partial: false }),
    {
        FolderSize { bytes: 0, files: 0, folders: 0, partial: false }
    }

    /// A file of `bytes` bytes was found; a symlink is never reported.
    pub fn add_file(&mut self, bytes: u64)
        requires
            old(self).files < u64::MAX,
        ensures
            final(self).files == old(self).files + 1,
            final(self).bytes == crate::imaging::layout::sat_add(old(self).bytes as int, bytes as int),
            final(self).folders == old(self).folders,
            final(self).partial == old(self).partial,
    {
        self.files = self.files + 1;
        self.bytes = self.bytes.saturating_add(bytes);
    }

    /// A directory was found in a directory at `depth` (the measured folder
    /// is at 0). Says whether to descend: not past the depth bound, which
    /// makes the total partial instead.
    pub fn enter_folder(&mut self, depth: usize) -> (descend: bool)
        requires
            old(self).folders < u64::MAX,
        ensures
            final(self).folders == old(self).folders + 1,
            descend == (depth < MAX_DEPTH),
            final(self).partial == (old(self).partial || !descend),
            final(self).bytes == old(self).bytes,
            final(self).files == old(self).files,
    {
        self.folders = self.folders + 1;
        if depth >= MAX_DEPTH {
            self.partial = true;
            false
        } else {
            true
        }
    }

    /// Something was missed: cancelled, or unreadable.
    pub fn mark_partial(&mut self)
        ensures
            *final(self) == (FolderSize { partial: true, ..*old(self) }),
    {
        self.partial = true;
    }
}

/// A remembered measurement: the size, when it was taken, and the folder's
/// own modification time then.
#[derive(Debug, Clone, Copy, PartialEq, Eq, Structural)]
pub struct Cached {
    /// What was measured.
    pub size: FolderSize,
    /// The monotonic clock when it was measured.
    pub measured_at: u128,
    /// The folder's modification time when it was measured.
    pub folder_mtime: Option<i128>,
}

/// Whether a remembered measurement is still to be trusted at `now`, with
/// the folder's modification time now `mtime`: not older than
/// [`FRESH_FOR_NANOS`], and the folder not changed directly.
pub open spec fn still_fresh(c: Cached, now: u128, mtime: Option<i128>) -> bool {
    (now <= c.measured_at || now - c.measured_at <= FRESH_FOR_NANOS) && mtime == c.folder_mtime
}

/// Measurements, kept so that walking away and back does not re-measure.
#[derive(Debug)]
pub struct SizeCache {
    entries: TextMap<String, Cached>,
}

impl SizeCache {
    /// The measurements held, by path.
    pub closed spec fn map(&self) -> TextMap<String, Cached> {
        self.entries
    }

    /// What asking for `path` at `now`, with the folder's modification
    /// time now `mtime`, gives.
    pub open spec fn lookup(&self, path: Seq<char>, now: u128, mtime: Option<i128>) -> Option<FolderSize> {
        if self.map().has(path) && still_fresh(self.map().value_of(path), now, mtime) {
            Some(self.map().value_of(path).size)
        } else {
            None
        }
    }

    /// Well formed, and never more than [`MAX_CACHED`] entries.
    pub open spec fn wf(&self) -> bool {
        self.map().wf() && self.map().entries().len() <= MAX_CACHED
    }

    /// Empty.
    pub fn new() -> (r: Self)
        ensures
            r.wf(),
            r.map().entries().len() == 0,
    {
        SizeCache { entries: TextMap::new() }
    }

    /// The remembered size for `path`, if it is still to be trusted at
    /// `now` with the folder's modification time now `mtime`.
    pub fn get(&self, path: &str, now: u128, mtime: Option<i128>) -> (r: Option<FolderSize>)
        requires
            self.wf(),
        ensures
            r == self.lookup(path@, now, mtime),
    {
        match self.entries.get(path) {
            None => None,
            Some(c) => {
                if now > c.measured_at && now - c.measured_at > FRESH_FOR_NANOS {
                    return None;
                }
                if mtime != c.folder_mtime {
                    return None;
                }
                Some(c.size)
            },
        }
    }

    /// Remember a measurement of `path` taken at `now`, when the folder's
    /// modification time was `mtime`. A full cache is emptied first: the
    /// cost of forgetting is another walk, not an error.
    pub fn insert(&mut self, path: String, size: FolderSize, now: u128, mtime: Option<i128>)
        requires
            old(self).wf(),
        ensures
            final(self).wf(),
            final(self).map().has(path@),
            final(self).map().value_of(path@) == (Cached { size, measured_at: now, folder_mtime: mtime }),
            old(self).map().entries().len() >= MAX_CACHED ==> final(self).map().entries().len() == 1,
            old(self).map().entries().len() < MAX_CACHED ==> forall|k: Seq<char>| k != path@ ==> (
                final(self).map().has(k) == old(self).map().has(k) && (old(self).map().has(k)
                    ==> final(self).map().value_of(k) == old(self).map().value_of(k))),
    {
        if self.entries.len() >= MAX_CACHED {
            self.entries = TextMap::new();
        }
        self.entries.insert(path, Cached { size, measured_at: now, folder_mtime: mtime });
    }

    /// Forget `path`, so the next request measures again.
    pub fn invalidate(&mut self, path: &str)
        requires
            old(self).wf(),
        ensures
            final(self).wf(),
            !final(self).map().has(path@),
            forall|k: Seq<char>| k != path@ ==> (final(self).map().has(k) == old(self).map().has(k)
                && (old(self).map().has(k) ==> final(self).map().value_of(k) == old(self).map().value_of(k))),
    {
        self.entries.remove(path);
    }

    /// Forget everything.
    pub fn clear(&mut self)
        ensures
            final(self).wf(),
            final(self).map().entries().len() == 0,
    {
        self.entries = TextMap::new();
    }

    /// How many measurements are held.
    pub fn len(&self) -> (r: usize)
        ensures
            r == self.map().entries().len(),
    {
        self.entries.len()
    }

    /// Whether nothing is held.
    pub fn is_empty(&self) -> (r: bool)
        ensures
            r == (self.map().entries().len() == 0),
    {
        self.entries.len() == 0
    }
}

/// What is remembered is what is given back: once a measurement of a
/// folder is held, asking for it at the moment it was taken, with the
/// folder unchanged, gives that measurement.
pub proof fn law_a_remembered_size_is_returned(cache: SizeCache, path: Seq<char>, size: FolderSize, now: u128, mtime: Option<i128>)
    requires
        cache.wf(),
        cache.map().has(path),
        cache.map().value_of(path) == (Cached { size, measured_at: now, folder_mtime: mtime }),
    ensures
        cache.lookup(path, now, mtime) == Some(size),
{
}

/// A measurement is not trusted once the folder has changed directly,
/// however recent it is.
pub proof fn law_a_changed_folder_is_measured_again(cache: SizeCache, path: Seq<char>, now: u128, mtime: Option<i128>)
    requires
        cache.wf(),
        cache.map().has(path),
        cache.map().value_of(path).folder_mtime != mtime,
    ensures
        cache.lookup(path, now, mtime) is None,
{
}

} // verus!
