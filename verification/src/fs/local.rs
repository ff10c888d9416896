//! The local filesystem: what each entry found in a real directory is.
//!
//! "Local" means reachable through the platform's ordinary file interface,
//! network mounts included. Reading the directory is the caller's part;
//! deciding what an entry is, from what the platform reported, is here.

use vstd::prelude::*;
use vstd::utf8::{decode_utf8, valid_utf8};

use crate::error::{Error, ErrorCode};
use crate::file::{Attributes, FileEntry, FileKind, PermissionsSummary, RawName, Timestamps};
use crate::location::{Location, Place};
use crate::naming::extension_of;
use crate::text::{ascii_lower, chars_eq, chars_of, lower_chars, rfind_char, slice_to_vec};

verus! {

/// Extensions of files treated as archives, so the interface can offer to
/// look inside and the rules for untrusted containers apply.
pub open spec fn archive_extensions() -> Seq<Seq<char>> {
    seq![
        "zip"@, "gz"@, "tgz"@, "bz2"@, "xz"@, "zst"@, "7z"@, "rar"@, "tar"@, "jar"@, "war"@,
        "iso"@, "dmg"@, "cab"@,
    ]
}

/// Extensions of directories presented as an application.
pub open spec fn bundle_extensions() -> Seq<Seq<char>> {
    seq!["app"@]
}

/// Extensions of other directories presented as a single item.
pub open spec fn package_extensions() -> Seq<Seq<char>> {
    seq![
        "bundle"@, "framework"@, "kext"@, "plugin"@, "rtfd"@, "pages"@, "numbers"@, "key"@,
        "photoslibrary"@,
    ]
}

/// What the platform reported of an entry, read without following a
/// symbolic link.
#[derive(Debug, Clone, Copy)]
pub struct EntryFacts {
    /// The entry is a symbolic link.
    pub is_symlink: bool,
    /// The entry is a directory.
    pub is_dir: bool,
    /// The entry is a regular file.
    pub is_file: bool,
    /// The length the platform reports, in bytes.
    pub len: u64,
    /// The platform marks it read-only.
    pub readonly: bool,
    /// The times reported.
    pub timestamps: Timestamps,
}

/// The extension of a stored name, lowercased, as the platform's path
/// handling finds it; none for a name that is not text.
pub open spec fn lower_extension(name: Seq<u8>) -> Option<Seq<char>> {
    if !valid_utf8(name) {
        None
    } else {
        match extension_of(decode_utf8(name)) {
            Some(e) => Some(e.map_values(|c: char| ascii_lower(c))),
            None => None,
        }
    }
}

/// Whether an extension is one of `list`.
pub open spec fn listed(list: Seq<Seq<char>>, extension: Option<Seq<char>>) -> bool {
    extension matches Some(e) && list.contains(e)
}

/// What an entry is, from what the platform reported of it: a link is a
/// link and never what it points at; a directory may be presented as an
/// application or a package, a file may be an archive, by extension; what
/// is neither is a device; with nothing reported, unknown.
pub open spec fn kind_for(facts: Option<EntryFacts>, name: Seq<u8>) -> FileKind {
    match facts {
        None => FileKind::Unknown,
        Some(f) => if f.is_symlink {
            FileKind::Symlink
        } else if f.is_dir {
            if listed(bundle_extensions(), lower_extension(name)) {
                FileKind::ApplicationBundle
            } else if listed(package_extensions(), lower_extension(name)) {
                FileKind::Package
            } else {
                FileKind::Directory
            }
        } else if f.is_file {
            if listed(archive_extensions(), lower_extension(name)) {
                FileKind::Archive
            } else {
                FileKind::File
            }
        } else {
            FileKind::Device
        },
    }
}

/// Whether a stored name is hidden by convention: text that starts with a
/// dot.
pub open spec fn dot_hidden(name: Seq<u8>) -> bool {
    valid_utf8(name) && decode_utf8(name).len() > 0 && decode_utf8(name)[0] == '.'
}

/// Whether `extension` is one of `list`.
fn in_list(list: &Vec<&'static str>, extension: &[char]) -> (r: bool)
    ensures
        r == list@.map_values(|s: &str| s@).contains(extension@),
{
    let ghost names = list@.map_values(|s: &str| s@);
    let mut k: usize = 0;
    while k < list.len()
        invariant
            k <= list@.len(),
            names == list@.map_values(|s: &str| s@),
            forall|j: int| 0 <= j < k ==> names[j] != extension@,
        decreases list.len() - k,
    {
        let candidate = chars_of(list[k]);
        if chars_eq(candidate.as_slice(), extension) {
            proof {
                assert(names[k as int] == extension@);
            }
            return true;
        }
        k += 1;
    }
    proof {
        if names.contains(extension@) {
            let j = choose|j: int| 0 <= j < names.len() && names[j] == extension@;
            assert(names[j] != extension@);
        }
    }
    false
}

/// The extensions treated as archives.
fn archive_list() -> (r: Vec<&'static str>)
    ensures
        r@.map_values(|s: &str| s@) == archive_extensions(),
{
    let r = vec![
        "zip", "gz", "tgz", "bz2", "xz", "zst", "7z", "rar", "tar", "jar", "war", "iso", "dmg",
        "cab",
    ];
    proof {
        assert(r@.map_values(|s: &str| s@) =~= archive_extensions());
    }
    r
}

/// The extensions of application directories.
fn bundle_list() -> (r: Vec<&'static str>)
    ensures
        r@.map_values(|s: &str| s@) == bundle_extensions(),
{
    let r = vec!["app"];
    proof {
        assert(r@.map_values(|s: &str| s@) =~= bundle_extensions());
    }
    r
}

/// The extensions of package directories.
fn package_list() -> (r: Vec<&'static str>)
    ensures
        r@.map_values(|s: &str| s@) == package_extensions(),
{
    let r = vec![
        "bundle", "framework", "kext", "plugin", "rtfd", "pages", "numbers", "key",
        "photoslibrary",
    ];
    proof {
        assert(r@.map_values(|s: &str| s@) =~= package_extensions());
    }
    r
}

/// The extension of a stored name, lowercased.
fn extension_lower(name: &RawName) -> (r: Option<Vec<char>>)
    ensures
        match lower_extension(name@) {
            Some(e) => r matches Some(v) && v@ == e,
            None => r is None,
        },
{
    let text = match name.to_str() {
        Some(text) => chars_of(text),
        None => return None,
    };
    match rfind_char(text.as_slice(), '.') {
        Some(dot) => {
            if dot > 0 && !(text.len() == 2 && text[0] == '.') {
                let tail = slice_to_vec(text.as_slice(), dot + 1, text.len());
                proof {
                    assert(tail@ == text@.skip(dot + 1));
                    assert(text@ != ".."@ ==> !(text@.len() == 2 && text@[0] == '.')) by {
                        if text@.len() == 2 && text@[0] == '.' {
                            assert(text@[1] == '.');
                            assert(text@ =~= ".."@) by {
                                reveal_strlit("..");
                            }
                        }
                    }
                    reveal_strlit("..");
                }
                Some(lower_chars(tail.as_slice()))
            } else {
                proof {
                    reveal_strlit("..");
                    if dot > 0 {
                        assert(text@ =~= ".."@);
                    }
                }
                None
            }
        },
        None => None,
    }
}

/// Whether an extension is listed.
fn listed_exec(list: &Vec<&'static str>, extension: &Option<Vec<char>>) -> (r: bool)
    ensures
        r == (extension matches Some(e) && list@.map_values(|s: &str| s@).contains(e@)),
{
    match extension {
        Some(e) => in_list(list, e.as_slice()),
        None => false,
    }
}

/// What an entry is, from what the platform reported of it.
pub fn classify(name: &RawName, facts: Option<EntryFacts>) -> (r: FileKind)
    ensures
        r == kind_for(facts, name@),
{
    let f = match facts {
        None => return FileKind::Unknown,
        Some(f) => f,
    };
    if f.is_symlink {
        return FileKind::Symlink;
    }
    let extension = extension_lower(name);
    let ghost ext = lower_extension(name@);
    proof {
        assert(match ext {
            Some(e) => extension matches Some(v) && v@ == e,
            None => extension is None,
        });
    }
    if f.is_dir {
        if listed_exec(&bundle_list(), &extension) {
            return FileKind::ApplicationBundle;
        }
        if listed_exec(&package_list(), &extension) {
            return FileKind::Package;
        }
        return FileKind::Directory;
    }
    if f.is_file {
        if listed_exec(&archive_list(), &extension) {
            return FileKind::Archive;
        }
        return FileKind::File;
    }
    FileKind::Device
}

/// Whether a stored name is hidden by the dot convention.
fn is_dot_hidden(name: &RawName) -> (r: bool)
    ensures
        r == dot_hidden(name@),
{
    match name.to_str() {
        Some(text) => {
            let chars = chars_of(text);
            chars.len() > 0 && chars[0] == '.'
        },
        None => false,
    }
}

/// Lists real directories.
#[derive(Debug, Clone, Copy, Default)]
pub struct LocalProvider;

impl LocalProvider {
    /// A provider.
    pub fn new() -> (r: Self) {
        LocalProvider
    }

    /// Whether this provider lists `location`: a path on a mounted
    /// filesystem, and nothing else.
    pub fn handles(&self, location: &Location) -> (r: bool)
        ensures
            r == (location@ is Local),
    {
        location.as_path().is_some()
    }

    /// The path to read when asked to list `location`: refused as
    /// unsupported for anything but a path on a mounted filesystem, rather
    /// than answered with an empty listing.
    pub fn target<'a>(&self, location: &'a Location) -> (r: Result<&'a str, Error>)
        ensures
            location@ matches Place::Local(p) ==> (r matches Ok(s) && s@ == p),
            !(location@ is Local) ==> (r matches Err(e) && e.spec_code() == ErrorCode::Unsupported),
    {
        match location.as_path() {
            Some(path) => Ok(path),
            None => Err(Error::new(ErrorCode::Unsupported, "not a local location")),
        }
    }

    /// The row for an entry found at `path` under the name `name`, from what
    /// the platform reported of it without following a link (none where it
    /// could not be read). A size is given for what is not a directory; the
    /// dot convention marks it hidden; system and cloud flags, and
    /// whether it can be executed, need the platform's own interfaces and are
    /// left unset rather than guessed; readability is assumed until an
    /// operation says otherwise.
    pub fn entry_from(path: &str, name: RawName, facts: Option<EntryFacts>) -> (r: FileEntry)
        ensures
            r.parts().location@ == Place::Local(path@),
            r.parts().raw_name == name@,
            r.parts().kind == kind_for(facts, name@),
            r.parts().content_type is None,
            facts is None ==> {
                &&& r.parts().size is None
                &&& r.parts().timestamps.is_blank()
                &&& r.parts().attributes == (Attributes {
                    hidden: false,
                    read_only: false,
                    system: false,
                    cloud_placeholder: false,
                })
                &&& r.parts().permissions == (PermissionsSummary {
                    readable: false,
                    writable: false,
                    executable: false,
                })
            },
            facts matches Some(f) ==> {
                &&& r.parts().size == (if f.is_dir { None } else { Some(f.len) })
                &&& r.parts().timestamps == f.timestamps
                &&& r.parts().attributes == (Attributes {
                    hidden: dot_hidden(name@),
                    read_only: f.readonly,
                    system: false,
                    cloud_placeholder: false,
                })
                &&& r.parts().permissions == (PermissionsSummary {
                    readable: true,
                    writable: !f.readonly,
                    executable: false,
                })
            },
    {
        let kind = classify(&name, facts);
        let hidden = is_dot_hidden(&name);
        let entry = FileEntry::new(Location::local(path), name, kind);
        match facts {
            None => entry,
            Some(f) => {
                let entry = if f.is_dir {
                    entry
                } else {
                    entry.with_size(f.len)
                };
                entry.with_timestamps(f.timestamps).with_attributes(
                    Attributes {
                        hidden,
                        read_only: f.readonly,
                        system: false,
                        cloud_placeholder: false,
                    },
                ).with_permissions(
                    PermissionsSummary { readable: true, writable: !f.readonly, executable: false },
                )
            },
        }
    }
}

} // verus!
