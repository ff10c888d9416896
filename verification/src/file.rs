//! What an entry is, and the facts a platform reports about it.
//!
//! Richer than file or directory: the difference between a symlink, an
//! alias, a bundle and a package changes what the interface shows and what
//! an operation is allowed to do.

use vstd::prelude::*;
use vstd::utf8::{decode_utf8, encode_utf8, valid_utf8};

use crate::location::Location;
use crate::text::{ascii_lower, chars_of, lower_chars, rfind, rfind_char, slice_to_vec, string_of};

verus! {

/// What an entry actually is.
#[derive(Debug, Clone, Copy, PartialEq, Eq, Structural, Hash)]
#[non_exhaustive]
pub enum FileKind {
    /// A regular file.
    File,
    /// A directory.
    Directory,
    /// A symbolic link, never followed implicitly by a recursive delete.
    Symlink,
    /// A macOS alias, resolved through the platform adapter.
    Alias,
    /// An application bundle, presented as one item by default.
    ApplicationBundle,
    /// A non-application package directory presented as one item.
    Package,
    /// An archive, whose content is untrusted.
    Archive,
    /// A device node or similar special file.
    Device,
    /// An item on a remote provider that may not be present locally.
    RemoteItem,
    /// A row in a virtual result set, such as search results.
    VirtualResult,
    /// The kind could not be determined.
    Unknown,
}

impl FileKind {
    /// Whether the interface navigates into this entry by default: only a
    /// plain directory. Bundles and packages are directories on disk shown
    /// as single items, entered only on explicit request.
    pub fn is_navigable_by_default(self) -> (r: bool)
        ensures
            r == (self == FileKind::Directory),
    {
        matches!(self, FileKind::Directory)
    }

    /// Whether this entry is a directory on disk, however it is presented.
    pub fn is_directory_on_disk(self) -> (r: bool)
        ensures
            r == (self == FileKind::Directory || self == FileKind::ApplicationBundle || self
                == FileKind::Package),
    {
        matches!(self, FileKind::Directory | FileKind::ApplicationBundle | FileKind::Package)
    }

    /// Whether content from this entry is untrusted input: an archive's.
    pub fn is_untrusted_container(self) -> (r: bool)
        ensures
            r == (self == FileKind::Archive),
    {
        matches!(self, FileKind::Archive)
    }
}

/// Four independent facts a platform reports about an entry: a file can be
/// hidden and read-only and a cloud placeholder at once.
#[derive(Debug, Clone, Copy, Default, PartialEq, Eq, Structural)]
pub struct Attributes {
    /// Hidden by platform convention.
    pub hidden: bool,
    /// Marked read-only by the platform.
    pub read_only: bool,
    /// Marked as a system item.
    pub system: bool,
    /// A cloud placeholder not present locally, which enumeration and
    /// preview must not download implicitly.
    pub cloud_placeholder: bool,
}

/// A coarse summary of access rights, for display and for deciding what to
/// offer; never a substitute for asking at the moment of the operation.
#[derive(Debug, Clone, Copy, Default, PartialEq, Eq, Structural)]
pub struct PermissionsSummary {
    /// The current user appears able to read.
    pub readable: bool,
    /// The current user appears able to write.
    pub writable: bool,
    /// The entry appears executable or, for a directory, traversable.
    pub executable: bool,
}

/// The text that `String::from_utf8_lossy` makes of some bytes: their
/// decoding, with each invalid sequence replaced by U+FFFD.
pub uninterp spec fn lossy_text(bytes: Seq<u8>) -> Seq<char>;

/// `std::str::from_utf8`: the bytes read as text, where they are valid
/// UTF-8, and nothing otherwise.
#[verifier::external_body]
fn utf8_text(bytes: &[u8]) -> (r: Option<&str>)
    ensures
        r is Some <==> valid_utf8(bytes@),
        r matches Some(s) ==> encode_utf8(s@) == bytes@,
{
    std::str::from_utf8(bytes).ok()
}

/// `String::from_utf8_lossy`: the bytes as text, each invalid sequence
/// replaced by U+FFFD, so valid UTF-8 comes out as its decoding and
/// anything else shows at least one replacement character.
#[verifier::external_body]
fn lossy_string(bytes: &[u8]) -> (r: String)
    ensures
        r@ == lossy_text(bytes@),
        valid_utf8(bytes@) ==> r@ == decode_utf8(bytes@),
        !valid_utf8(bytes@) ==> r@.contains('\u{FFFD}'),
{
    String::from_utf8_lossy(bytes).into_owned()
}

/// A file name exactly as the platform stores it: bytes, which need not be
/// UTF-8. A lossy reading is an explicit call, never an accident.
#[derive(Debug, Clone, PartialEq, Eq, Hash, PartialOrd, Ord)]
pub struct RawName {
    bytes: Vec<u8>,
}

impl View for RawName {
    type V = Seq<u8>;

    closed spec fn view(&self) -> Seq<u8> {
        self.bytes@
    }
}

impl RawName {
    /// A name given as text, stored as its UTF-8 bytes.
    pub fn new(name: &str) -> (r: Self)
        ensures
            r@ == encode_utf8(name@),
    {
        RawName { bytes: name.as_bytes_vec() }
    }

    /// A name given as the platform's own bytes.
    pub fn from_bytes(bytes: Vec<u8>) -> (r: Self)
        ensures
            r@ == bytes@,
    {
        RawName { bytes }
    }

    /// The platform-native name, byte for byte. Build paths from this.
    pub fn as_os_str(&self) -> (r: &[u8])
        ensures
            r@ == self@,
    {
        self.bytes.as_slice()
    }

    /// The name as text, if it happens to be valid UTF-8.
    pub fn to_str(&self) -> (r: Option<&str>)
        ensures
            r is Some <==> valid_utf8(self@),
            r matches Some(s) ==> s@ == decode_utf8(self@),
    {
        let r = utf8_text(self.bytes.as_slice());
        proof {
            if let Some(s) = r {
                vstd::utf8::encode_utf8_decode_utf8(s@);
            }
        }
        r
    }

    /// A form for display only, invalid sequences replaced by U+FFFD. Never
    /// build a path from it.
    pub fn to_display_string(&self) -> (r: String)
        ensures
            r@ == lossy_text(self@),
            valid_utf8(self@) ==> r@ == decode_utf8(self@),
            !valid_utf8(self@) ==> r@.contains('\u{FFFD}'),
    {
        lossy_string(self.bytes.as_slice())
    }

    /// Whether the name is not UTF-8, so its display form is lossy and the
    /// interface should say so.
    pub fn is_lossy_as_utf8(&self) -> (r: bool)
        ensures
            r == !valid_utf8(self@),
    {
        utf8_text(self.bytes.as_slice()).is_none()
    }
}

/// A point in time as the platform's clock reports it.
#[verifier::external_type_specification]
#[verifier::external_body]
pub struct ExSystemTime(std::time::SystemTime);

/// The times a platform may report. Each is optional: not every filesystem
/// records every one, and a made-up value would be fake data.
#[derive(Debug, Clone, Copy, PartialEq, Eq)]
pub struct Timestamps {
    /// Last content modification.
    pub modified: Option<std::time::SystemTime>,
    /// Creation, or birth, time.
    pub created: Option<std::time::SystemTime>,
    /// Last access.
    pub accessed: Option<std::time::SystemTime>,
    /// Last metadata change, where the platform tells it apart.
    pub metadata_changed: Option<std::time::SystemTime>,
}

impl Timestamps {
    /// Whether no time is known.
    pub open spec fn is_blank(self) -> bool {
        &&& self.modified is None
        &&& self.created is None
        &&& self.accessed is None
        &&& self.metadata_changed is None
    }
}

impl Default for Timestamps {
    fn default() -> (r: Self)
        ensures
            r.is_blank(),
    {
        Timestamps { modified: None, created: None, accessed: None, metadata_changed: None }
    }
}

/// What a [`FileEntry`] holds, as values.
pub struct EntryParts {
    /// Where the entry lives.
    pub location: Location,
    /// The stored name's bytes.
    pub raw_name: Seq<u8>,
    /// What the entry is.
    pub kind: FileKind,
    /// Size in bytes, where known.
    pub size: Option<u64>,
    /// The times reported.
    pub timestamps: Timestamps,
    /// The attribute flags.
    pub attributes: Attributes,
    /// The permission summary.
    pub permissions: PermissionsSummary,
    /// The resolved content type, where known.
    pub content_type: Option<Seq<char>>,
}

/// The hint an entry's name gives of its type: the text after the last dot,
/// lowercased, unless the dot starts or ends the name, and only for a name
/// that is text at all.
pub open spec fn extension_hint_of(name: Seq<u8>) -> Option<Seq<char>> {
    if !valid_utf8(name) {
        None
    } else {
        let text = decode_utf8(name);
        match rfind(text, '.') {
            Some(i) => if i == 0 || i + 1 == text.len() {
                None
            } else {
                Some(text.skip(i + 1).map_values(|c: char| ascii_lower(c)))
            },
            None => None,
        }
    }
}

/// One row in a pane, or one target of an operation.
#[derive(Debug, PartialEq, Eq)]
pub struct FileEntry {
    location: Location,
    raw_name: RawName,
    kind: FileKind,
    size: Option<u64>,
    timestamps: Timestamps,
    attributes: Attributes,
    permissions: PermissionsSummary,
    content_type: Option<String>,
}

impl FileEntry {
    /// The entry's contents.
    pub closed spec fn parts(&self) -> EntryParts {
        EntryParts {
            location: self.location,
            raw_name: self.raw_name@,
            kind: self.kind,
            size: self.size,
            timestamps: self.timestamps,
            attributes: self.attributes,
            permissions: self.permissions,
            content_type: match self.content_type {
                Some(t) => Some(t@),
                None => None,
            },
        }
    }

    /// An entry with the minimum a provider always knows; everything else
    /// absent or unset rather than guessed.
    pub fn new(location: Location, raw_name: RawName, kind: FileKind) -> (r: Self)
        ensures
            r.parts().location == location,
            r.parts().raw_name == raw_name@,
            r.parts().kind == kind,
            r.parts().size is None,
            r.parts().timestamps.is_blank(),
            r.parts().attributes == (Attributes {
                hidden: false,
                read_only: false,
                system: false,
                cloud_placeholder: false,
            }),
            r.parts().permissions == (PermissionsSummary {
                readable: false,
                writable: false,
                executable: false,
            }),
            r.parts().content_type is None,
    {
        FileEntry {
            location,
            raw_name,
            kind,
            size: None,
            timestamps: Timestamps::default(),
            attributes: Attributes {
                hidden: false,
                read_only: false,
                system: false,
                cloud_placeholder: false,
            },
            permissions: PermissionsSummary { readable: false, writable: false, executable: false },
            content_type: None,
        }
    }

    /// The entry with its size in bytes set.
    pub fn with_size(self, size: u64) -> (r: Self)
        ensures
            r.parts() == (EntryParts { size: Some(size), ..self.parts() }),
    {
        let mut e = self;
        e.size = Some(size);
        e
    }

    /// The entry with its timestamps set.
    pub fn with_timestamps(self, timestamps: Timestamps) -> (r: Self)
        ensures
            r.parts() == (EntryParts { timestamps, ..self.parts() }),
    {
        let mut e = self;
        e.timestamps = timestamps;
        e
    }

    /// The entry with its attribute flags set.
    pub fn with_attributes(self, attributes: Attributes) -> (r: Self)
        ensures
            r.parts() == (EntryParts { attributes, ..self.parts() }),
    {
        let mut e = self;
        e.attributes = attributes;
        e
    }

    /// The entry with its permission summary set.
    pub fn with_permissions(self, permissions: PermissionsSummary) -> (r: Self)
        ensures
            r.parts() == (EntryParts { permissions, ..self.parts() }),
    {
        let mut e = self;
        e.permissions = permissions;
        e
    }

    /// The entry with its resolved content type (a MIME or platform type)
    /// set.
    pub fn with_content_type(self, content_type: &str) -> (r: Self)
        ensures
            r.parts() == (EntryParts { content_type: Some(content_type@), ..self.parts() }),
    {
        let mut e = self;
        e.content_type = Some(content_type.to_string());
        e
    }

    /// Where this entry lives.
    pub fn location(&self) -> (r: &Location)
        ensures
            *r == self.parts().location,
    {
        &self.location
    }

    /// The name exactly as the platform stores it. Build paths from this.
    pub fn raw_name(&self) -> (r: &RawName)
        ensures
            r@ == self.parts().raw_name,
    {
        &self.raw_name
    }

    /// The name to show a person. Never build a path from it.
    pub fn display_name(&self) -> (r: String)
        ensures
            r@ == lossy_text(self.parts().raw_name),
            valid_utf8(self.parts().raw_name) ==> r@ == decode_utf8(self.parts().raw_name),
            !valid_utf8(self.parts().raw_name) ==> r@.contains('\u{FFFD}'),
    {
        self.raw_name.to_display_string()
    }

    /// What this entry is.
    pub fn kind(&self) -> (r: FileKind)
        ensures
            r == self.parts().kind,
    {
        self.kind
    }

    /// Size in bytes, where the provider knows it.
    pub fn size(&self) -> (r: Option<u64>)
        ensures
            r == self.parts().size,
    {
        self.size
    }

    /// The times the platform reports.
    pub fn timestamps(&self) -> (r: &Timestamps)
        ensures
            *r == self.parts().timestamps,
    {
        &self.timestamps
    }

    /// The attribute flags.
    pub fn attributes(&self) -> (r: &Attributes)
        ensures
            *r == self.parts().attributes,
    {
        &self.attributes
    }

    /// The permission summary.
    pub fn permissions(&self) -> (r: &PermissionsSummary)
        ensures
            *r == self.parts().permissions,
    {
        &self.permissions
    }

    /// The resolved content type, where known.
    pub fn content_type(&self) -> (r: Option<&str>)
        ensures
            match self.parts().content_type {
                Some(t) => r matches Some(s) && s@ == t,
                None => r is None,
            },
    {
        match &self.content_type {
            Some(t) => Some(t.as_str()),
            None => None,
        }
    }

    /// The extension as lowercase text, if the name has one. Only ever a
    /// hint: the content's own magic bytes overrule a lying extension.
    pub fn extension_hint(&self) -> (r: Option<String>)
        ensures
            match extension_hint_of(self.parts().raw_name) {
                Some(h) => r matches Some(s) && s@ == h,
                None => r is None,
            },
    {
        let name = match self.raw_name.to_str() {
            Some(name) => name,
            None => return None,
        };
        let text = chars_of(name);
        let dot = match rfind_char(text.as_slice(), '.') {
            Some(dot) => dot,
            None => return None,
        };
        if dot == 0 || dot + 1 == text.len() {
            return None;
        }
        let tail = slice_to_vec(text.as_slice(), dot + 1, text.len());
        let lower = lower_chars(tail.as_slice());
        proof {
            assert(tail@ == text@.skip(dot + 1));
        }
        Some(string_of(lower.as_slice()))
    }
}

} // verus!
