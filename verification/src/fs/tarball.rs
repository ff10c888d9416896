//! Tar archives, plain and compressed: which compression a stream carries,
//! whether it holds a tar, and what the one file a bare compressed stream
//! holds is called.

use vstd::prelude::*;

use crate::error::{Error, ErrorCode};
use crate::fs::archive::{escapes, escapes_spec, MAX_MEMBER_BYTES};
use crate::text::{chars_of, push_str, string_of};

verus! {

/// How a tar stream is compressed.
#[derive(Debug, Clone, Copy, PartialEq, Eq, Structural)]
pub enum Compression {
    /// A plain `.tar`.
    Uncompressed,
    /// gzip: `.tar.gz`, `.tgz`.
    Gzip,
    /// bzip2: `.tar.bz2`.
    Bzip2,
    /// xz: `.tar.xz`.
    Xz,
}

/// The extension a compression is written with.
pub open spec fn extension_of(c: Compression) -> Seq<char> {
    match c {
        Compression::Uncompressed => "tar"@,
        Compression::Gzip => "tar.gz"@,
        Compression::Bzip2 => "tar.bz2"@,
        Compression::Xz => "tar.xz"@,
    }
}

impl Compression {
    /// Whether this build can write it: plain and gzip.
    pub fn can_write(self) -> (r: bool)
        ensures
            r == (self == Compression::Uncompressed || self == Compression::Gzip),
    {
        matches!(self, Compression::Uncompressed | Compression::Gzip)
    }

    /// The extension to write it with.
    pub fn extension(self) -> (r: &'static str)
        ensures
            r@ == extension_of(self),
    {
        match self {
            Compression::Uncompressed => "tar",
            Compression::Gzip => "tar.gz",
            Compression::Bzip2 => "tar.bz2",
            Compression::Xz => "tar.xz",
        }
    }
}

/// What a file turned out to be.
#[derive(Debug, Clone, Copy, PartialEq, Eq, Structural)]
pub struct Kind {
    /// How it is compressed.
    pub compression: Compression,
    /// Whether what is inside is a tar, or one compressed file.
    pub is_tar: bool,
}

/// Whether `head` starts with `magic`.
pub open spec fn starts_with_bytes(head: Seq<u8>, magic: Seq<u8>) -> bool {
    magic.len() <= head.len() && head.take(magic.len() as int) == magic
}

/// The compression a stream's first bytes announce: gzip's `1f 8b`,
/// bzip2's `BZh`, xz's `fd 37 7a 58 5a 00`; `None` for none of these.
pub open spec fn compression_spec(head: Seq<u8>) -> Option<Compression> {
    if starts_with_bytes(head, seq![0x1fu8, 0x8b]) {
        Some(Compression::Gzip)
    } else if starts_with_bytes(head, seq![0x42u8, 0x5a, 0x68]) {
        Some(Compression::Bzip2)
    } else if starts_with_bytes(head, seq![0xfdu8, 0x37, 0x7a, 0x58, 0x5a, 0x00]) {
        Some(Compression::Xz)
    } else {
        None
    }
}

fn bytes_start_with(head: &[u8], magic: &[u8]) -> (r: bool)
    ensures
        r == starts_with_bytes(head@, magic@),
{
    if magic.len() > head.len() {
        return false;
    }
    let mut k: usize = 0;
    while k < magic.len()
        invariant
            k <= magic@.len() <= head@.len(),
            forall|j: int| 0 <= j < k ==> head@[j] == magic@[j],
        decreases magic.len() - k,
    {
        if head[k] != magic[k] {
            proof {
                assert(head@.take(magic@.len() as int)[k as int] != magic@[k as int]);
            }
            return false;
        }
        k += 1;
    }
    proof {
        assert(head@.take(magic@.len() as int) =~= magic@);
    }
    true
}

/// The compression a stream's first bytes announce.
pub fn compression_of(head: &[u8]) -> (r: Option<Compression>)
    ensures
        r == compression_spec(head@),
{
    let gzip: [u8; 2] = [0x1f, 0x8b];
    let bzip2: [u8; 3] = [0x42, 0x5a, 0x68];
    let xz: [u8; 6] = [0xfd, 0x37, 0x7a, 0x58, 0x5a, 0x00];
    proof {
        assert(gzip@ =~= seq![0x1fu8, 0x8b]);
        assert(bzip2@ =~= seq![0x42u8, 0x5a, 0x68]);
        assert(xz@ =~= seq![0xfdu8, 0x37, 0x7a, 0x58, 0x5a, 0x00]);
    }
    if bytes_start_with(head, &gzip) {
        Some(Compression::Gzip)
    } else if bytes_start_with(head, &bzip2) {
        Some(Compression::Bzip2)
    } else if bytes_start_with(head, &xz) {
        Some(Compression::Xz)
    } else {
        None
    }
}

/// Whether a header block is a tar's: `ustar` at byte 257.
pub open spec fn tar_header_spec(header: Seq<u8>) -> bool {
    header.len() >= 262 && header.subrange(257, 262) == seq![0x75u8, 0x73, 0x74, 0x61, 0x72]
}

/// Whether the first bytes of a (decompressed) stream are a tar header.
pub fn is_tar_header(header: &[u8]) -> (r: bool)
    ensures
        r == tar_header_spec(header@),
{
    if header.len() < 262 {
        return false;
    }
    let ok = header[257] == 0x75 && header[258] == 0x73 && header[259] == 0x74 && header[260]
        == 0x61 && header[261] == 0x72;
    proof {
        if ok {
            assert(header@.subrange(257, 262) =~= seq![0x75u8, 0x73, 0x74, 0x61, 0x72]);
        } else if header@.subrange(257, 262) == seq![0x75u8, 0x73, 0x74, 0x61, 0x72] {
            assert(header@.subrange(257, 262)[0] == header@[257]);
            assert(header@.subrange(257, 262)[1] == header@[258]);
            assert(header@.subrange(257, 262)[2] == header@[259]);
            assert(header@.subrange(257, 262)[3] == header@[260]);
            assert(header@.subrange(257, 262)[4] == header@[261]);
        }
    }
    ok
}

/// The suffixes a bare compressed file is named with, in the order they
/// are tried.
pub open spec fn suffixes() -> Seq<Seq<char>> {
    seq![".gz"@, ".bz2"@, ".xz"@, ".tgz"@]
}

/// Whether `name` ends with `suffix`.
pub open spec fn ends_with(name: Seq<char>, suffix: Seq<char>) -> bool {
    suffix.len() <= name.len() && name.skip(name.len() - suffix.len()) == suffix
}

/// The name the first of `suffixes` from `i` that `name` ends with leaves.
pub open spec fn stem_from(name: Seq<char>, i: int) -> Option<Seq<char>>
    decreases 4 - i,
{
    if i < 0 || i >= 4 {
        None
    } else if ends_with(name, suffixes()[i]) {
        Some(name.take(name.len() - suffixes()[i].len()))
    } else {
        stem_from(name, i + 1)
    }
}

/// What the one file in a bare compressed stream called `file_name` is
/// called: the name without its compression suffix, or with `.out` added
/// when it has none.
pub open spec fn inner_name_spec(file_name: Seq<char>) -> Seq<char> {
    match stem_from(file_name, 0) {
        Some(stem) => stem,
        None => file_name + ".out"@,
    }
}

/// What the one file in a bare compressed stream called `file_name` is
/// called.
pub fn inner_name(file_name: &str) -> (r: String)
    ensures
        r@ == inner_name_spec(file_name@),
{
    let name = chars_of(file_name);
    let list: [&str; 4] = [".gz", ".bz2", ".xz", ".tgz"];
    proof {
        assert(list@.map_values(|s: &str| s@) =~= suffixes());
    }
    let mut i: usize = 0;
    while i < 4
        invariant
            i <= 4,
            name@ == file_name@,
            list@.map_values(|s: &str| s@) == suffixes(),
            stem_from(file_name@, 0) == stem_from(file_name@, i as int),
        decreases 4 - i,
    {
        let suffix = chars_of(list[i]);
        proof {
            assert(suffix@ == suffixes()[i as int]);
        }
        if suffix.len() <= name.len() {
            let cut = name.len() - suffix.len();
            let mut same = true;
            let mut k: usize = 0;
            while k < suffix.len()
                invariant
                    k <= suffix@.len(),
                    cut + suffix@.len() == name@.len() == name.len(),
                    same == forall|j: int| 0 <= j < k ==> name@[cut + j] == suffix@[j],
                decreases suffix.len() - k,
            {
                if name[cut + k] != suffix[k] {
                    same = false;
                }
                k += 1;
            }
            proof {
                if same {
                    assert(name@.skip(cut as int) =~= suffix@);
                } else if name@.skip(cut as int) == suffix@ {
                    let j = choose|j: int| 0 <= j < k && name@[cut + j] != suffix@[j];
                    assert(name@.skip(cut as int)[j] == name@[cut + j]);
                }
            }
            if same {
                let stem = crate::text::slice_to_vec(name.as_slice(), 0, cut);
                proof {
                    assert(stem@ =~= name@.take(cut as int));
                }
                return string_of(stem.as_slice());
            }
        }
        i += 1;
    }
    let mut out = string_of(name.as_slice());
    push_str(&mut out, ".out");
    out
}

/// The most entries a listing holds: a listing is for looking, and an
/// archive of millions of members is listed as far as that.
pub const MAX_ENTRIES: usize = 100_000;

/// One entry in a tar.
#[derive(Debug, Clone, PartialEq, Eq)]
pub struct TarEntry {
    /// The stored name, never used as a path directly.
    pub name: String,
    /// Size in bytes as the header claims. Shown, never trusted for writing.
    pub size: u64,
    /// Whether it is a directory entry.
    pub is_directory: bool,
    /// Whether the stored name would escape the extraction folder.
    pub unsafe_name: bool,
}

/// A member as its header describes it: stored name, claimed size, and
/// whether it is a directory.
pub type Member = (String, u64, bool);

/// A member's header as values.
pub open spec fn member_view(m: Member) -> (Seq<char>, u64, bool) {
    (m.0@, m.1, m.2)
}

/// The members a listing shows: those with a name, in order.
pub open spec fn named(members: Seq<(Seq<char>, u64, bool)>) -> Seq<(Seq<char>, u64, bool)>
    decreases members.len(),
{
    if members.len() == 0 {
        seq![]
    } else {
        let rest = named(members.drop_last());
        if members.last().0.len() > 0 {
            rest.push(members.last())
        } else {
            rest
        }
    }
}

/// Showing the members of two runs is showing those of each.
pub proof fn lemma_named_append(a: Seq<(Seq<char>, u64, bool)>, b: Seq<(Seq<char>, u64, bool)>)
    ensures
        named(a + b) == named(a) + named(b),
    decreases b.len(),
{
    if b.len() == 0 {
        assert(a + b =~= a);
        assert(named(a) + named(b) =~= named(a));
    } else {
        lemma_named_append(a, b.drop_last());
        assert((a + b).drop_last() =~= a + b.drop_last());
        assert((a + b).last() == b.last());
        if b.last().0.len() > 0 {
            assert(named(a) + named(b.drop_last()).push(b.last()) =~= (named(a) + named(
                b.drop_last(),
            )).push(b.last()));
        }
    }
}

/// The row a listing shows for a member.
pub open spec fn shows(entry: TarEntry, member: (Seq<char>, u64, bool)) -> bool {
    &&& entry.name@ == member.0
    &&& entry.size == member.1
    &&& entry.is_directory == member.2
    &&& entry.unsafe_name == escapes_spec(member.0)
}

/// The listing of a tar whose members' headers, read in order up to the
/// first one that could not be read, are `members`: a row for each member
/// with a name, marked where the name would escape, and at most
/// [`MAX_ENTRIES`] of them.
pub fn listing(members: Vec<Member>) -> (r: Vec<TarEntry>)
    ensures
        ({
            let shown = named(members@.map_values(|m: Member| member_view(m)));
            &&& r@.len() == if shown.len() < MAX_ENTRIES { shown.len() } else { MAX_ENTRIES as nat }
            &&& forall|i: int| 0 <= i < r@.len() ==> shows(#[trigger] r@[i], shown[i])
        }),
{
    let ghost all = members@.map_values(|m: Member| member_view(m));
    let mut out: Vec<TarEntry> = Vec::new();
    let mut i: usize = 0;
    proof {
        if members@.len() == 0 {
            assert(all.take(0) =~= all);
        }
    }
    while i < members.len()
        invariant_except_break
            i <= members@.len(),
            all == members@.map_values(|m: Member| member_view(m)),
            i == members@.len() ==> all.take(i as int) == all,
            out@.len() == named(all.take(i as int)).len() < MAX_ENTRIES,
            forall|k: int| 0 <= k < out@.len() ==> shows(#[trigger] out@[k], named(all.take(i as int))[k]),
        ensures
            out@.len() == (if named(all).len() < MAX_ENTRIES { named(all).len() } else { MAX_ENTRIES as nat }),
            forall|k: int| 0 <= k < out@.len() ==> shows(#[trigger] out@[k], named(all)[k]),
        decreases members.len() - i,
    {
        let member = &members[i];
        proof {
            assert(all.take(i + 1).drop_last() =~= all.take(i as int));
            assert(all.take(i + 1).last() == member_view(*member));
        }
        if !member.0.as_str().is_empty() {
            proof {
                assert(member.0@.len() > 0);
            }
            let unsafe_name = escapes(member.0.as_str());
            out.push(TarEntry {
                name: member.0.clone(),
                size: member.1,
                is_directory: member.2,
                unsafe_name,
            });
            proof {
                assert(named(all.take(i + 1)) == named(all.take(i as int)).push(member_view(*member)));
            }
        } else {
            proof {
                assert(member.0@.len() == 0);
                assert(named(all.take(i + 1)) == named(all.take(i as int)));
            }
        }
        i += 1;
        proof {
            if i == members.len() {
                assert(all.take(i as int) =~= all);
            }
        }
        if out.len() >= MAX_ENTRIES {
            proof {
                lemma_named_append(all.take(i as int), all.skip(i as int));
                assert(all.take(i as int) + all.skip(i as int) =~= all);
            }
            break;
        }
    }
    out
}

/// The listing of a bare compressed stream called `file_name`: the one file
/// inside, named as extraction would name it, its size unknown without
/// decompressing the whole stream.
pub fn bare_listing(file_name: &str) -> (r: Vec<TarEntry>)
    ensures
        r@.len() == 1,
        r@[0].name@ == inner_name_spec(file_name@),
        r@[0].size == 0,
        !r@[0].is_directory,
        !r@[0].unsafe_name,
{
    let mut out: Vec<TarEntry> = Vec::new();
    out.push(TarEntry { name: inner_name(file_name), size: 0, is_directory: false, unsafe_name: false });
    out
}

/// Whether an xz stream, which is expanded whole before it is read, came
/// out within what one member may expand to; past it, the archive is
/// refused rather than unpacked.
pub fn check_expanded(len: u64) -> (r: Result<(), Error>)
    ensures
        r is Ok <==> len <= MAX_MEMBER_BYTES,
        r matches Err(e) ==> e.spec_code() == ErrorCode::LimitExceeded,
{
    if len > MAX_MEMBER_BYTES {
        Err(Error::new(ErrorCode::LimitExceeded, "the xz stream expands past what this will unpack"))
    } else {
        Ok(())
    }
}

} // verus!
