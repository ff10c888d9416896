//! Where the space went.
//!
//! Two breakdowns of one walk: by folder, every immediate child of the root
//! with everything beneath it counted into it, and by kind, every file
//! grouped by what it is. The walk itself reads directories and is the
//! caller's; what is counted where, when the walk stops descending, and
//! how the rows are ranked and gathered is decided here.

use vstd::prelude::*;

use crate::ordered::{lemma_lt_irreflexive, lemma_lt_total, lemma_lt_transitive, seq_lt, TextMap};
use crate::text::{chars_of, rfind, rfind_char, slice_to_vec, string_of};

verus! {

broadcast use vstd::seq_lib::group_to_multiset_ensures;

/// How deep the walk goes.
pub const MAX_DEPTH: usize = 64;

/// How many child rows are reported before the rest are gathered into one.
pub const MAX_FOLDERS: usize = 200;

/// How many kinds are reported before the rest are gathered into one.
pub const MAX_KINDS: usize = 20;

/// One thing directly in the analysed folder: a child folder carrying
/// everything beneath it, or a file carrying its own size.
#[derive(Debug, Clone, PartialEq, Eq)]
pub struct FolderUsage {
    /// Its own name.
    pub name: String,
    /// Its full path.
    pub path: String,
    /// Bytes: everything beneath a folder, or the file's own size.
    pub bytes: u64,
    /// How many files that was.
    pub files: u64,
    /// Whether this is a folder.
    pub is_directory: bool,
}

/// What one kind of file adds up to.
#[derive(Debug, Clone, PartialEq, Eq)]
pub struct KindUsage {
    /// The extension, lower case, without a dot; empty for none.
    pub extension: String,
    /// The catalogue key of the group it falls in.
    pub group_key: &'static str,
    /// Bytes.
    pub bytes: u64,
    /// How many files.
    pub files: u64,
}

/// What a walk found.
#[derive(Debug, Clone, Default, PartialEq, Eq)]
pub struct Usage {
    /// What sits directly in the folder, largest first.
    pub folders: Vec<FolderUsage>,
    /// Kinds, largest first.
    pub kinds: Vec<KindUsage>,
    /// Bytes of every file beneath the root.
    pub bytes: u64,
    /// Files counted.
    pub files: u64,
    /// Directories entered.
    pub folder_count: u64,
    /// Bytes in files directly in the root.
    pub loose_bytes: u64,
    /// Whether the walk stopped early or could not read somewhere.
    pub partial: bool,
}

/// How far a walk has got.
#[derive(Debug, Clone, Default, PartialEq, Eq)]
pub struct Progress {
    /// Bytes counted so far.
    pub bytes: u64,
    /// Files counted so far.
    pub files: u64,
    /// Directories entered so far.
    pub folders: u64,
    /// The directory this update is about.
    pub directory: String,
}

/// The extensions of each group, and the group's catalogue key.
pub open spec fn groups() -> Seq<(Seq<Seq<char>>, Seq<char>)> {
    seq![
        (seq!["mp4"@, "mkv"@, "mov"@, "avi"@, "wmv"@, "flv"@, "webm"@, "m4v"@, "mpg"@, "mpeg"@, "ts"@, "m2ts"@], "usage.kind.video"@),
        (seq!["jpg"@, "jpeg"@, "png"@, "gif"@, "bmp"@, "tif"@, "tiff"@, "heic"@, "heif"@, "webp"@, "raw"@, "cr2"@, "nef"@, "arw"@, "dng"@, "svg"@, "psd"@], "usage.kind.image"@),
        (seq!["mp3"@, "aac"@, "flac"@, "wav"@, "aiff"@, "m4a"@, "ogg"@, "opus"@, "wma"@], "usage.kind.audio"@),
        (seq!["zip"@, "gz"@, "tgz"@, "bz2"@, "xz"@, "zst"@, "7z"@, "rar"@, "tar"@, "jar"@, "war"@, "cab"@], "usage.kind.archive"@),
        (seq!["iso"@, "dmg"@, "img"@, "vdi"@, "vmdk"@, "qcow2"@, "vhd"@, "vhdx"@], "usage.kind.disk_image"@),
        (seq!["pdf"@, "doc"@, "docx"@, "xls"@, "xlsx"@, "ppt"@, "pptx"@, "odt"@, "ods"@, "odp"@, "pages"@, "numbers"@, "key"@, "rtf"@, "epub"@], "usage.kind.document"@),
        (seq!["rs"@, "c"@, "h"@, "cpp"@, "hpp"@, "cc"@, "py"@, "js"@, "ts"@, "tsx"@, "jsx"@, "go"@, "java"@, "kt"@, "swift"@, "rb"@, "php"@, "sh"@, "pl"@, "lua"@, "cs"@, "m"@, "mm"@], "usage.kind.code"@),
        (seq!["txt"@, "md"@, "log"@, "json"@, "xml"@, "yaml"@, "yml"@, "toml"@, "ini"@, "csv"@, "html"@, "css"@], "usage.kind.text"@),
        (seq!["db"@, "sqlite"@, "sqlite3"@, "mdb"@, "dbf"@, "parquet"@], "usage.kind.database"@),
        (seq!["exe"@, "dll"@, "so"@, "dylib"@, "a"@, "o"@, "bin"@, "app"@, "pkg"@, "deb"@], "usage.kind.binary"@),
        (seq!["ttf"@, "otf"@, "woff"@, "woff2"@, "ttc"@], "usage.kind.font"@),
    ]
}

/// Classifying from group `j` on reaches the first group from `j` that
/// lists the extension.
proof fn lemma_first_group(extension: Seq<char>, i: int, j: int)
    requires
        0 <= j <= i < groups().len(),
        groups()[i].0.contains(extension),
        forall|k: int| j <= k < i ==> !(#[trigger] groups()[k]).0.contains(extension),
    ensures
        group_from(extension, j) == groups()[i].1,
    decreases i - j,
{
    if j < i {
        lemma_first_group(extension, i, j + 1);
    }
}

/// Classifying from group `j` on, past every group that lists nothing
/// matching, ends in `other`.
proof fn lemma_no_group(extension: Seq<char>, j: int)
    requires
        0 <= j <= groups().len(),
        forall|k: int| j <= k < groups().len() ==> !(#[trigger] groups()[k]).0.contains(extension),
    ensures
        group_from(extension, j) == "usage.kind.other"@,
    decreases groups().len() - j,
{
    if j < groups().len() {
        lemma_no_group(extension, j + 1);
    }
}

/// A file's kind is the group of the first of these lists that holds its
/// extension - video, image, audio, archive, disk image, document, code,
/// text, database, binary, font, each under its own catalogue key - `none`
/// for no extension, and `other` for an extension no list holds.
pub proof fn law_kind_groups(extension: Seq<char>)
    ensures
        ({
            let kinds: Seq<(Seq<Seq<char>>, Seq<char>)> = seq![
        (seq![seq!['m', 'p', '4'], seq!['m', 'k', 'v'], seq!['m', 'o', 'v'], seq!['a', 'v', 'i'], seq!['w', 'm', 'v'], seq!['f', 'l', 'v'], seq!['w', 'e', 'b', 'm'], seq!['m', '4', 'v'], seq!['m', 'p', 'g'], seq!['m', 'p', 'e', 'g'], seq!['t', 's'], seq!['m', '2', 't', 's']], "usage.kind."@ + "video"@),
        (seq![seq!['j', 'p', 'g'], seq!['j', 'p', 'e', 'g'], seq!['p', 'n', 'g'], seq!['g', 'i', 'f'], seq!['b', 'm', 'p'], seq!['t', 'i', 'f'], seq!['t', 'i', 'f', 'f'], seq!['h', 'e', 'i', 'c'], seq!['h', 'e', 'i', 'f'], seq!['w', 'e', 'b', 'p'], seq!['r', 'a', 'w'], seq!['c', 'r', '2'], seq!['n', 'e', 'f'], seq!['a', 'r', 'w'], seq!['d', 'n', 'g'], seq!['s', 'v', 'g'], seq!['p', 's', 'd']], "usage.kind."@ + "image"@),
        (seq![seq!['m', 'p', '3'], seq!['a', 'a', 'c'], seq!['f', 'l', 'a', 'c'], seq!['w', 'a', 'v'], seq!['a', 'i', 'f', 'f'], seq!['m', '4', 'a'], seq!['o', 'g', 'g'], seq!['o', 'p', 'u', 's'], seq!['w', 'm', 'a']], "usage.kind."@ + "audio"@),
        (seq![seq!['z', 'i', 'p'], seq!['g', 'z'], seq!['t', 'g', 'z'], seq!['b', 'z', '2'], seq!['x', 'z'], seq!['z', 's', 't'], seq!['7', 'z'], seq!['r', 'a', 'r'], seq!['t', 'a', 'r'], seq!['j', 'a', 'r'], seq!['w', 'a', 'r'], seq!['c', 'a', 'b']], "usage.kind."@ + "archive"@),
        (seq![seq!['i', 's', 'o'], seq!['d', 'm', 'g'], seq!['i', 'm', 'g'], seq!['v', 'd', 'i'], seq!['v', 'm', 'd', 'k'], seq!['q', 'c', 'o', 'w', '2'], seq!['v', 'h', 'd'], seq!['v', 'h', 'd', 'x']], "usage.kind."@ + "disk_image"@),
        (seq![seq!['p', 'd', 'f'], seq!['d', 'o', 'c'], seq!['d', 'o', 'c', 'x'], seq!['x', 'l', 's'], seq!['x', 'l', 's', 'x'], seq!['p', 'p', 't'], seq!['p', 'p', 't', 'x'], seq!['o', 'd', 't'], seq!['o', 'd', 's'], seq!['o', 'd', 'p'], seq!['p', 'a', 'g', 'e', 's'], seq!['n', 'u', 'm', 'b', 'e', 'r', 's'], seq!['k', 'e', 'y'], seq!['r', 't', 'f'], seq!['e', 'p', 'u', 'b']], "usage.kind."@ + "document"@),
        (seq![seq!['r', 's'], seq!['c'], seq!['h'], seq!['c', 'p', 'p'], seq!['h', 'p', 'p'], seq!['c', 'c'], seq!['p', 'y'], seq!['j', 's'], seq!['t', 's'], seq!['t', 's', 'x'], seq!['j', 's', 'x'], seq!['g', 'o'], seq!['j', 'a', 'v', 'a'], seq!['k', 't'], seq!['s', 'w', 'i', 'f', 't'], seq!['r', 'b'], seq!['p', 'h', 'p'], seq!['s', 'h'], seq!['p', 'l'], seq!['l', 'u', 'a'], seq!['c', 's'], seq!['m'], seq!['m', 'm']], "usage.kind."@ + "code"@),
        (seq![seq!['t', 'x', 't'], seq!['m', 'd'], seq!['l', 'o', 'g'], seq!['j', 's', 'o', 'n'], seq!['x', 'm', 'l'], seq!['y', 'a', 'm', 'l'], seq!['y', 'm', 'l'], seq!['t', 'o', 'm', 'l'], seq!['i', 'n', 'i'], seq!['c', 's', 'v'], seq!['h', 't', 'm', 'l'], seq!['c', 's', 's']], "usage.kind."@ + "text"@),
        (seq![seq!['d', 'b'], seq!['s', 'q', 'l', 'i', 't', 'e'], seq!['s', 'q', 'l', 'i', 't', 'e', '3'], seq!['m', 'd', 'b'], seq!['d', 'b', 'f'], seq!['p', 'a', 'r', 'q', 'u', 'e', 't']], "usage.kind."@ + "database"@),
        (seq![seq!['e', 'x', 'e'], seq!['d', 'l', 'l'], seq!['s', 'o'], seq!['d', 'y', 'l', 'i', 'b'], seq!['a'], seq!['o'], seq!['b', 'i', 'n'], seq!['a', 'p', 'p'], seq!['p', 'k', 'g'], seq!['d', 'e', 'b']], "usage.kind."@ + "binary"@),
        (seq![seq!['t', 't', 'f'], seq!['o', 't', 'f'], seq!['w', 'o', 'f', 'f'], seq!['w', 'o', 'f', 'f', '2'], seq!['t', 't', 'c']], "usage.kind."@ + "font"@),
    ]
;
            &&& extension.len() == 0 ==> group_spec(extension) == "usage.kind.none"@
            &&& forall|i: int| 0 <= i < kinds.len() && extension.len() > 0 && (#[trigger] kinds[i]).0.contains(extension)
                && (forall|k: int| 0 <= k < i ==> !kinds[k].0.contains(extension))
                ==> group_spec(extension) == kinds[i].1
            &&& extension.len() > 0 && (forall|k: int| 0 <= k < kinds.len() ==> !kinds[k].0.contains(extension))
                ==> group_spec(extension) == "usage.kind.other"@
        }),
{
    let kinds: Seq<(Seq<Seq<char>>, Seq<char>)> = seq![
        (seq![seq!['m', 'p', '4'], seq!['m', 'k', 'v'], seq!['m', 'o', 'v'], seq!['a', 'v', 'i'], seq!['w', 'm', 'v'], seq!['f', 'l', 'v'], seq!['w', 'e', 'b', 'm'], seq!['m', '4', 'v'], seq!['m', 'p', 'g'], seq!['m', 'p', 'e', 'g'], seq!['t', 's'], seq!['m', '2', 't', 's']], "usage.kind."@ + "video"@),
        (seq![seq!['j', 'p', 'g'], seq!['j', 'p', 'e', 'g'], seq!['p', 'n', 'g'], seq!['g', 'i', 'f'], seq!['b', 'm', 'p'], seq!['t', 'i', 'f'], seq!['t', 'i', 'f', 'f'], seq!['h', 'e', 'i', 'c'], seq!['h', 'e', 'i', 'f'], seq!['w', 'e', 'b', 'p'], seq!['r', 'a', 'w'], seq!['c', 'r', '2'], seq!['n', 'e', 'f'], seq!['a', 'r', 'w'], seq!['d', 'n', 'g'], seq!['s', 'v', 'g'], seq!['p', 's', 'd']], "usage.kind."@ + "image"@),
        (seq![seq!['m', 'p', '3'], seq!['a', 'a', 'c'], seq!['f', 'l', 'a', 'c'], seq!['w', 'a', 'v'], seq!['a', 'i', 'f', 'f'], seq!['m', '4', 'a'], seq!['o', 'g', 'g'], seq!['o', 'p', 'u', 's'], seq!['w', 'm', 'a']], "usage.kind."@ + "audio"@),
        (seq![seq!['z', 'i', 'p'], seq!['g', 'z'], seq!['t', 'g', 'z'], seq!['b', 'z', '2'], seq!['x', 'z'], seq!['z', 's', 't'], seq!['7', 'z'], seq!['r', 'a', 'r'], seq!['t', 'a', 'r'], seq!['j', 'a', 'r'], seq!['w', 'a', 'r'], seq!['c', 'a', 'b']], "usage.kind."@ + "archive"@),
        (seq![seq!['i', 's', 'o'], seq!['d', 'm', 'g'], seq!['i', 'm', 'g'], seq!['v', 'd', 'i'], seq!['v', 'm', 'd', 'k'], seq!['q', 'c', 'o', 'w', '2'], seq!['v', 'h', 'd'], seq!['v', 'h', 'd', 'x']], "usage.kind."@ + "disk_image"@),
        (seq![seq!['p', 'd', 'f'], seq!['d', 'o', 'c'], seq!['d', 'o', 'c', 'x'], seq!['x', 'l', 's'], seq!['x', 'l', 's', 'x'], seq!['p', 'p', 't'], seq!['p', 'p', 't', 'x'], seq!['o', 'd', 't'], seq!['o', 'd', 's'], seq!['o', 'd', 'p'], seq!['p', 'a', 'g', 'e', 's'], seq!['n', 'u', 'm', 'b', 'e', 'r', 's'], seq!['k', 'e', 'y'], seq!['r', 't', 'f'], seq!['e', 'p', 'u', 'b']], "usage.kind."@ + "document"@),
        (seq![seq!['r', 's'], seq!['c'], seq!['h'], seq!['c', 'p', 'p'], seq!['h', 'p', 'p'], seq!['c', 'c'], seq!['p', 'y'], seq!['j', 's'], seq!['t', 's'], seq!['t', 's', 'x'], seq!['j', 's', 'x'], seq!['g', 'o'], seq!['j', 'a', 'v', 'a'], seq!['k', 't'], seq!['s', 'w', 'i', 'f', 't'], seq!['r', 'b'], seq!['p', 'h', 'p'], seq!['s', 'h'], seq!['p', 'l'], seq!['l', 'u', 'a'], seq!['c', 's'], seq!['m'], seq!['m', 'm']], "usage.kind."@ + "code"@),
        (seq![seq!['t', 'x', 't'], seq!['m', 'd'], seq!['l', 'o', 'g'], seq!['j', 's', 'o', 'n'], seq!['x', 'm', 'l'], seq!['y', 'a', 'm', 'l'], seq!['y', 'm', 'l'], seq!['t', 'o', 'm', 'l'], seq!['i', 'n', 'i'], seq!['c', 's', 'v'], seq!['h', 't', 'm', 'l'], seq!['c', 's', 's']], "usage.kind."@ + "text"@),
        (seq![seq!['d', 'b'], seq!['s', 'q', 'l', 'i', 't', 'e'], seq!['s', 'q', 'l', 'i', 't', 'e', '3'], seq!['m', 'd', 'b'], seq!['d', 'b', 'f'], seq!['p', 'a', 'r', 'q', 'u', 'e', 't']], "usage.kind."@ + "database"@),
        (seq![seq!['e', 'x', 'e'], seq!['d', 'l', 'l'], seq!['s', 'o'], seq!['d', 'y', 'l', 'i', 'b'], seq!['a'], seq!['o'], seq!['b', 'i', 'n'], seq!['a', 'p', 'p'], seq!['p', 'k', 'g'], seq!['d', 'e', 'b']], "usage.kind."@ + "binary"@),
        (seq![seq!['t', 't', 'f'], seq!['o', 't', 'f'], seq!['w', 'o', 'f', 'f'], seq!['w', 'o', 'f', 'f', '2'], seq!['t', 't', 'c']], "usage.kind."@ + "font"@),
    ]
;
    reveal_strlit("7z");
    assert("7z"@ =~= seq!['7', 'z']);
    reveal_strlit("a");
    assert("a"@ =~= seq!['a']);
    reveal_strlit("aac");
    assert("aac"@ =~= seq!['a', 'a', 'c']);
    reveal_strlit("aiff");
    assert("aiff"@ =~= seq!['a', 'i', 'f', 'f']);
    reveal_strlit("app");
    assert("app"@ =~= seq!['a', 'p', 'p']);
    reveal_strlit("arw");
    assert("arw"@ =~= seq!['a', 'r', 'w']);
    reveal_strlit("avi");
    assert("avi"@ =~= seq!['a', 'v', 'i']);
    reveal_strlit("bin");
    assert("bin"@ =~= seq!['b', 'i', 'n']);
    reveal_strlit("bmp");
    assert("bmp"@ =~= seq!['b', 'm', 'p']);
    reveal_strlit("bz2");
    assert("bz2"@ =~= seq!['b', 'z', '2']);
    reveal_strlit("c");
    assert("c"@ =~= seq!['c']);
    reveal_strlit("cab");
    assert("cab"@ =~= seq!['c', 'a', 'b']);
    reveal_strlit("cc");
    assert("cc"@ =~= seq!['c', 'c']);
    reveal_strlit("cpp");
    assert("cpp"@ =~= seq!['c', 'p', 'p']);
    reveal_strlit("cr2");
    assert("cr2"@ =~= seq!['c', 'r', '2']);
    reveal_strlit("cs");
    assert("cs"@ =~= seq!['c', 's']);
    reveal_strlit("css");
    assert("css"@ =~= seq!['c', 's', 's']);
    reveal_strlit("csv");
    assert("csv"@ =~= seq!['c', 's', 'v']);
    reveal_strlit("db");
    assert("db"@ =~= seq!['d', 'b']);
    reveal_strlit("dbf");
    assert("dbf"@ =~= seq!['d', 'b', 'f']);
    reveal_strlit("deb");
    assert("deb"@ =~= seq!['d', 'e', 'b']);
    reveal_strlit("dll");
    assert("dll"@ =~= seq!['d', 'l', 'l']);
    reveal_strlit("dmg");
    assert("dmg"@ =~= seq!['d', 'm', 'g']);
    reveal_strlit("dng");
    assert("dng"@ =~= seq!['d', 'n', 'g']);
    reveal_strlit("doc");
    assert("doc"@ =~= seq!['d', 'o', 'c']);
    reveal_strlit("docx");
    assert("docx"@ =~= seq!['d', 'o', 'c', 'x']);
    reveal_strlit("dylib");
    assert("dylib"@ =~= seq!['d', 'y', 'l', 'i', 'b']);
    reveal_strlit("epub");
    assert("epub"@ =~= seq!['e', 'p', 'u', 'b']);
    reveal_strlit("exe");
    assert("exe"@ =~= seq!['e', 'x', 'e']);
    reveal_strlit("flac");
    assert("flac"@ =~= seq!['f', 'l', 'a', 'c']);
    reveal_strlit("flv");
    assert("flv"@ =~= seq!['f', 'l', 'v']);
    reveal_strlit("gif");
    assert("gif"@ =~= seq!['g', 'i', 'f']);
    reveal_strlit("go");
    assert("go"@ =~= seq!['g', 'o']);
    reveal_strlit("gz");
    assert("gz"@ =~= seq!['g', 'z']);
    reveal_strlit("h");
    assert("h"@ =~= seq!['h']);
    reveal_strlit("heic");
    assert("heic"@ =~= seq!['h', 'e', 'i', 'c']);
    reveal_strlit("heif");
    assert("heif"@ =~= seq!['h', 'e', 'i', 'f']);
    reveal_strlit("hpp");
    assert("hpp"@ =~= seq!['h', 'p', 'p']);
    reveal_strlit("html");
    assert("html"@ =~= seq!['h', 't', 'm', 'l']);
    reveal_strlit("img");
    assert("img"@ =~= seq!['i', 'm', 'g']);
    reveal_strlit("ini");
    assert("ini"@ =~= seq!['i', 'n', 'i']);
    reveal_strlit("iso");
    assert("iso"@ =~= seq!['i', 's', 'o']);
    reveal_strlit("jar");
    assert("jar"@ =~= seq!['j', 'a', 'r']);
    reveal_strlit("java");
    assert("java"@ =~= seq!['j', 'a', 'v', 'a']);
    reveal_strlit("jpeg");
    assert("jpeg"@ =~= seq!['j', 'p', 'e', 'g']);
    reveal_strlit("jpg");
    assert("jpg"@ =~= seq!['j', 'p', 'g']);
    reveal_strlit("js");
    assert("js"@ =~= seq!['j', 's']);
    reveal_strlit("json");
    assert("json"@ =~= seq!['j', 's', 'o', 'n']);
    reveal_strlit("jsx");
    assert("jsx"@ =~= seq!['j', 's', 'x']);
    reveal_strlit("key");
    assert("key"@ =~= seq!['k', 'e', 'y']);
    reveal_strlit("kt");
    assert("kt"@ =~= seq!['k', 't']);
    reveal_strlit("log");
    assert("log"@ =~= seq!['l', 'o', 'g']);
    reveal_strlit("lua");
    assert("lua"@ =~= seq!['l', 'u', 'a']);
    reveal_strlit("m");
    assert("m"@ =~= seq!['m']);
    reveal_strlit("m2ts");
    assert("m2ts"@ =~= seq!['m', '2', 't', 's']);
    reveal_strlit("m4a");
    assert("m4a"@ =~= seq!['m', '4', 'a']);
    reveal_strlit("m4v");
    assert("m4v"@ =~= seq!['m', '4', 'v']);
    reveal_strlit("md");
    assert("md"@ =~= seq!['m', 'd']);
    reveal_strlit("mdb");
    assert("mdb"@ =~= seq!['m', 'd', 'b']);
    reveal_strlit("mkv");
    assert("mkv"@ =~= seq!['m', 'k', 'v']);
    reveal_strlit("mm");
    assert("mm"@ =~= seq!['m', 'm']);
    reveal_strlit("mov");
    assert("mov"@ =~= seq!['m', 'o', 'v']);
    reveal_strlit("mp3");
    assert("mp3"@ =~= seq!['m', 'p', '3']);
    reveal_strlit("mp4");
    assert("mp4"@ =~= seq!['m', 'p', '4']);
    reveal_strlit("mpeg");
    assert("mpeg"@ =~= seq!['m', 'p', 'e', 'g']);
    reveal_strlit("mpg");
    assert("mpg"@ =~= seq!['m', 'p', 'g']);
    reveal_strlit("nef");
    assert("nef"@ =~= seq!['n', 'e', 'f']);
    reveal_strlit("numbers");
    assert("numbers"@ =~= seq!['n', 'u', 'm', 'b', 'e', 'r', 's']);
    reveal_strlit("o");
    assert("o"@ =~= seq!['o']);
    reveal_strlit("odp");
    assert("odp"@ =~= seq!['o', 'd', 'p']);
    reveal_strlit("ods");
    assert("ods"@ =~= seq!['o', 'd', 's']);
    reveal_strlit("odt");
    assert("odt"@ =~= seq!['o', 'd', 't']);
    reveal_strlit("ogg");
    assert("ogg"@ =~= seq!['o', 'g', 'g']);
    reveal_strlit("opus");
    assert("opus"@ =~= seq!['o', 'p', 'u', 's']);
    reveal_strlit("otf");
    assert("otf"@ =~= seq!['o', 't', 'f']);
    reveal_strlit("pages");
    assert("pages"@ =~= seq!['p', 'a', 'g', 'e', 's']);
    reveal_strlit("parquet");
    assert("parquet"@ =~= seq!['p', 'a', 'r', 'q', 'u', 'e', 't']);
    reveal_strlit("pdf");
    assert("pdf"@ =~= seq!['p', 'd', 'f']);
    reveal_strlit("php");
    assert("php"@ =~= seq!['p', 'h', 'p']);
    reveal_strlit("pkg");
    assert("pkg"@ =~= seq!['p', 'k', 'g']);
    reveal_strlit("pl");
    assert("pl"@ =~= seq!['p', 'l']);
    reveal_strlit("png");
    assert("png"@ =~= seq!['p', 'n', 'g']);
    reveal_strlit("ppt");
    assert("ppt"@ =~= seq!['p', 'p', 't']);
    reveal_strlit("pptx");
    assert("pptx"@ =~= seq!['p', 'p', 't', 'x']);
    reveal_strlit("psd");
    assert("psd"@ =~= seq!['p', 's', 'd']);
    reveal_strlit("py");
    assert("py"@ =~= seq!['p', 'y']);
    reveal_strlit("qcow2");
    assert("qcow2"@ =~= seq!['q', 'c', 'o', 'w', '2']);
    reveal_strlit("rar");
    assert("rar"@ =~= seq!['r', 'a', 'r']);
    reveal_strlit("raw");
    assert("raw"@ =~= seq!['r', 'a', 'w']);
    reveal_strlit("rb");
    assert("rb"@ =~= seq!['r', 'b']);
    reveal_strlit("rs");
    assert("rs"@ =~= seq!['r', 's']);
    reveal_strlit("rtf");
    assert("rtf"@ =~= seq!['r', 't', 'f']);
    reveal_strlit("sh");
    assert("sh"@ =~= seq!['s', 'h']);
    reveal_strlit("so");
    assert("so"@ =~= seq!['s', 'o']);
    reveal_strlit("sqlite");
    assert("sqlite"@ =~= seq!['s', 'q', 'l', 'i', 't', 'e']);
    reveal_strlit("sqlite3");
    assert("sqlite3"@ =~= seq!['s', 'q', 'l', 'i', 't', 'e', '3']);
    reveal_strlit("svg");
    assert("svg"@ =~= seq!['s', 'v', 'g']);
    reveal_strlit("swift");
    assert("swift"@ =~= seq!['s', 'w', 'i', 'f', 't']);
    reveal_strlit("tar");
    assert("tar"@ =~= seq!['t', 'a', 'r']);
    reveal_strlit("tgz");
    assert("tgz"@ =~= seq!['t', 'g', 'z']);
    reveal_strlit("tif");
    assert("tif"@ =~= seq!['t', 'i', 'f']);
    reveal_strlit("tiff");
    assert("tiff"@ =~= seq!['t', 'i', 'f', 'f']);
    reveal_strlit("toml");
    assert("toml"@ =~= seq!['t', 'o', 'm', 'l']);
    reveal_strlit("ts");
    assert("ts"@ =~= seq!['t', 's']);
    reveal_strlit("tsx");
    assert("tsx"@ =~= seq!['t', 's', 'x']);
    reveal_strlit("ttc");
    assert("ttc"@ =~= seq!['t', 't', 'c']);
    reveal_strlit("ttf");
    assert("ttf"@ =~= seq!['t', 't', 'f']);
    reveal_strlit("txt");
    assert("txt"@ =~= seq!['t', 'x', 't']);
    reveal_strlit("vdi");
    assert("vdi"@ =~= seq!['v', 'd', 'i']);
    reveal_strlit("vhd");
    assert("vhd"@ =~= seq!['v', 'h', 'd']);
    reveal_strlit("vhdx");
    assert("vhdx"@ =~= seq!['v', 'h', 'd', 'x']);
    reveal_strlit("vmdk");
    assert("vmdk"@ =~= seq!['v', 'm', 'd', 'k']);
    reveal_strlit("war");
    assert("war"@ =~= seq!['w', 'a', 'r']);
    reveal_strlit("wav");
    assert("wav"@ =~= seq!['w', 'a', 'v']);
    reveal_strlit("webm");
    assert("webm"@ =~= seq!['w', 'e', 'b', 'm']);
    reveal_strlit("webp");
    assert("webp"@ =~= seq!['w', 'e', 'b', 'p']);
    reveal_strlit("wma");
    assert("wma"@ =~= seq!['w', 'm', 'a']);
    reveal_strlit("wmv");
    assert("wmv"@ =~= seq!['w', 'm', 'v']);
    reveal_strlit("woff");
    assert("woff"@ =~= seq!['w', 'o', 'f', 'f']);
    reveal_strlit("woff2");
    assert("woff2"@ =~= seq!['w', 'o', 'f', 'f', '2']);
    reveal_strlit("xls");
    assert("xls"@ =~= seq!['x', 'l', 's']);
    reveal_strlit("xlsx");
    assert("xlsx"@ =~= seq!['x', 'l', 's', 'x']);
    reveal_strlit("xml");
    assert("xml"@ =~= seq!['x', 'm', 'l']);
    reveal_strlit("xz");
    assert("xz"@ =~= seq!['x', 'z']);
    reveal_strlit("yaml");
    assert("yaml"@ =~= seq!['y', 'a', 'm', 'l']);
    reveal_strlit("yml");
    assert("yml"@ =~= seq!['y', 'm', 'l']);
    reveal_strlit("zip");
    assert("zip"@ =~= seq!['z', 'i', 'p']);
    reveal_strlit("zst");
    assert("zst"@ =~= seq!['z', 's', 't']);
    reveal_strlit("usage.kind.");
    reveal_strlit("archive");
    reveal_strlit("usage.kind.archive");
    reveal_strlit("audio");
    reveal_strlit("usage.kind.audio");
    reveal_strlit("binary");
    reveal_strlit("usage.kind.binary");
    reveal_strlit("code");
    reveal_strlit("usage.kind.code");
    reveal_strlit("database");
    reveal_strlit("usage.kind.database");
    reveal_strlit("disk_image");
    reveal_strlit("usage.kind.disk_image");
    reveal_strlit("document");
    reveal_strlit("usage.kind.document");
    reveal_strlit("font");
    reveal_strlit("usage.kind.font");
    reveal_strlit("image");
    reveal_strlit("usage.kind.image");
    reveal_strlit("text");
    reveal_strlit("usage.kind.text");
    reveal_strlit("video");
    reveal_strlit("usage.kind.video");
    assert("usage.kind."@ + "video"@ =~= "usage.kind.video"@);
    assert("usage.kind."@ + "image"@ =~= "usage.kind.image"@);
    assert("usage.kind."@ + "audio"@ =~= "usage.kind.audio"@);
    assert("usage.kind."@ + "archive"@ =~= "usage.kind.archive"@);
    assert("usage.kind."@ + "disk_image"@ =~= "usage.kind.disk_image"@);
    assert("usage.kind."@ + "document"@ =~= "usage.kind.document"@);
    assert("usage.kind."@ + "code"@ =~= "usage.kind.code"@);
    assert("usage.kind."@ + "text"@ =~= "usage.kind.text"@);
    assert("usage.kind."@ + "database"@ =~= "usage.kind.database"@);
    assert("usage.kind."@ + "binary"@ =~= "usage.kind.binary"@);
    assert("usage.kind."@ + "font"@ =~= "usage.kind.font"@);
    assert(kinds[0] == groups()[0]);
    assert(kinds[1] == groups()[1]);
    assert(kinds[2] == groups()[2]);
    assert(kinds[3] == groups()[3]);
    assert(kinds[4] == groups()[4]);
    assert(kinds[5] == groups()[5]);
    assert(kinds[6] == groups()[6]);
    assert(kinds[7] == groups()[7]);
    assert(kinds[8] == groups()[8]);
    assert(kinds[9] == groups()[9]);
    assert(kinds[10] == groups()[10]);
    assert(kinds =~= groups());
    assert forall|i: int| 0 <= i < kinds.len() && extension.len() > 0 && (#[trigger] kinds[i]).0.contains(extension)
        && (forall|k: int| 0 <= k < i ==> !kinds[k].0.contains(extension))
        implies group_spec(extension) == kinds[i].1 by {
        assert forall|k: int| 0 <= k < i implies !(#[trigger] groups()[k]).0.contains(extension) by {
            assert(!kinds[k].0.contains(extension));
        }
        lemma_first_group(extension, i, 0);
    }
    if extension.len() > 0 && (forall|k: int| 0 <= k < kinds.len() ==> !kinds[k].0.contains(extension)) {
        assert forall|k: int| 0 <= k < groups().len() implies !(#[trigger] groups()[k]).0.contains(extension) by {
            assert(!kinds[k].0.contains(extension));
        }
        lemma_no_group(extension, 0);
    }
}

/// The key of the first group from `i` that lists `extension`.
pub open spec fn group_from(extension: Seq<char>, i: int) -> Seq<char>
    decreases groups().len() - i,
{
    if i < 0 || i >= groups().len() {
        "usage.kind.other"@
    } else if groups()[i].0.contains(extension) {
        groups()[i].1
    } else {
        group_from(extension, i + 1)
    }
}

/// Which group an extension belongs to: none for no extension, the first
/// group that lists it, or other.
pub open spec fn group_spec(extension: Seq<char>) -> Seq<char> {
    if extension.len() == 0 {
        "usage.kind.none"@
    } else {
        group_from(extension, 0)
    }
}

/// The catalogue keys of the groups, as the executable code holds them.
fn group_lists() -> (r: Vec<(Vec<&'static str>, &'static str)>)
    ensures
        r@.len() == groups().len(),
        forall|i: int| 0 <= i < r@.len() ==> (#[trigger] r@[i]).0@.map_values(|s: &str| s@) == groups()[i].0
            && r@[i].1@ == groups()[i].1,
{
    let r = vec![
        (vec!["mp4", "mkv", "mov", "avi", "wmv", "flv", "webm", "m4v", "mpg", "mpeg", "ts", "m2ts"], "usage.kind.video"),
        (vec!["jpg", "jpeg", "png", "gif", "bmp", "tif", "tiff", "heic", "heif", "webp", "raw", "cr2", "nef", "arw", "dng", "svg", "psd"], "usage.kind.image"),
        (vec!["mp3", "aac", "flac", "wav", "aiff", "m4a", "ogg", "opus", "wma"], "usage.kind.audio"),
        (vec!["zip", "gz", "tgz", "bz2", "xz", "zst", "7z", "rar", "tar", "jar", "war", "cab"], "usage.kind.archive"),
        (vec!["iso", "dmg", "img", "vdi", "vmdk", "qcow2", "vhd", "vhdx"], "usage.kind.disk_image"),
        (vec!["pdf", "doc", "docx", "xls", "xlsx", "ppt", "pptx", "odt", "ods", "odp", "pages", "numbers", "key", "rtf", "epub"], "usage.kind.document"),
        (vec!["rs", "c", "h", "cpp", "hpp", "cc", "py", "js", "ts", "tsx", "jsx", "go", "java", "kt", "swift", "rb", "php", "sh", "pl", "lua", "cs", "m", "mm"], "usage.kind.code"),
        (vec!["txt", "md", "log", "json", "xml", "yaml", "yml", "toml", "ini", "csv", "html", "css"], "usage.kind.text"),
        (vec!["db", "sqlite", "sqlite3", "mdb", "dbf", "parquet"], "usage.kind.database"),
        (vec!["exe", "dll", "so", "dylib", "a", "o", "bin", "app", "pkg", "deb"], "usage.kind.binary"),
        (vec!["ttf", "otf", "woff", "woff2", "ttc"], "usage.kind.font"),
    ];
    proof {
        assert forall|i: int| 0 <= i < r@.len() implies (#[trigger] r@[i]).0@.map_values(|s: &str| s@)
            == groups()[i].0 && r@[i].1@ == groups()[i].1 by {
            assert(r@[i].0@.map_values(|s: &str| s@) =~= groups()[i].0);
        }
    }
    r
}

/// Which group an extension belongs to, as a catalogue key.
pub fn group_of(extension: &str) -> (r: &'static str)
    ensures
        r@ == group_spec(extension@),
{
    let e = chars_of(extension);
    if e.len() == 0 {
        return "usage.kind.none";
    }
    let lists = group_lists();
    let mut i: usize = 0;
    while i < lists.len()
        invariant
            i <= lists@.len() == groups().len(),
            e@ == extension@,
            e@.len() > 0,
            forall|k: int| 0 <= k < lists@.len() ==> (#[trigger] lists@[k]).0@.map_values(|s: &str| s@)
                == groups()[k].0 && lists@[k].1@ == groups()[k].1,
            group_spec(extension@) == group_from(extension@, i as int),
        decreases lists.len() - i,
    {
        let names = &lists[i].0;
        let ghost nv = names@.map_values(|s: &str| s@);
        proof {
            assert(lists@[i as int].0 == *names);
        }
        let mut k: usize = 0;
        let mut found = false;
        while k < names.len()
            invariant
                k <= names@.len(),
                nv == names@.map_values(|s: &str| s@),
                e@ == extension@,
                found == exists|j: int| 0 <= j < k && nv[j] == extension@,
            decreases names.len() - k,
        {
            let candidate = chars_of(names[k]);
            proof {
                assert(nv[k as int] == names@[k as int]@);
            }
            if crate::text::chars_eq(candidate.as_slice(), e.as_slice()) {
                found = true;
            }
            k += 1;
        }
        if found {
            proof {
                let j = choose|j: int| 0 <= j < k && nv[j] == extension@;
                assert(groups()[i as int].0.contains(extension@));
            }
            return lists[i].1;
        }
        proof {
            if groups()[i as int].0.contains(extension@) {
                let j = choose|j: int| 0 <= j < nv.len() && nv[j] == extension@;
                assert(nv[j] == extension@);
            }
        }
        i += 1;
    }
    "usage.kind.other"
}

/// A row as the ranking sees it: its name (or extension), its path (or
/// group key), bytes, files, and whether it is a folder.
pub trait Ranked {
    /// The row's values.
    spec fn row(&self) -> (Seq<char>, Seq<char>, u64, u64, bool);

    /// Its bytes.
    fn size(&self) -> (r: u64)
        ensures
            r == self.row().2,
    ;

    /// Its name, which breaks ties.
    fn label(&self) -> (r: &str)
        ensures
            r@ == self.row().0,
    ;

    /// Its files.
    fn count(&self) -> (r: u64)
        ensures
            r == self.row().3,
    ;
}

impl Ranked for FolderUsage {
    open spec fn row(&self) -> (Seq<char>, Seq<char>, u64, u64, bool) {
        (self.name@, self.path@, self.bytes, self.files, self.is_directory)
    }

    fn size(&self) -> (r: u64) {
        self.bytes
    }

    fn label(&self) -> (r: &str) {
        self.name.as_str()
    }

    fn count(&self) -> (r: u64) {
        self.files
    }
}

impl Ranked for KindUsage {
    open spec fn row(&self) -> (Seq<char>, Seq<char>, u64, u64, bool) {
        (self.extension@, self.group_key@, self.bytes, self.files, false)
    }

    fn size(&self) -> (r: u64) {
        self.bytes
    }

    fn label(&self) -> (r: &str) {
        self.extension.as_str()
    }

    fn count(&self) -> (r: u64) {
        self.files
    }
}

/// Whether row `a` ranks strictly before row `b`: more bytes, or as many
/// and a name that sorts first, so the same folder ranks the same way twice.
pub open spec fn ranks_before(a: (Seq<char>, Seq<char>, u64, u64, bool), b: (Seq<char>, Seq<char>, u64, u64, bool)) -> bool {
    a.2 > b.2 || (a.2 == b.2 && seq_lt(a.0, b.0))
}

/// Whether rows are in rank order.
pub open spec fn ranked(s: Seq<(Seq<char>, Seq<char>, u64, u64, bool)>) -> bool {
    forall|i: int, j: int| 0 <= i < j < s.len() ==> !#[trigger] ranks_before(s[j], s[i])
}

/// The rows of a sequence.
pub open spec fn rows_of<T: Ranked>(s: Seq<T>) -> Seq<(Seq<char>, Seq<char>, u64, u64, bool)> {
    s.map_values(|t: T| t.row())
}

proof fn lemma_ranks_before_transitive(
    a: (Seq<char>, Seq<char>, u64, u64, bool),
    b: (Seq<char>, Seq<char>, u64, u64, bool),
    c: (Seq<char>, Seq<char>, u64, u64, bool),
)
    requires
        ranks_before(a, b),
        ranks_before(b, c),
    ensures
        ranks_before(a, c),
{
    if a.2 == b.2 && b.2 == c.2 {
        lemma_lt_transitive(a.0, b.0, c.0);
    }
}

proof fn lemma_ranks_before_asymmetric(
    a: (Seq<char>, Seq<char>, u64, u64, bool),
    b: (Seq<char>, Seq<char>, u64, u64, bool),
)
    ensures
        !(ranks_before(a, b) && ranks_before(b, a)),
{
    if ranks_before(a, b) && ranks_before(b, a) {
        lemma_lt_transitive(a.0, b.0, a.0);
        lemma_lt_irreflexive(a.0);
    }
}

/// Whether `a` ranks strictly before `b`.
fn ranks_first<T: Ranked>(a: &T, b: &T) -> (r: bool)
    ensures
        r == ranks_before(a.row(), b.row()),
{
    let x = a.size();
    let y = b.size();
    if x != y {
        x > y
    } else {
        match crate::ordered::compare_str(a.label(), b.label()) {
            crate::ordered::Order::Less => true,
            _ => false,
        }
    }
}

/// `rows` in rank order.
fn rank<T: Ranked>(rows: Vec<T>) -> (r: Vec<T>)
    ensures
        ranked(rows_of(r@)),
        rows_of(r@).to_multiset() == rows_of(rows@).to_multiset(),
{
    let ghost target = rows_of(rows@).to_multiset();
    let mut rest = rows;
    let mut out: Vec<T> = Vec::new();
    proof {
        assert(rows_of(out@) =~= Seq::empty());
        assert(rows_of(out@).to_multiset() =~= vstd::multiset::Multiset::empty());
        assert(rows_of(out@).to_multiset().add(rows_of(rest@).to_multiset()) =~= target);
    }
    while rest.len() > 0
        invariant
            ranked(rows_of(out@)),
            rows_of(out@).to_multiset().add(rows_of(rest@).to_multiset()) == target,
        decreases rest.len(),
    {
        let ghost before_rest = rest@;
        let item = rest.pop().unwrap();
        proof {
            assert(before_rest =~= rest@.push(item));
            assert(rows_of(before_rest) =~= rows_of(rest@).push(item.row()));
        }
        let ghost ov = rows_of(out@);
        let mut pos: usize = 0;
        while pos < out.len()
            invariant
                pos <= out@.len(),
                ov == rows_of(out@),
                forall|j: int| 0 <= j < pos ==> !#[trigger] ranks_before(item.row(), ov[j]),
            ensures
                pos <= out@.len(),
                forall|j: int| 0 <= j < pos ==> !#[trigger] ranks_before(item.row(), ov[j]),
                pos == out@.len() || ranks_before(item.row(), ov[pos as int]),
            decreases out.len() - pos,
        {
            if ranks_first(&item, &out[pos]) {
                break;
            }
            pos += 1;
        }
        let ghost at_end = pos == out@.len();
        proof {
            assert(at_end || ranks_before(item.row(), ov[pos as int]));
        }
        out.insert(pos, item);
        proof {
            let nv = rows_of(out@);
            assert(nv =~= ov.insert(pos as int, item.row()));
            assert forall|i: int, j: int| 0 <= i < j < nv.len() implies !#[trigger] ranks_before(nv[j], nv[i]) by {
                if j < pos {
                    assert(nv[i] == ov[i] && nv[j] == ov[j]);
                } else if i > pos {
                    assert(nv[i] == ov[i - 1] && nv[j] == ov[j - 1]);
                } else if j == pos {
                    assert(nv[i] == ov[i]);
                } else if i == pos {
                    assert(nv[j] == ov[j - 1]);
                    assert(ranks_before(item.row(), ov[pos as int]));
                    if j - 1 == pos {
                        lemma_ranks_before_asymmetric(item.row(), ov[pos as int]);
                    } else {
                        if ranks_before(ov[j - 1], item.row()) {
                            lemma_ranks_before_transitive(ov[j - 1], item.row(), ov[pos as int]);
                        }
                    }
                } else {
                    assert(i < pos < j);
                    assert(nv[i] == ov[i] && nv[j] == ov[j - 1]);
                }
            }
            assert(nv.remove(pos as int) =~= ov);
            assert(nv[pos as int] == item.row());
            assert(nv.to_multiset() =~= ov.to_multiset().insert(item.row())) by {
                assert(nv.remove(pos as int).to_multiset() =~= nv.to_multiset().remove(nv[pos as int]));
                assert(nv.contains(item.row()));
            }
            assert(rows_of(rest@).push(item.row()).to_multiset() =~= rows_of(rest@).to_multiset().insert(item.row()));
            assert(nv.to_multiset().add(rows_of(rest@).to_multiset()) =~= target);
        }
    }
    proof {
        assert(rows_of(rest@).to_multiset() =~= vstd::multiset::Multiset::empty());
        assert(rows_of(out@).to_multiset() =~= target);
    }
    out
}

/// The sum of a column over rows, stopping at the largest `u64`.
pub open spec fn column_sum(s: Seq<(Seq<char>, Seq<char>, u64, u64, bool)>, bytes: bool) -> int
    decreases s.len(),
{
    if s.len() == 0 {
        0
    } else {
        let here = if bytes { s.last().2 as int } else { s.last().3 as int };
        let total = column_sum(s.drop_last(), bytes) + here;
        if total > u64::MAX { u64::MAX as int } else { total }
    }
}

/// Ranked rows with everything past the first `max` gathered into one row
/// under `key`, so what is shown still adds up to the total.
pub open spec fn gathered(s: Seq<(Seq<char>, Seq<char>, u64, u64, bool)>, max: int, key: Seq<char>) -> Seq<(Seq<char>, Seq<char>, u64, u64, bool)> {
    if s.len() > max {
        let tail = s.skip(max);
        s.take(max).push((Seq::empty(), key, column_sum(tail, true) as u64, column_sum(tail, false) as u64, false))
    } else {
        s
    }
}

/// The bytes and files of a run of rows.
fn sums<T: Ranked>(tail: &Vec<T>) -> (r: (u64, u64))
    ensures
        r.0 == column_sum(rows_of(tail@), true),
        r.1 == column_sum(rows_of(tail@), false),
{
    let mut bytes: u64 = 0;
    let mut files: u64 = 0;
    let mut i: usize = 0;
    while i < tail.len()
        invariant
            i <= tail@.len(),
            bytes == column_sum(rows_of(tail@).take(i as int), true),
            files == column_sum(rows_of(tail@).take(i as int), false),
        decreases tail.len() - i,
    {
        proof {
            assert(rows_of(tail@).take(i + 1).drop_last() =~= rows_of(tail@).take(i as int));
            assert(rows_of(tail@).take(i + 1).last() == tail@[i as int].row());
        }
        bytes = bytes.saturating_add(tail[i].size());
        files = files.saturating_add(tail[i].count());
        i += 1;
    }
    proof {
        assert(rows_of(tail@).take(tail@.len() as int) =~= rows_of(tail@));
    }
    (bytes, files)
}

/// `rows` with everything past the first `max` gathered into one row.
fn gather_folders(rows: Vec<FolderUsage>) -> (r: Vec<FolderUsage>)
    ensures
        rows_of(r@) == gathered(rows_of(rows@), MAX_FOLDERS as int, Seq::empty()),
{
    let mut rows = rows;
    if rows.len() > MAX_FOLDERS {
        let ghost whole = rows@;
        let tail = rows.split_off(MAX_FOLDERS);
        let (bytes, files) = sums(&tail);
        let ghost head = rows@;
        rows.push(FolderUsage { name: String::new(), path: String::new(), bytes, files, is_directory: false });
        proof {
            assert(rows_of(tail@) =~= rows_of(whole).skip(MAX_FOLDERS as int));
            assert(rows_of(head) =~= rows_of(whole).take(MAX_FOLDERS as int));
            assert(rows_of(rows@) =~= rows_of(head).push(rows@.last().row()));
        }
    }
    rows
}

/// `rows` with everything past the first `max` gathered into one row.
fn gather_kinds(rows: Vec<KindUsage>) -> (r: Vec<KindUsage>)
    ensures
        rows_of(r@) == gathered(rows_of(rows@), MAX_KINDS as int, "usage.kind.rest"@),
{
    let mut rows = rows;
    if rows.len() > MAX_KINDS {
        let ghost whole = rows@;
        let tail = rows.split_off(MAX_KINDS);
        let (bytes, files) = sums(&tail);
        let ghost head = rows@;
        rows.push(KindUsage { extension: String::new(), group_key: "usage.kind.rest", bytes, files });
        proof {
            assert(rows_of(tail@) =~= rows_of(whole).skip(MAX_KINDS as int));
            assert(rows_of(head) =~= rows_of(whole).take(MAX_KINDS as int));
            assert(rows_of(rows@) =~= rows_of(head).push(rows@.last().row()));
        }
    }
    rows
}

/// What `str::to_lowercase` makes of a text.
pub uninterp spec fn lowercase_text(s: Seq<char>) -> Seq<char>;

/// `s` in lower case, as `str::to_lowercase` gives it.
#[verifier::external_body]
fn to_lowercase(s: &str) -> (r: String)
    ensures
        r@ == lowercase_text(s@),
{
    s.to_lowercase()
}

/// The extension of a file name, as `Path::extension` reads it: what
/// follows the last dot, unless that dot starts the name.
pub open spec fn extension_of(name: Seq<char>) -> Seq<char> {
    match rfind(name, '.') {
        Some(i) => if i > 0 {
            name.skip(i + 1)
        } else {
            Seq::empty()
        },
        None => Seq::empty(),
    }
}

/// The extension of a file name.
fn extension(name: &str) -> (r: String)
    ensures
        r@ == extension_of(name@),
{
    let c = chars_of(name);
    match rfind_char(c.as_slice(), '.') {
        Some(i) => {
            if i > 0 {
                let tail = slice_to_vec(c.as_slice(), i + 1, c.len());
                proof {
                    assert(tail@ =~= name@.skip(i + 1));
                }
                string_of(tail.as_slice())
            } else {
                String::new()
            }
        },
        None => String::new(),
    }
}

/// A walk being counted. The caller walks the tree, never following a
/// link, and tells this what it finds; this decides where each thing is
/// counted and when to stop descending, and ranks the rows at the end.
pub struct UsageTally {
    bytes: u64,
    files: u64,
    folder_count: u64,
    loose_bytes: u64,
    partial: bool,
    children: TextMap<String, (String, u64, u64)>,
    loose: Vec<FolderUsage>,
    kinds: TextMap<String, (u64, u64)>,
}

/// The child of the root that what is beneath a directory at `path` counts
/// toward: the one it is already beneath, or the directory itself when it
/// is a child of the root.
pub fn next_branch(branch: Option<&str>, path: &str) -> (r: String)
    ensures
        r@ == match branch {
            Some(b) => b@,
            None => path@,
        },
{
    match branch {
        Some(b) => b.to_owned(),
        None => path.to_owned(),
    }
}

/// The row a child folder becomes.
pub open spec fn child_row(e: (String, (String, u64, u64))) -> (Seq<char>, Seq<char>, u64, u64, bool) {
    (e.1.0@, e.0@, e.1.1, e.1.2, true)
}

/// The row a kind becomes.
pub open spec fn kind_row(e: (String, (u64, u64))) -> (Seq<char>, Seq<char>, u64, u64, bool) {
    (e.0@, group_spec(e.0@), e.1.0, e.1.1, false)
}

impl UsageTally {
    /// The totals: bytes, files, directories entered, bytes directly in
    /// the root, and whether anything was missed.
    pub closed spec fn totals(&self) -> (u64, u64, u64, u64, bool) {
        (self.bytes, self.files, self.folder_count, self.loose_bytes, self.partial)
    }

    /// Each child of the root, by path: its name, bytes and files.
    pub closed spec fn child_map(&self) -> TextMap<String, (String, u64, u64)> {
        self.children
    }

    /// Each kind, by extension: its bytes and files.
    pub closed spec fn kind_map(&self) -> TextMap<String, (u64, u64)> {
        self.kinds
    }

    /// The rows of files directly in the root, in the order found.
    pub closed spec fn loose_rows(&self) -> Seq<(Seq<char>, Seq<char>, u64, u64, bool)> {
        rows_of(self.loose@)
    }

    /// The maps are well formed, and no child or kind has counted more
    /// files than the whole walk.
    pub open spec fn wf(&self) -> bool {
        &&& self.child_map().wf()
        &&& self.kind_map().wf()
        &&& forall|k: Seq<char>| #[trigger] self.child_map().has(k) ==> self.child_map().value_of(k).2 <= self.totals().1
        &&& forall|k: Seq<char>| #[trigger] self.kind_map().has(k) ==> self.kind_map().value_of(k).1 <= self.totals().1
    }

    /// The rows the folder breakdown ranks: every child, then every loose
    /// file.
    pub open spec fn folder_rows(&self) -> Seq<(Seq<char>, Seq<char>, u64, u64, bool)> {
        self.child_map().entries().map_values(|e: (String, (String, u64, u64))| child_row(e)) + self.loose_rows()
    }

    /// The rows the kind breakdown ranks.
    pub open spec fn kind_rows(&self) -> Seq<(Seq<char>, Seq<char>, u64, u64, bool)> {
        self.kind_map().entries().map_values(|e: (String, (u64, u64))| kind_row(e))
    }

    /// Nothing counted.
    pub fn new() -> (r: Self)
        ensures
            r.wf(),
            r.totals() == (0u64, 0u64, 0u64, 0u64, false),
            r.child_map().entries().len() == 0,
            r.kind_map().entries().len() == 0,
            r.loose_rows().len() == 0,
    {
        UsageTally {
            bytes: 0,
            files: 0,
            folder_count: 0,
            loose_bytes: 0,
            partial: false,
            children: TextMap::new(),
            loose: Vec::new(),
            kinds: TextMap::new(),
        }
    }

    /// How far the walk has got, about `directory`.
    pub fn progress(&self, directory: &str) -> (r: Progress)
        ensures
            r.bytes == self.totals().0,
            r.files == self.totals().1,
            r.folders == self.totals().2,
            r.directory@ == directory@,
    {
        Progress { bytes: self.bytes, files: self.files, folders: self.folder_count, directory: directory.to_owned() }
    }

    /// Something was missed: a directory could not be read, or the walk
    /// was cancelled. The result says so rather than looking complete.
    pub fn mark_partial(&mut self)
        ensures
            final(self).totals() == (old(self).totals().0, old(self).totals().1, old(self).totals().2, old(self).totals().3, true),
            final(self).child_map() == old(self).child_map(),
            final(self).kind_map() == old(self).kind_map(),
            final(self).loose_rows() == old(self).loose_rows(),
            old(self).wf() ==> final(self).wf(),
    {
        self.partial = true;
    }

    /// A directory was found at `depth` (the root's entries are at 0),
    /// beneath the root's child `branch`, or itself a child of the root
    /// when `branch` is `None`. Says whether to descend into it: not past
    /// the depth bound, which makes the result partial instead.
    pub fn enter_directory(&mut self, branch: Option<&str>, path: &str, name: &str, depth: usize) -> (descend: bool)
        requires
            old(self).wf(),
            old(self).totals().2 < u64::MAX,
        ensures
            final(self).wf(),
            final(self).totals().0 == old(self).totals().0,
            final(self).totals().1 == old(self).totals().1,
            final(self).totals().2 == old(self).totals().2 + 1,
            final(self).totals().3 == old(self).totals().3,
            final(self).totals().4 == (old(self).totals().4 || !descend),
            descend == (depth < MAX_DEPTH),
            final(self).kind_map() == old(self).kind_map(),
            final(self).loose_rows() == old(self).loose_rows(),
            !descend || branch is Some || path@.len() == 0 || old(self).child_map().has(path@) ==> final(self).child_map() == old(self).child_map(),
            descend && branch is None && path@.len() > 0 && !old(self).child_map().has(path@) ==> {
                &&& final(self).child_map().has(path@)
                &&& final(self).child_map().value_of(path@).0@ == name@
                &&& final(self).child_map().value_of(path@).1 == 0
                &&& final(self).child_map().value_of(path@).2 == 0
                &&& forall|k: Seq<char>| k != path@ ==> (final(self).child_map().has(k) == old(self).child_map().has(k)
                    && (old(self).child_map().has(k) ==> final(self).child_map().value_of(k) == old(self).child_map().value_of(k)))
                &&& final(self).child_map().entries().len() == old(self).child_map().entries().len() + 1
            },
    {
        self.folder_count = self.folder_count + 1;
        if depth >= MAX_DEPTH {
            self.partial = true;
            return false;
        }
        if branch.is_none() {
            let key = chars_of(path);
            if key.len() > 0 && !self.children.contains(path) {
                self.children.insert(path.to_owned(), (name.to_owned(), 0, 0));
            }
        }
        true
    }

    /// A file of `bytes` bytes called `name`, at `path`, was found beneath
    /// the root's child `branch`, or directly in the root when `branch` is
    /// `None`, where it becomes a row of its own. Its kind is its
    /// extension in lower case.
    pub fn add_file(&mut self, branch: Option<&str>, name: &str, path: &str, bytes: u64)
        requires
            old(self).wf(),
            old(self).totals().1 < u64::MAX,
        ensures
            final(self).wf(),
            final(self).totals().0 == crate::imaging::layout::sat_add(old(self).totals().0 as int, bytes as int),
            final(self).totals().1 == old(self).totals().1 + 1,
            final(self).totals().2 == old(self).totals().2,
            final(self).totals().4 == old(self).totals().4,
            branch is None ==> final(self).totals().3 == crate::imaging::layout::sat_add(old(self).totals().3 as int, bytes as int)
                && final(self).loose_rows() == old(self).loose_rows().push((name@, path@, bytes, 1u64, false))
                && final(self).child_map() == old(self).child_map(),
            branch matches Some(b) ==> final(self).totals().3 == old(self).totals().3
                && final(self).loose_rows() == old(self).loose_rows()
                && (b@.len() == 0 ==> final(self).child_map() == old(self).child_map())
                && (b@.len() > 0 ==> {
                    &&& final(self).child_map().has(b@)
                    &&& final(self).child_map().value_of(b@).1 == crate::imaging::layout::sat_add(
                        if old(self).child_map().has(b@) { old(self).child_map().value_of(b@).1 as int } else { 0 }, bytes as int)
                    &&& final(self).child_map().value_of(b@).2 == (if old(self).child_map().has(b@) { old(self).child_map().value_of(b@).2 as int } else { 0 }) + 1
                    &&& final(self).child_map().value_of(b@).0@ == if old(self).child_map().has(b@) { old(self).child_map().value_of(b@).0@ } else { b@ }
                    &&& forall|k: Seq<char>| k != b@ ==> (final(self).child_map().has(k) == old(self).child_map().has(k)
                        && (old(self).child_map().has(k) ==> final(self).child_map().value_of(k) == old(self).child_map().value_of(k)))
                }),
            ({
                let e = lowercase_text(extension_of(name@));
                &&& final(self).kind_map().has(e)
                &&& final(self).kind_map().value_of(e).0 == crate::imaging::layout::sat_add(
                    if old(self).kind_map().has(e) { old(self).kind_map().value_of(e).0 as int } else { 0 }, bytes as int)
                &&& final(self).kind_map().value_of(e).1 == (if old(self).kind_map().has(e) { old(self).kind_map().value_of(e).1 as int } else { 0 }) + 1
                &&& forall|k: Seq<char>| k != e ==> (final(self).kind_map().has(k) == old(self).kind_map().has(k)
                    && (old(self).kind_map().has(k) ==> final(self).kind_map().value_of(k) == old(self).kind_map().value_of(k)))
            }),
    {
        self.files = self.files + 1;
        self.bytes = self.bytes.saturating_add(bytes);
        match branch {
            Some(b) => {
                let key = chars_of(b);
                if key.len() > 0 {
                    let (label, so_far, count) = match self.children.get(b) {
                        Some(v) => (v.0.clone(), v.1, v.2),
                        None => (b.to_owned(), 0u64, 0u64),
                    };
                    self.children.insert(b.to_owned(), (label, so_far.saturating_add(bytes), count + 1));
                }
            },
            None => {
                self.loose_bytes = self.loose_bytes.saturating_add(bytes);
                let ghost before = self.loose@;
                self.loose.push(FolderUsage { name: name.to_owned(), path: path.to_owned(), bytes, files: 1, is_directory: false });
                proof {
                    assert(rows_of(self.loose@) =~= rows_of(before).push((name@, path@, bytes, 1u64, false)));
                }
            },
        }
        let ext_raw = extension(name);
        let ext = to_lowercase(ext_raw.as_str());
        let (so_far, count) = match self.kinds.get(ext.as_str()) {
            Some(v) => (v.0, v.1),
            None => (0u64, 0u64),
        };
        self.kinds.insert(ext, (so_far.saturating_add(bytes), count + 1));
    }

    /// The breakdown: the totals, the folder rows and the kind rows, each
    /// ranked largest first (ties by name) with everything past the first
    /// few gathered into one row.
    pub fn finish(self) -> (r: Usage)
        requires
            self.wf(),
        ensures
            r.bytes == self.totals().0,
            r.files == self.totals().1,
            r.folder_count == self.totals().2,
            r.loose_bytes == self.totals().3,
            r.partial == self.totals().4,
            exists|p: Seq<(Seq<char>, Seq<char>, u64, u64, bool)>|
                ranked(p) && p.to_multiset() == self.folder_rows().to_multiset()
                && rows_of(r.folders@) == gathered(p, MAX_FOLDERS as int, Seq::empty()),
            exists|p: Seq<(Seq<char>, Seq<char>, u64, u64, bool)>|
                ranked(p) && p.to_multiset() == self.kind_rows().to_multiset()
                && rows_of(r.kinds@) == gathered(p, MAX_KINDS as int, "usage.kind.rest"@),
    {
        let mut folders: Vec<FolderUsage> = Vec::new();
        let entries = self.children.as_slice();
        let mut i: usize = 0;
        while i < entries.len()
            invariant
                i <= entries@.len(),
                entries@ == self.child_map().entries(),
                rows_of(folders@) == entries@.take(i as int).map_values(|e: (String, (String, u64, u64))| child_row(e)),
            decreases entries.len() - i,
        {
            let e = &entries[i];
            let ghost before = folders@;
            folders.push(FolderUsage { name: e.1.0.clone(), path: e.0.clone(), bytes: e.1.1, files: e.1.2, is_directory: true });
            proof {
                assert(entries@.take(i + 1) =~= entries@.take(i as int).push(*e));
                assert(rows_of(folders@) =~= rows_of(before).push(child_row(*e)));
                assert(entries@.take(i + 1).map_values(|e: (String, (String, u64, u64))| child_row(e)) =~= entries@.take(i as int).map_values(|e: (String, (String, u64, u64))| child_row(e)).push(child_row(*e)));
            }
            i += 1;
        }
        let mut k: usize = 0;
        proof {
            assert(entries@.take(entries@.len() as int) =~= entries@);
        }
        let ghost base = rows_of(folders@);
        while k < self.loose.len()
            invariant
                k <= self.loose@.len(),
                base == self.child_map().entries().map_values(|e: (String, (String, u64, u64))| child_row(e)),
                rows_of(folders@) == base + rows_of(self.loose@).take(k as int),
            decreases self.loose.len() - k,
        {
            let f = &self.loose[k];
            let ghost before = folders@;
            folders.push(FolderUsage { name: f.name.clone(), path: f.path.clone(), bytes: f.bytes, files: f.files, is_directory: f.is_directory });
            proof {
                assert(rows_of(folders@) =~= rows_of(before).push(f.row()));
                assert(rows_of(self.loose@).take(k + 1) =~= rows_of(self.loose@).take(k as int).push(f.row()));
                assert(base + rows_of(self.loose@).take(k + 1) =~= (base + rows_of(self.loose@).take(k as int)).push(f.row()));
            }
            k += 1;
        }
        proof {
            assert(rows_of(self.loose@).take(self.loose@.len() as int) =~= rows_of(self.loose@));
            assert(rows_of(folders@) =~= self.folder_rows());
        }
        let ranked_folders = rank(folders);
        let ghost pf = rows_of(ranked_folders@);
        let folders_out = gather_folders(ranked_folders);

        let mut kinds: Vec<KindUsage> = Vec::new();
        let kentries = self.kinds.as_slice();
        let mut j: usize = 0;
        while j < kentries.len()
            invariant
                j <= kentries@.len(),
                kentries@ == self.kind_map().entries(),
                rows_of(kinds@) == kentries@.take(j as int).map_values(|e: (String, (u64, u64))| kind_row(e)),
            decreases kentries.len() - j,
        {
            let e = &kentries[j];
            let ghost before = kinds@;
            let key = group_of(e.0.as_str());
            kinds.push(KindUsage { extension: e.0.clone(), group_key: key, bytes: e.1.0, files: e.1.1 });
            proof {
                assert(kentries@.take(j + 1) =~= kentries@.take(j as int).push(*e));
                assert(rows_of(kinds@) =~= rows_of(before).push(kind_row(*e)));
                assert(kentries@.take(j + 1).map_values(|e: (String, (u64, u64))| kind_row(e)) =~= kentries@.take(j as int).map_values(|e: (String, (u64, u64))| kind_row(e)).push(kind_row(*e)));
            }
            j += 1;
        }
        proof {
            assert(kentries@.take(kentries@.len() as int) =~= kentries@);
        }
        let ranked_kinds = rank(kinds);
        let ghost pk = rows_of(ranked_kinds@);
        let kinds_out = gather_kinds(ranked_kinds);
        Usage {
            folders: folders_out,
            kinds: kinds_out,
            bytes: self.bytes,
            files: self.files,
            folder_count: self.folder_count,
            loose_bytes: self.loose_bytes,
            partial: self.partial,
        }
    }
}

} // verus!
