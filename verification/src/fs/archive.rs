//! Where an archive's members may be written, and what extracting them is
//! allowed to do.
//!
//! An archive is untrusted input. A member name is a path someone else
//! chose, and `../../.ssh/authorized_keys` is a name like any other until
//! it is checked. Every member is written strictly beneath the destination
//! or not at all; links are refused; a member or an archive that expands
//! past a bound stops the extraction rather than filling the disk.

use vstd::prelude::*;

use crate::error::{Error, ErrorCode};
use crate::text::{chars_eq, chars_of, push_char, push_str, split_chars, split_seq, string_of};

verus! {

/// The most one member may expand to: eight gibibytes.
pub const MAX_MEMBER_BYTES: u64 = 0x2_0000_0000;

/// The most a whole archive may expand to: thirty-two gibibytes.
pub const MAX_TOTAL_BYTES: u64 = 0x8_0000_0000;

/// What an extraction did.
#[derive(Debug, Clone, Copy, PartialEq, Eq, Default, Structural)]
pub struct Extracted {
    /// Members written.
    pub files: u64,
    /// Directories created.
    pub folders: u64,
    /// Bytes written.
    pub bytes: u64,
    /// Members refused because their name would have escaped, or because
    /// they were links. Reported, never silently skipped.
    pub refused: u64,
}

/// `name` with every backslash read as a slash: an archive built on one
/// system that says `a\..\..\b` must not become a strange file name on one
/// and a way out on another.
pub open spec fn slashed(name: Seq<char>) -> Seq<char> {
    name.map_values(|c: char| if c == '\\' { '/' } else { c })
}

/// `path` with `segment` added beneath it, as `PathBuf::push` adds a
/// relative segment.
pub open spec fn push_segment(path: Seq<char>, segment: Seq<char>) -> Seq<char> {
    if path.len() > 0 && path.last() != '/' {
        path + seq!['/'] + segment
    } else {
        path + segment
    }
}

/// `path` with each of `segments` added beneath it in turn.
pub open spec fn joined(path: Seq<char>, segments: Seq<Seq<char>>) -> Seq<char>
    decreases segments.len(),
{
    if segments.len() == 0 {
        path
    } else {
        joined(push_segment(path, segments[0]), segments.drop_first())
    }
}

/// Whether a piece of a name adds nothing: empty, from a doubled or
/// trailing slash, or `.`.
pub open spec fn adds_nothing(part: Seq<char>) -> bool {
    part.len() == 0 || part == seq!['.']
}

/// Whether a piece of a name climbs out: `..`.
pub open spec fn climbs(part: Seq<char>) -> bool {
    part == seq!['.', '.']
}

/// Where the pieces of a name lead from `path`, or `None` if one climbs
/// out; `added` says whether anything has been added yet, and a name that
/// adds nothing leads nowhere.
pub open spec fn descend(path: Seq<char>, parts: Seq<Seq<char>>, added: bool) -> Option<Seq<char>>
    decreases parts.len(),
{
    if parts.len() == 0 {
        if added {
            Some(path)
        } else {
            None
        }
    } else if adds_nothing(parts[0]) {
        descend(path, parts.drop_first(), added)
    } else if climbs(parts[0]) {
        None
    } else {
        descend(push_segment(path, parts[0]), parts.drop_first(), true)
    }
}

/// Where a member called `name` goes beneath `destination`, or `None` when
/// it would go anywhere else or nowhere.
pub open spec fn destination_of(destination: Seq<char>, name: Seq<char>) -> Option<Seq<char>> {
    descend(destination, split_seq(slashed(name), '/'), false)
}

/// Where a member called `name` may be written beneath `destination`.
///
/// Read on the slash (a backslash counts as one): empty pieces and `.` add
/// nothing, a `..` anywhere refuses the whole name, and a name that adds
/// nothing is refused too, so the destination itself is never overwritten.
pub fn safe_destination(destination: &str, name: &str) -> (r: Option<String>)
    ensures
        match r {
            Some(out) => destination_of(destination@, name@) == Some(out@),
            None => destination_of(destination@, name@) is None,
        },
{
    let chars = chars_of(name);
    let mut normal: Vec<char> = Vec::new();
    let mut k: usize = 0;
    while k < chars.len()
        invariant
            k <= chars@.len(),
            chars@ == name@,
            normal@ == slashed(name@).take(k as int),
        decreases chars.len() - k,
    {
        let c = chars[k];
        normal.push(if c == '\\' { '/' } else { c });
        proof {
            assert(slashed(name@).take(k + 1) =~= slashed(name@).take(k as int).push(
                if c == '\\' { '/' } else { c },
            ));
        }
        k += 1;
    }
    proof {
        assert(slashed(name@).take(chars@.len() as int) =~= slashed(name@));
    }
    let parts = split_chars(normal.as_slice(), '/');
    let ghost pv = parts@.map_values(|v: Vec<char>| v@);
    let mut out = chars_of(destination);
    let mut added = false;
    let dot: [char; 1] = ['.'];
    let dots: [char; 2] = ['.', '.'];
    proof {
        assert(dot@ =~= seq!['.']);
        assert(dots@ =~= seq!['.', '.']);
        assert(pv.skip(0) =~= pv);
    }
    let mut i: usize = 0;
    while i < parts.len()
        invariant
            i <= parts@.len(),
            pv == parts@.map_values(|v: Vec<char>| v@),
            pv == split_seq(slashed(name@), '/'),
            dot@ == seq!['.'],
            dots@ == seq!['.', '.'],
            destination_of(destination@, name@) == descend(out@, pv.skip(i as int), added),
        decreases parts.len() - i,
    {
        let part = &parts[i];
        proof {
            assert(part@ == pv[i as int]);
            assert(pv.skip(i as int)[0] == pv[i as int]);
            assert(pv.skip(i as int).drop_first() =~= pv.skip(i + 1));
        }
        if part.len() == 0 || chars_eq(part.as_slice(), &dot) {
        } else if chars_eq(part.as_slice(), &dots) {
            return None;
        } else {
            let ghost before = out@;
            if out.len() > 0 && out[out.len() - 1] != '/' {
                out.push('/');
            }
            let mut j: usize = 0;
            let ghost base = out@;
            while j < part.len()
                invariant
                    j <= part@.len(),
                    out@ == base + part@.take(j as int),
                decreases part.len() - j,
            {
                out.push(part[j]);
                proof {
                    assert(base + part@.take(j + 1) =~= (base + part@.take(j as int)).push(part@[j as int]));
                }
                j += 1;
            }
            proof {
                assert(part@.take(part@.len() as int) =~= part@);
                assert(out@ =~= push_segment(before, part@));
            }
            added = true;
        }
        i += 1;
    }
    proof {
        assert(pv.skip(i as int) =~= Seq::<Seq<char>>::empty());
    }
    if added {
        Some(string_of(out.as_slice()))
    } else {
        None
    }
}

/// What to do with one member of an archive.
#[derive(Debug, Clone, PartialEq, Eq)]
pub enum MemberPlan {
    /// Not asked for: neither written nor counted.
    Skip,
    /// Refused, and counted as refused.
    Refuse,
    /// A directory to create at this path.
    Folder(String),
    /// A file to write at this path.
    File(String),
}

/// Whether a member called `name` is among those asked for; an empty list
/// asks for everything.
pub open spec fn is_wanted(wanted: Seq<Seq<char>>, name: Seq<char>) -> bool {
    wanted.len() == 0 || wanted.contains(name)
}

/// Whether `name` is among `wanted`.
fn wanted_has(wanted: &[String], name: &str) -> (r: bool)
    ensures
        r == is_wanted(wanted@.map_values(|w: String| w@), name@),
{
    let ghost wv = wanted@.map_values(|w: String| w@);
    if wanted.len() == 0 {
        return true;
    }
    let target = chars_of(name);
    let mut i: usize = 0;
    while i < wanted.len()
        invariant
            i <= wanted@.len(),
            wv == wanted@.map_values(|w: String| w@),
            target@ == name@,
            forall|j: int| 0 <= j < i ==> wv[j] != name@,
        decreases wanted.len() - i,
    {
        let w = chars_of(wanted[i].as_str());
        proof {
            assert(wv[i as int] == wanted@[i as int]@);
        }
        if chars_eq(w.as_slice(), target.as_slice()) {
            proof {
                assert(wv[i as int] == name@);
            }
            return true;
        }
        i += 1;
    }
    false
}

/// The error for an archive that expands past the bound.
fn too_large() -> (r: Error)
    ensures
        r.spec_code() == ErrorCode::LimitExceeded,
{
    Error::new(ErrorCode::LimitExceeded, "the archive expands past what this will unpack")
}

/// An extraction in progress: what it has done so far, and how many bytes
/// the member being written has taken. The reading and writing are the
/// caller's; every decision about what may be written, and when to stop, is
/// made here.
pub struct Extraction {
    done: Extracted,
    member: u64,
}

impl Extraction {
    /// Whether the bounds hold: nothing past the total bound has been
    /// accepted, nor past the member bound for the current member.
    pub closed spec fn wf(&self) -> bool {
        self.done.bytes <= MAX_TOTAL_BYTES && self.member <= MAX_MEMBER_BYTES
    }

    /// What has been done so far.
    pub closed spec fn spec_done(&self) -> Extracted {
        self.done
    }

    /// Bytes the member being written has taken.
    pub closed spec fn spec_member(&self) -> u64 {
        self.member
    }

    /// Nothing done yet.
    pub fn new() -> (r: Self)
        ensures
            r.wf(),
            r.spec_done() == (Extracted { files: 0, folders: 0, bytes: 0, refused: 0 }),
            r.spec_member() == 0,
    {
        Extraction { done: Extracted { files: 0, folders: 0, bytes: 0, refused: 0 }, member: 0 }
    }

    /// What has been done so far.
    pub fn done(&self) -> (r: Extracted)
        ensures
            r == self.spec_done(),
    {
        self.done
    }

    /// Decide about a member of an ISO 9660 image, whose listing marked
    /// names that climb out (`unsafe_name`): not asked for is skipped; a
    /// name the listing or our own resolution refuses is refused; a
    /// directory is created; a member whose extent claims more than the
    /// member bound stops the extraction.
    pub fn consider_iso(
        &mut self,
        destination: &str,
        name: &str,
        wanted: &[String],
        unsafe_name: bool,
        is_dir: bool,
        size: u64,
    ) -> (r: Result<MemberPlan, Error>)
        requires
            old(self).spec_done().refused < u64::MAX,
            old(self).spec_done().folders < u64::MAX,
        ensures
            old(self).wf() ==> final(self).wf(),
            final(self).spec_member() == 0,
            final(self).spec_done().files == old(self).spec_done().files,
            final(self).spec_done().bytes == old(self).spec_done().bytes,
            !is_wanted(wanted@.map_values(|w: String| w@), name@) ==> r == Ok::<MemberPlan, Error>(
                MemberPlan::Skip,
            ) && final(self).spec_done() == old(self).spec_done(),
            is_wanted(wanted@.map_values(|w: String| w@), name@) && (unsafe_name || destination_of(
                destination@,
                name@,
            ) is None) ==> r == Ok::<MemberPlan, Error>(MemberPlan::Refuse) && final(self).spec_done().refused == old(self).spec_done().refused + 1,
            is_wanted(wanted@.map_values(|w: String| w@), name@) && !unsafe_name && destination_of(
                destination@,
                name@,
            ) is Some ==> (if is_dir {
                r matches Ok(MemberPlan::Folder(p)) && Some(p@) == destination_of(destination@, name@)
                    && final(self).spec_done().folders == old(self).spec_done().folders + 1
                    && final(self).spec_done().refused == old(self).spec_done().refused
            } else if size > MAX_MEMBER_BYTES {
                r matches Err(e) && e.spec_code() == ErrorCode::LimitExceeded
            } else {
                r matches Ok(MemberPlan::File(p)) && Some(p@) == destination_of(destination@, name@)
                    && final(self).spec_done() == old(self).spec_done()
            }),
    {
        self.consider_zip(destination, name, wanted, !unsafe_name, is_dir, false, size)
    }

    /// Decide about a ZIP member, in the order a ZIP is checked: not asked
    /// for is skipped; a name the archive's own check (`enclosed`) or ours
    /// refuses is refused; a directory is created; a link is refused; a
    /// member claiming more than the member bound stops the extraction.
    pub fn consider_zip(
        &mut self,
        destination: &str,
        name: &str,
        wanted: &[String],
        enclosed: bool,
        is_dir: bool,
        is_symlink: bool,
        size: u64,
    ) -> (r: Result<MemberPlan, Error>)
        requires
            old(self).spec_done().refused < u64::MAX,
            old(self).spec_done().folders < u64::MAX,
        ensures
            old(self).wf() ==> final(self).wf(),
            final(self).spec_member() == 0,
            final(self).spec_done().files == old(self).spec_done().files,
            final(self).spec_done().bytes == old(self).spec_done().bytes,
            !is_wanted(wanted@.map_values(|w: String| w@), name@) ==> r == Ok::<MemberPlan, Error>(
                MemberPlan::Skip,
            ) && final(self).spec_done() == old(self).spec_done(),
            is_wanted(wanted@.map_values(|w: String| w@), name@) && (!enclosed || destination_of(
                destination@,
                name@,
            ) is None) ==> r == Ok::<MemberPlan, Error>(MemberPlan::Refuse) && final(self).spec_done().refused == old(self).spec_done().refused + 1,
            is_wanted(wanted@.map_values(|w: String| w@), name@) && enclosed && destination_of(
                destination@,
                name@,
            ) is Some ==> (if is_dir {
                r matches Ok(MemberPlan::Folder(p)) && Some(p@) == destination_of(destination@, name@)
                    && final(self).spec_done().folders == old(self).spec_done().folders + 1
                    && final(self).spec_done().refused == old(self).spec_done().refused
            } else if is_symlink {
                r == Ok::<MemberPlan, Error>(MemberPlan::Refuse) && final(self).spec_done().refused
                    == old(self).spec_done().refused + 1 && final(self).spec_done().folders == old(self).spec_done().folders
            } else if size > MAX_MEMBER_BYTES {
                r matches Err(e) && e.spec_code() == ErrorCode::LimitExceeded
            } else {
                r matches Ok(MemberPlan::File(p)) && Some(p@) == destination_of(destination@, name@)
                    && final(self).spec_done() == old(self).spec_done()
            }),
    {
        self.member = 0;
        if !wanted_has(wanted, name) {
            return Ok(MemberPlan::Skip);
        }
        let target = if enclosed {
            safe_destination(destination, name)
        } else {
            None
        };
        match target {
            None => {
                self.done.refused = self.done.refused + 1;
                Ok(MemberPlan::Refuse)
            },
            Some(out) => {
                if is_dir {
                    self.done.folders = self.done.folders + 1;
                    Ok(MemberPlan::Folder(out))
                } else if is_symlink {
                    self.done.refused = self.done.refused + 1;
                    Ok(MemberPlan::Refuse)
                } else if size > MAX_MEMBER_BYTES {
                    let mut text = String::new();
                    push_str(&mut text, "a member claims ");
                    let d = crate::text::decimal_string(size);
                    push_str(&mut text, d.as_str());
                    push_str(&mut text, " bytes");
                    Err(Error::with_context(ErrorCode::LimitExceeded, text))
                } else {
                    Ok(MemberPlan::File(out))
                }
            },
        }
    }

    /// Account for `read` more bytes of the member being written. Past the
    /// total bound, or past the member bound when `member_bound` asks for
    /// it, the extraction stops: the bound is checked against what arrives,
    /// not what a header claimed, because a lying header is the whole point
    /// of an archive bomb.
    pub fn take_bytes(&mut self, read: u64, member_bound: bool) -> (r: Result<(), Error>)
        requires
            old(self).wf(),
        ensures
            final(self).spec_done().files == old(self).spec_done().files,
            final(self).spec_done().folders == old(self).spec_done().folders,
            final(self).spec_done().refused == old(self).spec_done().refused,
            r is Ok <==> old(self).spec_done().bytes + read <= MAX_TOTAL_BYTES && (member_bound
                ==> old(self).spec_member() + read <= MAX_MEMBER_BYTES),
            r is Ok ==> final(self).wf() && final(self).spec_done().bytes == old(self).spec_done().bytes
                + read && final(self).spec_member() == if member_bound {
                old(self).spec_member() + read
            } else {
                old(self).spec_member() as int
            },
            r matches Err(e) ==> e.spec_code() == ErrorCode::LimitExceeded,
    {
        if read > MAX_TOTAL_BYTES - self.done.bytes {
            return Err(too_large());
        }
        if member_bound {
            if read > MAX_MEMBER_BYTES - self.member {
                return Err(too_large());
            }
            self.member = self.member + read;
        }
        self.done.bytes = self.done.bytes + read;
        Ok(())
    }

    /// The member being written is complete.
    pub fn finish_member(&mut self)
        requires
            old(self).spec_done().files < u64::MAX,
        ensures
            final(self).spec_done() == (Extracted { files: (old(self).spec_done().files + 1) as u64, ..old(self).spec_done() }),
            final(self).spec_member() == 0,
            final(self).wf() == (old(self).spec_done().bytes <= MAX_TOTAL_BYTES),
    {
        self.done.files = self.done.files + 1;
        self.member = 0;
    }

    /// A member that could not be written is counted as refused.
    pub fn refuse(&mut self)
        requires
            old(self).spec_done().refused < u64::MAX,
        ensures
            final(self).spec_done() == (Extracted { refused: (old(self).spec_done().refused + 1) as u64, ..old(self).spec_done() }),
            final(self).spec_member() == old(self).spec_member(),
    {
        self.done.refused = self.done.refused + 1;
    }

    /// A directory was created.
    pub fn folder_created(&mut self)
        requires
            old(self).spec_done().folders < u64::MAX,
        ensures
            final(self).spec_done() == (Extracted { folders: (old(self).spec_done().folders + 1) as u64, ..old(self).spec_done() }),
            final(self).spec_member() == old(self).spec_member(),
    {
        self.done.folders = self.done.folders + 1;
    }

    /// A new member begins.
    pub fn begin_member(&mut self)
        ensures
            final(self).spec_done() == old(self).spec_done(),
            final(self).spec_member() == 0,
    {
        self.member = 0;
    }
}

/// `name` with backslashes read as slashes.
fn slash_chars(name: &str) -> (r: Vec<char>)
    ensures
        r@ == slashed(name@),
{
    let chars = chars_of(name);
    let mut normal: Vec<char> = Vec::new();
    let mut k: usize = 0;
    while k < chars.len()
        invariant
            k <= chars@.len(),
            chars@ == name@,
            normal@ == slashed(name@).take(k as int),
        decreases chars.len() - k,
    {
        let c = chars[k];
        normal.push(if c == '\\' { '/' } else { c });
        proof {
            assert(slashed(name@).take(k + 1) =~= slashed(name@).take(k as int).push(
                if c == '\\' { '/' } else { c },
            ));
        }
        k += 1;
    }
    proof {
        assert(slashed(name@).take(chars@.len() as int) =~= slashed(name@));
    }
    normal
}

/// Whether a member name says outright that it means to leave: it starts
/// at a root, climbs with `..`, or names a drive (`C:`). Such a name is
/// refused rather than repaired, so what a listing marks unsafe is exactly
/// what extraction will not write.
pub open spec fn escapes_spec(name: Seq<char>) -> bool {
    let n = slashed(name);
    ||| n.len() > 0 && n[0] == '/'
    ||| split_seq(n, '/').contains(seq!['.', '.'])
    ||| n.len() >= 2 && n[0] < '\u{80}' && n[1] == ':'
}

/// Whether a member name says outright that it means to leave.
pub fn escapes(name: &str) -> (r: bool)
    ensures
        r == escapes_spec(name@),
{
    let n = slash_chars(name);
    if n.len() > 0 && n[0] == '/' {
        return true;
    }
    if n.len() >= 2 && n[0] < '\u{80}' && n[1] == ':' {
        return true;
    }
    let parts = split_chars(n.as_slice(), '/');
    let ghost pv = parts@.map_values(|v: Vec<char>| v@);
    let dots: [char; 2] = ['.', '.'];
    proof {
        assert(dots@ =~= seq!['.', '.']);
    }
    let mut i: usize = 0;
    while i < parts.len()
        invariant
            i <= parts@.len(),
            pv == parts@.map_values(|v: Vec<char>| v@),
            pv == split_seq(n@, '/'),
            n@ == slashed(name@),
            dots@ == seq!['.', '.'],
            forall|j: int| 0 <= j < i ==> pv[j] != seq!['.', '.'],
        decreases parts.len() - i,
    {
        proof {
            assert(pv[i as int] == parts@[i as int]@);
        }
        if chars_eq(parts[i].as_slice(), &dots) {
            proof {
                assert(pv[i as int] == seq!['.', '.']);
                assert(split_seq(n@, '/').contains(seq!['.', '.']));
            }
            return true;
        }
        i += 1;
    }
    proof {
        if split_seq(n@, '/').contains(seq!['.', '.']) {
            let j = choose|j: int| 0 <= j < pv.len() && pv[j] == seq!['.', '.'];
            assert(pv[j] != seq!['.', '.']);
        }
    }
    false
}

impl Extraction {
    /// Decide about a tar member, in the order a tar is checked: a member
    /// with no name or not asked for is skipped; a name that means to
    /// leave, a link, or a name that leads nowhere is refused; a directory
    /// is created; anything but a plain file (a device, a fifo) is refused.
    pub fn consider_tar(
        &mut self,
        destination: &str,
        name: &str,
        wanted: &[String],
        is_link: bool,
        is_dir: bool,
        is_file: bool,
    ) -> (r: MemberPlan)
        requires
            old(self).spec_done().refused < u64::MAX,
            old(self).spec_done().folders < u64::MAX,
        ensures
            old(self).wf() ==> final(self).wf(),
            final(self).spec_member() == 0,
            final(self).spec_done().files == old(self).spec_done().files,
            final(self).spec_done().bytes == old(self).spec_done().bytes,
            name@.len() == 0 || !is_wanted(wanted@.map_values(|w: String| w@), name@) ==> r
                == MemberPlan::Skip && final(self).spec_done() == old(self).spec_done(),
            name@.len() > 0 && is_wanted(wanted@.map_values(|w: String| w@), name@) ==> if escapes_spec(
                name@,
            ) || is_link || destination_of(destination@, name@) is None || (!is_dir && !is_file) {
                r == MemberPlan::Refuse && final(self).spec_done().refused == old(self).spec_done().refused + 1 && final(self).spec_done().folders == old(self).spec_done().folders
            } else if is_dir {
                r matches MemberPlan::Folder(p) && Some(p@) == destination_of(destination@, name@)
                    && final(self).spec_done().folders == old(self).spec_done().folders + 1
                    && final(self).spec_done().refused == old(self).spec_done().refused
            } else {
                r matches MemberPlan::File(p) && Some(p@) == destination_of(destination@, name@)
                    && final(self).spec_done() == old(self).spec_done()
            },
    {
        self.member = 0;
        let letters = chars_of(name);
        if letters.len() == 0 || !wanted_has(wanted, name) {
            return MemberPlan::Skip;
        }
        if escapes(name) || is_link {
            self.done.refused = self.done.refused + 1;
            return MemberPlan::Refuse;
        }
        match safe_destination(destination, name) {
            None => {
                self.done.refused = self.done.refused + 1;
                MemberPlan::Refuse
            },
            Some(out) => {
                if is_dir {
                    self.done.folders = self.done.folders + 1;
                    MemberPlan::Folder(out)
                } else if !is_file {
                    self.done.refused = self.done.refused + 1;
                    MemberPlan::Refuse
                } else {
                    MemberPlan::File(out)
                }
            },
        }
    }

    /// Decide about the one file a compressed stream that is not a tar
    /// holds: refused if its name means to leave or leads nowhere, written
    /// otherwise.
    pub fn consider_single(&mut self, destination: &str, name: &str) -> (r: MemberPlan)
        requires
            old(self).spec_done().refused < u64::MAX,
        ensures
            old(self).wf() ==> final(self).wf(),
            final(self).spec_member() == 0,
            if escapes_spec(name@) || destination_of(destination@, name@) is None {
                r == MemberPlan::Refuse && final(self).spec_done() == (Extracted {
                    refused: (old(self).spec_done().refused + 1) as u64,
                    ..old(self).spec_done()
                })
            } else {
                r matches MemberPlan::File(p) && Some(p@) == destination_of(destination@, name@)
                    && final(self).spec_done() == old(self).spec_done()
            },
    {
        self.member = 0;
        if escapes(name) {
            self.done.refused = self.done.refused + 1;
            return MemberPlan::Refuse;
        }
        match safe_destination(destination, name) {
            None => {
                self.done.refused = self.done.refused + 1;
                MemberPlan::Refuse
            },
            Some(out) => MemberPlan::File(out),
        }
    }
}

/// Whether a segment stays where it is put: not empty, not `.` or `..`,
/// and holding no slash or backslash that could make it more than one.
pub open spec fn plain_segment(s: Seq<char>) -> bool {
    &&& s.len() > 0
    &&& s != seq!['.']
    &&& s != seq!['.', '.']
    &&& !s.contains('/')
    &&& !s.contains('\\')
}

/// The segments the pieces of a name add.
pub open spec fn segments_of(parts: Seq<Seq<char>>) -> Seq<Seq<char>>
    decreases parts.len(),
{
    if parts.len() == 0 {
        Seq::empty()
    } else if adds_nothing(parts[0]) {
        segments_of(parts.drop_first())
    } else {
        seq![parts[0]] + segments_of(parts.drop_first())
    }
}

proof fn lemma_descend(path: Seq<char>, parts: Seq<Seq<char>>, added: bool)
    ensures
        descend(path, parts, added) matches Some(out) ==> out == joined(path, segments_of(parts))
            && (added || segments_of(parts).len() > 0) && forall|i: int|
            0 <= i < segments_of(parts).len() ==> exists|j: int|
                0 <= j < parts.len() && parts[j] == #[trigger] segments_of(parts)[i] && !climbs(
                    parts[j],
                ),
    decreases parts.len(),
{
    if parts.len() > 0 {
        let rest = parts.drop_first();
        if adds_nothing(parts[0]) {
            lemma_descend(path, rest, added);
            if descend(path, parts, added) is Some {
                assert forall|i: int| 0 <= i < segments_of(parts).len() implies exists|j: int|
                    0 <= j < parts.len() && parts[j] == #[trigger] segments_of(parts)[i] && !climbs(
                        parts[j],
                    ) by {
                    let j = choose|j: int|
                        0 <= j < rest.len() && rest[j] == #[trigger] segments_of(rest)[i] && !climbs(
                            rest[j],
                        );
                    assert(parts[j + 1] == rest[j]);
                }
            }
        } else if !climbs(parts[0]) {
            let next = push_segment(path, parts[0]);
            lemma_descend(next, rest, true);
            if descend(path, parts, added) is Some {
                let segs = segments_of(parts);
                assert(segs == seq![parts[0]] + segments_of(rest));
                assert(segs[0] == parts[0]);
                assert(segs.drop_first() =~= segments_of(rest));
                assert forall|i: int| 0 <= i < segs.len() implies exists|j: int|
                    0 <= j < parts.len() && parts[j] == #[trigger] segs[i] && !climbs(parts[j]) by {
                    if i == 0 {
                        assert(parts[0] == segs[0]);
                    } else {
                        assert(segs[i] == segments_of(rest)[i - 1]);
                        let j = choose|j: int|
                            0 <= j < rest.len() && rest[j] == #[trigger] segments_of(rest)[i - 1]
                                && !climbs(rest[j]);
                        assert(parts[j + 1] == rest[j]);
                    }
                }
            }
        }
    }
}

/// No member name leads out of the destination. Whatever an archive calls
/// a member, the place it is written is the destination with one or more
/// segments added beneath it, each a plain name: never empty, `.` or `..`,
/// and holding no separator of either kind.
pub proof fn law_members_stay_beneath_the_destination(destination: Seq<char>, name: Seq<char>)
    ensures
        destination_of(destination, name) matches Some(out) ==> exists|segments: Seq<Seq<char>>|
            segments.len() > 0 && (forall|i: int|
                0 <= i < segments.len() ==> plain_segment(#[trigger] segments[i])) && out == joined(
                destination,
                segments,
            ),
{
    let parts = split_seq(slashed(name), '/');
    lemma_descend(destination, parts, false);
    crate::text::lemma_pieces_have_no_separator(slashed(name), '/');
    if let Some(out) = destination_of(destination, name) {
        let segs = segments_of(parts);
        assert forall|i: int| 0 <= i < segs.len() implies plain_segment(#[trigger] segs[i]) by {
            let j = choose|j: int| 0 <= j < parts.len() && parts[j] == #[trigger] segs[i] && !climbs(parts[j]);
            lemma_segment_is_something(parts, i);
            assert(!parts[j].contains('/'));
            if parts[j].contains('\\') {
                let k = choose|k: int| 0 <= k < parts[j].len() && parts[j][k] == '\\';
                lemma_no_backslash_in_pieces(name, j, k);
            }
        }
    }
}

proof fn lemma_segment_is_something(parts: Seq<Seq<char>>, i: int)
    requires
        0 <= i < segments_of(parts).len(),
    ensures
        !adds_nothing(segments_of(parts)[i]),
    decreases parts.len(),
{
    if parts.len() > 0 {
        let rest = parts.drop_first();
        if adds_nothing(parts[0]) {
            lemma_segment_is_something(rest, i);
        } else if i > 0 {
            lemma_segment_is_something(rest, i - 1);
        }
    }
}

proof fn lemma_no_backslash_in_pieces(name: Seq<char>, j: int, k: int)
    requires
        0 <= j < split_seq(slashed(name), '/').len(),
        0 <= k < split_seq(slashed(name), '/')[j].len(),
    ensures
        split_seq(slashed(name), '/')[j][k] != '\\',
{
    lemma_pieces_are_pieces(slashed(name), '/', j, k);
    let p = choose|p: int| 0 <= p < slashed(name).len() && slashed(name)[p] == split_seq(slashed(name), '/')[j][k];
    assert(slashed(name)[p] != '\\');
}

proof fn lemma_pieces_are_pieces(s: Seq<char>, c: char, j: int, k: int)
    requires
        0 <= j < split_seq(s, c).len(),
        0 <= k < split_seq(s, c)[j].len(),
    ensures
        exists|p: int| 0 <= p < s.len() && s[p] == split_seq(s, c)[j][k],
    decreases s.len(),
{
    crate::text::lemma_find_from(s, c, 0);
    match crate::text::find(s, c) {
        None => {
            assert(s[k] == split_seq(s, c)[j][k]);
        },
        Some(m) => {
            let rest = s.subrange(m + 1, s.len() as int);
            assert(split_seq(s, c) == seq![s.subrange(0, m)] + split_seq(rest, c));
            if j == 0 {
                assert(s[k] == split_seq(s, c)[j][k]);
            } else {
                assert(split_seq(s, c)[j] == split_seq(rest, c)[j - 1]);
                lemma_pieces_are_pieces(rest, c, j - 1, k);
                let q = choose|q: int| 0 <= q < rest.len() && rest[q] == split_seq(rest, c)[j - 1][k];
                assert(s[m + 1 + q] == rest[q]);
            }
        },
    }
}

} // verus!
