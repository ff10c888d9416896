//! Where an entry lives.
//!
//! An entry is not modelled as a path string only: a location may be a path
//! on a mounted filesystem, a member inside an archive, a path on a host
//! reached over SFTP, or a row in a virtual result set.

use vstd::prelude::*;

use crate::text::{
    chars_of, decimal, decimal_string, find, find_char_from, lemma_find_after, lemma_find_from,
    lemma_find_none, lemma_parse_decimal, lemma_decimal_digits, lemma_rfind_at, lemma_rfind_before,
    lemma_rfind_none, parse_unsigned, parse_unsigned_chars, push_str, rfind, rfind_char,
    slice_to_vec, split_chars, split_seq, starts_with, string_of,
};

verus! {

/// The port SSH and SFTP use unless told otherwise.
pub const DEFAULT_SSH_PORT: u16 = 22;

/// The identity of something a pane can show or an operation can target.
#[derive(Debug, PartialEq, Eq, Hash, PartialOrd, Ord)]
pub enum Location {
    /// A path on a mounted filesystem, local or remote, as the platform
    /// reports it.
    Local {
        /// The path.
        path: String,
    },
    /// A member inside an archive. Listing one must not extract it.
    ArchiveMember {
        /// Location of the archive itself. Archives may nest.
        archive: Box<Location>,
        /// The member path as recorded inside the archive. Untrusted.
        member: String,
    },
    /// A path on a host reached over SFTP. The path is `/`-separated
    /// whatever this machine's separator is. No credential is stored here.
    Remote {
        /// Hostname or address, as the user typed it.
        host: String,
        /// Port, normally 22.
        port: u16,
        /// Account on that host.
        user: String,
        /// Absolute path on the host, `/`-separated.
        path: String,
    },
    /// A virtual container such as a search result set.
    Virtual {
        /// Namespace, e.g. `search`.
        scheme: String,
        /// Opaque identifier within the namespace.
        id: String,
    },
}

/// A location with its text as character sequences.
pub enum Place {
    /// A mounted filesystem path.
    Local(Seq<char>),
    /// A member inside an archive.
    ArchiveMember(Box<Place>, Seq<char>),
    /// A path on an SFTP host.
    Remote { host: Seq<char>, port: u16, user: Seq<char>, path: Seq<char> },
    /// A virtual container.
    Virtual { scheme: Seq<char>, id: Seq<char> },
}

/// A location seen as a [`Place`].
pub open spec fn place_of(l: Location) -> Place
    decreases l,
{
    match l {
        Location::Local { path } => Place::Local(path@),
        Location::ArchiveMember { archive, member } => Place::ArchiveMember(
            Box::new(place_of(*archive)),
            member@,
        ),
        Location::Remote { host, port, user, path } => Place::Remote {
            host: host@,
            port,
            user: user@,
            path: path@,
        },
        Location::Virtual { scheme, id } => Place::Virtual { scheme: scheme@, id: id@ },
    }
}

impl View for Location {
    type V = Place;

    open spec fn view(&self) -> Place {
        place_of(*self)
    }
}

/// What the path bar shows for a place: a local path as it is, a server as
/// an `sftp://` URL with the port only when it is not 22, an archive member
/// under its archive, a virtual place by its id.
pub open spec fn display_of(p: Place) -> Seq<char>
    decreases p,
{
    match p {
        Place::Local(path) => path,
        Place::Remote { host, port, user, path } => "sftp://"@ + user + "@"@ + host + (if port
            == 22 {
            Seq::empty()
        } else {
            ":"@ + decimal(port as nat)
        }) + path,
        Place::ArchiveMember(archive, member) => display_of(*archive) + "/"@ + member,
        Place::Virtual { id, .. } => id,
    }
}

/// The `user@host[:port]` part and the path of an `sftp://` URL's rest: the
/// first `/` starts the path, which is `/` when there is none.
pub open spec fn split_authority(rest: Seq<char>) -> (Seq<char>, Seq<char>) {
    match find(rest, '/') {
        Some(at) => (rest.take(at), rest.skip(at)),
        None => (rest, "/"@),
    }
}

/// The user and the `host[:port]` of an authority: split at the last `@`.
pub open spec fn split_user(authority: Seq<char>) -> (Seq<char>, Seq<char>) {
    match rfind(authority, '@') {
        Some(i) => (authority.take(i), authority.skip(i + 1)),
        None => (Seq::empty(), authority),
    }
}

/// The host and port of `host[:port]`: a `:` followed by a number that fits
/// is the port; otherwise the colon belongs to the host and the port is 22.
pub open spec fn split_port(hp: Seq<char>) -> (Seq<char>, u16) {
    match rfind(hp, ':') {
        Some(i) => match parse_unsigned(hp.skip(i + 1), 10, 65535) {
            Some(n) => (hp.take(i), n as u16),
            None => (hp, 22u16),
        },
        None => (hp, 22u16),
    }
}

/// What `parse_display` reads: an `sftp://` URL is a server; anything else,
/// a Windows path with its colon included, is a local path.
pub open spec fn parse_display_spec(t: Seq<char>) -> Place {
    let prefix = "sftp://"@;
    if t.len() >= prefix.len() && t.take(prefix.len() as int) == prefix {
        let (authority, path) = split_authority(t.skip(prefix.len() as int));
        let (user, hp) = split_user(authority);
        let (host, port) = split_port(hp);
        Place::Remote { host, port, user, path }
    } else {
        Place::Local(t)
    }
}

/// `s` without the `c`s at its end.
pub open spec fn trim_end_char(s: Seq<char>, c: char) -> Seq<char>
    decreases s.len(),
{
    if s.len() > 0 && s.last() == c {
        trim_end_char(s.drop_last(), c)
    } else {
        s
    }
}

/// The parent of a `/`-separated remote path: none at the root.
pub open spec fn remote_parent_spec(path: Seq<char>) -> Option<Seq<char>> {
    let t = trim_end_char(path, '/');
    if t.len() == 0 {
        None
    } else {
        match rfind(t, '/') {
            Some(at) => if at == 0 {
                Some("/"@)
            } else {
                Some(t.take(at))
            },
            None => None,
        }
    }
}

/// The parent of a `/`-separated archive member path, if it has one.
pub open spec fn parent_member_spec(member: Seq<char>) -> Option<Seq<char>> {
    let t = trim_end_char(member, '/');
    match rfind(t, '/') {
        Some(at) => Some(t.take(at)),
        None => None,
    }
}

/// The last non-empty piece of a list of pieces, from `n` down.
pub open spec fn last_nonempty(pieces: Seq<Seq<char>>, n: int) -> Option<Seq<char>>
    decreases n,
{
    if n <= 0 || n > pieces.len() {
        None
    } else if pieces[n - 1].len() > 0 {
        Some(pieces[n - 1])
    } else {
        last_nonempty(pieces, n - 1)
    }
}

/// The final component of a `/`-separated path: its last non-empty piece.
pub open spec fn final_component(path: Seq<char>) -> Option<Seq<char>> {
    let pieces = split_seq(path, '/');
    last_nonempty(pieces, pieces.len() as int)
}

/// Whether `p` is `path` with something taken off its end.
pub open spec fn proper_prefix(p: Seq<char>, path: Seq<char>) -> bool {
    p.len() < path.len() && p == path.take(p.len() as int)
}

/// Whether `name` is one non-empty, separator-free run of `path`.
pub open spec fn component_of(name: Seq<char>, path: Seq<char>) -> bool {
    &&& name.len() > 0
    &&& !name.contains('/')
    &&& exists|i: int| 0 <= i && i + name.len() <= path.len() && #[trigger] path.subrange(i, i + name.len()) == name
}

/// The parent of a local path, as `std::path::Path::parent` gives it: the
/// path without its final component, so a proper prefix of it, and none
/// for the empty path. Which prefix is the platform's path rules, and is
/// not stated.
#[verifier::external_body]
fn local_parent(path: &str) -> (r: Option<String>)
    ensures
        r matches Some(p) ==> proper_prefix(p@, path@),
        path@.len() == 0 ==> r is None,
{
    std::path::Path::new(path).parent().map(|p| p.to_string_lossy().into_owned())
}

/// The final component of a local path, as `std::path::Path::file_name`
/// gives it: a non-empty part of the path holding no `/`, and none for the
/// empty path. Which part is the platform's path rules, and is not stated.
#[verifier::external_body]
fn local_file_name(path: &str) -> (r: Option<String>)
    ensures
        r matches Some(n) ==> component_of(n@, path@),
        path@.len() == 0 ==> r is None,
{
    std::path::Path::new(path).file_name().map(|n| n.to_string_lossy().into_owned())
}

impl Location {
    /// A location on the local (or mounted) filesystem.
    pub fn local(path: &str) -> (r: Self)
        ensures
            r@ == Place::Local(path@),
    {
        Location::Local { path: path.to_owned() }
    }

    /// A member inside an archive.
    pub fn archive_member(archive: Location, member: &str) -> (r: Self)
        ensures
            r@ == Place::ArchiveMember(Box::new(archive@), member@),
    {
        Location::ArchiveMember { archive: Box::new(archive), member: member.to_owned() }
    }

    /// A path on a host reached over SFTP.
    pub fn remote(host: &str, port: u16, user: &str, path: &str) -> (r: Self)
        ensures
            r@ == (Place::Remote { host: host@, port, user: user@, path: path@ }),
    {
        Location::Remote {
            host: host.to_owned(),
            port,
            user: user.to_owned(),
            path: path.to_owned(),
        }
    }

    /// A virtual location such as a search result set.
    pub fn virtual_location(scheme: &str, id: &str) -> (r: Self)
        ensures
            r@ == (Place::Virtual { scheme: scheme@, id: id@ }),
    {
        Location::Virtual { scheme: scheme.to_owned(), id: id.to_owned() }
    }

    /// Another value with the same view.
    pub fn duplicate(&self) -> (r: Self)
        ensures
            r@ == self@,
        decreases self,
    {
        match self {
            Location::Local { path } => Location::Local { path: path.as_str().to_owned() },
            Location::ArchiveMember { archive, member } => Location::ArchiveMember {
                archive: Box::new((**archive).duplicate()),
                member: member.as_str().to_owned(),
            },
            Location::Remote { host, port, user, path } => Location::Remote {
                host: host.as_str().to_owned(),
                port: *port,
                user: user.as_str().to_owned(),
                path: path.as_str().to_owned(),
            },
            Location::Virtual { scheme, id } => Location::Virtual {
                scheme: scheme.as_str().to_owned(),
                id: id.as_str().to_owned(),
            },
        }
    }

    /// The filesystem path, if this location has one. Archive members,
    /// servers and virtual locations have none; callers must not invent one.
    pub fn as_path(&self) -> (r: Option<&str>)
        ensures
            self@ matches Place::Local(p) ==> r matches Some(s) && s@ == p,
            !(self@ is Local) ==> r is None,
    {
        match self {
            Location::Local { path } => Some(path.as_str()),
            _ => None,
        }
    }

    /// What to show a person who asks "where am I?".
    pub fn display_text(&self) -> (r: String)
        ensures
            r@ == display_of(self@),
        decreases self,
    {
        match self {
            Location::Local { path } => path.as_str().to_owned(),
            Location::Remote { host, port, user, path } => {
                let mut s = String::new();
                push_str(&mut s, "sftp://");
                push_str(&mut s, user.as_str());
                push_str(&mut s, "@");
                push_str(&mut s, host.as_str());
                if *port != DEFAULT_SSH_PORT {
                    push_str(&mut s, ":");
                    let d = decimal_string(*port as u64);
                    push_str(&mut s, d.as_str());
                }
                push_str(&mut s, path.as_str());
                proof {
                    assert(s@ =~= display_of(self@));
                }
                s
            },
            Location::ArchiveMember { archive, member } => {
                let mut s = archive.display_text();
                push_str(&mut s, "/");
                push_str(&mut s, member.as_str());
                s
            },
            Location::Virtual { id, .. } => id.as_str().to_owned(),
        }
    }

    /// Read back what [`Self::display_text`] wrote. Anything that is not an
    /// `sftp://` URL is a local path, a Windows one included.
    pub fn parse_display(text: &str) -> (r: Self)
        ensures
            r@ == parse_display_spec(text@),
    {
        let t = chars_of(text);
        let prefix = chars_of("sftp://");
        if !starts_with(t.as_slice(), prefix.as_slice()) {
            return Self::local(text);
        }
        let plen = prefix.len();
        let rest = slice_to_vec(t.as_slice(), plen, t.len());
        proof {
            assert(rest@ =~= text@.skip(plen as int));
            lemma_find_from(rest@, '/', 0);
        }
        let (authority, path) = match find_char_from(rest.as_slice(), '/', 0) {
            Some(at) => (slice_to_vec(rest.as_slice(), 0, at), slice_to_vec(rest.as_slice(), at, rest.len())),
            None => (slice_to_vec(rest.as_slice(), 0, rest.len()), chars_of("/")),
        };
        proof {
            assert(rest@.subrange(0, rest@.len() as int) =~= rest@);
            match find(rest@, '/') {
                Some(at) => {
                    assert(authority@ =~= rest@.take(at));
                    assert(path@ =~= rest@.skip(at));
                },
                None => {},
            }
        }
        proof {
            lemma_rfind_before(authority@, '@', authority@.len() as int);
        }
        let (user, hp) = match rfind_char(authority.as_slice(), '@') {
            Some(i) => (slice_to_vec(authority.as_slice(), 0, i), slice_to_vec(authority.as_slice(), i + 1, authority.len())),
            None => (Vec::new(), slice_to_vec(authority.as_slice(), 0, authority.len())),
        };
        proof {
            assert(authority@.subrange(0, authority@.len() as int) =~= authority@);
            match rfind(authority@, '@') {
                Some(i) => {
                    assert(user@ =~= authority@.take(i));
                    assert(hp@ =~= authority@.skip(i + 1));
                },
                None => {
                    assert(user@ =~= Seq::<char>::empty());
                },
            }
        }
        proof {
            lemma_rfind_before(hp@, ':', hp@.len() as int);
        }
        let (host, port) = match rfind_char(hp.as_slice(), ':') {
            Some(i) => {
                let digits = slice_to_vec(hp.as_slice(), i + 1, hp.len());
                proof {
                    assert(digits@ =~= hp@.skip(i + 1));
                }
                match parse_unsigned_chars(digits.as_slice(), 10, 65535) {
                    Some(n) => (slice_to_vec(hp.as_slice(), 0, i), n as u16),
                    None => (slice_to_vec(hp.as_slice(), 0, hp.len()), DEFAULT_SSH_PORT),
                }
            },
            None => (slice_to_vec(hp.as_slice(), 0, hp.len()), DEFAULT_SSH_PORT),
        };
        proof {
            assert(hp@.subrange(0, hp@.len() as int) =~= hp@);
            match rfind(hp@, ':') {
                Some(i) => {
                    assert(hp@.subrange(0, i) =~= hp@.take(i));
                },
                None => {},
            }
        }
        Location::Remote {
            host: string_of(host.as_slice()),
            port,
            user: string_of(user.as_slice()),
            path: string_of(path.as_slice()),
        }
    }

    /// The remote path, if this is a remote location.
    pub fn remote_path(&self) -> (r: Option<&str>)
        ensures
            self@ matches Place::Remote { path, .. } ==> r matches Some(s) && s@ == path,
            !(self@ is Remote) ==> r is None,
    {
        match self {
            Location::Remote { path, .. } => Some(path.as_str()),
            _ => None,
        }
    }

    /// Whether operations on this location may write to the filesystem:
    /// local paths and servers, by the kind of location.
    pub fn is_writable_target(&self) -> (r: bool)
        ensures
            r == (self@ is Local || self@ is Remote),
    {
        match self {
            Location::Local { .. } => true,
            Location::Remote { .. } => true,
            _ => false,
        }
    }

    /// Whether reaching this location needs a network connection.
    pub fn is_remote(&self) -> (r: bool)
        ensures
            r == self@ is Remote,
    {
        match self {
            Location::Remote { .. } => true,
            _ => false,
        }
    }
}

/// `s` without the `c`s at its end.
fn trim_end_chars(s: &[char], c: char) -> (r: Vec<char>)
    ensures
        r@ == trim_end_char(s@, c),
{
    let mut n = s.len();
    proof {
        assert(s@.take(n as int) =~= s@);
    }
    while n > 0 && s[n - 1] == c
        invariant
            n <= s@.len(),
            trim_end_char(s@, c) == trim_end_char(s@.take(n as int), c),
        decreases n,
    {
        proof {
            assert(s@.take(n as int).drop_last() =~= s@.take(n - 1));
        }
        n -= 1;
    }
    proof {
        assert(s@.subrange(0, n as int) =~= s@.take(n as int));
    }
    slice_to_vec(s, 0, n)
}

/// The last non-empty `/`-separated piece.
fn final_component_of(s: &[char]) -> (r: Option<String>)
    ensures
        r matches Some(t) ==> final_component(s@) == Some(t@),
        r is None ==> final_component(s@) is None,
{
    let pieces = split_chars(s, '/');
    let ghost pv = pieces@.map_values(|v: Vec<char>| v@);
    let mut n = pieces.len();
    while n > 0
        invariant
            n <= pieces@.len(),
            pv == pieces@.map_values(|v: Vec<char>| v@),
            pv == split_seq(s@, '/'),
            final_component(s@) == last_nonempty(pv, n as int),
        decreases n,
    {
        proof {
            assert(pv[n - 1] == pieces@[n - 1]@);
        }
        if pieces[n - 1].len() > 0 {
            return Some(string_of(pieces[n - 1].as_slice()));
        }
        n -= 1;
    }
    None
}

/// The parent a non-local place has: an archive member's is the member's
/// parent inside the same archive, or the archive itself; a server path's
/// is its `/`-parent on the same connection; a virtual place has none.
pub open spec fn parent_place(p: Place) -> Option<Place> {
    match p {
        Place::ArchiveMember(archive, member) => match parent_member_spec(member) {
            Some(m) => Some(Place::ArchiveMember(archive, m)),
            None => Some(*archive),
        },
        Place::Remote { host, port, user, path } => match remote_parent_spec(path) {
            Some(q) => Some(Place::Remote { host, port, user, path: q }),
            None => None,
        },
        _ => None,
    }
}

/// The final component a non-local place has.
pub open spec fn name_of_place(p: Place) -> Option<Seq<char>> {
    match p {
        Place::ArchiveMember(_, member) => final_component(member),
        Place::Remote { path, .. } => final_component(path),
        Place::Virtual { id, .. } => Some(id),
        _ => None,
    }
}

impl Location {
    /// The parent location, where one exists. A local path's parent follows
    /// the platform's path rules and is a local path.
    pub fn parent(&self) -> (r: Option<Self>)
        ensures
            self@ matches Place::Local(path) ==> (r matches Some(l) ==> (l@ matches Place::Local(q) && proper_prefix(q, path))),
            self@ matches Place::Local(path) && path.len() == 0 ==> r is None,
            !(self@ is Local) ==> (r matches Some(l) ==> parent_place(self@) == Some(l@)) && (
            r is None ==> parent_place(self@) is None),
    {
        match self {
            Location::Local { path } => match local_parent(path.as_str()) {
                Some(p) => Some(Location::Local { path: p }),
                None => None,
            },
            Location::ArchiveMember { archive, member } => {
                let m = chars_of(member.as_str());
                let t = trim_end_chars(m.as_slice(), '/');
                match rfind_char(t.as_slice(), '/') {
                    Some(at) => {
                        let p = slice_to_vec(t.as_slice(), 0, at);
                        proof {
                            assert(p@ =~= t@.take(at as int));
                        }
                        Some(
                            Location::ArchiveMember {
                                archive: Box::new((**archive).duplicate()),
                                member: string_of(p.as_slice()),
                            },
                        )
                    },
                    None => Some((**archive).duplicate()),
                }
            },
            Location::Remote { host, port, user, path } => {
                let pc = chars_of(path.as_str());
                let t = trim_end_chars(pc.as_slice(), '/');
                if t.len() == 0 {
                    return None;
                }
                match rfind_char(t.as_slice(), '/') {
                    Some(at) => {
                        let parent = if at == 0 {
                            "/".to_owned()
                        } else {
                            let p = slice_to_vec(t.as_slice(), 0, at);
                            proof {
                                assert(p@ =~= t@.take(at as int));
                            }
                            string_of(p.as_slice())
                        };
                        Some(
                            Location::Remote {
                                host: host.as_str().to_owned(),
                                port: *port,
                                user: user.as_str().to_owned(),
                                path: parent,
                            },
                        )
                    },
                    None => None,
                }
            },
            Location::Virtual { .. } => None,
        }
    }

    /// The final component. A local path's follows the platform's path
    /// rules.
    pub fn file_name(&self) -> (r: Option<String>)
        ensures
            self@ matches Place::Local(path) ==> (r matches Some(n) ==> component_of(n@, path)),
            self@ matches Place::Local(path) && path.len() == 0 ==> r is None,
            !(self@ is Local) ==> (r matches Some(n) ==> name_of_place(self@) == Some(n@)) && (
            r is None ==> name_of_place(self@) is None),
    {
        match self {
            Location::Local { path } => local_file_name(path.as_str()),
            Location::ArchiveMember { member, .. } => {
                let m = chars_of(member.as_str());
                final_component_of(m.as_slice())
            },
            Location::Remote { path, .. } => {
                let p = chars_of(path.as_str());
                final_component_of(p.as_slice())
            },
            Location::Virtual { id, .. } => Some(id.as_str().to_owned()),
        }
    }
}

/// A place whose `display_text` reads back as itself: a local path that does
/// not start like an `sftp://` URL, or a server whose user and host hold no
/// `/`, whose host holds no `@` (nor a `:` when the port is the default one),
/// and whose path starts with `/`.
pub open spec fn displays_faithfully(p: Place) -> bool {
    match p {
        Place::Local(path) => !(path.len() >= "sftp://"@.len() && path.take(
            "sftp://"@.len() as int,
        ) == "sftp://"@),
        Place::Remote { host, port, user, path } => {
            &&& !user.contains('/')
            &&& !host.contains('/')
            &&& !host.contains('@')
            &&& (port == 22 ==> !host.contains(':'))
            &&& path.len() > 0
            &&& path[0] == '/'
        },
        _ => false,
    }
}

/// Decimal digits hold no separator the URL syntax uses.
proof fn lemma_port_text(port: u16)
    ensures
        !decimal(port as nat).contains('/'),
        !decimal(port as nat).contains('@'),
        !decimal(port as nat).contains(':'),
        port != 22 ==> !(":"@ + decimal(port as nat)).contains('/'),
        port != 22 ==> !(":"@ + decimal(port as nat)).contains('@'),
{
    reveal_strlit(":");
    lemma_decimal_digits(port as nat);
    let d = decimal(port as nat);
    if d.contains('/') || d.contains('@') || d.contains(':') {
        let i = choose|i: int| 0 <= i < d.len() && (d[i] == '/' || d[i] == '@' || d[i] == ':');
        assert('0' <= d[i] <= '9');
    }
    let q = ":"@ + d;
    if q.contains('/') || q.contains('@') {
        let i = choose|i: int| 0 <= i < q.len() && (q[i] == '/' || q[i] == '@');
        if i > 0 {
            assert(q[i] == d[i - 1]);
        }
    }
}

/// Joined text holds a character only where one of its parts does.
proof fn lemma_concat_lacks(a: Seq<char>, b: Seq<char>, c: char)
    requires
        !a.contains(c),
        !b.contains(c),
    ensures
        !(a + b).contains(c),
{
    if (a + b).contains(c) {
        let i = choose|i: int| 0 <= i < (a + b).len() && (a + b)[i] == c;
        if i < a.len() {
            assert((a + b)[i] == a[i]);
        } else {
            assert((a + b)[i] == b[i - a.len()]);
        }
    }
}

/// What the path bar shows, the location parser reads back: for every local
/// path and server location that `displays_faithfully` admits.
#[verifier::rlimit(60)]
pub proof fn law_display_round_trip(p: Place)
    requires
        displays_faithfully(p),
    ensures
        parse_display_spec(display_of(p)) == p,
{
    let prefix = "sftp://"@;
    match p {
        Place::Local(path) => {},
        Place::Remote { host, port, user, path } => {
            reveal_strlit("@");
            reveal_strlit(":");
            let d = decimal(port as nat);
            let portpart = if port == 22 { Seq::<char>::empty() } else { ":"@ + d };
            lemma_port_text(port);
            let hp = host + portpart;
            let authority = user + seq!['@'] + hp;
            let t = display_of(p);
            assert(t =~= prefix + (authority + path));
            assert(t.take(prefix.len() as int) =~= prefix);
            assert(t.skip(prefix.len() as int) =~= authority + path);
            assert(!seq!['@'].contains('/'));
            lemma_concat_lacks(host, portpart, '/');
            lemma_concat_lacks(user, seq!['@'], '/');
            lemma_concat_lacks(user + seq!['@'], hp, '/');
            lemma_find_after(authority, path, '/');
            assert((authority + path).take(authority.len() as int) =~= authority);
            assert((authority + path).skip(authority.len() as int) =~= path);
            lemma_concat_lacks(host, portpart, '@');
            lemma_rfind_at(user, hp, '@');
            assert(authority.take(user.len() as int) =~= user);
            assert(authority.skip(user.len() as int + 1) =~= hp);
            if port == 22 {
                assert(hp =~= host);
                lemma_rfind_none(host, ':');
            } else {
                assert(hp =~= host + seq![':'] + d);
                lemma_rfind_at(host, d, ':');
                assert(hp.skip(host.len() as int + 1) =~= d);
                assert(hp.take(host.len() as int) =~= host);
                lemma_parse_decimal(port as nat, 65535);
            }
        },
        _ => {},
    }
}

} // verus!
