//! Who a connection is to, and whether to trust the server it reaches.
//!
//! The network and the SSH session are the caller's; what to conclude from
//! the server's key, and what is recorded about it, is decided here.

use vstd::prelude::*;

use vstd::utf8::encode_utf8;

use crate::error::{Error, ErrorCode};
use crate::file::{Attributes, FileEntry, FileKind, PermissionsSummary, RawName, Timestamps};
use crate::fs::host_keys::{split_words, words, HostKeyVerdict};
use crate::location::{Location, Place};
use crate::text::{chars_of, push_str, string_of};

verus! {

/// Where a connection goes.
#[derive(Debug, Clone, PartialEq, Eq)]
pub struct Endpoint {
    /// Hostname or address as the user typed it.
    pub host: String,
    /// Port, normally 22.
    pub port: u16,
    /// Account on that host.
    pub user: String,
}

impl Endpoint {
    /// The endpoint a remote location names, if it is one.
    pub fn of(location: &Location) -> (r: Option<Self>)
        ensures
            match location@ {
                Place::Remote { host, port, user, .. } => r matches Some(e) && e.host@ == host
                    && e.port == port && e.user@ == user,
                _ => r is None,
            },
    {
        match location {
            Location::Remote { host, port, user, .. } => Some(
                Endpoint { host: host.clone(), port: *port, user: user.clone() },
            ),
            _ => None,
        }
    }
}

/// What to do about a host key not seen before. The decision belongs to
/// the user; refusing is what a caller gets by doing nothing.
#[derive(Debug, Clone, Copy, PartialEq, Eq, Structural)]
pub enum UnknownHostPolicy {
    /// Refuse, and report the fingerprint so the caller can ask.
    Refuse,
    /// Accept and record it. Only after the user has said yes.
    AcceptAndRemember,
}

/// The conclusion a connection attempt reached about the server, kept so
/// the caller can tell a wrong password from a server that is not the one
/// it connected to last time.
#[derive(Debug, Clone)]
pub struct HostKeyOutcome {
    /// What the check concluded.
    pub verdict: HostKeyVerdict,
    /// The key's algorithm, for writing a `known_hosts` line.
    pub algorithm: String,
    /// The key itself, base64 as `known_hosts` stores it.
    pub key_base64: String,
}

/// One entry of a remote directory.
#[derive(Debug, Clone, PartialEq, Eq)]
pub struct RemoteEntry {
    /// The name, which is the server's and may be anything.
    pub name: String,
    /// Whether it is a directory.
    pub is_dir: bool,
    /// Whether it is a symbolic link.
    pub is_symlink: bool,
    /// Size in bytes, or 0 when the server did not say.
    pub size: u64,
    /// Modification time as a Unix timestamp, when the server gave one.
    pub modified: Option<u64>,
    /// POSIX mode bits, when the server gave them.
    pub permissions: Option<u32>,
}

/// Whether to go on with a server, and whether to record its key: a known
/// key goes on; a changed key never does, whatever the policy; an unknown
/// key goes on, and is recorded, only when the user has said to.
pub open spec fn decision_spec(verdict: HostKeyVerdict, policy: UnknownHostPolicy) -> (bool, bool) {
    match verdict {
        HostKeyVerdict::Known => (true, false),
        HostKeyVerdict::Changed { .. } => (false, false),
        HostKeyVerdict::Unknown { .. } => if policy == UnknownHostPolicy::AcceptAndRemember {
            (true, true)
        } else {
            (false, false)
        },
    }
}

/// Whether to go on with a server, and whether to record its key.
pub fn decide(verdict: &HostKeyVerdict, policy: UnknownHostPolicy) -> (r: (bool, bool))
    ensures
        r == decision_spec(*verdict, policy),
{
    match verdict {
        HostKeyVerdict::Known => (true, false),
        HostKeyVerdict::Changed { .. } => (false, false),
        HostKeyVerdict::Unknown { .. } => match policy {
            UnknownHostPolicy::AcceptAndRemember => (true, true),
            UnknownHostPolicy::Refuse => (false, false),
        },
    }
}

/// A changed host key is a refusal that no policy turns into acceptance,
/// and nothing is recorded about it.
pub proof fn law_a_changed_key_is_never_accepted(verdict: HostKeyVerdict, policy: UnknownHostPolicy)
    requires
        verdict is Changed,
    ensures
        decision_spec(verdict, policy) == (false, false),
{
}

/// The key field of a key in OpenSSH's one-line form, `algorithm base64
/// comment`: the second word, or nothing when there is none.
pub open spec fn key_field_spec(openssh: Seq<char>) -> Seq<char> {
    if words(openssh).len() >= 2 {
        words(openssh)[1]
    } else {
        Seq::empty()
    }
}

/// The key field of a key in OpenSSH's one-line form.
pub fn key_field(openssh: &str) -> (r: String)
    ensures
        r@ == key_field_spec(openssh@),
{
    let c = chars_of(openssh);
    let w = split_words(c.as_slice());
    if w.len() >= 2 {
        proof {
            assert(w@.map_values(|v: Vec<char>| v@)[1] == w@[1]@);
        }
        string_of(w[1].as_slice())
    } else {
        String::new()
    }
}

/// The host, port, user and folder of a remote parent; a parent that is
/// not remote stands for the root of no host.
pub open spec fn remote_base(parent: Place) -> (Seq<char>, u16, Seq<char>, Seq<char>) {
    match parent {
        Place::Remote { host, port, user, path } => (host, port, user, path),
        _ => (seq![], 22, seq![], "/"@),
    }
}

/// A server's entry name below a folder, joined with a single `/`.
pub open spec fn remote_child(base: Seq<char>, name: Seq<char>) -> Seq<char> {
    if base.len() > 0 && base.last() == '/' {
        base + name
    } else {
        base + "/"@ + name
    }
}

/// What a server's row is: a link is a link even when it points at a
/// folder, which is why a recursive delete never walks through one.
pub open spec fn remote_kind(row: RemoteEntry) -> FileKind {
    if row.is_symlink {
        FileKind::Symlink
    } else if row.is_dir {
        FileKind::Directory
    } else {
        FileKind::File
    }
}

/// The owner's read, write and execute bits of POSIX mode bits.
pub open spec fn owner_rights(mode: u32) -> PermissionsSummary {
    PermissionsSummary {
        readable: mode & 0o400u32 != 0,
        writable: mode & 0o200u32 != 0,
        executable: mode & 0o100u32 != 0,
    }
}

/// `SystemTime::UNIX_EPOCH.checked_add` of a number of seconds: the time
/// that many seconds after the epoch, or none where the platform's clock
/// cannot hold it. Which value comes back is the platform's, and is not
/// stated.
#[verifier::external_body]
fn unix_time(seconds: u64) -> (r: Option<std::time::SystemTime>) {
    std::time::UNIX_EPOCH.checked_add(std::time::Duration::from_secs(seconds))
}

/// The row a server's entry becomes, below the folder `parent`.
pub fn to_entry(parent: &Location, row: &RemoteEntry) -> (r: FileEntry)
    ensures
        ({
            let (host, port, user, base) = remote_base(parent@);
            r.parts().location@ == (Place::Remote { host, port, user, path: remote_child(base, row.name@) })
        }),
        r.parts().raw_name == encode_utf8(row.name@),
        r.parts().kind == remote_kind(*row),
        r.parts().size == Some(row.size),
        row.modified is None ==> r.parts().timestamps.is_blank(),
        row.modified is Some ==> {
            &&& r.parts().timestamps.created is None
            &&& r.parts().timestamps.accessed is None
            &&& r.parts().timestamps.metadata_changed is None
        },
        r.parts().attributes == (Attributes {
            hidden: false,
            read_only: false,
            system: false,
            cloud_placeholder: false,
        }),
        r.parts().permissions == match row.permissions {
            Some(mode) => owner_rights(mode),
            None => PermissionsSummary { readable: false, writable: false, executable: false },
        },
        r.parts().content_type is None,
{
    let (host, port, user, base): (&str, u16, &str, &str) = match parent {
        Location::Remote { host, port, user, path } => (host.as_str(), *port, user.as_str(), path.as_str()),
        _ => ("", 22, "", "/"),
    };
    proof {
        reveal_strlit("");
        reveal_strlit("/");
        assert(""@ =~= Seq::<char>::empty());
        assert(remote_base(parent@) == (host@, port, user@, base@));
    }
    let base_chars = chars_of(base);
    let mut joined = string_of(base_chars.as_slice());
    if !(base_chars.len() > 0 && base_chars[base_chars.len() - 1] == '/') {
        push_str(&mut joined, "/");
    }
    push_str(&mut joined, row.name.as_str());
    proof {
        assert(joined@ =~= remote_child(base@, row.name@));
    }
    let kind = if row.is_symlink {
        FileKind::Symlink
    } else if row.is_dir {
        FileKind::Directory
    } else {
        FileKind::File
    };
    let mut entry = FileEntry::new(
        Location::remote(host, port, user, joined.as_str()),
        RawName::new(row.name.as_str()),
        kind,
    ).with_size(row.size);
    if let Some(seconds) = row.modified {
        entry = entry.with_timestamps(
            Timestamps { modified: unix_time(seconds), created: None, accessed: None, metadata_changed: None },
        );
    }
    if let Some(mode) = row.permissions {
        entry = entry.with_permissions(
            PermissionsSummary {
                readable: mode & 0o400 != 0,
                writable: mode & 0o200 != 0,
                executable: mode & 0o100 != 0,
            },
        );
    }
    entry
}

/// What a failed connection reports once the host-key check is known: a
/// changed key or an unknown one is the reason, told as such, rather than
/// whatever the transport said when it was cut off.
pub open spec fn enriched(code: ErrorCode, context: Seq<char>, verdict: Option<HostKeyVerdict>) -> (ErrorCode, Seq<char>) {
    match verdict {
        Some(HostKeyVerdict::Changed { expected, offered }) => (
            ErrorCode::PermissionDenied,
            "the host key changed: expected "@ + expected@ + ", the server offered "@ + offered@
                + ". Not connecting"@,
        ),
        Some(HostKeyVerdict::Unknown { fingerprint }) => (
            ErrorCode::PermissionDenied,
            "unknown host key "@ + fingerprint@,
        ),
        _ => (code, context),
    }
}

/// The error a failed connection reports, given what the host-key check
/// concluded, if it got that far.
pub fn enrich(error: Error, verdict: Option<&HostKeyVerdict>) -> (r: Error)
    ensures
        (r.spec_code(), r.spec_context()) == enriched(
            error.spec_code(),
            error.spec_context(),
            match verdict {
                Some(v) => Some(*v),
                None => None,
            },
        ),
{
    match verdict {
        Some(HostKeyVerdict::Changed { expected, offered }) => {
            let mut text = String::new();
            push_str(&mut text, "the host key changed: expected ");
            push_str(&mut text, expected.as_str());
            push_str(&mut text, ", the server offered ");
            push_str(&mut text, offered.as_str());
            push_str(&mut text, ". Not connecting");
            Error::with_context(ErrorCode::PermissionDenied, text)
        },
        Some(HostKeyVerdict::Unknown { fingerprint }) => {
            let mut text = String::new();
            push_str(&mut text, "unknown host key ");
            push_str(&mut text, fingerprint.as_str());
            Error::with_context(ErrorCode::PermissionDenied, text)
        },
        _ => error,
    }
}

/// Whether `needle` occurs in `text`.
pub open spec fn occurs(text: Seq<char>, needle: Seq<char>) -> bool {
    exists|i: int| 0 <= i && i + needle.len() <= text.len() && #[trigger] text.subrange(i, i + needle.len()) == needle
}

/// Whether `needle` occurs in `text`.
fn occurs_in(text: &[char], needle: &str) -> (r: bool)
    ensures
        r == occurs(text@, needle@),
{
    let n = chars_of(needle);
    if n.len() > text.len() {
        proof {
            assert forall|i: int| 0 <= i && i + needle@.len() <= text@.len() implies #[trigger] text@.subrange(i, i + needle@.len()) != needle@ by {}
        }
        return false;
    }
    let last = text.len() - n.len();
    let mut i: usize = 0;
    loop
        invariant
            n@ == needle@,
            n.len() <= text.len(),
            last == text.len() - n.len(),
            i <= last,
            forall|j: int| 0 <= j < i ==> #[trigger] text@.subrange(j, j + n@.len()) != n@,
        decreases last - i,
    {
        let mut k: usize = 0;
        let mut same = true;
        while k < n.len()
            invariant
                k <= n@.len(),
                i + n@.len() <= text@.len(),
                i + n.len() <= text.len(),
                same == forall|x: int| 0 <= x < k ==> text@[i + x] == n@[x],
            decreases n.len() - k,
        {
            if text[i + k] != n[k] {
                same = false;
            }
            k += 1;
        }
        if same {
            proof {
                assert(text@.subrange(i as int, i + n@.len()) =~= n@);
            }
            return true;
        }
        proof {
            if text@.subrange(i as int, i + n@.len()) == n@ {
                let x = choose|x: int| 0 <= x < k && text@[i + x] != n@[x];
                assert(text@.subrange(i as int, i + n@.len())[x] == text@[i + x]);
            }
        }
        if i == last {
            return false;
        }
        i += 1;
    }
}

/// The code for an SFTP failure, from the words of its message: one that
/// speaks of permission is a refusal, one that speaks of no such file is a
/// missing one, and anything else is an I/O failure.
pub open spec fn sftp_code(text: Seq<char>) -> ErrorCode {
    if occurs(text, "permission"@) || occurs(text, "Permission"@) {
        ErrorCode::PermissionDenied
    } else if occurs(text, "no such"@) || occurs(text, "No such"@) {
        ErrorCode::NotFound
    } else {
        ErrorCode::Io
    }
}

/// The error an SFTP failure with the message `text` is reported as.
pub fn map_sftp(text: &str) -> (r: Error)
    ensures
        r.spec_code() == sftp_code(text@),
        r.spec_context() == text@,
{
    let chars = chars_of(text);
    let code = if occurs_in(chars.as_slice(), "permission") || occurs_in(chars.as_slice(), "Permission") {
        ErrorCode::PermissionDenied
    } else if occurs_in(chars.as_slice(), "no such") || occurs_in(chars.as_slice(), "No such") {
        ErrorCode::NotFound
    } else {
        ErrorCode::Io
    };
    Error::new(code, text)
}

} // verus!
