//! Host key verification against the lines of a `known_hosts` file.
//!
//! The file the rest of the system already uses: a host accepted in `ssh`
//! is not asked about again here, and a host accepted here is recognised by
//! `ssh` afterwards. A changed host key is a refusal, never a question the
//! user could answer yes to.

use vstd::prelude::*;

use crate::location::DEFAULT_SSH_PORT;
use crate::text::{
    chars_eq, chars_of, decimal, decimal_string, is_whitespace, is_ws, lemma_decimal_digits,
    lemma_split_at_first, lemma_split_whole, lemma_trim_plain, push_char, push_str, slice_to_vec,
    split_chars, split_lines, split_seq, strip_cr, string_of, text_lines, trim, trim_chars,
};

verus! {

/// What checking a host key concluded.
#[derive(Debug, Clone, PartialEq, Eq)]
pub enum HostKeyVerdict {
    /// The key matches the one recorded for this host.
    Known,
    /// This host is not recorded. The caller asks the user, and records the
    /// answer with the line [`entry_line`] gives.
    Unknown {
        /// Fingerprint to show, so the user can compare it with the server's.
        fingerprint: String,
    },
    /// A key is recorded for this host and it is not this one.
    Changed {
        /// What is on file.
        expected: String,
        /// What the server offered.
        offered: String,
    },
}

/// The text a verdict is described by.
pub open spec fn verdict_text(v: HostKeyVerdict) -> Seq<char> {
    match v {
        HostKeyVerdict::Known => "known"@,
        HostKeyVerdict::Unknown { fingerprint } => "unknown host key "@ + fingerprint@,
        HostKeyVerdict::Changed { expected, offered } => "host key changed: expected "@
            + expected@ + ", offered "@ + offered@,
    }
}

impl HostKeyVerdict {
    /// A description for logs.
    pub fn to_string(&self) -> (r: String)
        ensures
            r@ == verdict_text(*self),
    {
        let mut s = String::new();
        match self {
            HostKeyVerdict::Known => push_str(&mut s, "known"),
            HostKeyVerdict::Unknown { fingerprint } => {
                push_str(&mut s, "unknown host key ");
                push_str(&mut s, fingerprint.as_str());
            },
            HostKeyVerdict::Changed { expected, offered } => {
                push_str(&mut s, "host key changed: expected ");
                push_str(&mut s, expected.as_str());
                push_str(&mut s, ", offered ");
                push_str(&mut s, offered.as_str());
            },
        }
        s
    }
}

/// The entry key `known_hosts` uses for a host and port: the bare host on
/// the default port, `[host]:port` on any other, as OpenSSH writes it.
pub open spec fn pattern_of(host: Seq<char>, port: u16) -> Seq<char> {
    if port == DEFAULT_SSH_PORT {
        host
    } else {
        seq!['['] + host + seq![']', ':'] + decimal(port as nat)
    }
}

/// The entry key `known_hosts` uses for a host and port.
pub fn host_pattern(host: &str, port: u16) -> (r: String)
    ensures
        r@ == pattern_of(host@, port),
{
    let mut s = String::new();
    if port == DEFAULT_SSH_PORT {
        push_str(&mut s, host);
    } else {
        push_char(&mut s, '[');
        push_str(&mut s, host);
        push_char(&mut s, ']');
        push_char(&mut s, ':');
        let d = decimal_string(port as u64);
        push_str(&mut s, d.as_str());
        proof {
            assert(s@ =~= seq!['['] + host@ + seq![']', ':'] + decimal(port as nat));
        }
    }
    s
}

/// The white-space separated words of `s`, as `str::split_whitespace`
/// gives them.
pub open spec fn words(s: Seq<char>) -> Seq<Seq<char>>
    decreases s.len(),
{
    if s.len() == 0 {
        Seq::empty()
    } else {
        let w = words(s.drop_last());
        let c = s.last();
        if is_ws(c) {
            w
        } else if s.len() > 1 && !is_ws(s[s.len() - 2]) && w.len() > 0 {
            w.update(w.len() - 1, w.last().push(c))
        } else {
            w.push(seq![c])
        }
    }
}

/// The words of `s`.
pub fn split_words(s: &[char]) -> (r: Vec<Vec<char>>)
    ensures
        r@.map_values(|v: Vec<char>| v@) == words(s@),
{
    let mut out: Vec<Vec<char>> = Vec::new();
    let mut cur: Vec<char> = Vec::new();
    let mut i: usize = 0;
    while i < s.len()
        invariant
            i <= s.len(),
            (cur@.len() > 0) == (i > 0 && !is_ws(s@[i - 1])),
            (if cur@.len() > 0 {
                out@.map_values(|v: Vec<char>| v@).push(cur@)
            } else {
                out@.map_values(|v: Vec<char>| v@)
            }) == words(s@.take(i as int)),
        decreases s.len() - i,
    {
        let c = s[i];
        let ghost t = s@.take(i + 1);
        let ghost before = out@.map_values(|v: Vec<char>| v@);
        proof {
            assert(t.drop_last() =~= s@.take(i as int));
            assert(t.last() == c);
            if i > 0 {
                assert(t[t.len() - 2] == s@[i - 1]);
            }
        }
        if is_whitespace(c) {
            if cur.len() > 0 {
                let ghost w = cur@;
                out.push(cur);
                cur = Vec::new();
                proof {
                    assert(out@.map_values(|v: Vec<char>| v@) =~= before.push(w));
                }
            }
        } else {
            let ghost old_cur = cur@;
            cur.push(c);
            proof {
                if old_cur.len() > 0 {
                    let w = before.push(old_cur);
                    assert(w.update(w.len() - 1, w.last().push(c)) =~= before.push(cur@));
                } else {
                    assert(cur@ =~= seq![c]);
                }
            }
        }
        i += 1;
    }
    if cur.len() > 0 {
        let ghost before = out@.map_values(|v: Vec<char>| v@);
        let ghost w = cur@;
        out.push(cur);
        proof {
            assert(out@.map_values(|v: Vec<char>| v@) =~= before.push(w));
        }
    }
    proof {
        assert(s@.take(s.len() as int) =~= s@);
    }
    out
}

/// The key a `known_hosts` line records for `pattern`, if the line is an
/// entry for it: not blank, not a comment, not hashed, listing `pattern`
/// among its comma-separated names, with a key after the algorithm.
pub open spec fn entry_key(line: Seq<char>, pattern: Seq<char>) -> Option<Seq<char>> {
    let t = trim(line);
    let w = words(t);
    if t.len() == 0 || t[0] == '#' || w.len() == 0 {
        None
    } else if w[0].len() > 0 && w[0][0] == '|' {
        None
    } else if !split_seq(w[0], ',').contains(pattern) {
        None
    } else if w.len() < 3 {
        None
    } else {
        Some(w[2])
    }
}

/// The key the first entry for `pattern` at or after line `i` records.
pub open spec fn recorded_from(lines: Seq<Seq<char>>, pattern: Seq<char>, i: int) -> Option<
    Seq<char>,
>
    decreases lines.len() - i,
{
    if i < 0 || i >= lines.len() {
        None
    } else {
        match entry_key(lines[i], pattern) {
            Some(k) => Some(k),
            None => recorded_from(lines, pattern, i + 1),
        }
    }
}

/// The key the first entry for `pattern` in a `known_hosts` text records.
pub open spec fn recorded_key(contents: Seq<char>, pattern: Seq<char>) -> Option<Seq<char>> {
    recorded_from(text_lines(contents), pattern, 0)
}

/// Whether `v` is the verdict for a host whose recorded key is `recorded`
/// and which offered `fingerprint`.
pub open spec fn verdict_for(v: HostKeyVerdict, recorded: Option<Seq<char>>, fingerprint: Seq<char>) -> bool {
    match recorded {
        None => v matches HostKeyVerdict::Unknown { fingerprint: f } && f@ == fingerprint,
        Some(k) => if k == fingerprint {
            v is Known
        } else {
            v matches HostKeyVerdict::Changed { expected, offered } && expected@ == k && offered@
                == fingerprint
        },
    }
}

/// The key `line` records for `pattern`.
fn line_entry(line: &[char], pattern: &[char]) -> (r: Option<Vec<char>>)
    ensures
        match r {
            Some(v) => entry_key(line@, pattern@) == Some(v@),
            None => entry_key(line@, pattern@) is None,
        },
{
    let t = trim_chars(line);
    let w = split_words(t.as_slice());
    let ghost wv = w@.map_values(|v: Vec<char>| v@);
    if t.len() == 0 || t[0] == '#' || w.len() == 0 {
        return None;
    }
    let hosts = &w[0];
    proof {
        assert(wv[0] == hosts@);
    }
    if hosts.len() > 0 && hosts[0] == '|' {
        return None;
    }
    let names = split_chars(hosts.as_slice(), ',');
    let ghost nv = names@.map_values(|v: Vec<char>| v@);
    let mut found = false;
    let mut k: usize = 0;
    while k < names.len()
        invariant
            k <= names@.len(),
            nv == names@.map_values(|v: Vec<char>| v@),
            found == exists|j: int| 0 <= j < k && nv[j] == pattern@,
        decreases names.len() - k,
    {
        proof {
            assert(nv[k as int] == names@[k as int]@);
        }
        if chars_eq(names[k].as_slice(), pattern) {
            found = true;
        }
        k += 1;
    }
    if !found {
        proof {
            if nv.contains(pattern@) {
                let j = choose|j: int| 0 <= j < nv.len() && nv[j] == pattern@;
                assert(0 <= j < k && nv[j] == pattern@);
            }
        }
        return None;
    }
    proof {
        let j = choose|j: int| 0 <= j < k && nv[j] == pattern@;
        assert(nv.contains(pattern@));
    }
    if w.len() < 3 {
        return None;
    }
    let key = &w[2];
    proof {
        assert(wv[2] == key@);
    }
    Some(slice_to_vec(key.as_slice(), 0, key.len()))
}

/// Check `fingerprint` against what `contents`, a `known_hosts` text,
/// records for the host. The first entry listing the host decides: the same
/// key is known, another key is a change. Hashed entries are never matched,
/// so a host recorded only in hashed form is unknown rather than guessed at.
pub fn verify(contents: &str, host: &str, port: u16, fingerprint: &str) -> (r: HostKeyVerdict)
    ensures
        verdict_for(r, recorded_key(contents@, pattern_of(host@, port)), fingerprint@),
{
    let pattern = host_pattern(host, port);
    let pat = chars_of(pattern.as_str());
    let fp = chars_of(fingerprint);
    let all = chars_of(contents);
    let lines = split_lines(all.as_slice());
    let ghost lv = lines@.map_values(|v: Vec<char>| v@);
    let mut i: usize = 0;
    while i < lines.len()
        invariant
            i <= lines@.len(),
            lv == lines@.map_values(|v: Vec<char>| v@),
            lv == text_lines(contents@),
            pat@ == pattern_of(host@, port),
            fp@ == fingerprint@,
            recorded_from(lv, pat@, 0) == recorded_from(lv, pat@, i as int),
        decreases lines.len() - i,
    {
        proof {
            assert(lines@[i as int]@ == lv[i as int]);
        }
        match line_entry(lines[i].as_slice(), pat.as_slice()) {
            Some(recorded) => {
                if chars_eq(recorded.as_slice(), fp.as_slice()) {
                    return HostKeyVerdict::Known;
                } else {
                    return HostKeyVerdict::Changed {
                        expected: string_of(recorded.as_slice()),
                        offered: string_of(fp.as_slice()),
                    };
                }
            },
            None => {},
        }
        i += 1;
    }
    HostKeyVerdict::Unknown { fingerprint: string_of(fp.as_slice()) }
}

/// The line appended to `known_hosts` once the user has accepted a host.
pub open spec fn entry_text(host: Seq<char>, port: u16, algorithm: Seq<char>, key: Seq<char>) -> Seq<char> {
    pattern_of(host, port) + seq![' '] + algorithm + seq![' '] + key + seq!['\n']
}

/// The line to append to `known_hosts` once the user has accepted a host.
pub fn entry_line(host: &str, port: u16, algorithm: &str, key_base64: &str) -> (r: String)
    ensures
        r@ == entry_text(host@, port, algorithm@, key_base64@),
{
    let mut s = host_pattern(host, port);
    push_char(&mut s, ' ');
    push_str(&mut s, algorithm);
    push_char(&mut s, ' ');
    push_str(&mut s, key_base64);
    push_char(&mut s, '\n');
    s
}

/// Words that end in a character other than white space are not none.
proof fn lemma_words_end_in_word(s: Seq<char>)
    requires
        s.len() > 0,
        !is_ws(s.last()),
    ensures
        words(s).len() > 0,
{
}

/// Text of one or more characters, none of them white space, is one word.
proof fn lemma_words_single(s: Seq<char>)
    requires
        s.len() > 0,
        forall|i: int| 0 <= i < s.len() ==> !is_ws(#[trigger] s[i]),
    ensures
        words(s) == seq![s],
    decreases s.len(),
{
    assert(!is_ws(s[s.len() - 1]));
    if s.len() == 1 {
        assert(s.drop_last() =~= Seq::<char>::empty());
        assert(words(s.drop_last()) =~= Seq::<Seq<char>>::empty());
        assert(seq![s.last()] =~= s);
    } else {
        lemma_words_single(s.drop_last());
        assert(s[s.len() - 2] == s.drop_last()[s.len() - 2]);
        assert(!is_ws(s[s.len() - 2]));
        assert(s.drop_last().push(s.last()) =~= s);
        assert(seq![s.drop_last()].update(0, s.drop_last().push(s.last())) =~= seq![s]);
    }
}

/// White space ends a word: what follows it is split on its own.
proof fn lemma_words_concat(a: Seq<char>, b: Seq<char>)
    requires
        a.len() > 0,
        is_ws(a.last()),
    ensures
        words(a + b) == words(a) + words(b),
    decreases b.len(),
{
    if b.len() == 0 {
        assert(a + b =~= a);
        assert(words(a) + words(b) =~= words(a));
    } else {
        let s = a + b;
        let c = b.last();
        lemma_words_concat(a, b.drop_last());
        assert(s.drop_last() =~= a + b.drop_last());
        assert(s.last() == c);
        let wa = words(a);
        let wb = words(b.drop_last());
        if b.len() > 1 {
            assert(s[s.len() - 2] == b[b.len() - 2]);
            assert(b.drop_last().last() == b[b.len() - 2]);
            if !is_ws(c) && !is_ws(b[b.len() - 2]) {
                lemma_words_end_in_word(b.drop_last());
                assert((wa + wb).update((wa + wb).len() - 1, (wa + wb).last().push(c)) =~= wa
                    + wb.update(wb.len() - 1, wb.last().push(c)));
            }
        } else {
            assert(s[s.len() - 2] == a.last());
            assert(b.drop_last() =~= Seq::<char>::empty());
        }
        if !is_ws(c) {
            assert((wa + wb).push(seq![c]) =~= wa + wb.push(seq![c]));
        }
    }
}

/// Whether `s` can stand as one field of a `known_hosts` line: not empty,
/// and with no white space in it.
pub open spec fn is_field(s: Seq<char>) -> bool {
    s.len() > 0 && forall|i: int| 0 <= i < s.len() ==> !is_ws(#[trigger] s[i])
}

/// A host accepted once is known from then on: the line [`entry_line`]
/// writes for a host is the entry [`verify`] finds for it, with the key
/// that was accepted. This holds for every host that can be written as one
/// field with no comma in it (a comma would split it into several names),
/// and that does not start with `#` or `|` where it is written bare, on the
/// default port.
pub proof fn law_accepted_host_is_known(host: Seq<char>, port: u16, algorithm: Seq<char>, key: Seq<char>)
    requires
        is_field(host),
        !host.contains(','),
        port == DEFAULT_SSH_PORT ==> host[0] != '#' && host[0] != '|',
        is_field(algorithm),
        is_field(key),
    ensures
        recorded_key(entry_text(host, port, algorithm, key), pattern_of(host, port)) == Some(key),
{
    let p = pattern_of(host, port);
    lemma_decimal_digits(port as nat);
    assert(is_field(p) && !p.contains(',') && p[0] != '#' && p[0] != '|') by {
        if port != DEFAULT_SSH_PORT {
            let d = decimal(port as nat);
            assert forall|i: int| 0 <= i < p.len() implies !is_ws(#[trigger] p[i]) && p[i] != ',' by {
                if i == 0 {
                } else if i <= host.len() {
                    assert(p[i] == host[i - 1]);
                    assert(!host.contains(','));
                    if p[i] == ',' {
                        assert(host[i - 1] == ',');
                    }
                } else if i <= host.len() + 2 {
                } else {
                    assert(p[i] == d[i - host.len() - 3]);
                }
            }
            if p.contains(',') {
                let i = choose|i: int| 0 <= i < p.len() && p[i] == ',';
                assert(p[i] != ',');
            }
        }
    }
    let line = p + seq![' '] + algorithm + seq![' '] + key;
    let text = entry_text(host, port, algorithm, key);
    assert(text =~= line + seq!['\n'] + Seq::<char>::empty());
    assert(!line.contains('\n')) by {
        if line.contains('\n') {
            let i = choose|i: int| 0 <= i < line.len() && line[i] == '\n';
            if i < p.len() {
                assert(line[i] == p[i]);
            } else if i == p.len() {
            } else if i < p.len() + 1 + algorithm.len() {
                assert(line[i] == algorithm[i - p.len() - 1]);
            } else if i == p.len() + 1 + algorithm.len() {
            } else {
                assert(line[i] == key[i - p.len() - 2 - algorithm.len()]);
            }
        }
    }
    lemma_split_at_first(line, Seq::<char>::empty(), '\n');
    lemma_split_whole(Seq::<char>::empty(), '\n');
    let pieces = split_seq(text, '\n');
    assert(pieces =~= seq![line, Seq::<char>::empty()]);
    assert(line.last() == key.last());
    assert(strip_cr(line) == line);
    assert(text_lines(text) =~= seq![line]);
    assert(line[0] == p[0]);
    lemma_trim_plain(line);
    lemma_words_single(p);
    lemma_words_single(algorithm);
    lemma_words_single(key);
    let head = p + seq![' '];
    let middle = algorithm + seq![' '];
    assert(head.drop_last() =~= p);
    assert(middle.drop_last() =~= algorithm);
    assert(words(head) == words(p));
    assert(words(middle) == words(algorithm));
    lemma_words_concat(middle, key);
    lemma_words_concat(head, middle + key);
    assert(line =~= head + (middle + key));
    assert(words(line) =~= seq![p, algorithm, key]);
    lemma_split_whole(p, ',');
    assert(split_seq(p, ',')[0] == p);
    assert(split_seq(p, ',').contains(p));
    assert(entry_key(line, p) == Some(key));
}

} // verus!
