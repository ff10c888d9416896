//! Catalogue parsing.
//!
//! One message per line:
//!
//! ```text
//! # a comment
//! menu.file.open = Open
//! jobs.copying   = Copying {count} items to {destination}
//! ```
//!
//! Keys are stable semantic identifiers in `[a-z0-9._]`, never English text.
//! `{name}` marks a placeholder, and the set of placeholders is part of the
//! message's contract. `{{` and `}}` are literal braces. `\n` in a value is an
//! escaped newline; there is no line continuation. A duplicate key is an
//! error, not a silent last-wins.

use vstd::prelude::*;
use vstd::std_specs::iter::IteratorSpec;

use crate::i18n::localizer::Args;
use crate::i18n::LocaleId;
use crate::ordered::TextMap;
use crate::text::{
    before_first, find, find_char_from, lemma_find_from, push_char, push_str, slice_to_vec,
    split_lines, string_of, text_lines, trim, trim_chars, chars_of,
};

verus! {

/// The specific parse failure.
#[derive(Debug, Clone, PartialEq, Eq)]
pub enum CatalogErrorReason {
    /// The line had no `=` separator.
    MissingSeparator,
    /// The key was empty.
    EmptyKey,
    /// The key contained a character outside `[a-z0-9._]`.
    InvalidKeyCharacter(char),
    /// The same key appeared twice.
    DuplicateKey(String),
    /// A `{` was never closed.
    UnterminatedPlaceholder,
    /// A placeholder name was empty or malformed.
    InvalidPlaceholder(String),
}

/// A [`CatalogErrorReason`] with its text as character sequences.
pub enum CatalogFault {
    /// The line had no `=` separator.
    MissingSeparator,
    /// The key was empty.
    EmptyKey,
    /// The key contained a character outside `[a-z0-9._]`.
    InvalidKeyCharacter(char),
    /// The same key appeared twice.
    DuplicateKey(Seq<char>),
    /// A `{` was never closed.
    UnterminatedPlaceholder,
    /// A placeholder name was empty or malformed.
    InvalidPlaceholder(Seq<char>),
}

impl View for CatalogErrorReason {
    type V = CatalogFault;

    closed spec fn view(&self) -> CatalogFault {
        match self {
            CatalogErrorReason::MissingSeparator => CatalogFault::MissingSeparator,
            CatalogErrorReason::EmptyKey => CatalogFault::EmptyKey,
            CatalogErrorReason::InvalidKeyCharacter(c) => CatalogFault::InvalidKeyCharacter(*c),
            CatalogErrorReason::DuplicateKey(k) => CatalogFault::DuplicateKey(k@),
            CatalogErrorReason::UnterminatedPlaceholder => CatalogFault::UnterminatedPlaceholder,
            CatalogErrorReason::InvalidPlaceholder(n) => CatalogFault::InvalidPlaceholder(n@),
        }
    }
}

/// Why a catalogue could not be parsed.
#[derive(Debug, Clone, PartialEq, Eq)]
pub struct CatalogError {
    /// 1-based line number; 0 for a merge.
    pub line: usize,
    /// What went wrong, for developers.
    pub reason: CatalogErrorReason,
}

/// A character a key may hold.
pub open spec fn key_char_ok(c: char) -> bool {
    ('a' <= c && c <= 'z') || ('0' <= c && c <= '9') || c == '.' || c == '_'
}

/// The first character of `k` from `i` on that a key may not hold.
pub open spec fn first_bad_key_char(k: Seq<char>, i: int) -> Option<char>
    decreases k.len() - i,
{
    if i < 0 || i >= k.len() {
        None
    } else if !key_char_ok(k[i]) {
        Some(k[i])
    } else {
        first_bad_key_char(k, i + 1)
    }
}

/// A character a placeholder name may hold: ASCII alphanumeric or `_`.
pub open spec fn name_char_ok(c: char) -> bool {
    ('a' <= c && c <= 'z') || ('A' <= c && c <= 'Z') || ('0' <= c && c <= '9') || c == '_'
}

/// What an escape `\x` stands for: a newline, a tab, a backslash, or, for
/// anything else, itself with its backslash kept.
pub open spec fn escape_of(n: char) -> Seq<char> {
    if n == 'n' {
        seq!['\n']
    } else if n == 't' {
        seq!['\t']
    } else if n == '\\' {
        seq!['\\']
    } else {
        seq!['\\', n]
    }
}

/// A value with its escapes read; a lone backslash at the end stays.
pub open spec fn unescape_spec(v: Seq<char>) -> Seq<char>
    decreases v.len(),
{
    if v.len() == 0 {
        Seq::empty()
    } else if v[0] != '\\' {
        seq![v[0]] + unescape_spec(v.drop_first())
    } else if v.len() == 1 {
        seq!['\\']
    } else {
        escape_of(v[1]) + unescape_spec(v.skip(2))
    }
}

/// The placeholder names of a template, in order of appearance, or why the
/// template is malformed. `{{` is a literal brace.
pub open spec fn scan_placeholders(rest: Seq<char>) -> Result<Seq<Seq<char>>, CatalogFault>
    decreases rest.len(),
{
    match find(rest, '{') {
        None => Ok(Seq::empty()),
        Some(s) => if 0 <= s < rest.len() {
            let after = rest.skip(s + 1);
            if after.len() > 0 && after[0] == '{' {
                scan_placeholders(after.skip(1))
            } else {
                match find(after, '}') {
                    None => Err(CatalogFault::UnterminatedPlaceholder),
                    Some(e) => if 0 <= e < after.len() {
                        let name = after.take(e);
                        if name.len() == 0 || !(forall|j: int|
                            0 <= j < name.len() ==> name_char_ok(#[trigger] name[j])) {
                            Err(CatalogFault::InvalidPlaceholder(name))
                        } else {
                            match scan_placeholders(after.skip(e + 1)) {
                                Ok(ns) => Ok(seq![name] + ns),
                                Err(f) => Err(f),
                            }
                        }
                    } else {
                        Ok(Seq::empty())
                    },
                }
            }
        } else {
            Ok(Seq::empty())
        },
    }
}

/// `s` with each run of two `c` read as one, left to right, as
/// `str::replace` with a doubled character does.
pub open spec fn collapse(s: Seq<char>, c: char) -> Seq<char>
    decreases s.len(),
{
    if s.len() >= 2 && s[0] == c && s[1] == c {
        seq![c] + collapse(s.skip(2), c)
    } else if s.len() == 0 {
        s
    } else {
        seq![s[0]] + collapse(s.drop_first(), c)
    }
}

/// A template with its placeholders filled from `args`. A placeholder with
/// no value stays as written; `{{` is one brace; an unclosed `{` stays.
pub open spec fn render_scan(rest: Seq<char>, args: Map<Seq<char>, Seq<char>>) -> Seq<char>
    decreases rest.len(),
{
    match find(rest, '{') {
        None => rest,
        Some(s) => if 0 <= s < rest.len() {
            let after = rest.skip(s + 1);
            rest.take(s) + if after.len() > 0 && after[0] == '{' {
                seq!['{'] + render_scan(after.skip(1), args)
            } else {
                match find(after, '}') {
                    Some(e) => if 0 <= e < after.len() {
                        let name = after.take(e);
                        (if args.contains_key(name) {
                            args[name]
                        } else {
                            seq!['{'] + name + seq!['}']
                        }) + render_scan(after.skip(e + 1), args)
                    } else {
                        seq!['{'] + render_scan(after, args)
                    },
                    None => seq!['{'] + render_scan(after, args),
                }
            }
        } else {
            rest
        },
    }
}

/// What a message renders to: with no placeholders, the template with its
/// doubled braces made single; otherwise the filled template with `}}` made
/// single.
pub open spec fn rendered(template: Seq<char>, has_placeholders: bool, args: Map<Seq<char>, Seq<char>>) -> Seq<char> {
    if has_placeholders {
        collapse(render_scan(template, args), '}')
    } else {
        collapse(collapse(template, '{'), '}')
    }
}

/// A single localized message and the placeholders it declares.
#[derive(Debug, Clone, PartialEq, Eq)]
pub struct Message {
    template: String,
    placeholders: TextMap<String, ()>,
}

impl Message {
    /// The template.
    pub closed spec fn spec_template(&self) -> Seq<char> {
        self.template@
    }

    /// The placeholder names, sorted, each once.
    pub closed spec fn spec_placeholders(&self) -> Seq<Seq<char>> {
        self.placeholders.keys()
    }

    /// The placeholders are exactly the names the template's scan finds.
    pub closed spec fn wf(&self) -> bool {
        &&& self.placeholders.wf()
        &&& scan_placeholders(self.template@) matches Ok(ns) && forall|k: Seq<char>|
            self.placeholders.has(k) <==> ns.contains(k)
    }

    /// The raw template, placeholders unsubstituted.
    pub fn template(&self) -> (r: &str)
        ensures
            r@ == self.spec_template(),
    {
        self.template.as_str()
    }

    /// The placeholder names this message requires, in sorted order.
    pub fn placeholders(&self) -> (r: Vec<String>)
        ensures
            r@.map_values(|s: String| s@) == self.spec_placeholders(),
    {
        let entries = self.placeholders.as_slice();
        let mut out: Vec<String> = Vec::new();
        let mut i: usize = 0;
        while i < entries.len()
            invariant
                i <= entries@.len(),
                entries@ == self.placeholders.entries(),
                out@.map_values(|s: String| s@) == self.spec_placeholders().take(i as int),
            decreases entries.len() - i,
        {
            let ghost before = out@;
            out.push(entries[i].0.as_str().to_owned());
            proof {
                assert(self.spec_placeholders()[i as int] == entries@[i as int].0@);
                assert(out@.map_values(|s: String| s@) =~= before.map_values(|s: String| s@).push(
                    entries@[i as int].0@,
                ));
                assert(self.spec_placeholders().take(i + 1) =~= self.spec_placeholders().take(
                    i as int,
                ).push(entries@[i as int].0@));
            }
            i += 1;
        }
        proof {
            assert(self.spec_placeholders().take(i as int) =~= self.spec_placeholders());
        }
        out
    }

    /// Substitute `{name}` occurrences. A placeholder with no value is left
    /// as written, so the gap shows in development instead of a sentence
    /// with a hole in it.
    pub fn render(&self, args: &Args) -> (r: String)
        requires
            self.wf(),
            args.wf(),
        ensures
            r@ == rendered(self.spec_template(), self.spec_placeholders().len() > 0, args.spec_map()),
            r@ == rendered(
                self.spec_template(),
                scan_placeholders(self.spec_template()) matches Ok(ns) && ns.len() > 0,
                args.spec_map(),
            ),
    {
        proof {
            let ns = scan_placeholders(self.template@)->Ok_0;
            if ns.len() > 0 {
                assert(ns.contains(ns[0]));
                assert(self.placeholders.has(ns[0]));
            }
            if self.spec_placeholders().len() > 0 {
                assert(self.placeholders.has(self.placeholders.keys()[0]));
                assert(ns.contains(self.placeholders.keys()[0]));
            }
            assert((scan_placeholders(self.template@) matches Ok(ns) && ns.len() > 0) == (
            self.spec_placeholders().len() > 0));
        }
        let t = chars_of(self.template.as_str());
        if self.placeholders.len() == 0 {
            let once = collapse_chars(t.as_slice(), '{');
            let twice = collapse_chars(once.as_slice(), '}');
            return string_of(twice.as_slice());
        }
        let filled = render_chars(t.as_slice(), args);
        let out = collapse_chars(filled.as_slice(), '}');
        string_of(out.as_slice())
    }
}

/// `s` with each run of two `c` read as one.
pub fn collapse_chars(s: &[char], c: char) -> (r: Vec<char>)
    ensures
        r@ == collapse(s@, c),
{
    let mut out: Vec<char> = Vec::new();
    let mut i: usize = 0;
    proof {
        assert(out@ + collapse(s@.skip(0), c) =~= collapse(s@, c)) by {
            assert(s@.skip(0) =~= s@);
        }
    }
    while i < s.len()
        invariant
            i <= s@.len(),
            out@ + collapse(s@.skip(i as int), c) == collapse(s@, c),
        decreases s.len() - i,
    {
        let ghost rest = s@.skip(i as int);
        if i + 1 < s.len() && s[i] == c && s[i + 1] == c {
            out.push(c);
            proof {
                assert(rest.skip(2) =~= s@.skip(i + 2));
                assert(out@ + collapse(s@.skip(i + 2), c) =~= collapse(s@, c));
            }
            i += 2;
        } else {
            out.push(s[i]);
            proof {
                assert(rest.drop_first() =~= s@.skip(i + 1));
                assert(rest[0] == s@[i as int]);
                assert(out@ + collapse(s@.skip(i + 1), c) =~= collapse(s@, c));
            }
            i += 1;
        }
    }
    proof {
        assert(s@.skip(i as int) =~= Seq::<char>::empty());
        assert(out@ + Seq::<char>::empty() =~= out@);
    }
    out
}

/// A template with its placeholders filled.
fn render_chars(t: &[char], args: &Args) -> (r: Vec<char>)
    requires
        args.wf(),
    ensures
        r@ == render_scan(t@, args.spec_map()),
{
    let ghost m = args.spec_map();
    let mut out: Vec<char> = Vec::new();
    let mut pos: usize = 0;
    proof {
        assert(out@ + render_scan(t@.skip(0), m) =~= render_scan(t@, m)) by {
            assert(t@.skip(0) =~= t@);
        }
    }
    loop
        invariant
            pos <= t@.len(),
            args.wf(),
            m == args.spec_map(),
            out@ + render_scan(t@.skip(pos as int), m) == render_scan(t@, m),
        decreases t.len() - pos,
    {
        let ghost rest = t@.skip(pos as int);
        proof {
            crate::text::lemma_find_in_tail(t@, '{', pos as int);
            lemma_find_from(t@, '{', pos as int);
            assert(t@.subrange(pos as int, t@.len() as int) =~= rest);
        }
        match find_char_from(t, '{', pos) {
            None => {
                extend_chars(&mut out, t, pos, t.len());
                proof {
                    assert(t@.subrange(pos as int, t@.len() as int) =~= rest);
                }
                return out;
            },
            Some(s) => {
                let ghost sr = s - pos;
                let ghost after = rest.skip(sr + 1);
                proof {
                    assert(after =~= t@.skip(s + 1));
                    assert(rest.take(sr) =~= t@.subrange(pos as int, s as int));
                }
                extend_chars(&mut out, t, pos, s);
                if s + 1 < t.len() && t[s + 1] == '{' {
                    out.push('{');
                    proof {
                        assert(after[0] == t@[s + 1]);
                        assert(after.skip(1) =~= t@.skip(s + 2));
                    }
                    pos = s + 2;
                } else {
                    proof {
                        crate::text::lemma_find_in_tail(t@, '}', s + 1);
                        lemma_find_from(t@, '}', s + 1);
                        if s + 1 < t.len() {
                            assert(after[0] == t@[s + 1]);
                        }
                    }
                    match find_char_from(t, '}', s + 1) {
                        Some(e) => {
                            let ghost er = e - (s + 1);
                            let name = slice_to_vec(t, s + 1, e);
                            proof {
                                assert(name@ =~= after.take(er));
                                assert(after.skip(er + 1) =~= t@.skip(e + 1));
                            }
                            let key = string_of(name.as_slice());
                            match args.lookup(key.as_str()) {
                                Some(v) => {
                                    let vc = chars_of(v.as_str());
                                    extend_chars(&mut out, vc.as_slice(), 0, vc.len());
                                    proof {
                                        assert(vc@.subrange(0, vc@.len() as int) =~= vc@);
                                    }
                                },
                                None => {
                                    out.push('{');
                                    extend_chars(&mut out, name.as_slice(), 0, name.len());
                                    out.push('}');
                                    proof {
                                        assert(name@.subrange(0, name@.len() as int) =~= name@);
                                    }
                                },
                            }
                            pos = e + 1;
                        },
                        None => {
                            out.push('{');
                            pos = s + 1;
                        },
                    }
                }
                proof {
                    assert(out@ + render_scan(t@.skip(pos as int), m) =~= render_scan(t@, m));
                }
            },
        }
    }
}

/// Append `src[from..to]`.
pub fn extend_chars(out: &mut Vec<char>, src: &[char], from: usize, to: usize)
    requires
        from <= to <= src@.len(),
    ensures
        final(out)@ == old(out)@ + src@.subrange(from as int, to as int),
{
    let mut k = from;
    while k < to
        invariant
            from <= k <= to <= src@.len(),
            out@ == old(out)@ + src@.subrange(from as int, k as int),
        decreases to - k,
    {
        out.push(src[k]);
        proof {
            assert(src@.subrange(from as int, k + 1) =~= src@.subrange(from as int, k as int).push(
                src@[k as int],
            ));
        }
        k += 1;
    }
}

/// A scan's names after the ones already found.
pub open spec fn after_found(got: Seq<Seq<char>>, r: Result<Seq<Seq<char>>, CatalogFault>) -> Result<
    Seq<Seq<char>>,
    CatalogFault,
> {
    match r {
        Ok(ns) => Ok(got + ns),
        Err(f) => Err(f),
    }
}

/// The placeholder names of a template, each once.
fn extract_placeholders(t: &[char]) -> (r: Result<TextMap<String, ()>, CatalogErrorReason>)
    ensures
        r matches Ok(tm) ==> tm.wf() && (scan_placeholders(t@) matches Ok(ns) && forall|k: Seq<char>|
            tm.has(k) <==> ns.contains(k)),
        r matches Err(e) ==> scan_placeholders(t@) == Err::<Seq<Seq<char>>, CatalogFault>(e@),
{
    let mut found: TextMap<String, ()> = TextMap::new();
    let ghost mut got: Seq<Seq<char>> = Seq::empty();
    let mut pos: usize = 0;
    proof {
        assert(t@.skip(0) =~= t@);
        assert(got + Seq::<Seq<char>>::empty() =~= got);
    }
    loop
        invariant
            pos <= t@.len(),
            found.wf(),
            forall|k: Seq<char>| found.has(k) <==> got.contains(k),
            scan_placeholders(t@) == after_found(got, scan_placeholders(t@.skip(pos as int))),
        decreases t.len() - pos,
    {
        let ghost rest = t@.skip(pos as int);
        proof {
            crate::text::lemma_find_in_tail(t@, '{', pos as int);
            lemma_find_from(t@, '{', pos as int);
            assert(t@.subrange(pos as int, t@.len() as int) =~= rest);
        }
        let s = match find_char_from(t, '{', pos) {
            None => {
                proof {
                    assert(got + Seq::<Seq<char>>::empty() =~= got);
                }
                return Ok(found);
            },
            Some(s) => s,
        };
        let ghost after = rest.skip(s - pos + 1);
        proof {
            assert(after =~= t@.skip(s + 1));
        }
        if s + 1 < t.len() && t[s + 1] == '{' {
            proof {
                assert(after[0] == t@[s + 1]);
                assert(after.skip(1) =~= t@.skip(s + 2));
            }
            pos = s + 2;
        } else {
            proof {
                crate::text::lemma_find_in_tail(t@, '}', s + 1);
                lemma_find_from(t@, '}', s + 1);
                if s + 1 < t.len() {
                    assert(after[0] == t@[s + 1]);
                }
            }
            let e = match find_char_from(t, '}', s + 1) {
                None => {
                    return Err(CatalogErrorReason::UnterminatedPlaceholder);
                },
                Some(e) => e,
            };
            let name = slice_to_vec(t, s + 1, e);
            proof {
                assert(name@ =~= after.take(e - s - 1));
                assert(after.skip(e - s) =~= t@.skip(e + 1));
            }
            let mut ok = name.len() > 0;
            let mut j: usize = 0;
            while ok && j < name.len()
                invariant
                    j <= name@.len(),
                    ok ==> name@.len() > 0,
                    ok ==> forall|q: int| 0 <= q < j ==> name_char_ok(#[trigger] name@[q]),
                    !ok ==> (name@.len() == 0 || !(forall|q: int|
                        0 <= q < name@.len() ==> name_char_ok(#[trigger] name@[q]))),
                decreases name.len() - j,
            {
                let c = name[j];
                if !(('a' <= c && c <= 'z') || ('A' <= c && c <= 'Z') || ('0' <= c && c <= '9') || c
                    == '_') {
                    ok = false;
                    proof {
                        assert(!name_char_ok(name@[j as int]));
                    }
                }
                j += 1;
            }
            if !ok {
                return Err(CatalogErrorReason::InvalidPlaceholder(string_of(name.as_slice())));
            }
            let ghost nv = name@;
            found.insert(string_of(name.as_slice()), ());
            proof {
                let g2 = got.push(nv);
                assert forall|k: Seq<char>| found.has(k) <==> g2.contains(k) by {
                    if k == nv {
                        assert(g2[got.len() as int] == nv);
                    } else {
                        if got.contains(k) {
                            let x = choose|x: int| 0 <= x < got.len() && got[x] == k;
                            assert(g2[x] == k);
                        }
                        if g2.contains(k) {
                            let x = choose|x: int| 0 <= x < g2.len() && g2[x] == k;
                            assert(x < got.len());
                            assert(got[x] == k);
                        }
                    }
                }
                match scan_placeholders(t@.skip(e + 1)) {
                    Ok(ns) => {
                        assert(got + (seq![nv] + ns) =~= g2 + ns);
                    },
                    Err(_) => {},
                }
                got = g2;
            }
            pos = e + 1;
        }
    }
}

/// A value with its escapes read.
fn unescape(v: &[char]) -> (r: Vec<char>)
    ensures
        r@ == unescape_spec(v@),
{
    let mut out: Vec<char> = Vec::new();
    let mut i: usize = 0;
    proof {
        assert(v@.skip(0) =~= v@);
        assert(out@ + unescape_spec(v@) =~= unescape_spec(v@));
    }
    while i < v.len()
        invariant
            i <= v@.len(),
            out@ + unescape_spec(v@.skip(i as int)) == unescape_spec(v@),
        decreases v.len() - i,
    {
        let ghost rest = v@.skip(i as int);
        let c = v[i];
        proof {
            assert(rest[0] == c);
        }
        if c != '\\' {
            out.push(c);
            proof {
                assert(rest.drop_first() =~= v@.skip(i + 1));
                assert(out@ + unescape_spec(v@.skip(i + 1)) =~= unescape_spec(v@));
            }
            i += 1;
        } else if i + 1 == v.len() {
            out.push('\\');
            proof {
                assert(rest.len() == 1);
                assert(v@.skip(i + 1) =~= Seq::<char>::empty());
                assert(out@ + unescape_spec(v@.skip(i + 1)) =~= unescape_spec(v@));
            }
            i += 1;
        } else {
            let n = v[i + 1];
            proof {
                assert(rest[1] == n);
                assert(rest.skip(2) =~= v@.skip(i + 2));
            }
            if n == 'n' {
                out.push('\n');
            } else if n == 't' {
                out.push('\t');
            } else if n == '\\' {
                out.push('\\');
            } else {
                out.push('\\');
                out.push(n);
            }
            proof {
                assert(out@ + unescape_spec(v@.skip(i + 2)) =~= unescape_spec(v@));
            }
            i += 2;
        }
    }
    proof {
        assert(v@.skip(i as int) =~= Seq::<char>::empty());
        assert(out@ + Seq::<char>::empty() =~= out@);
    }
    out
}

/// The first character of a key a key may not hold.
fn bad_key_char(k: &[char]) -> (r: Option<char>)
    ensures
        r == first_bad_key_char(k@, 0),
{
    let mut i: usize = 0;
    while i < k.len()
        invariant
            i <= k@.len(),
            first_bad_key_char(k@, 0) == first_bad_key_char(k@, i as int),
        decreases k.len() - i,
    {
        let c = k[i];
        if !(('a' <= c && c <= 'z') || ('0' <= c && c <= '9') || c == '.' || c == '_') {
            return Some(c);
        }
        i += 1;
    }
    None
}

/// A catalogue's lines from `i` on, read over the messages so far: blank
/// lines and `#` comments are skipped; every other line is `key = value`,
/// with a key of `[a-z0-9._]` not seen before and a value whose escapes are
/// read and whose placeholders are well formed.
pub open spec fn parse_catalog_lines(lines: Seq<Seq<char>>, i: int, st: Map<Seq<char>, Seq<char>>) -> Result<
    Map<Seq<char>, Seq<char>>,
    (int, CatalogFault),
>
    decreases lines.len() - i,
{
    if i < 0 || i >= lines.len() {
        Ok(st)
    } else {
        let line = trim(lines[i]);
        if line.len() == 0 || line[0] == '#' {
            parse_catalog_lines(lines, i + 1, st)
        } else {
            match find(line, '=') {
                None => Err((i + 1, CatalogFault::MissingSeparator)),
                Some(e) => {
                    let key = trim(line.take(e));
                    if key.len() == 0 {
                        Err((i + 1, CatalogFault::EmptyKey))
                    } else {
                        match first_bad_key_char(key, 0) {
                            Some(c) => Err((i + 1, CatalogFault::InvalidKeyCharacter(c))),
                            None => if st.contains_key(key) {
                                Err((i + 1, CatalogFault::DuplicateKey(key)))
                            } else {
                                let template = unescape_spec(trim(line.skip(e + 1)));
                                match scan_placeholders(template) {
                                    Err(f) => Err((i + 1, f)),
                                    Ok(_) => parse_catalog_lines(lines, i + 1, st.insert(key, template)),
                                }
                            },
                        }
                    }
                },
            }
        }
    }
}

/// A catalogue's text read from the start.
pub open spec fn spec_parse_catalog(text: Seq<char>) -> Result<Map<Seq<char>, Seq<char>>, (int, CatalogFault)> {
    parse_catalog_lines(text_lines(text), 0, Map::empty())
}

/// Every message for one locale.
#[derive(Debug, Clone, PartialEq, Eq)]
pub struct Catalog {
    locale: LocaleId,
    messages: TextMap<String, Message>,
}

/// The messages of some entries laid over a map in order, stopping at the
/// first key already there.
pub open spec fn merge_from(
    st: Map<Seq<char>, Seq<char>>,
    es: Seq<(Seq<char>, Seq<char>)>,
    i: int,
) -> (Map<Seq<char>, Seq<char>>, Option<Seq<char>>)
    decreases es.len() - i,
{
    if i < 0 || i >= es.len() {
        (st, None)
    } else if st.contains_key(es[i].0) {
        (st, Some(es[i].0))
    } else {
        merge_from(st.insert(es[i].0, es[i].1), es, i + 1)
    }
}

impl Catalog {
    /// The locale.
    pub closed spec fn spec_locale(&self) -> Seq<char> {
        self.locale@
    }

    /// Key to template.
    pub closed spec fn texts(&self) -> Map<Seq<char>, Seq<char>> {
        Map::new(
            |k: Seq<char>| self.messages.has(k),
            |k: Seq<char>| self.messages.value_of(k).spec_template(),
        )
    }

    /// The keys, sorted, each once.
    pub closed spec fn spec_keys(&self) -> Seq<Seq<char>> {
        self.messages.keys()
    }

    /// Key and template, in key order.
    pub closed spec fn spec_entries(&self) -> Seq<(Seq<char>, Seq<char>)> {
        self.messages.entries().map_values(|e: (String, Message)| (e.0@, e.1.spec_template()))
    }

    /// Sorted, each key once, each message's placeholders its template's.
    pub closed spec fn wf(&self) -> bool {
        &&& self.messages.wf()
        &&& forall|i: int|
            0 <= i < self.messages.entries().len() ==> (#[trigger] self.messages.entries()[i]).1.wf()
    }

    /// An empty catalogue for a locale.
    pub fn new(locale: LocaleId) -> (r: Self)
        ensures
            r.wf(),
            r.spec_locale() == locale@,
            r.texts() == Map::<Seq<char>, Seq<char>>::empty(),
            r.spec_keys() == Seq::<Seq<char>>::empty(),
    {
        let r = Self { locale, messages: TextMap::new() };
        proof {
            assert(r.texts() =~= Map::<Seq<char>, Seq<char>>::empty());
            assert(r.spec_keys() =~= Seq::<Seq<char>>::empty());
        }
        r
    }

    /// Which locale this catalogue is for.
    pub fn locale(&self) -> (r: &LocaleId)
        ensures
            r@ == self.spec_locale(),
    {
        &self.locale
    }

    /// Look up a message.
    pub fn get(&self, key: &str) -> (r: Option<&Message>)
        requires
            self.wf(),
        ensures
            r is Some <==> self.texts().contains_key(key@),
            r matches Some(m) ==> m.spec_template() == self.texts()[key@] && m.wf(),
    {
        let r = self.messages.get(key);
        proof {
            if r is Some {
                let i = choose|i: int|
                    0 <= i < self.messages.entries().len() && self.messages.keys()[i] == key@;
                self.messages.lemma_value_at(i);
                assert(self.messages.entries()[i].1.wf());
            }
        }
        r
    }

    /// Whether the catalogue defines a key.
    pub fn contains(&self, key: &str) -> (r: bool)
        requires
            self.wf(),
        ensures
            r == self.texts().contains_key(key@),
    {
        self.messages.contains(key)
    }

    /// Every key, in sorted order.
    pub fn key_list(&self) -> (r: Vec<&str>)
        ensures
            r@.map_values(|s: &str| s@) == self.spec_keys(),
    {
        let entries = self.messages.as_slice();
        let mut out: Vec<&str> = Vec::new();
        let mut i: usize = 0;
        while i < entries.len()
            invariant
                i <= entries@.len(),
                entries@ == self.messages.entries(),
                out@.map_values(|s: &str| s@) == self.spec_keys().take(i as int),
            decreases entries.len() - i,
        {
            let ghost before = out@;
            out.push(entries[i].0.as_str());
            proof {
                assert(self.spec_keys()[i as int] == entries@[i as int].0@);
                assert(out@.map_values(|s: &str| s@) =~= before.map_values(|s: &str| s@).push(
                    entries@[i as int].0@,
                ));
                assert(self.spec_keys().take(i + 1) =~= self.spec_keys().take(i as int).push(
                    entries@[i as int].0@,
                ));
            }
            i += 1;
        }
        proof {
            assert(self.spec_keys().take(i as int) =~= self.spec_keys());
        }
        out
    }

    /// Every key, in sorted order.
    pub fn keys(&self) -> (r: std::vec::IntoIter<&str>)
        ensures
            r.remaining().map_values(|s: &str| s@) == self.spec_keys(),
    {
        let v = self.key_list();
        proof {
            broadcast use vstd::std_specs::vec::axiom_spec_into_iter;
        }
        v.into_iter()
    }

    /// Number of messages.
    pub fn len(&self) -> (r: usize)
        ensures
            r == self.spec_keys().len(),
    {
        self.messages.len()
    }

    /// Whether the catalogue has no messages.
    pub fn is_empty(&self) -> (r: bool)
        ensures
            r == (self.spec_keys().len() == 0),
    {
        self.messages.len() == 0
    }

    /// Insert a message under a key not yet present.
    fn add(&mut self, key: String, message: Message)
        requires
            old(self).wf(),
            message.wf(),
            !old(self).texts().contains_key(key@),
        ensures
            final(self).wf(),
            final(self).spec_locale() == old(self).spec_locale(),
            final(self).texts() == old(self).texts().insert(key@, message.spec_template()),
    {
        let ghost k = key@;
        let ghost tpl = message.spec_template();
        let ghost before = self.messages;
        self.messages.insert(key, message);
        proof {
            assert forall|i: int| 0 <= i < self.messages.entries().len() implies (
            #[trigger] self.messages.entries()[i]).1.wf() by {
                if self.messages.keys()[i] != k {
                    assert(before.entries().contains(self.messages.entries()[i]));
                    let j = choose|j: int|
                        0 <= j < before.entries().len() && before.entries()[j]
                            == self.messages.entries()[i];
                    assert(before.entries()[j].1.wf());
                } else {
                    self.messages.lemma_value_at(i);
                }
            }
            assert(self.texts() =~= old(self).texts().insert(k, tpl));
        }
    }

    /// Parse catalogue text. Catalogues come from disk and are untrusted:
    /// the first malformed line is the error, and nothing panics.
    pub fn parse(locale: LocaleId, text: &str) -> (r: Result<Self, CatalogError>)
        ensures
            r matches Ok(c) ==> c.wf() && c.spec_locale() == locale@ && spec_parse_catalog(text@)
                == Ok::<Map<Seq<char>, Seq<char>>, (int, CatalogFault)>(c.texts()),
            r matches Err(e) ==> spec_parse_catalog(text@) == Err::<
                Map<Seq<char>, Seq<char>>,
                (int, CatalogFault),
            >((e.line as int, e.reason@)),
    {
        let all = chars_of(text);
        let lines = split_lines(all.as_slice());
        let ghost ls = text_lines(all@);
        let mut catalog = Catalog::new(locale);
        let mut i: usize = 0;
        while i < lines.len()
            invariant
                i <= lines@.len(),
                ls == text_lines(text@),
                lines@.map_values(|v: Vec<char>| v@) == ls,
                catalog.wf(),
                catalog.spec_locale() == locale@,
                spec_parse_catalog(text@) == parse_catalog_lines(ls, i as int, catalog.texts()),
            decreases lines.len() - i,
        {
            proof {
                assert(lines@[i as int]@ == ls[i as int]);
            }
            let line = trim_chars(lines[i].as_slice());
            if line.len() == 0 || line[0] == '#' {
                i += 1;
                continue;
            }
            let e = match find_char_from(line.as_slice(), '=', 0) {
                None => {
                    return Err(CatalogError { line: i + 1, reason: CatalogErrorReason::MissingSeparator });
                },
                Some(e) => e,
            };
            proof {
                lemma_find_from(line@, '=', 0);
            }
            let head = slice_to_vec(line.as_slice(), 0, e);
            let key = trim_chars(head.as_slice());
            proof {
                assert(head@ =~= line@.take(e as int));
            }
            if key.len() == 0 {
                return Err(CatalogError { line: i + 1, reason: CatalogErrorReason::EmptyKey });
            }
            match bad_key_char(key.as_slice()) {
                Some(c) => {
                    return Err(
                        CatalogError { line: i + 1, reason: CatalogErrorReason::InvalidKeyCharacter(c) },
                    );
                },
                None => {},
            }
            let key_text = string_of(key.as_slice());
            if catalog.contains(key_text.as_str()) {
                return Err(
                    CatalogError { line: i + 1, reason: CatalogErrorReason::DuplicateKey(key_text) },
                );
            }
            let tail = slice_to_vec(line.as_slice(), e + 1, line.len());
            proof {
                assert(tail@ =~= line@.skip(e + 1));
            }
            let value = trim_chars(tail.as_slice());
            let template = unescape(value.as_slice());
            let placeholders = match extract_placeholders(template.as_slice()) {
                Ok(p) => p,
                Err(reason) => {
                    return Err(CatalogError { line: i + 1, reason });
                },
            };
            let message = Message { template: string_of(template.as_slice()), placeholders };
            catalog.add(key_text, message);
            i += 1;
        }
        Ok(catalog)
    }

    /// Merge another catalogue into this one, in the other's key order. A
    /// key already here is an error, so splitting catalogues across files
    /// cannot silently shadow a message; what was merged before it stays.
    pub fn merge(&mut self, other: Self) -> (r: Result<(), CatalogError>)
        requires
            old(self).wf(),
            other.wf(),
        ensures
            final(self).wf(),
            final(self).spec_locale() == old(self).spec_locale(),
            final(self).texts() == merge_from(old(self).texts(), other.spec_entries(), 0).0,
            r is Ok <==> merge_from(old(self).texts(), other.spec_entries(), 0).1 is None,
            r matches Err(e) ==> e.line == 0 && (merge_from(old(self).texts(), other.spec_entries(), 0).1 matches Some(k)
                && e.reason@ == CatalogFault::DuplicateKey(k)),
    {
        let es = other.messages.as_slice();
        let ghost ev = other.spec_entries();
        let mut i: usize = 0;
        while i < es.len()
            invariant
                i <= es@.len(),
                es@ == other.messages.entries(),
                ev == other.spec_entries(),
                other.wf(),
                self.wf(),
                self.spec_locale() == old(self).spec_locale(),
                merge_from(old(self).texts(), ev, 0) == merge_from(self.texts(), ev, i as int),
            decreases es.len() - i,
        {
            proof {
                assert(ev[i as int] == (es@[i as int].0@, es@[i as int].1.spec_template()));
                assert(es@[i as int].1.wf());
            }
            if self.contains(es[i].0.as_str()) {
                return Err(
                    CatalogError {
                        line: 0,
                        reason: CatalogErrorReason::DuplicateKey(es[i].0.as_str().to_owned()),
                    },
                );
            }
            let message = es[i].1.duplicate();
            self.add(es[i].0.as_str().to_owned(), message);
            i += 1;
        }
        Ok(())
    }
}

impl Message {
    /// Another message with the same template and placeholders.
    pub fn duplicate(&self) -> (r: Self)
        requires
            self.wf(),
        ensures
            r.wf(),
            r.spec_template() == self.spec_template(),
            r.spec_placeholders() == self.spec_placeholders(),
    {
        let placeholders = self.placeholders.duplicate();
        Message { template: self.template.as_str().to_owned(), placeholders }
    }
}

impl Message {
    /// A well-formed message has placeholders exactly when its template's
    /// scan finds some.
    pub proof fn lemma_placeholders_match(&self)
        requires
            self.wf(),
        ensures
            (self.spec_placeholders().len() > 0) == (scan_placeholders(self.spec_template()) matches Ok(
                ns,
            ) && ns.len() > 0),
    {
        match scan_placeholders(self.template@) {
            Ok(ns) => {
                if ns.len() > 0 {
                    assert(ns.contains(ns[0]));
                    assert(self.placeholders.has(ns[0]));
                    let j = choose|j: int|
                        0 <= j < self.placeholders.keys().len() && self.placeholders.keys()[j]
                            == ns[0];
                }
                if self.spec_placeholders().len() > 0 {
                    let k = self.spec_placeholders()[0];
                    assert(self.placeholders.keys().contains(k));
                    assert(self.placeholders.has(k));
                    assert(ns.contains(k));
                    let j = choose|j: int| 0 <= j < ns.len() && ns[j] == k;
                }
            },
            Err(_) => {},
        }
    }
}

/// Text with no backslash reads as itself, and what follows it is read on
/// its own.
proof fn lemma_plain_prefix(a: Seq<char>, rest: Seq<char>)
    requires
        !a.contains('\\'),
    ensures
        unescape_spec(a + rest) == a + unescape_spec(rest),
    decreases a.len(),
{
    if a.len() > 0 {
        assert(a[0] != '\\') by {
            if a[0] == '\\' {
                assert(a.contains(a[0]));
            }
        }
        let t = a.drop_first();
        assert(!t.contains('\\')) by {
            if t.contains('\\') {
                let i = choose|i: int| 0 <= i < t.len() && t[i] == '\\';
                assert(a[i + 1] == '\\');
            }
        }
        lemma_plain_prefix(t, rest);
        assert((a + rest)[0] == a[0]);
        assert((a + rest).drop_first() =~= t + rest);
        assert(seq![a[0]] + (t + unescape_spec(rest)) =~= a + unescape_spec(rest));
    } else {
        assert(a + rest =~= rest);
        assert(a + unescape_spec(rest) =~= unescape_spec(rest));
    }
}

/// Reading a catalogue value turns each escape into the one character it
/// names: a backslash and `t` become a tab, a backslash and `n` a newline,
/// and two backslashes one backslash, wherever they stand; text without a
/// backslash is kept as written.
pub proof fn law_escapes_read_as_one_character(a: Seq<char>, b: Seq<char>)
    requires
        !a.contains('\\'),
    ensures
        unescape_spec(a) == a,
        unescape_spec(a + seq!['\\', 't'] + b) == a + seq!['\t'] + unescape_spec(b),
        unescape_spec(a + seq!['\\', 'n'] + b) == a + seq!['\n'] + unescape_spec(b),
        unescape_spec(a + seq!['\\', '\\'] + b) == a + seq!['\\'] + unescape_spec(b),
{
    lemma_plain_prefix(a, Seq::empty());
    assert(a + Seq::<char>::empty() =~= a);
    assert(unescape_spec(Seq::<char>::empty()) =~= Seq::<char>::empty());
    assert(a + Seq::<char>::empty() == a);
    let tab = seq!['\\', 't'] + b;
    let nl = seq!['\\', 'n'] + b;
    let bs = seq!['\\', '\\'] + b;
    lemma_plain_prefix(a, tab);
    lemma_plain_prefix(a, nl);
    lemma_plain_prefix(a, bs);
    assert(a + seq!['\\', 't'] + b =~= a + tab);
    assert(a + seq!['\\', 'n'] + b =~= a + nl);
    assert(a + seq!['\\', '\\'] + b =~= a + bs);
    assert(tab.skip(2) =~= b);
    assert(nl.skip(2) =~= b);
    assert(bs.skip(2) =~= b);
    assert(unescape_spec(tab) == seq!['\t'] + unescape_spec(b));
    assert(unescape_spec(nl) == seq!['\n'] + unescape_spec(b));
    assert(unescape_spec(bs) == seq!['\\'] + unescape_spec(b));
    assert(a + seq!['\t'] + unescape_spec(b) =~= a + (seq!['\t'] + unescape_spec(b)));
    assert(a + seq!['\n'] + unescape_spec(b) =~= a + (seq!['\n'] + unescape_spec(b)));
    assert(a + seq!['\\'] + unescape_spec(b) =~= a + (seq!['\\'] + unescape_spec(b)));
}

} // verus!
