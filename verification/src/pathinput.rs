//! Turning what a person typed into a path.
//!
//! A path field accepts shorthand no filesystem call understands: `~` for
//! the home directory, `$HOME`, `${HOME}` and `%USERPROFILE%` for what the
//! environment says, `..` and `./x` relative to where you already are.
//! Expansion is deliberately conservative: no globbing, no command
//! substitution, one pass of variables, and an unset variable expands to
//! nothing. Paths are read the way a Unix system reads them: `/` separates,
//! and a leading `/` is the root.

use vstd::prelude::*;

use crate::text::{
    chars_of, find_char_from, find_from, lemma_find_from, lemma_split_nonempty, slice_to_vec,
    split_chars, split_seq, string_of, trim, trim_chars,
};

verus! {

/// The longest input accepted, in bytes.
pub const MAX_INPUT: usize = 4096;

/// What `char::is_alphanumeric` answers for a character.
pub uninterp spec fn alphanumeric(c: char) -> bool;

/// Whether `c` is alphabetic or numeric, as `char::is_alphanumeric` says.
#[verifier::external_body]
fn is_alphanumeric(c: char) -> (r: bool)
    ensures
        r == alphanumeric(c),
{
    c.is_alphanumeric()
}

/// Whether `c` can be part of a variable name.
pub open spec fn name_char(c: char) -> bool {
    alphanumeric(c) || c == '_'
}

/// Bytes `c` takes in UTF-8.
pub open spec fn utf8_width(c: char) -> int {
    if (c as u32) < 0x80 {
        1
    } else if (c as u32) < 0x800 {
        2
    } else if (c as u32) < 0x1_0000 {
        3
    } else {
        4
    }
}

/// Bytes `s` takes in UTF-8.
pub open spec fn utf8_len(s: Seq<char>) -> int
    decreases s.len(),
{
    if s.len() == 0 {
        0
    } else {
        utf8_len(s.drop_last()) + utf8_width(s.last())
    }
}

/// Where a run of name characters starting at `k` ends.
pub open spec fn word_end(t: Seq<char>, k: int) -> int
    decreases t.len() - k,
{
    if k < 0 || k >= t.len() || !name_char(t[k]) {
        k
    } else {
        word_end(t, k + 1)
    }
}

/// Whether every character of `s` can be part of a variable name.
pub open spec fn all_name_chars(s: Seq<char>) -> bool {
    forall|i: int| 0 <= i < s.len() ==> name_char(#[trigger] s[i])
}

/// What starts at position `i` of `t`: a variable reference (`$NAME`,
/// `${NAME}`, `%NAME%`) with the position after it and its name, or a
/// character taken as written. An unterminated `${`, a `$` with no name
/// after it and a `%` with no well-formed `%NAME%` are characters.
pub open spec fn token(t: Seq<char>, i: int) -> (bool, int, Seq<char>) {
    if t[i] == '$' && i + 1 < t.len() && t[i + 1] == '{' {
        match find_from(t, '}', i + 2) {
            Some(j) => (true, j + 1, t.subrange(i + 2, j)),
            None => (false, i + 1, Seq::empty()),
        }
    } else if t[i] == '$' {
        let e = word_end(t, i + 1);
        if e == i + 1 {
            (false, i + 1, Seq::empty())
        } else {
            (true, e, t.subrange(i + 1, e))
        }
    } else if t[i] == '%' {
        match find_from(t, '%', i + 1) {
            Some(j) => if j > i + 1 && all_name_chars(t.subrange(i + 1, j)) {
                (true, j + 1, t.subrange(i + 1, j))
            } else {
                (false, i + 1, Seq::empty())
            },
            None => (false, i + 1, Seq::empty()),
        }
    } else {
        (false, i + 1, Seq::empty())
    }
}

/// The position after the token at `i`, always past it.
pub open spec fn next_at(t: Seq<char>, i: int) -> int {
    let n = token(t, i).1;
    if i < n <= t.len() {
        n
    } else {
        i + 1
    }
}

/// The names of the variables referred to from position `i` on, in order.
pub open spec fn names_from(t: Seq<char>, i: int) -> Seq<Seq<char>>
    decreases t.len() - i,
{
    if i < 0 || i >= t.len() {
        Seq::empty()
    } else {
        let rest = names_from(t, next_at(t, i));
        if token(t, i).0 {
            seq![token(t, i).2] + rest
        } else {
            rest
        }
    }
}

/// `t` from position `i` on with the variables replaced, in order, by
/// `values` from `k` on; a value past the end is nothing.
pub open spec fn expand_from(t: Seq<char>, i: int, values: Seq<Seq<char>>, k: int) -> Seq<char>
    decreases t.len() - i,
{
    if i < 0 || i >= t.len() {
        Seq::empty()
    } else if token(t, i).0 {
        (if 0 <= k < values.len() {
            values[k]
        } else {
            Seq::empty()
        }) + expand_from(t, next_at(t, i), values, k + 1)
    } else {
        seq![t[i]] + expand_from(t, next_at(t, i), values, k)
    }
}

/// `rel` beneath `base`, as `Path::join` puts it: an absolute `rel`
/// replaces `base`, and a separator goes between them when `base` does not
/// already end in one.
pub open spec fn join(base: Seq<char>, rel: Seq<char>) -> Seq<char> {
    if rel.len() > 0 && rel[0] == '/' {
        rel
    } else if base.len() > 0 && base.last() != '/' {
        base + seq!['/'] + rel
    } else {
        base + rel
    }
}

/// The path's pieces with `.` dropped and each `..` taking back the piece
/// before it; a `..` with nothing before it (above the root) stops there.
pub open spec fn resolve(pieces: Seq<Seq<char>>) -> Seq<Seq<char>>
    decreases pieces.len(),
{
    if pieces.len() == 0 {
        Seq::empty()
    } else {
        let acc = resolve(pieces.drop_last());
        let p = pieces.last();
        if p.len() == 0 || p == seq!['.'] {
            acc
        } else if p == seq!['.', '.'] {
            if acc.len() > 0 {
                acc.drop_last()
            } else {
                acc
            }
        } else {
            acc.push(p)
        }
    }
}

/// Pieces put back together with `/` between them.
pub open spec fn join_parts(parts: Seq<Seq<char>>) -> Seq<char>
    decreases parts.len(),
{
    if parts.len() == 0 {
        Seq::empty()
    } else if parts.len() == 1 {
        parts[0]
    } else {
        join_parts(parts.drop_last()) + seq!['/'] + parts.last()
    }
}

/// `.` and `..` resolved textually, without asking the filesystem.
pub open spec fn normalize(p: Seq<char>) -> Seq<char> {
    let body = join_parts(resolve(split_seq(p, '/')));
    if p.len() > 0 && p[0] == '/' {
        seq!['/'] + body
    } else {
        body
    }
}

/// Whether a path starts at the root.
pub open spec fn is_absolute(p: Seq<char>) -> bool {
    p.len() > 0 && p[0] == '/'
}

/// The path an expanded text names: `~` alone is home, `~/` or `~\` at the
/// start joins what follows onto home, and anything else is as written.
pub open spec fn tilde(text: Seq<char>, home: Seq<char>) -> Seq<char> {
    if text == seq!['~'] {
        home
    } else if text.len() >= 2 && text[0] == '~' && (text[1] == '/' || text[1] == '\\') {
        join(home, text.skip(2))
    } else {
        text
    }
}

/// What `input` expands to, given the values the variables it names were
/// found to have, in order: nothing for input that is blank or longer than
/// [`MAX_INPUT`] bytes, or that expands to nothing; otherwise the path,
/// taken from `current` when it is not absolute, with `.` and `..`
/// resolved.
pub open spec fn expand_spec(input: Seq<char>, home: Seq<char>, current: Seq<char>, values: Seq<Seq<char>>) -> Option<Seq<char>> {
    let trimmed = trim(input);
    if trimmed.len() == 0 || utf8_len(trimmed) > MAX_INPUT {
        None
    } else {
        let text = expand_from(trimmed, 0, values, 0);
        let expanded = tilde(text, home);
        if expanded.len() == 0 {
            None
        } else if is_absolute(expanded) {
            Some(normalize(expanded))
        } else {
            Some(normalize(join(current, expanded)))
        }
    }
}

/// Whether `s` fits in [`MAX_INPUT`] bytes of UTF-8.
fn fits_input(s: &[char]) -> (r: bool)
    ensures
        r == (utf8_len(s@) <= MAX_INPUT),
{
    let mut total: usize = 0;
    let mut i: usize = 0;
    while i < s.len()
        invariant
            i <= s@.len(),
            total == utf8_len(s@.take(i as int)),
            total <= MAX_INPUT,
        decreases s.len() - i,
    {
        let c = s[i];
        let w: usize = if (c as u32) < 0x80 {
            1
        } else if (c as u32) < 0x800 {
            2
        } else if (c as u32) < 0x1_0000 {
            3
        } else {
            4
        };
        proof {
            assert(s@.take(i + 1).drop_last() =~= s@.take(i as int));
            assert(s@.take(i + 1).last() == c);
        }
        if w > MAX_INPUT - total {
            proof {
                lemma_utf8_len_grows(s@, i + 1);
            }
            return false;
        }
        total = total + w;
        i += 1;
    }
    proof {
        assert(s@.take(s@.len() as int) =~= s@);
    }
    true
}

proof fn lemma_utf8_len_grows(s: Seq<char>, n: int)
    requires
        0 <= n <= s.len(),
    ensures
        utf8_len(s.take(n)) <= utf8_len(s),
    decreases s.len() - n,
{
    if n < s.len() {
        lemma_utf8_len_grows(s, n + 1);
        assert(s.take(n + 1).drop_last() =~= s.take(n));
    } else {
        assert(s.take(n) =~= s);
    }
}

/// Where a run of name characters starting at `k` ends.
fn word_end_at(t: &[char], k: usize) -> (r: usize)
    requires
        k <= t@.len(),
    ensures
        r == word_end(t@, k as int),
        k <= r <= t@.len(),
{
    let mut e = k;
    while e < t.len() && (t[e] == '_' || is_alphanumeric(t[e]))
        invariant
            k <= e <= t@.len(),
            word_end(t@, k as int) == word_end(t@, e as int),
        decreases t.len() - e,
    {
        e += 1;
    }
    e
}

/// Whether every character of `t[a..b]` can be part of a name.
fn all_name_chars_in(t: &[char], a: usize, b: usize) -> (r: bool)
    requires
        a <= b <= t@.len(),
    ensures
        r == all_name_chars(t@.subrange(a as int, b as int)),
{
    let mut k = a;
    while k < b
        invariant
            a <= k <= b <= t@.len(),
            forall|j: int| a <= j < k ==> name_char(t@[j]),
        decreases b - k,
    {
        if !(t[k] == '_' || is_alphanumeric(t[k])) {
            proof {
                assert(t@.subrange(a as int, b as int)[k - a] == t@[k as int]);
            }
            return false;
        }
        k += 1;
    }
    proof {
        assert forall|i: int| 0 <= i < b - a implies name_char(#[trigger] t@.subrange(a as int, b as int)[i]) by {
            assert(t@.subrange(a as int, b as int)[i] == t@[a + i]);
        }
    }
    true
}

/// What starts at position `i`: whether it is a variable, the position
/// after it, and where its name lies.
fn token_at(t: &[char], i: usize) -> (r: (bool, usize, usize, usize))
    requires
        i < t@.len(),
    ensures
        r.0 == token(t@, i as int).0,
        r.1 == token(t@, i as int).1,
        i < r.1 <= t@.len(),
        r.0 ==> r.2 <= r.3 <= t@.len() && t@.subrange(r.2 as int, r.3 as int) == token(t@, i as int).2,
{
    if t[i] == '$' && i + 1 < t.len() && t[i + 1] == '{' {
        proof {
            lemma_find_from(t@, '}', i + 2);
        }
        match find_char_from(t, '}', i + 2) {
            Some(j) => (true, j + 1, i + 2, j),
            None => (false, i + 1, 0, 0),
        }
    } else if t[i] == '$' {
        let e = word_end_at(t, i + 1);
        if e == i + 1 {
            (false, i + 1, 0, 0)
        } else {
            (true, e, i + 1, e)
        }
    } else if t[i] == '%' {
        proof {
            lemma_find_from(t@, '%', i + 1);
        }
        match find_char_from(t, '%', i + 1) {
            Some(j) => {
                if j > i + 1 && all_name_chars_in(t, i + 1, j) {
                    (true, j + 1, i + 1, j)
                } else {
                    (false, i + 1, 0, 0)
                }
            },
            None => (false, i + 1, 0, 0),
        }
    } else {
        (false, i + 1, 0, 0)
    }
}

/// The names of the variables `input`, trimmed, refers to, in order.
pub fn variables(input: &str) -> (r: Vec<String>)
    ensures
        r@.map_values(|s: String| s@) == names_from(trim(input@), 0),
{
    let all = chars_of(input);
    let t = trim_chars(all.as_slice());
    let mut out: Vec<String> = Vec::new();
    let mut i: usize = 0;
    while i < t.len()
        invariant
            i <= t@.len(),
            t@ == trim(input@),
            out@.map_values(|s: String| s@) + names_from(t@, i as int) == names_from(t@, 0),
        decreases t.len() - i,
    {
        let (var, next, a, b) = token_at(t.as_slice(), i);
        let ghost before = out@;
        if var {
            let name = slice_to_vec(t.as_slice(), a, b);
            out.push(string_of(name.as_slice()));
            proof {
                assert(out@.map_values(|s: String| s@) =~= before.map_values(|s: String| s@).push(token(t@, i as int).2));
                assert(before.map_values(|s: String| s@) + names_from(t@, i as int) =~= out@.map_values(|s: String| s@) + names_from(t@, next as int));
            }
        }
        i = next;
    }
    proof {
        assert(names_from(t@, i as int) =~= Seq::<Seq<char>>::empty());
        assert(out@.map_values(|s: String| s@) + names_from(t@, i as int) =~= out@.map_values(|s: String| s@));
    }
    out
}

/// The texts values stand for: a variable that is not set is nothing.
pub open spec fn value_texts(values: Seq<Option<String>>) -> Seq<Seq<char>> {
    values.map_values(|v: Option<String>| match v {
        Some(s) => s@,
        None => Seq::<char>::empty(),
    })
}

/// `t` with its variables replaced, in order, by `values`.
fn expand_text(t: &[char], values: &[Option<String>]) -> (r: Vec<char>)
    ensures
        r@ == expand_from(t@, 0, value_texts(values@), 0),
{
    let ghost vals = value_texts(values@);
    let mut out: Vec<char> = Vec::new();
    let mut i: usize = 0;
    let mut k: usize = 0;
    while i < t.len()
        invariant
            i <= t@.len(),
            vals == value_texts(values@),
            out@ + expand_from(t@, i as int, vals, k as int) == expand_from(t@, 0, vals, 0),
            k <= i,
        decreases t.len() - i,
    {
        let (var, next, a, b) = token_at(t, i);
        let ghost before = out@;
        if var {
            if k < values.len() {
                match &values[k] {
                    Some(v) => {
                        let vc = chars_of(v.as_str());
                        let mut j: usize = 0;
                        while j < vc.len()
                            invariant
                                j <= vc@.len(),
                                out@ == before + vc@.take(j as int),
                            decreases vc.len() - j,
                        {
                            out.push(vc[j]);
                            proof {
                                assert(before + vc@.take(j + 1) =~= (before + vc@.take(j as int)).push(vc@[j as int]));
                            }
                            j += 1;
                        }
                        proof {
                            assert(vc@.take(vc@.len() as int) =~= vc@);
                            assert(vals[k as int] == v@);
                        }
                    },
                    None => {
                        proof {
                            assert(out@ =~= before + vals[k as int]);
                        }
                    },
                }
            } else {
                proof {
                    assert(out@ =~= before + Seq::<char>::empty());
                }
            }
            proof {
                assert(before + expand_from(t@, i as int, vals, k as int) =~= out@ + expand_from(t@, next as int, vals, k + 1));
            }
            k = k + 1;
        } else {
            out.push(t[i]);
            proof {
                assert(before + expand_from(t@, i as int, vals, k as int) =~= out@ + expand_from(t@, next as int, vals, k as int));
            }
        }
        i = next;
    }
    proof {
        assert(out@ + expand_from(t@, i as int, vals, k as int) =~= out@);
    }
    out
}

/// `rel` beneath `base`, as `Path::join` puts it.
fn join_chars(base: &[char], rel: &[char]) -> (r: Vec<char>)
    ensures
        r@ == join(base@, rel@),
{
    if rel.len() > 0 && rel[0] == '/' {
        return slice_to_vec(rel, 0, rel.len());
    }
    let mut out = slice_to_vec(base, 0, base.len());
    if base.len() > 0 && base[base.len() - 1] != '/' {
        out.push('/');
    }
    let ghost prefix = out@;
    let mut j: usize = 0;
    while j < rel.len()
        invariant
            j <= rel@.len(),
            out@ == prefix + rel@.take(j as int),
        decreases rel.len() - j,
    {
        out.push(rel[j]);
        proof {
            assert(prefix + rel@.take(j + 1) =~= (prefix + rel@.take(j as int)).push(rel@[j as int]));
        }
        j += 1;
    }
    proof {
        assert(rel@.take(rel@.len() as int) =~= rel@);
        assert(base@.subrange(0, base@.len() as int) =~= base@);
        assert(rel@.subrange(0, rel@.len() as int) =~= rel@);
    }
    out
}

/// Append all of `more` to `out`.
fn append_chars(out: &mut Vec<char>, more: &[char])
    ensures
        final(out)@ == old(out)@ + more@,
{
    let ghost prefix = out@;
    let mut j: usize = 0;
    while j < more.len()
        invariant
            j <= more@.len(),
            out@ == prefix + more@.take(j as int),
        decreases more.len() - j,
    {
        out.push(more[j]);
        proof {
            assert(prefix + more@.take(j + 1) =~= (prefix + more@.take(j as int)).push(more@[j as int]));
        }
        j += 1;
    }
    proof {
        assert(more@.take(more@.len() as int) =~= more@);
    }
}

/// `.` and `..` resolved textually.
fn normalize_chars(p: &[char]) -> (r: Vec<char>)
    ensures
        r@ == normalize(p@),
{
    let pieces = split_chars(p, '/');
    let ghost pv = pieces@.map_values(|v: Vec<char>| v@);
    let dot: [char; 1] = ['.'];
    let dots: [char; 2] = ['.', '.'];
    proof {
        assert(dot@ =~= seq!['.']);
        assert(dots@ =~= seq!['.', '.']);
        assert(pv.take(0) =~= Seq::<Seq<char>>::empty());
    }
    let mut parts: Vec<Vec<char>> = Vec::new();
    let mut i: usize = 0;
    while i < pieces.len()
        invariant
            i <= pieces@.len(),
            pv == pieces@.map_values(|v: Vec<char>| v@),
            dot@ == seq!['.'],
            dots@ == seq!['.', '.'],
            parts@.map_values(|v: Vec<char>| v@) == resolve(pv.take(i as int)),
        decreases pieces.len() - i,
    {
        let piece = &pieces[i];
        let ghost before = parts@.map_values(|v: Vec<char>| v@);
        proof {
            assert(pv.take(i + 1).drop_last() =~= pv.take(i as int));
            assert(pv.take(i + 1).last() == piece@);
        }
        if piece.len() == 0 || crate::text::chars_eq(piece.as_slice(), &dot) {
        } else if crate::text::chars_eq(piece.as_slice(), &dots) {
            if parts.len() > 0 {
                parts.pop();
                proof {
                    assert(parts@.map_values(|v: Vec<char>| v@) =~= before.drop_last());
                }
            }
        } else {
            parts.push(slice_to_vec(piece.as_slice(), 0, piece.len()));
            proof {
                assert(piece@.subrange(0, piece@.len() as int) =~= piece@);
                assert(parts@.map_values(|v: Vec<char>| v@) =~= before.push(piece@));
            }
        }
        i += 1;
    }
    proof {
        assert(pv.take(pieces@.len() as int) =~= pv);
    }
    let ghost partsv = parts@.map_values(|v: Vec<char>| v@);
    let mut out: Vec<char> = Vec::new();
    if p.len() > 0 && p[0] == '/' {
        out.push('/');
    }
    let ghost prefix = out@;
    let mut j: usize = 0;
    proof {
        assert(partsv.take(0) =~= Seq::<Seq<char>>::empty());
        assert(out@ =~= prefix + join_parts(partsv.take(0)));
    }
    while j < parts.len()
        invariant
            j <= parts@.len(),
            partsv == parts@.map_values(|v: Vec<char>| v@),
            out@ == prefix + join_parts(partsv.take(j as int)),
        decreases parts.len() - j,
    {
        let ghost before = out@;
        if j > 0 {
            out.push('/');
        }
        append_chars(&mut out, parts[j].as_slice());
        proof {
            let t = partsv.take(j + 1);
            assert(t.drop_last() =~= partsv.take(j as int));
            assert(t.last() == parts@[j as int]@);
            if j == 0 {
                assert(join_parts(t) == t[0]);
                assert(out@ =~= prefix + join_parts(t));
            } else {
                assert(out@ =~= prefix + join_parts(t));
            }
        }
        j += 1;
    }
    proof {
        assert(partsv.take(parts@.len() as int) =~= partsv);
        assert(split_seq(p@, '/') == pv);
    }
    out
}

/// The path an expanded text names, `~` read as home.
fn tilde_chars(text: &[char], home: &[char]) -> (r: Vec<char>)
    ensures
        r@ == tilde(text@, home@),
{
    if text.len() == 1 && text[0] == '~' {
        proof {
            assert(text@ =~= seq!['~']);
        }
        return slice_to_vec(home, 0, home.len());
    }
    proof {
        if text@ == seq!['~'] {
            assert(text@.len() == 1 && text@[0] == '~');
        }
    }
    if text.len() >= 2 && text[0] == '~' && (text[1] == '/' || text[1] == '\\') {
        let rest = slice_to_vec(text, 2, text.len());
        proof {
            assert(rest@ =~= text@.skip(2));
        }
        return join_chars(home, rest.as_slice());
    }
    slice_to_vec(text, 0, text.len())
}

/// The view of an optional string.
pub open spec fn opt_view(o: Option<String>) -> Option<Seq<char>> {
    match o {
        Some(s) => Some(s@),
        None => None,
    }
}

/// What `input` expands to, given what each variable it names was found
/// to be, in the order [`variables`] lists them (`None` for unset).
pub fn expand_values(input: &str, home: &str, current: &str, values: &[Option<String>]) -> (r: Option<String>)
    ensures
        opt_view(r) == expand_spec(input@, home@, current@, value_texts(values@)),
{
    let all = chars_of(input);
    let trimmed = trim_chars(all.as_slice());
    if trimmed.len() == 0 || !fits_input(trimmed.as_slice()) {
        return None;
    }
    let text = expand_text(trimmed.as_slice(), values);
    let h = chars_of(home);
    let expanded = tilde_chars(text.as_slice(), h.as_slice());
    if expanded.len() == 0 {
        return None;
    }
    let target = if expanded[0] == '/' {
        expanded
    } else {
        let c = chars_of(current);
        join_chars(c.as_slice(), expanded.as_slice())
    };
    let normal = normalize_chars(target.as_slice());
    Some(string_of(normal.as_slice()))
}

/// Whether `value` is what `lookup` gave for a variable called `name`.
pub open spec fn looked_up<F: Fn(&str) -> Option<String>>(lookup: F, name: Seq<char>, value: Option<String>) -> bool {
    exists|s: &str| s@ == name && #[trigger] call_ensures(lookup, (s,), value)
}

/// Expand what the user typed, relative to `current` when it is not
/// absolute, reading each variable it names with `lookup`. Blank input and
/// input longer than [`MAX_INPUT`] bytes expand to nothing, and nothing is
/// looked up for them; otherwise the result is what [`expand_values`] makes
/// of the values `lookup` gave, one per variable named, each used as
/// written and never expanded again.
pub fn expand<F: Fn(&str) -> Option<String>>(input: &str, home: &str, current: &str, lookup: &F) -> (r: Option<String>)
    requires
        forall|s: &str| lookup.requires((s,)),
    ensures
        trim(input@).len() == 0 || utf8_len(trim(input@)) > MAX_INPUT ==> r is None,
        !(trim(input@).len() == 0 || utf8_len(trim(input@)) > MAX_INPUT) ==> exists|values: Seq<Option<String>>| {
            &&& values.len() == names_from(trim(input@), 0).len()
            &&& forall|i: int| 0 <= i < values.len() ==> looked_up(*lookup, names_from(trim(input@), 0)[i], #[trigger] values[i])
            &&& opt_view(r) == expand_spec(input@, home@, current@, value_texts(values))
        },
{
    let all = chars_of(input);
    let trimmed = trim_chars(all.as_slice());
    if trimmed.len() == 0 || !fits_input(trimmed.as_slice()) {
        return None;
    }
    let names = variables(input);
    let ghost wanted = names_from(trim(input@), 0);
    let mut values: Vec<Option<String>> = Vec::new();
    let mut k: usize = 0;
    while k < names.len()
        invariant
            k <= names@.len(),
            values@.len() == k,
            names@.map_values(|s: String| s@) == wanted,
            forall|s: &str| lookup.requires((s,)),
            forall|j: int| 0 <= j < k ==> looked_up(*lookup, wanted[j], #[trigger] values@[j]),
        decreases names.len() - k,
    {
        let name = names[k].as_str();
        let v = lookup(name);
        proof {
            assert(name@ == wanted[k as int]);
            assert(call_ensures(*lookup, (name,), v));
        }
        values.push(v);
        k += 1;
    }
    let r = expand_values(input, home, current, values.as_slice());
    proof {
        assert(names@.map_values(|s: String| s@).len() == names@.len());
        assert(value_texts(values@).len() == names_from(trim(input@), 0).len());
        assert(forall|i: int| 0 <= i < values@.len() ==> looked_up(*lookup, wanted[i], #[trigger] values@[i]));
    }
    r
}

/// Whether path pieces are each a plain name: not empty, not `.` or `..`,
/// and holding no separator.
pub open spec fn clean_parts(parts: Seq<Seq<char>>) -> bool {
    forall|i: int| 0 <= i < parts.len() ==> {
        &&& (#[trigger] parts[i]).len() > 0
        &&& parts[i] != seq!['.']
        &&& parts[i] != seq!['.', '.']
        &&& !parts[i].contains('/')
    }
}

proof fn lemma_resolve_clean(pieces: Seq<Seq<char>>)
    requires
        forall|i: int| 0 <= i < pieces.len() ==> !(#[trigger] pieces[i]).contains('/'),
    ensures
        clean_parts(resolve(pieces)),
    decreases pieces.len(),
{
    if pieces.len() > 0 {
        let rest = pieces.drop_last();
        assert forall|i: int| 0 <= i < rest.len() implies !(#[trigger] rest[i]).contains('/') by {
            assert(rest[i] == pieces[i]);
        }
        lemma_resolve_clean(rest);
        let acc = resolve(rest);
        let p = pieces.last();
        assert(!pieces[pieces.len() - 1].contains('/'));
        if p.len() == 0 || p == seq!['.'] {
        } else if p == seq!['.', '.'] {
            if acc.len() > 0 {
                assert forall|i: int| 0 <= i < acc.drop_last().len() implies #[trigger] acc.drop_last()[i] == acc[i] by {}
            }
        } else {
            assert forall|i: int| 0 <= i < acc.push(p).len() implies (#[trigger] acc.push(p)[i]) == (if i < acc.len() { acc[i] } else { p }) by {}
        }
    }
}

/// A path typed against an absolute folder comes out absolute and clean:
/// the root, then plain names joined by `/`, with every `.` gone and every
/// `..` spent, never climbing above the root.
pub proof fn law_expansion_is_absolute_and_clean(input: Seq<char>, home: Seq<char>, current: Seq<char>, values: Seq<Seq<char>>)
    requires
        is_absolute(current),
    ensures
        expand_spec(input, home, current, values) matches Some(q) ==> exists|parts: Seq<Seq<char>>|
            clean_parts(parts) && q == seq!['/'] + join_parts(parts),
{
    if let Some(q) = expand_spec(input, home, current, values) {
        let trimmed = trim(input);
        let text = expand_from(trimmed, 0, values, 0);
        let expanded = tilde(text, home);
        let target = if is_absolute(expanded) { expanded } else { join(current, expanded) };
        assert(is_absolute(target)) by {
            if !is_absolute(expanded) {
                assert(join(current, expanded)[0] == current[0]);
            }
        }
        crate::text::lemma_pieces_have_no_separator(target, '/');
        lemma_resolve_clean(split_seq(target, '/'));
        assert(q == seq!['/'] + join_parts(resolve(split_seq(target, '/'))));
    }
}

} // verus!
