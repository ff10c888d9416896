//! What to call a copy kept beside the original.
//!
//! One rule for every place that needs one: `report.txt` becomes
//! `report (1).txt`, then `report (2).txt`. A name that already ends in a
//! number in brackets carries on counting, so a copy of `report (1).txt` is
//! `report (2).txt` rather than `report (1) (1).txt`.

use vstd::prelude::*;

use crate::text::{
    chars_eq, chars_of, decimal, decimal_string, digits_value, parse_unsigned, parse_unsigned_chars, push_char,
    push_str, rfind, rfind_char, slice_to_vec, string_of,
};

verus! {

/// How many numbered names are tried before giving up: a folder that holds
/// all of them is a failure to report, not a loop to spin in.
pub const MAX_COPY_NUMBER: u32 = 999;

/// The part of a file name before its extension. The extension follows the
/// last dot, except a dot that starts the name (`.bashrc` has none) and
/// the name `..`.
pub open spec fn stem_of(name: Seq<char>) -> Seq<char> {
    match rfind(name, '.') {
        Some(i) => if i > 0 && name != ".."@ {
            name.take(i)
        } else {
            name
        },
        None => name,
    }
}

/// A file name's extension, if it has one.
pub open spec fn extension_of(name: Seq<char>) -> Option<Seq<char>> {
    match rfind(name, '.') {
        Some(i) => if i > 0 && name != ".."@ {
            Some(name.skip(i + 1))
        } else {
            None
        },
        None => None,
    }
}

/// Where the last ` (` before `n` starts.
pub open spec fn pair_before(s: Seq<char>, n: int) -> Option<int>
    decreases n,
{
    if n < 2 || n > s.len() {
        None
    } else if s[n - 2] == ' ' && s[n - 1] == '(' {
        Some(n - 2)
    } else {
        pair_before(s, n - 1)
    }
}

/// Whether text is ASCII digits.
pub open spec fn ascii_digits(t: Seq<char>) -> bool {
    forall|i: int| 0 <= i < t.len() ==> '0' <= #[trigger] t[i] <= '9'
}

/// A stem without a trailing ` (n)`, and the number to count from: one
/// past `n` when the stem ends in one to three digits in brackets after a
/// space and something before them, and `n` is not the last number;
/// otherwise the whole stem, from 1.
pub open spec fn copy_start(stem: Seq<char>) -> (Seq<char>, int) {
    if stem.len() > 0 && stem.last() == ')' {
        let inner = stem.drop_last();
        match pair_before(inner, inner.len() as int) {
            Some(i) => {
                let base = inner.take(i);
                let digits = inner.skip(i + 2);
                if 0 < digits.len() <= 3 && ascii_digits(digits) && base.len() > 0 && digits_value(digits, 10)
                    < MAX_COPY_NUMBER {
                    (base, digits_value(digits, 10) + 1)
                } else {
                    (stem, 1)
                }
            },
            None => (stem, 1),
        }
    } else {
        (stem, 1)
    }
}

/// The copy of a name numbered `n`: the base, ` (n)`, and the extension.
pub open spec fn copy_name(base: Seq<char>, n: int, extension: Option<Seq<char>>) -> Seq<char> {
    base + " ("@ + decimal(n as nat) + ")"@ + match extension {
        Some(e) => seq!['.'] + e,
        None => Seq::empty(),
    }
}

/// Where the last ` (` in `s` starts.
fn last_pair(s: &[char]) -> (r: Option<usize>)
    ensures
        r matches Some(i) ==> pair_before(s@, s@.len() as int) == Some(i as int),
        r is None ==> pair_before(s@, s@.len() as int) is None,
{
    let mut n = s.len();
    while n >= 2
        invariant
            n <= s@.len(),
            pair_before(s@, s@.len() as int) == pair_before(s@, n as int),
        decreases n,
    {
        if s[n - 2] == ' ' && s[n - 1] == '(' {
            return Some(n - 2);
        }
        n -= 1;
    }
    None
}

/// Whether every character is an ASCII digit.
fn all_ascii_digits(t: &[char]) -> (r: bool)
    ensures
        r == ascii_digits(t@),
{
    let mut i: usize = 0;
    while i < t.len()
        invariant
            i <= t@.len(),
            forall|j: int| 0 <= j < i ==> '0' <= #[trigger] t@[j] <= '9',
        decreases t.len() - i,
    {
        if !('0' <= t[i] && t[i] <= '9') {
            return false;
        }
        i += 1;
    }
    true
}

/// The stem without its copy number, and the number to count from.
fn strip_copy_number(stem: &[char]) -> (r: (Vec<char>, u32))
    ensures
        r.0@ == copy_start(stem@).0,
        r.1 as int == copy_start(stem@).1,
        1 <= r.1 <= MAX_COPY_NUMBER,
{
    let whole = (slice_to_vec(stem, 0, stem.len()), 1u32);
    proof {
        assert(stem@.subrange(0, stem@.len() as int) =~= stem@);
    }
    if stem.len() == 0 || stem[stem.len() - 1] != ')' {
        return whole;
    }
    let inner = slice_to_vec(stem, 0, stem.len() - 1);
    proof {
        assert(inner@ =~= stem@.drop_last());
    }
    let i = match last_pair(inner.as_slice()) {
        Some(i) => i,
        None => {
            return whole;
        },
    };
    proof {
        crate::naming::lemma_pair_before(inner@, inner@.len() as int);
    }
    let base = slice_to_vec(inner.as_slice(), 0, i);
    let digits = slice_to_vec(inner.as_slice(), i + 2, inner.len());
    proof {
        assert(base@ =~= inner@.take(i as int));
        assert(digits@ =~= inner@.skip(i + 2));
    }
    if digits.len() == 0 || digits.len() > 3 || !all_ascii_digits(digits.as_slice()) || base.len() == 0 {
        return whole;
    }
    proof {
        assert(digits@[0] != '+');
        assert forall|j: int| 0 <= j < digits@.len() implies (#[trigger] crate::text::digit_value(digits@[j], 10)) is Some by {
            assert('0' <= digits@[j] <= '9');
        }
    }
    match parse_unsigned_chars(digits.as_slice(), 10, 998) {
        Some(n) => (base, (n + 1) as u32),
        None => whole,
    }
}

/// Where a pair found lands.
proof fn lemma_pair_before(s: Seq<char>, n: int)
    requires
        0 <= n <= s.len(),
    ensures
        pair_before(s, n) matches Some(i) ==> 0 <= i && i + 2 <= n,
    decreases n,
{
    if n >= 2 && !(s[n - 2] == ' ' && s[n - 1] == '(') {
        lemma_pair_before(s, n - 1);
    }
}

/// A file name split into the part before its extension and the extension.
fn split_name(name: &[char]) -> (r: (Vec<char>, Option<Vec<char>>))
    ensures
        r.0@ == stem_of(name@),
        match r.1 {
            Some(e) => extension_of(name@) == Some(e@),
            None => extension_of(name@) is None,
        },
{
    proof {
        reveal_strlit("..");
    }
    let dots = chars_of("..");
    let whole = slice_to_vec(name, 0, name.len());
    proof {
        assert(name@.subrange(0, name@.len() as int) =~= name@);
    }
    match rfind_char(name, '.') {
        Some(i) => {
            if i > 0 && !chars_eq(name, dots.as_slice()) {
                let stem = slice_to_vec(name, 0, i);
                let extension = slice_to_vec(name, i + 1, name.len());
                proof {
                    assert(stem@ =~= name@.take(i as int));
                    assert(extension@ =~= name@.skip(i + 1));
                }
                (stem, Some(extension))
            } else {
                (whole, None)
            }
        },
        None => (whole, None),
    }
}

/// The names to try, in order, for a copy of `name` kept beside it: the
/// stem without any copy number it already carries, ` (n)` for each `n`
/// from where that number leaves off to the last one, and the extension.
pub fn copy_names(name: &str) -> (r: Vec<String>)
    ensures
        ({
            let (base, first) = copy_start(stem_of(name@));
            &&& r@.len() == MAX_COPY_NUMBER - first + 1
            &&& forall|k: int| 0 <= k < r@.len() ==> (#[trigger] r@[k])@ == copy_name(base, first + k, extension_of(name@))
        }),
{
    proof {
        reveal_strlit(" (");
        reveal_strlit(")");
    }
    let letters = chars_of(name);
    let (stem, extension) = split_name(letters.as_slice());
    let (base, first) = strip_copy_number(stem.as_slice());
    let ghost ext = extension_of(name@);
    let mut out: Vec<String> = Vec::new();
    let mut n: u32 = first;
    while n <= MAX_COPY_NUMBER
        invariant
            first <= n <= MAX_COPY_NUMBER + 1,
            1 <= first <= MAX_COPY_NUMBER,
            base@ == copy_start(stem_of(name@)).0,
            first as int == copy_start(stem_of(name@)).1,
            stem@ == stem_of(name@),
            match extension {
                Some(e) => ext == Some(e@),
                None => ext is None,
            },
            out@.len() == n - first,
            forall|k: int| 0 <= k < out@.len() ==> (#[trigger] out@[k])@ == copy_name(base@, first + k, ext),
        decreases MAX_COPY_NUMBER + 1 - n,
    {
        let mut candidate = string_of(base.as_slice());
        push_str(&mut candidate, " (");
        let number = decimal_string(n as u64);
        push_str(&mut candidate, number.as_str());
        push_str(&mut candidate, ")");
        match &extension {
            Some(e) => {
                push_char(&mut candidate, '.');
                let text = string_of(e.as_slice());
                push_str(&mut candidate, text.as_str());
            },
            None => {},
        }
        proof {
            let e_part = match ext {
                Some(e) => seq!['.'] + e,
                None => Seq::<char>::empty(),
            };
            assert(candidate@ =~= base@ + " ("@ + decimal(n as nat) + ")"@ + e_part);
        }
        out.push(candidate);
        n += 1;
    }
    out
}

} // verus!
