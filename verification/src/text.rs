//! Characters in, characters out.
//!
//! Everything in this crate that reads or writes text does it over sequences
//! of `char`, which is what a `str` is to the verifier. These are the few
//! conversions between the two.

use vstd::prelude::*;

verus! {

/// Append one character.
#[verifier::external_body]
pub fn push_char(s: &mut String, c: char)
    ensures
        final(s)@ == old(s)@.push(c),
{
    s.push(c);
}

/// Append a string slice.
#[verifier::external_body]
pub fn push_str(s: &mut String, other: &str)
    ensures
        final(s)@ == old(s)@ + other@,
{
    s.push_str(other);
}

/// The characters of `s`, in order.
pub fn chars_of(s: &str) -> (r: Vec<char>)
    ensures
        r@ == s@,
{
    let mut out: Vec<char> = Vec::new();
    for c in it: s.chars()
        invariant
            out@ == it.seq().take(it.index() as int),
            it.seq() == s@,
    {
        out.push(c);
    }
    out
}

/// A string holding exactly `chars`.
pub fn string_of(chars: &[char]) -> (r: String)
    ensures
        r@ == chars@,
{
    let mut out = String::new();
    let mut i: usize = 0;
    while i < chars.len()
        invariant
            i <= chars.len(),
            out@ == chars@.take(i as int),
        decreases chars.len() - i,
    {
        push_char(&mut out, chars[i]);
        proof {
            assert(chars@.take(i as int).push(chars@[i as int]) =~= chars@.take(i + 1));
        }
        i += 1;
    }
    proof {
        assert(chars@.take(chars@.len() as int) =~= chars@);
    }
    out
}

} // verus!

verus! {

/// Unicode's White_Space property, the set `char::is_whitespace` tests.
pub open spec fn is_ws(c: char) -> bool {
    ('\u{9}' <= c && c <= '\u{d}') || c == ' ' || c == '\u{85}' || c == '\u{a0}' || c
        == '\u{1680}' || ('\u{2000}' <= c && c <= '\u{200a}') || c == '\u{2028}' || c
        == '\u{2029}' || c == '\u{202f}' || c == '\u{205f}' || c == '\u{3000}'
}

/// Whether `c` is white space, as `char::is_whitespace` answers.
pub fn is_whitespace(c: char) -> (r: bool)
    ensures
        r == is_ws(c),
{
    ('\u{9}' <= c && c <= '\u{d}') || c == ' ' || c == '\u{85}' || c == '\u{a0}' || c
        == '\u{1680}' || ('\u{2000}' <= c && c <= '\u{200a}') || c == '\u{2028}' || c
        == '\u{2029}' || c == '\u{202f}' || c == '\u{205f}' || c == '\u{3000}'
}

/// `s` without its leading white space.
pub open spec fn trim_start(s: Seq<char>) -> Seq<char>
    decreases s.len(),
{
    if s.len() > 0 && is_ws(s[0]) {
        trim_start(s.drop_first())
    } else {
        s
    }
}

/// `s` without its trailing white space.
pub open spec fn trim_end(s: Seq<char>) -> Seq<char>
    decreases s.len(),
{
    if s.len() > 0 && is_ws(s.last()) {
        trim_end(s.drop_last())
    } else {
        s
    }
}

/// `s` without white space at either end, as `str::trim` gives it.
pub open spec fn trim(s: Seq<char>) -> Seq<char> {
    trim_end(trim_start(s))
}

proof fn lemma_trim_start_step(s: Seq<char>, i: int)
    requires
        0 <= i < s.len(),
        is_ws(s[i]),
    ensures
        trim_start(s.subrange(i, s.len() as int)) == trim_start(s.subrange(i + 1, s.len() as int)),
{
    assert(s.subrange(i, s.len() as int).drop_first() =~= s.subrange(i + 1, s.len() as int));
}

proof fn lemma_trim_end_step(s: Seq<char>, j: int)
    requires
        0 < j <= s.len(),
        is_ws(s[j - 1]),
    ensures
        trim_end(s.subrange(0, j)) == trim_end(s.subrange(0, j - 1)),
{
    assert(s.subrange(0, j).drop_last() =~= s.subrange(0, j - 1));
}

/// `s` without white space at either end.
pub fn trim_chars(s: &[char]) -> (r: Vec<char>)
    ensures
        r@ == trim(s@),
{
    let n = s.len();
    let mut i: usize = 0;
    proof {
        assert(s@.subrange(0, n as int) =~= s@);
    }
    while i < n && is_whitespace(s[i])
        invariant
            i <= n,
            n == s@.len(),
            trim_start(s@) == trim_start(s@.subrange(i as int, n as int)),
        decreases n - i,
    {
        proof {
            lemma_trim_start_step(s@, i as int);
        }
        i += 1;
    }
    let ghost start = s@.subrange(i as int, n as int);
    proof {
        assert(trim_start(start) == start);
    }
    let mut j: usize = n;
    proof {
        assert(start.subrange(0, (n - i) as int) =~= start);
    }
    while j > i && is_whitespace(s[j - 1])
        invariant
            i <= j <= n,
            n == s@.len(),
            start == s@.subrange(i as int, n as int),
            trim_end(start) == trim_end(start.subrange(0, j - i)),
        decreases j,
    {
        proof {
            lemma_trim_end_step(start, j - i);
        }
        j -= 1;
    }
    let ghost end = start.subrange(0, j - i);
    proof {
        assert(trim_end(end) == end);
    }
    let mut out: Vec<char> = Vec::new();
    let mut k: usize = i;
    while k < j
        invariant
            i <= k <= j <= n,
            n == s@.len(),
            out@ == s@.subrange(i as int, k as int),
        decreases j - k,
    {
        out.push(s[k]);
        proof {
            assert(s@.subrange(i as int, k + 1) =~= s@.subrange(i as int, k as int).push(s@[k as int]));
        }
        k += 1;
    }
    proof {
        assert(end =~= s@.subrange(i as int, j as int));
    }
    out
}

/// The first position of `c` in `s` at or after `from`.
pub open spec fn find_from(s: Seq<char>, c: char, from: int) -> Option<int>
    decreases s.len() - from,
{
    if from < 0 || from >= s.len() {
        None
    } else if s[from] == c {
        Some(from)
    } else {
        find_from(s, c, from + 1)
    }
}

/// The first position of `c` in `s`.
pub open spec fn find(s: Seq<char>, c: char) -> Option<int> {
    find_from(s, c, 0)
}

/// Where `find_from` lands: on `c`, with no `c` between `from` and there.
pub proof fn lemma_find_from(s: Seq<char>, c: char, from: int)
    requires
        0 <= from,
    ensures
        find_from(s, c, from) matches Some(i) ==> from <= i < s.len() && s[i] == c && forall|
            j: int,
        |
            from <= j < i ==> s[j] != c,
        find_from(s, c, from) is None ==> forall|j: int| from <= j < s.len() ==> s[j] != c,
    decreases s.len() - from,
{
    if from < s.len() && s[from] != c {
        lemma_find_from(s, c, from + 1);
    }
}

/// The first position of `c` in `s[from..]`.
pub fn find_char_from(s: &[char], c: char, from: usize) -> (r: Option<usize>)
    ensures
        r matches Some(i) ==> find_from(s@, c, from as int) == Some(i as int),
        r is None ==> find_from(s@, c, from as int) is None,
{
    let mut i = from;
    while i < s.len()
        invariant
            from <= i,
            find_from(s@, c, from as int) == find_from(s@, c, i as int),
        decreases s.len() - i,
    {
        if s[i] == c {
            return Some(i);
        }
        i += 1;
    }
    None
}

/// `s[from..to]` as a vector.
pub fn slice_to_vec(s: &[char], from: usize, to: usize) -> (r: Vec<char>)
    requires
        from <= to <= s@.len(),
    ensures
        r@ == s@.subrange(from as int, to as int),
{
    let mut out: Vec<char> = Vec::new();
    let mut k = from;
    while k < to
        invariant
            from <= k <= to <= s@.len(),
            out@ == s@.subrange(from as int, k as int),
        decreases to - k,
    {
        out.push(s[k]);
        proof {
            assert(s@.subrange(from as int, k + 1) =~= s@.subrange(from as int, k as int).push(
                s@[k as int],
            ));
        }
        k += 1;
    }
    out
}

/// Whether `s` starts with `p`.
pub fn starts_with(s: &[char], p: &[char]) -> (r: bool)
    ensures
        r == (p@.len() <= s@.len() && s@.subrange(0, p@.len() as int) == p@),
{
    if p.len() > s.len() {
        return false;
    }
    let mut i: usize = 0;
    while i < p.len()
        invariant
            i <= p@.len() <= s@.len(),
            s@.subrange(0, i as int) == p@.subrange(0, i as int),
        decreases p.len() - i,
    {
        if s[i] != p[i] {
            proof {
                assert(s@.subrange(0, p@.len() as int)[i as int] != p@[i as int]);
            }
            return false;
        }
        proof {
            assert(s@.subrange(0, i + 1) =~= s@.subrange(0, i as int).push(s@[i as int]));
            assert(p@.subrange(0, i + 1) =~= p@.subrange(0, i as int).push(p@[i as int]));
        }
        i += 1;
    }
    proof {
        assert(p@.subrange(0, i as int) =~= p@);
    }
    true
}

/// Whether `s` is exactly `p`.
pub fn chars_eq(s: &[char], p: &[char]) -> (r: bool)
    ensures
        r == (s@ == p@),
{
    if s.len() != p.len() {
        return false;
    }
    let b = starts_with(s, p);
    proof {
        assert(s@.subrange(0, p@.len() as int) =~= s@);
    }
    b
}

/// ASCII letters made lowercase, everything else unchanged.
pub open spec fn ascii_lower(c: char) -> char {
    if 'A' <= c && c <= 'Z' {
        ((c as int) + 32) as char
    } else {
        c
    }
}

/// ASCII letters made uppercase, everything else unchanged.
pub open spec fn ascii_upper(c: char) -> char {
    if 'a' <= c && c <= 'z' {
        ((c as int) - 32) as char
    } else {
        c
    }
}

/// `c` with an ASCII letter lowercased.
pub fn to_ascii_lower(c: char) -> (r: char)
    ensures
        r == ascii_lower(c),
{
    if 'A' <= c && c <= 'Z' {
        ((c as u8) + 32) as char
    } else {
        c
    }
}

/// `c` with an ASCII letter uppercased.
pub fn to_ascii_upper(c: char) -> (r: char)
    ensures
        r == ascii_upper(c),
{
    if 'a' <= c && c <= 'z' {
        ((c as u8) - 32) as char
    } else {
        c
    }
}

/// `s` with its ASCII letters lowercased, as `str::to_ascii_lowercase` gives.
pub fn lower_chars(s: &[char]) -> (r: Vec<char>)
    ensures
        r@ == s@.map_values(|c: char| ascii_lower(c)),
{
    let mut out: Vec<char> = Vec::new();
    let mut i: usize = 0;
    while i < s.len()
        invariant
            i <= s@.len(),
            out@ == s@.subrange(0, i as int).map_values(|c: char| ascii_lower(c)),
        decreases s.len() - i,
    {
        out.push(to_ascii_lower(s[i]));
        proof {
            assert(s@.subrange(0, i + 1).map_values(|c: char| ascii_lower(c)) =~= s@.subrange(
                0,
                i as int,
            ).map_values(|c: char| ascii_lower(c)).push(ascii_lower(s@[i as int])));
        }
        i += 1;
    }
    proof {
        assert(s@.subrange(0, i as int) =~= s@);
    }
    out
}

} // verus!

verus! {

/// `s` cut at every `c`, as `str::split` cuts it: always at least one piece,
/// and an empty piece wherever two separators meet or one ends the text.
pub open spec fn split_seq(s: Seq<char>, c: char) -> Seq<Seq<char>>
    decreases s.len(),
{
    match find(s, c) {
        None => seq![s],
        Some(i) => if 0 <= i < s.len() {
            seq![s.subrange(0, i)] + split_seq(s.subrange(i + 1, s.len() as int), c)
        } else {
            seq![s]
        },
    }
}

/// Finding in a tail is finding from that tail's start.
pub proof fn lemma_find_in_tail(s: Seq<char>, c: char, start: int)
    requires
        0 <= start <= s.len(),
    ensures
        find(s.subrange(start, s.len() as int), c) == match find_from(s, c, start) {
            Some(i) => Some(i - start),
            None => None::<int>,
        },
    decreases s.len() - start,
{
    let t = s.subrange(start, s.len() as int);
    lemma_find_shift(s, c, start, start);
}

proof fn lemma_find_shift(s: Seq<char>, c: char, start: int, k: int)
    requires
        0 <= start <= k <= s.len(),
    ensures
        find_from(s.subrange(start, s.len() as int), c, k - start) == match find_from(s, c, k) {
            Some(i) => Some(i - start),
            None => None::<int>,
        },
    decreases s.len() - k,
{
    if k < s.len() {
        lemma_find_shift(s, c, start, k + 1);
    }
}

/// The pieces of `s` between the separators `c`.
pub fn split_chars(s: &[char], c: char) -> (r: Vec<Vec<char>>)
    ensures
        r@.map_values(|v: Vec<char>| v@) == split_seq(s@, c),
{
    let n = s.len();
    let mut out: Vec<Vec<char>> = Vec::new();
    let mut start: usize = 0;
    proof {
        assert(s@.subrange(0, n as int) =~= s@);
    }
    loop
        invariant
            start <= n == s@.len(),
            out@.map_values(|v: Vec<char>| v@) + split_seq(s@.subrange(start as int, n as int), c)
                == split_seq(s@, c),
        decreases n - start,
    {
        let ghost t = s@.subrange(start as int, n as int);
        proof {
            lemma_find_in_tail(s@, c, start as int);
            lemma_find_from(s@, c, start as int);
        }
        match find_char_from(s, c, start) {
            None => {
                let piece = slice_to_vec(s, start, n);
                out.push(piece);
                proof {
                    assert(split_seq(t, c) == seq![t]);
                    assert(out@.map_values(|v: Vec<char>| v@) =~= old_map(out@) );
                }
                return out;
            },
            Some(i) => {
                let piece = slice_to_vec(s, start, i);
                let ghost before = out@.map_values(|v: Vec<char>| v@);
                out.push(piece);
                proof {
                    let j = (i - start) as int;
                    assert(find(t, c) == Some(j));
                    assert(t.subrange(0, j) =~= s@.subrange(start as int, i as int));
                    assert(t.subrange(j + 1, t.len() as int) =~= s@.subrange(i + 1, n as int));
                    assert(out@.map_values(|v: Vec<char>| v@) =~= before.push(piece@));
                    assert(before.push(piece@) + split_seq(s@.subrange(i + 1, n as int), c) =~= before
                        + split_seq(t, c));
                }
                start = i + 1;
            },
        }
    }
}

spec fn old_map(v: Seq<Vec<char>>) -> Seq<Seq<char>> {
    v.map_values(|v: Vec<char>| v@)
}

/// A decimal digit's value.
pub open spec fn digit_value(c: char, radix: u32) -> Option<u32> {
    if '0' <= c && c <= '9' && (c as u32) - ('0' as u32) < radix {
        Some(((c as u32) - ('0' as u32)) as u32)
    } else if radix > 10 && 'a' <= c && c <= 'z' && (c as u32) - ('a' as u32) + 10 < radix {
        Some(((c as u32) - ('a' as u32) + 10) as u32)
    } else if radix > 10 && 'A' <= c && c <= 'Z' && (c as u32) - ('A' as u32) + 10 < radix {
        Some(((c as u32) - ('A' as u32) + 10) as u32)
    } else {
        None
    }
}

/// A digit's value in `radix`, as `char::to_digit` gives it.
pub fn to_digit(c: char, radix: u32) -> (r: Option<u32>)
    requires
        2 <= radix <= 36,
    ensures
        r == digit_value(c, radix),
{
    if '0' <= c && c <= '9' && (c as u32) - ('0' as u32) < radix {
        Some((c as u32) - ('0' as u32))
    } else if radix > 10 && 'a' <= c && c <= 'z' && (c as u32) - ('a' as u32) + 10 < radix {
        Some((c as u32) - ('a' as u32) + 10)
    } else if radix > 10 && 'A' <= c && c <= 'Z' && (c as u32) - ('A' as u32) + 10 < radix {
        Some((c as u32) - ('A' as u32) + 10)
    } else {
        None
    }
}

/// The value of a run of digits, every one of which is a digit in `radix`.
pub open spec fn digits_value(s: Seq<char>, radix: u32) -> int
    decreases s.len(),
{
    if s.len() == 0 {
        0
    } else {
        digits_value(s.drop_last(), radix) * radix + match digit_value(s.last(), radix) {
            Some(d) => d as int,
            None => 0,
        }
    }
}

/// Whether every character is a digit in `radix`.
pub open spec fn all_digits(s: Seq<char>, radix: u32) -> bool {
    forall|i: int| 0 <= i < s.len() ==> (#[trigger] digit_value(s[i], radix)) is Some
}

/// What `u64::from_str_radix` gives: an optional `+`, then at least one digit,
/// and a value that fits.
pub open spec fn parse_unsigned(s: Seq<char>, radix: u32, max: int) -> Option<int> {
    let body = if s.len() > 0 && s[0] == '+' { s.drop_first() } else { s };
    if body.len() == 0 || !all_digits(body, radix) || digits_value(body, radix) > max {
        None
    } else {
        Some(digits_value(body, radix))
    }
}

proof fn lemma_digits_value_nonneg(s: Seq<char>, radix: u32)
    requires
        2 <= radix,
    ensures
        digits_value(s, radix) >= 0,
    decreases s.len(),
{
    if s.len() > 0 {
        lemma_digits_value_nonneg(s.drop_last(), radix);
        assert(digits_value(s.drop_last(), radix) * radix >= 0) by (nonlinear_arith)
            requires
                digits_value(s.drop_last(), radix) >= 0,
                radix >= 2,
        ;
    }
}

/// A parsed number lies between zero and the bound it was parsed against.
pub proof fn lemma_parse_bounds(s: Seq<char>, radix: u32, max: int)
    requires
        2 <= radix,
    ensures
        parse_unsigned(s, radix, max) matches Some(v) ==> 0 <= v <= max,
{
    let body = if s.len() > 0 && s[0] == '+' { s.drop_first() } else { s };
    lemma_digits_value_nonneg(body, radix);
}

proof fn lemma_digits_value_grows(s: Seq<char>, radix: u32)
    requires
        2 <= radix,
        s.len() > 0,
    ensures
        digits_value(s, radix) >= digits_value(s.drop_last(), radix),
{
    lemma_digits_value_nonneg(s.drop_last(), radix);
    assert(digits_value(s.drop_last(), radix) * radix >= digits_value(s.drop_last(), radix))
        by (nonlinear_arith)
        requires
            digits_value(s.drop_last(), radix) >= 0,
            radix >= 2,
    ;
}

proof fn lemma_digits_prefix_bounded(s: Seq<char>, radix: u32, i: int)
    requires
        2 <= radix,
        0 <= i <= s.len(),
    ensures
        digits_value(s.subrange(0, i), radix) <= digits_value(s, radix),
    decreases s.len() - i,
{
    if i < s.len() {
        lemma_digits_prefix_bounded(s, radix, i + 1);
        assert(s.subrange(0, i + 1).drop_last() =~= s.subrange(0, i));
        lemma_digits_value_grows(s.subrange(0, i + 1), radix);
    } else {
        assert(s.subrange(0, i) =~= s);
    }
}

/// Read an unsigned number in `radix`, as `u64::from_str_radix` (and, at
/// radix 10, `str::parse`) reads one, refusing anything above `max`.
pub fn parse_unsigned_chars(s: &[char], radix: u32, max: u64) -> (r: Option<u64>)
    requires
        2 <= radix <= 36,
    ensures
        r matches Some(v) ==> parse_unsigned(s@, radix, max as int) == Some(v as int),
        r is None ==> parse_unsigned(s@, radix, max as int) is None,
{
    let start: usize = if s.len() > 0 && s[0] == '+' { 1 } else { 0 };
    let ghost body = if s@.len() > 0 && s@[0] == '+' { s@.drop_first() } else { s@ };
    proof {
        assert(body =~= s@.subrange(start as int, s@.len() as int));
    }
    if start >= s.len() {
        return None;
    }
    let mut value: u64 = 0;
    let mut i: usize = start;
    while i < s.len()
        invariant
            start <= i <= s@.len(),
            body == s@.subrange(start as int, s@.len() as int),
            body == (if s@.len() > 0 && s@[0] == '+' { s@.drop_first() } else { s@ }),
            2 <= radix <= 36,
            all_digits(s@.subrange(start as int, i as int), radix),
            value as int == digits_value(s@.subrange(start as int, i as int), radix),
            value <= max,
        decreases s.len() - i,
    {
        let ghost pre = s@.subrange(start as int, i as int);
        let ghost next = s@.subrange(start as int, i + 1);
        proof {
            assert(next.drop_last() =~= pre);
        }
        match to_digit(s[i], radix) {
            None => {
                proof {
                    assert(body[i - start] == s@[i as int]);
                    assert(digit_value(body[(i - start) as int], radix) is None);
                    assert(!all_digits(body, radix));
                    assert(parse_unsigned(s@, radix, max as int) is None);
                }
                return None;
            },
            Some(d) => {
                proof {
                    assert(next.last() == s@[i as int]);
                    assert(digits_value(next, radix) == value * radix + d);
                }
                if d as u64 > max || value > (max - d as u64) / (radix as u64) {
                    proof {
                        assert(value * radix + d > max) by (nonlinear_arith)
                            requires
                                d > max || value > (max - d) / (radix as int),
                                radix >= 2,
                                d < radix,
                                value >= 0,
                        ;
                        lemma_digits_prefix_bounded(body, radix, i + 1 - start);
                        assert(body.subrange(0, i + 1 - start) =~= next);
                        assert(digits_value(body, radix) > max);
                        assert(parse_unsigned(s@, radix, max as int) is None);
                    }
                    return None;
                }
                proof {
                    assert(value * radix + d <= max) by (nonlinear_arith)
                        requires
                            value <= (max - d) / (radix as int),
                            radix >= 2,
                            d < radix,
                    ;
                }
                value = value * (radix as u64) + d as u64;
                proof {
                    assert forall|j: int| 0 <= j < next.len() implies (#[trigger] digit_value(next[j], radix)) is Some by {
                        if j < pre.len() {
                            assert(next[j] == pre[j]);
                        }
                    }
                }
                i += 1;
            },
        }
    }
    proof {
        assert(s@.subrange(start as int, i as int) =~= body);
    }
    Some(value)
}

} // verus!

verus! {

/// The decimal digits of `n`, most significant first, as `{}` writes them.
pub open spec fn decimal(n: nat) -> Seq<char>
    decreases n,
{
    if n < 10 {
        seq![digit_char(n)]
    } else {
        decimal(n / 10).push(digit_char(n % 10))
    }
}

/// The character for a digit below sixteen, lowercase.
pub open spec fn digit_char(d: nat) -> char {
    if d < 10 {
        ((d + 48) as u8) as char
    } else {
        ((d + 87) as u8) as char
    }
}

/// The character for a digit below sixteen.
pub fn digit_to_char(d: u64) -> (r: char)
    requires
        d < 16,
    ensures
        r == digit_char(d as nat),
{
    if d < 10 {
        ((d + 48) as u8) as char
    } else {
        ((d + 87) as u8) as char
    }
}

/// `n` written in decimal.
pub fn decimal_string(n: u64) -> (r: String)
    ensures
        r@ == decimal(n as nat),
    decreases n,
{
    if n < 10 {
        let mut s = String::new();
        push_char(&mut s, digit_to_char(n));
        s
    } else {
        let mut s = decimal_string(n / 10);
        push_char(&mut s, digit_to_char(n % 10));
        s
    }
}

} // verus!

verus! {

/// A split always has at least one piece.
pub proof fn lemma_split_nonempty(s: Seq<char>, c: char)
    ensures
        split_seq(s, c).len() >= 1,
    decreases s.len(),
{
    match find(s, c) {
        None => {},
        Some(i) => if 0 <= i < s.len() {
            lemma_split_nonempty(s.subrange(i + 1, s.len() as int), c);
        },
    }
}

/// A line without the `\r` of a `\r\n` ending.
pub open spec fn strip_cr(l: Seq<char>) -> Seq<char> {
    if l.len() > 0 && l.last() == '\r' {
        l.drop_last()
    } else {
        l
    }
}

/// The lines of a text, as `str::lines` gives them: cut after each `\n`,
/// each line without its `\n` and a `\r` just before it, and no empty line
/// after a final `\n`. A last line with no `\n` after it keeps a `\r`.
pub open spec fn text_lines(s: Seq<char>) -> Seq<Seq<char>> {
    let p = split_seq(s, '\n');
    let full = Seq::new((p.len() - 1) as nat, |i: int| strip_cr(p[i]));
    if p.last().len() == 0 {
        full
    } else {
        full.push(p.last())
    }
}

/// The lines of `s`, as `str::lines` gives them.
pub fn split_lines(s: &[char]) -> (r: Vec<Vec<char>>)
    ensures
        r@.map_values(|v: Vec<char>| v@) == text_lines(s@),
{
    let pieces = split_chars(s, '\n');
    let ghost p = split_seq(s@, '\n');
    proof {
        lemma_split_nonempty(s@, '\n');
        assert(pieces@.len() == p.len());
    }
    let n = pieces.len();
    let mut out: Vec<Vec<char>> = Vec::new();
    let mut i: usize = 0;
    while i + 1 < n
        invariant
            1 <= n == p.len() == pieces@.len(),
            p == split_seq(s@, '\n'),
            pieces@.map_values(|v: Vec<char>| v@) == p,
            i < n,
            out@.map_values(|v: Vec<char>| v@) == Seq::new(i as nat, |k: int| strip_cr(p[k])),
        decreases n - i,
    {
        let piece = &pieces[i];
        proof {
            assert(piece@ == p[i as int]);
        }
        let ghost before = out@;
        let len = piece.len();
        let v = if len > 0 && piece[len - 1] == '\r' {
            slice_to_vec(piece.as_slice(), 0, len - 1)
        } else {
            slice_to_vec(piece.as_slice(), 0, len)
        };
        proof {
            assert(piece@.subrange(0, len as int) =~= piece@);
            if len > 0 {
                assert(piece@.subrange(0, len - 1) =~= piece@.drop_last());
            }
            assert(v@ == strip_cr(p[i as int]));
        }
        out.push(v);
        proof {
            assert(out@.map_values(|v: Vec<char>| v@) =~= before.map_values(|v: Vec<char>| v@).push(strip_cr(p[i as int])));
            assert(out@.map_values(|v: Vec<char>| v@) =~= Seq::new(
                (i + 1) as nat,
                |k: int| strip_cr(p[k]),
            ));
        }
        i += 1;
    }
    let last = &pieces[n - 1];
    proof {
        assert(last@ == p.last());
    }
    if last.len() > 0 {
        let ghost before = out@;
        out.push(slice_to_vec(last.as_slice(), 0, last.len()));
        proof {
            assert(last@.subrange(0, last@.len() as int) =~= last@);
            assert(out@.map_values(|v: Vec<char>| v@) =~= before.map_values(|v: Vec<char>| v@).push(
                p.last(),
            ));
        }
    }
    out
}

/// What comes before the first `c`, or all of `s` when there is none: the
/// first piece of `str::split`.
pub open spec fn before_first(s: Seq<char>, c: char) -> Seq<char> {
    match find(s, c) {
        Some(i) => s.take(i),
        None => s,
    }
}

/// What comes before the first `c`.
pub fn before_first_chars(s: &[char], c: char) -> (r: Vec<char>)
    ensures
        r@ == before_first(s@, c),
{
    match find_char_from(s, c, 0) {
        Some(i) => {
            proof {
                lemma_find_from(s@, c, 0);
            }
            slice_to_vec(s, 0, i)
        },
        None => slice_to_vec(s, 0, s.len()),
    }
}

} // verus!

verus! {

/// Text with no white space at either end is its own trim.
pub proof fn lemma_trim_plain(s: Seq<char>)
    requires
        s.len() == 0 || (!is_ws(s[0]) && !is_ws(s.last())),
    ensures
        trim(s) == s,
{
}

/// A split cuts at the first separator.
pub proof fn lemma_split_at_first(a: Seq<char>, b: Seq<char>, c: char)
    requires
        !a.contains(c),
    ensures
        split_seq(a + seq![c] + b, c) == seq![a] + split_seq(b, c),
{
    let s = a + seq![c] + b;
    lemma_find_from(s, c, 0);
    assert(s[a.len() as int] == c);
    match find(s, c) {
        Some(i) => {
            if i < a.len() {
                assert(s[i] == a[i]);
                assert(a.contains(c));
            }
            assert(i == a.len());
        },
        None => {},
    }
    assert(s.subrange(0, a.len() as int) =~= a);
    assert(s.subrange(a.len() as int + 1, s.len() as int) =~= b);
}

/// Text without the separator is a single piece.
pub proof fn lemma_split_whole(b: Seq<char>, c: char)
    requires
        !b.contains(c),
    ensures
        split_seq(b, c) == seq![b],
{
    lemma_find_from(b, c, 0);
    match find(b, c) {
        Some(i) => {
            assert(b[i] == c);
        },
        None => {},
    }
}

/// Decimal text is digits, at least one, and reads back as its number.
pub proof fn lemma_decimal_digits(n: nat)
    ensures
        decimal(n).len() >= 1,
        forall|i: int| 0 <= i < decimal(n).len() ==> '0' <= #[trigger] decimal(n)[i] <= '9',
        all_digits(decimal(n), 10),
        digits_value(decimal(n), 10) == n,
    decreases n,
{
    let d = digit_char(n % 10);
    assert(digit_value(d, 10) == Some((n % 10) as u32));
    if n >= 10 {
        lemma_decimal_digits(n / 10);
        let s = decimal(n / 10);
        assert(decimal(n) == s.push(d));
        assert(decimal(n).drop_last() =~= s);
        assert((n / 10) * 10 + n % 10 == n) by (nonlinear_arith);
        assert(digits_value(decimal(n), 10) == digits_value(s, 10) * 10 + (n % 10));
        assert forall|i: int| 0 <= i < decimal(n).len() implies '0' <= #[trigger] decimal(n)[i]
            <= '9' by {
            if i < s.len() {
                assert(decimal(n)[i] == s[i]);
            }
        }
        assert forall|i: int| 0 <= i < decimal(n).len() implies (#[trigger] digit_value(
            decimal(n)[i],
            10,
        )) is Some by {
            assert('0' <= decimal(n)[i] <= '9');
        }
    } else {
        assert(decimal(n).drop_last() =~= Seq::<char>::empty());
        assert(digits_value(Seq::<char>::empty(), 10) == 0);
        assert(n % 10 == n);
        assert(digits_value(decimal(n), 10) == 0 * 10 + (n % 10));
    }
}

/// Decimal text for a number within bounds reads back as that number.
pub proof fn lemma_parse_decimal(n: nat, max: int)
    requires
        n <= max,
    ensures
        parse_unsigned(decimal(n), 10, max) == Some(n as int),
{
    lemma_decimal_digits(n);
    assert('0' <= decimal(n)[0] <= '9');
}

} // verus!

verus! {

/// The last position of `c` in `s` before `n`.
pub open spec fn rfind_before(s: Seq<char>, c: char, n: int) -> Option<int>
    decreases n,
{
    if n <= 0 || n > s.len() {
        None
    } else if s[n - 1] == c {
        Some(n - 1)
    } else {
        rfind_before(s, c, n - 1)
    }
}

/// The last position of `c` in `s`, as `str::rfind` gives it.
pub open spec fn rfind(s: Seq<char>, c: char) -> Option<int> {
    rfind_before(s, c, s.len() as int)
}

/// Where `rfind_before` lands: on `c`, with no `c` after it before `n`.
pub proof fn lemma_rfind_before(s: Seq<char>, c: char, n: int)
    requires
        0 <= n <= s.len(),
    ensures
        rfind_before(s, c, n) matches Some(i) ==> 0 <= i < n && s[i] == c && forall|j: int|
            i < j < n ==> s[j] != c,
        rfind_before(s, c, n) is None ==> forall|j: int| 0 <= j < n ==> s[j] != c,
    decreases n,
{
    if n > 0 && s[n - 1] != c {
        lemma_rfind_before(s, c, n - 1);
    }
}

/// The last position of `c` in `s`.
pub fn rfind_char(s: &[char], c: char) -> (r: Option<usize>)
    ensures
        r matches Some(i) ==> rfind(s@, c) == Some(i as int) && i < s@.len() && s@[i as int] == c,
        r is None ==> rfind(s@, c) is None,
{
    let mut n = s.len();
    while n > 0
        invariant
            n <= s@.len(),
            rfind(s@, c) == rfind_before(s@, c, n as int),
        decreases n,
    {
        if s[n - 1] == c {
            return Some(n - 1);
        }
        n -= 1;
    }
    None
}

/// Finding in text that starts with no `c` and then has one lands there.
pub proof fn lemma_find_after(a: Seq<char>, b: Seq<char>, c: char)
    requires
        !a.contains(c),
        b.len() > 0,
        b[0] == c,
    ensures
        find(a + b, c) == Some(a.len() as int),
{
    let s = a + b;
    lemma_find_from(s, c, 0);
    assert(s[a.len() as int] == c);
    match find(s, c) {
        Some(i) => {
            if i < a.len() {
                assert(s[i] == a[i]);
            }
        },
        None => {},
    }
}

/// Finding in text with no `c` finds nothing.
pub proof fn lemma_find_none(a: Seq<char>, c: char)
    requires
        !a.contains(c),
    ensures
        find(a, c) is None,
{
    lemma_find_from(a, c, 0);
    match find(a, c) {
        Some(i) => {
            assert(a[i] == c);
        },
        None => {},
    }
}

/// The last `c` is the one after which no `c` comes.
pub proof fn lemma_rfind_at(a: Seq<char>, b: Seq<char>, c: char)
    requires
        !b.contains(c),
    ensures
        rfind(a + seq![c] + b, c) == Some(a.len() as int),
{
    let s = a + seq![c] + b;
    lemma_rfind_before(s, c, s.len() as int);
    assert(s[a.len() as int] == c);
    match rfind(s, c) {
        Some(i) => {
            if i > a.len() {
                assert(s[i] == b[i - a.len() - 1]);
            }
        },
        None => {},
    }
}

/// Text with no `c` has no last `c`.
pub proof fn lemma_rfind_none(a: Seq<char>, c: char)
    requires
        !a.contains(c),
    ensures
        rfind(a, c) is None,
{
    lemma_rfind_before(a, c, a.len() as int);
    match rfind(a, c) {
        Some(i) => {
            assert(a[i] == c);
        },
        None => {},
    }
}

/// No piece of a split holds the separator.
pub proof fn lemma_pieces_have_no_separator(s: Seq<char>, c: char)
    ensures
        forall|i: int| 0 <= i < split_seq(s, c).len() ==> !(#[trigger] split_seq(s, c)[i]).contains(c),
    decreases s.len(),
{
    lemma_find_from(s, c, 0);
    match find(s, c) {
        None => {
            assert(split_seq(s, c) == seq![s]);
            assert forall|i: int| 0 <= i < split_seq(s, c).len() implies !(
            #[trigger] split_seq(s, c)[i]).contains(c) by {
                if s.contains(c) {
                    let j = choose|j: int| 0 <= j < s.len() && s[j] == c;
                    assert(s[j] != c);
                }
            }
        },
        Some(k) => {
            let rest = s.subrange(k + 1, s.len() as int);
            lemma_pieces_have_no_separator(rest, c);
            let head = s.subrange(0, k);
            assert(split_seq(s, c) == seq![head] + split_seq(rest, c));
            assert forall|i: int| 0 <= i < split_seq(s, c).len() implies !(
            #[trigger] split_seq(s, c)[i]).contains(c) by {
                if i == 0 {
                    if head.contains(c) {
                        let j = choose|j: int| 0 <= j < head.len() && head[j] == c;
                        assert(s[j] == c);
                    }
                } else {
                    assert(split_seq(s, c)[i] == split_seq(rest, c)[i - 1]);
                }
            }
        },
    }
}

} // verus!
