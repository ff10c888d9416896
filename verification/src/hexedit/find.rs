//! What to look for, and finding it.
//!
//! A run of bytes can be known in different terms: a file signature as hex
//! (`50 4B 03 04`), a name inside a record as text, a field as a number, and
//! a pattern with holes as hex with `??` for a byte that may be anything.

use vstd::prelude::*;
use vstd::utf8::encode_utf8;

use crate::error::{Error, ErrorCode};
use crate::text::{
    chars_of, decimal, decimal_string, digit_value, parse_unsigned, parse_unsigned_chars, push_str,
    slice_to_vec, string_of, is_ws, is_whitespace,
};

verus! {

/// How the text in the search box should be read.
#[derive(Debug, Clone, Copy, PartialEq, Eq, Structural)]
pub enum Kind {
    /// `50 4B 03 04`, and `??` for a byte that may be anything.
    Hex,
    /// Bytes of the text as typed.
    Utf8,
    /// UTF-16, little end first.
    Utf16Le,
    /// UTF-16, big end first.
    Utf16Be,
    /// Latin-1: one byte per character for everything it can represent.
    Latin1,
    /// A number, written out in the given width and byte order.
    Integer {
        /// How many bytes the number occupies.
        width: Width,
        /// Whether the low byte comes first.
        little_endian: bool,
    },
}

/// How wide an integer needle is.
#[derive(Debug, Clone, Copy, PartialEq, Eq, Structural)]
pub enum Width {
    /// One byte.
    U8,
    /// Two bytes.
    U16,
    /// Four bytes.
    U32,
    /// Eight bytes.
    U64,
}

/// How many bytes a width is.
pub open spec fn width_bytes(w: Width) -> nat {
    match w {
        Width::U8 => 1,
        Width::U16 => 2,
        Width::U32 => 4,
        Width::U64 => 8,
    }
}

impl Width {
    fn bytes(self) -> (r: usize)
        ensures
            r == width_bytes(self),
    {
        match self {
            Width::U8 => 1,
            Width::U16 => 2,
            Width::U32 => 4,
            Width::U64 => 8,
        }
    }
}

/// A compiled needle: one entry per byte, `None` meaning "anything".
#[derive(Debug, Clone, PartialEq, Eq)]
pub struct Needle(Vec<Option<u8>>);

impl View for Needle {
    type V = Seq<Option<u8>>;

    closed spec fn view(&self) -> Seq<Option<u8>> {
        self.0@
    }
}

/// Whether a needle matches the content at `at`, position for position.
pub open spec fn matches_at(content: Seq<u8>, needle: Seq<Option<u8>>, at: int) -> bool {
    &&& 0 <= at
    &&& at + needle.len() <= content.len()
    &&& forall|i: int|
        0 <= i < needle.len() ==> (#[trigger] needle[i] matches Some(b) ==> content[at + i] == b)
}

/// Every needle entry known: the bytes, or `None` where there is a hole.
pub open spec fn literal_of(needle: Seq<Option<u8>>) -> Option<Seq<u8>> {
    if forall|i: int| 0 <= i < needle.len() ==> (#[trigger] needle[i]) is Some {
        Some(needle.map_values(|o: Option<u8>| o->0))
    } else {
        None
    }
}

/// An ASCII hexadecimal digit.
pub open spec fn is_hex_digit(c: char) -> bool {
    ('0' <= c && c <= '9') || ('a' <= c && c <= 'f') || ('A' <= c && c <= 'F')
}

/// Whether a character is not white space.
pub open spec fn not_ws() -> spec_fn(char) -> bool {
    |c: char| !is_ws(c)
}

/// The characters a hex needle is made of.
pub open spec fn hex_needle_chars() -> spec_fn(char) -> bool {
    |c: char| is_hex_digit(c) || c == '?'
}

/// A hex digit's value.
pub open spec fn hex_value(c: char) -> int {
    match digit_value(c, 16) {
        Some(d) => d as int,
        None => 0,
    }
}

/// Pairs of hex digits and `?` read as needle entries: `??` a hole, two
/// digits a byte, and a lone `?` beside a digit nothing.
pub open spec fn hex_pairs(c: Seq<char>) -> Option<Seq<Option<u8>>>
    decreases c.len(),
{
    if c.len() < 2 {
        Some(Seq::empty())
    } else {
        let entry = if c[0] == '?' && c[1] == '?' {
            Some(None::<u8>)
        } else if c[0] == '?' || c[1] == '?' {
            None
        } else {
            Some(Some((hex_value(c[0]) * 16 + hex_value(c[1])) as u8))
        };
        match (entry, hex_pairs(c.skip(2))) {
            (Some(e), Some(rest)) => Some(seq![e] + rest),
            _ => None,
        }
    }
}

/// UTF-16 code units of one character.
pub open spec fn utf16_units(c: char) -> Seq<u16> {
    let v = c as u32;
    if v < 0x10000 {
        seq![v as u16]
    } else {
        seq![(0xD800 + (v - 0x10000) / 0x400) as u16, (0xDC00 + (v - 0x10000) % 0x400) as u16]
    }
}

/// A unit's two bytes, low first or high first.
pub open spec fn unit_bytes(u: u16, little_endian: bool) -> Seq<u8> {
    if little_endian {
        seq![(u % 256) as u8, (u / 256) as u8]
    } else {
        seq![(u / 256) as u8, (u % 256) as u8]
    }
}

/// Text as UTF-16 bytes.
pub open spec fn utf16_bytes(s: Seq<char>, little_endian: bool) -> Seq<u8>
    decreases s.len(),
{
    if s.len() == 0 {
        Seq::empty()
    } else {
        utf16_bytes(s.drop_last(), little_endian) + {
            let u = utf16_units(s.last());
            if u.len() == 1 {
                unit_bytes(u[0], little_endian)
            } else {
                unit_bytes(u[0], little_endian) + unit_bytes(u[1], little_endian)
            }
        }
    }
}

/// The low `n` bytes of a value, low first.
pub open spec fn le_bytes(v: nat, n: nat) -> Seq<u8>
    decreases n,
{
    if n == 0 {
        Seq::empty()
    } else {
        seq![(v % 256) as u8] + le_bytes(v / 256, (n - 1) as nat)
    }
}

/// A needle's bytes all known.
pub open spec fn known(bytes: Seq<u8>) -> Seq<Option<u8>> {
    bytes.map_values(|b: u8| Some(b))
}

/// What `Debug` writes for a character.
pub uninterp spec fn char_debug_text(c: char) -> Seq<char>;

/// A character as `{:?}` writes it; the standard library's escaping is
/// only named here.
#[verifier::external_body]
pub(crate) fn char_debug(c: char) -> (r: String)
    ensures
        r@ == char_debug_text(c),
{
    format!("{c:?}")
}

/// Why a search text does not compile, as the error's context.
pub enum NeedleFault {
    /// The text, and what was wrong with it.
    Bad(Seq<char>),
}

/// An integer search text read as a number: `0x` then hexadecimal, or
/// decimal, spaces ignored.
pub open spec fn integer_value(text: Seq<char>) -> Option<int> {
    let cleaned = text.filter(not_ws());
    if cleaned.len() >= 2 && cleaned[0] == '0' && cleaned[1] == 'x' {
        parse_unsigned(cleaned.skip(2), 16, u64::MAX as int)
    } else {
        parse_unsigned(cleaned, 10, u64::MAX as int)
    }
}

/// What a search text compiles to, or the context of the error it gives.
pub open spec fn compile_spec(text: Seq<char>, kind: Kind) -> Result<Seq<Option<u8>>, Seq<char>> {
    match kind {
        Kind::Hex => {
            let cleaned = text.filter(hex_needle_chars());
            if cleaned.len() == 0 {
                Err(text + ": no hex digits in there"@)
            } else if cleaned.len() % 2 != 0 {
                Err(text + ": an odd number of hex digits - a byte is two"@)
            } else {
                match hex_pairs(cleaned) {
                    Some(n) => Ok(n),
                    None => Err(text + ": half a wildcard byte - write ?? for a whole one"@),
                }
            }
        },
        Kind::Utf8 => Ok(known(encode_utf8(text))),
        Kind::Utf16Le => Ok(known(utf16_bytes(text, true))),
        Kind::Utf16Be => Ok(known(utf16_bytes(text, false))),
        Kind::Latin1 => match first_wide(text, 0) {
            None => Ok(known(text.map_values(|c: char| c as u8))),
            Some(i) => Err(char_debug_text(text[i]) + " cannot be written in Latin-1"@),
        },
        Kind::Integer { width, little_endian } => match integer_value(text) {
            None => Err(text + ": not a whole number"@),
            Some(v) => {
                let n = width_bytes(width);
                if n < 8 && v >= pow256(n) {
                    Err(decimal(v as nat) + " does not fit in "@ + decimal(n) + " byte(s)"@)
                } else if little_endian {
                    Ok(known(le_bytes(v as nat, n)))
                } else {
                    Ok(known(le_bytes(v as nat, n).reverse()))
                }
            },
        },
    }
}

/// Byte `i` of a little-endian encoding is the value's `i`-th base-256
/// digit.
proof fn lemma_le_digit(v: nat, n: nat, i: int)
    requires
        0 <= i < n,
    ensures
        le_bytes(v, n).len() == n,
        le_bytes(v, n)[i] == ((v as int / vstd::arithmetic::power::pow(256, i as nat)) % 256) as u8,
    decreases n,
{
    lemma_le_len(v, n);
    reveal(vstd::arithmetic::power::pow);
    if i > 0 {
        lemma_le_digit(v / 256, (n - 1) as nat, i - 1);
        lemma_le_len(v / 256, (n - 1) as nat);
        assert(le_bytes(v, n)[i] == le_bytes(v / 256, (n - 1) as nat)[i - 1]);
        vstd::arithmetic::power::lemma_pow_positive(256, (i - 1) as nat);
        vstd::arithmetic::div_mod::lemma_div_denominator(v as int, 256, vstd::arithmetic::power::pow(256, (i - 1) as nat));
        assert(vstd::arithmetic::power::pow(256, i as nat) == 256 * vstd::arithmetic::power::pow(256, (i - 1) as nat));
    }
}

/// A little-endian encoding of `n` digits is `n` bytes long.
proof fn lemma_le_len(v: nat, n: nat)
    ensures
        le_bytes(v, n).len() == n,
    decreases n,
{
    if n > 0 {
        lemma_le_len(v / 256, (n - 1) as nat);
    }
}

/// An integer needle is exactly as many bytes as its width says - one, two,
/// four or eight - and holds the value's base-256 digits, lowest first when
/// little-endian and highest first otherwise; it compiles exactly when the
/// value fits in that many bytes.
pub proof fn law_integer_needles(text: Seq<char>, width: Width, little_endian: bool)
    ensures
        ({
            let len: int = match width {
                Width::U8 => 1,
                Width::U16 => 2,
                Width::U32 => 4,
                Width::U64 => 8,
            };
            let room: int = match width {
                Width::U8 => 256,
                Width::U16 => 65536,
                Width::U32 => 4294967296,
                Width::U64 => 18446744073709551616,
            };
            &&& compile_spec(text, Kind::Integer { width, little_endian }) is Ok <==> (integer_value(text) matches Some(v) && v < room)
            &&& compile_spec(text, Kind::Integer { width, little_endian }) matches Ok(n) ==> {
                &&& n.len() == len
                &&& integer_value(text) matches Some(v) && forall|i: int| 0 <= i < len ==> #[trigger] n[i] == Some(
                    ((v / vstd::arithmetic::power::pow(256, (if little_endian { i } else { len - 1 - i }) as nat)) % 256) as u8)
            }
        }),
{
    let len: int = match width {
        Width::U8 => 1,
        Width::U16 => 2,
        Width::U32 => 4,
        Width::U64 => 8,
    };
    reveal_with_fuel(pow256, 9);
    assert(width_bytes(width) == len);
    match integer_value(text) {
        None => {},
        Some(v) => {
            assert(0 <= v <= u64::MAX) by {
                let cleaned = text.filter(not_ws());
                if cleaned.len() >= 2 && cleaned[0] == '0' && cleaned[1] == 'x' {
                    crate::text::lemma_parse_bounds(cleaned.skip(2), 16, u64::MAX as int);
                } else {
                    crate::text::lemma_parse_bounds(cleaned, 10, u64::MAX as int);
                }
            }
            let n = len as nat;
            lemma_le_len(v as nat, n);
            assert forall|i: int| 0 <= i < len implies #[trigger] le_bytes(v as nat, n)[i] == ((v / vstd::arithmetic::power::pow(256, i as nat)) % 256) as u8 by {
                lemma_le_digit(v as nat, n, i);
            }
            assert forall|i: int| 0 <= i < len implies #[trigger] le_bytes(v as nat, n).reverse()[i] == ((v / vstd::arithmetic::power::pow(256, (len - 1 - i) as nat)) % 256) as u8 by {
                lemma_le_digit(v as nat, n, len - 1 - i);
            }
        },
    }
}

/// The first character from `i` on that Latin-1 cannot hold.
pub open spec fn first_wide(text: Seq<char>, i: int) -> Option<int>
    decreases text.len() - i,
{
    if i < 0 || i >= text.len() {
        None
    } else if (text[i] as u32) >= 256 {
        Some(i)
    } else {
        first_wide(text, i + 1)
    }
}

/// Past the first wide character there is none, so every character fits.
proof fn lemma_no_wide(text: Seq<char>, i: int)
    requires
        0 <= i <= text.len(),
        first_wide(text, i) is None,
    ensures
        forall|j: int| i <= j < text.len() ==> (#[trigger] text[j] as u32) < 256,
    decreases text.len() - i,
{
    if i < text.len() {
        lemma_no_wide(text, i + 1);
    }
}

/// 256 to the power `n`.
pub open spec fn pow256(n: nat) -> int
    decreases n,
{
    if n == 0 {
        1
    } else {
        256 * pow256((n - 1) as nat)
    }
}

/// The characters of `s` that pass `keep`, in order.
fn filter_chars(s: &[char], hex: bool) -> (r: Vec<char>)
    ensures
        r@ == s@.filter(if hex { hex_needle_chars() } else { not_ws() }),
{
    let ghost keep = if hex { hex_needle_chars() } else { not_ws() };
    let mut out: Vec<char> = Vec::new();
    let mut i: usize = 0;
    while i < s.len()
        invariant
            i <= s@.len(),
            keep == (if hex { hex_needle_chars() } else { not_ws() }),
            out@ == s@.take(i as int).filter(keep),
        decreases s.len() - i,
    {
        proof {
            reveal_with_fuel(Seq::filter, 1);
            assert(s@.take(i + 1).drop_last() =~= s@.take(i as int));
        }
        let c = s[i];
        let pass = if hex {
            ('0' <= c && c <= '9') || ('a' <= c && c <= 'f') || ('A' <= c && c <= 'F') || c == '?'
        } else {
            !is_whitespace(c)
        };
        if pass {
            out.push(c);
        }
        proof {
            assert(pass == keep(s@[i as int]));
        }
        i += 1;
    }
    proof {
        assert(s@.take(i as int) =~= s@);
    }
    out
}

/// An error of this module's one kind: input that cannot be read.
fn bad_input(context: String) -> (r: Error)
    ensures
        r.spec_code() == ErrorCode::InvalidPath,
        r.spec_context() == context@,
{
    Error::with_context(ErrorCode::InvalidPath, context)
}

/// The text, then a fixed explanation.
fn explained(text: &str, why: &str) -> (r: String)
    ensures
        r@ == text@ + why@,
{
    let mut s = text.to_owned();
    push_str(&mut s, why);
    s
}

fn hex_digit_value(c: char) -> (r: u8)
    requires
        is_hex_digit(c),
    ensures
        r as int == hex_value(c),
        r < 16,
{
    match crate::text::to_digit(c, 16) {
        Some(d) => d as u8,
        None => 0,
    }
}

impl Needle {
    /// How many bytes a match is.
    pub fn len(&self) -> (r: usize)
        ensures
            r == self@.len(),
    {
        self.0.len()
    }

    /// Whether there is nothing to look for.
    pub fn is_empty(&self) -> (r: bool)
        ensures
            r == (self@.len() == 0),
    {
        self.0.len() == 0
    }

    /// The bytes, where every one is known; `None` when there is a hole,
    /// since "replace with" has nothing to put in it.
    pub fn literal(&self) -> (r: Option<Vec<u8>>)
        ensures
            r matches Some(v) ==> literal_of(self@) == Some(v@),
            r is None ==> literal_of(self@) is None,
    {
        let mut out: Vec<u8> = Vec::new();
        let mut i: usize = 0;
        while i < self.0.len()
            invariant
                i <= self@.len(),
                forall|j: int| 0 <= j < i ==> (#[trigger] self@[j]) is Some,
                out@ == self@.take(i as int).map_values(|o: Option<u8>| o->0),
            decreases self.0.len() - i,
        {
            match self.0[i] {
                Some(b) => {
                    out.push(b);
                    proof {
                        assert(out@ =~= self@.take(i + 1).map_values(|o: Option<u8>| o->0));
                    }
                },
                None => {
                    return None;
                },
            }
            i += 1;
        }
        proof {
            assert(self@.take(i as int) =~= self@);
        }
        Some(out)
    }

    /// Whether the needle matches `window` from its start.
    fn matches(&self, window: &[u8], from: usize) -> (r: bool)
        requires
            from <= window@.len(),
        ensures
            r == matches_at(window@, self@, from as int),
    {
        let wl = window.len();
        if wl - from < self.0.len() {
            return false;
        }
        let mut i: usize = 0;
        while i < self.0.len()
            invariant
                i <= self@.len(),
                wl == window@.len(),
                from + self@.len() <= window@.len(),
                forall|j: int|
                    0 <= j < i ==> (#[trigger] self@[j] matches Some(b) ==> window@[from + j] == b),
            decreases self.0.len() - i,
        {
            match self.0[i] {
                Some(b) => {
                    if window[from + i] != b {
                        return false;
                    }
                },
                None => {},
            }
            i += 1;
        }
        true
    }

    /// Compile the search box's text. Text that cannot be read as the chosen
    /// kind is refused rather than trimmed to something searchable.
    pub fn compile(text: &str, kind: Kind) -> (r: Result<Self, Error>)
        ensures
            compile_spec(text@, kind) matches Ok(n) ==> (r matches Ok(needle) && needle@ == n),
            compile_spec(text@, kind) matches Err(ctx) ==> (r matches Err(e) && e.spec_code()
                == ErrorCode::InvalidPath && e.spec_context() == ctx),
    {
        match kind {
            Kind::Hex => Self::compile_hex(text),
            Kind::Utf8 => {
                let bytes = text.as_bytes();
                Ok(Needle(all_known(bytes)))
            },
            Kind::Latin1 => {
                let cs = chars_of(text);
                let mut out: Vec<u8> = Vec::new();
                let mut i: usize = 0;
                while i < cs.len()
                    invariant
                        i <= cs@.len(),
                        cs@ == text@,
                        kind == Kind::Latin1,
                        first_wide(text@, 0) == first_wide(text@, i as int),
                        out@ == cs@.take(i as int).map_values(|c: char| c as u8),
                    decreases cs.len() - i,
                {
                    let c = cs[i];
                    if c as u32 >= 256 {
                        let mut m = char_debug(c);
                        push_str(&mut m, " cannot be written in Latin-1");
                        proof {
                            assert(text@[i as int] == c);
                            assert(first_wide(text@, i as int) == Some(i as int));
                        }
                        return Err(bad_input(m));
                    }
                    out.push(c as u8);
                    proof {
                        assert(out@ =~= cs@.take(i + 1).map_values(|c: char| c as u8));
                    }
                    i += 1;
                }
                proof {
                    assert(cs@.take(i as int) =~= cs@);
                }
                Ok(Needle(all_known(out.as_slice())))
            },
            Kind::Utf16Le => Ok(Needle(all_known(utf16_of(text, true).as_slice()))),
            Kind::Utf16Be => Ok(Needle(all_known(utf16_of(text, false).as_slice()))),
            Kind::Integer { width, little_endian } => match integer_bytes(text, width, little_endian) {
                Ok(b) => Ok(Needle(all_known(b.as_slice()))),
                Err(e) => Err(e),
            },
        }
    }

    fn compile_hex(text: &str) -> (r: Result<Self, Error>)
        ensures
            compile_spec(text@, Kind::Hex) matches Ok(n) ==> (r matches Ok(needle) && needle@ == n),
            compile_spec(text@, Kind::Hex) matches Err(ctx) ==> (r matches Err(e) && e.spec_code()
                == ErrorCode::InvalidPath && e.spec_context() == ctx),
    {
        let cs = chars_of(text);
        let cleaned = filter_chars(cs.as_slice(), true);
        if cleaned.len() == 0 {
            return Err(bad_input(explained(text, ": no hex digits in there")));
        }
        if cleaned.len() % 2 != 0 {
            return Err(bad_input(explained(text, ": an odd number of hex digits - a byte is two")));
        }
        let ghost c = cleaned@;
        let mut out: Vec<Option<u8>> = Vec::new();
        let mut i: usize = 0;
        proof {
            assert(c.skip(0) =~= c);
            assert(Seq::<Option<u8>>::empty() + Seq::<Option<u8>>::empty() =~= Seq::<Option<u8>>::empty());
        }
        while i < cleaned.len()
            invariant
                i <= c.len(),
                i % 2 == 0,
                c.len() % 2 == 0,
                c == cleaned@,
                c == text@.filter(hex_needle_chars()),
                forall|j: int| 0 <= j < c.len() ==> is_hex_digit(#[trigger] c[j]) || c[j] == '?',
                hex_pairs(c) == match hex_pairs(c.skip(i as int)) {
                    Some(rest) => Some(out@ + rest),
                    None => None::<Seq<Option<u8>>>,
                },
            decreases cleaned.len() - i,
        {
            let a = cleaned[i];
            let b = cleaned[i + 1];
            let ghost rest = c.skip(i as int);
            proof {
                assert(rest[0] == a && rest[1] == b);
                assert(rest.skip(2) =~= c.skip(i + 2));
                assert(is_hex_digit(a) || a == '?');
                assert(is_hex_digit(b) || b == '?');
            }
            if a == '?' && b == '?' {
                out.push(None);
            } else if a == '?' || b == '?' {
                return Err(bad_input(explained(text, ": half a wildcard byte - write ?? for a whole one")));
            } else {
                let v = hex_digit_value(a) * 16 + hex_digit_value(b);
                out.push(Some(v));
            }
            proof {
                match hex_pairs(c.skip(i + 2)) {
                    Some(r2) => {
                        assert(out@ + r2 =~= (out@.drop_last()) + (seq![out@.last()] + r2));
                    },
                    None => {},
                }
            }
            i += 2;
        }
        proof {
            assert(c.skip(i as int) =~= Seq::<char>::empty());
            assert(out@ + Seq::<Option<u8>>::empty() =~= out@);
        }
        Ok(Needle(out))
    }
}

/// Bytes wrapped as needle entries, all known.
fn all_known(bytes: &[u8]) -> (r: Vec<Option<u8>>)
    ensures
        r@ == known(bytes@),
{
    let mut out: Vec<Option<u8>> = Vec::new();
    let mut i: usize = 0;
    while i < bytes.len()
        invariant
            i <= bytes@.len(),
            out@ == known(bytes@.take(i as int)),
        decreases bytes.len() - i,
    {
        out.push(Some(bytes[i]));
        proof {
            assert(out@ =~= known(bytes@.take(i + 1)));
        }
        i += 1;
    }
    proof {
        assert(bytes@.take(i as int) =~= bytes@);
    }
    out
}

/// Text as UTF-16 bytes.
fn utf16_of(text: &str, little_endian: bool) -> (r: Vec<u8>)
    ensures
        r@ == utf16_bytes(text@, little_endian),
{
    let cs = chars_of(text);
    let mut out: Vec<u8> = Vec::new();
    let mut i: usize = 0;
    while i < cs.len()
        invariant
            i <= cs@.len(),
            cs@ == text@,
            out@ == utf16_bytes(cs@.take(i as int), little_endian),
        decreases cs.len() - i,
    {
        let v = cs[i] as u32;
        let ghost before = out@;
        if v < 0x10000 {
            push_unit(&mut out, v as u16, little_endian);
        } else {
            let hi = (0xD800 + (v - 0x10000) / 0x400) as u16;
            let lo = (0xDC00 + (v - 0x10000) % 0x400) as u16;
            push_unit(&mut out, hi, little_endian);
            push_unit(&mut out, lo, little_endian);
        }
        proof {
            assert(cs@.take(i + 1).drop_last() =~= cs@.take(i as int));
            assert(cs@.take(i + 1).last() == cs@[i as int]);
            assert(out@ =~= utf16_bytes(cs@.take(i + 1), little_endian));
        }
        i += 1;
    }
    proof {
        assert(cs@.take(i as int) =~= cs@);
    }
    out
}

fn push_unit(out: &mut Vec<u8>, u: u16, little_endian: bool)
    ensures
        final(out)@ == old(out)@ + unit_bytes(u, little_endian),
{
    if little_endian {
        out.push((u % 256) as u8);
        out.push((u / 256) as u8);
    } else {
        out.push((u / 256) as u8);
        out.push((u % 256) as u8);
    }
    proof {
        assert(final(out)@ =~= old(out)@ + unit_bytes(u, little_endian));
    }
}

/// A number's bytes in a width and order, or why it has none.
fn integer_bytes(text: &str, width: Width, little_endian: bool) -> (r: Result<Vec<u8>, Error>)
    ensures
        compile_spec(text@, Kind::Integer { width, little_endian }) matches Ok(n) ==> (r matches Ok(
            b,
        ) && known(b@) == n),
        compile_spec(text@, Kind::Integer { width, little_endian }) matches Err(ctx) ==> (r matches Err(
            e,
        ) && e.spec_code() == ErrorCode::InvalidPath && e.spec_context() == ctx),
{
    let cs = chars_of(text);
    let cleaned = filter_chars(cs.as_slice(), false);
    let value = if cleaned.len() >= 2 && cleaned[0] == '0' && cleaned[1] == 'x' {
        let rest = slice_to_vec(cleaned.as_slice(), 2, cleaned.len());
        proof {
            assert(rest@ =~= cleaned@.skip(2));
        }
        parse_unsigned_chars(rest.as_slice(), 16, u64::MAX)
    } else {
        parse_unsigned_chars(cleaned.as_slice(), 10, u64::MAX)
    };
    let value = match value {
        Some(v) => v,
        None => {
            return Err(bad_input(explained(text, ": not a whole number")));
        },
    };
    let n = width.bytes();
    let limit: u64 = match width {
        Width::U8 => 0x100,
        Width::U16 => 0x1_0000,
        Width::U32 => 0x1_0000_0000,
        Width::U64 => 0,
    };
    proof {
        reveal_with_fuel(pow256, 9);
    }
    if n < 8 && value >= limit {
        let mut m = decimal_string(value);
        push_str(&mut m, " does not fit in ");
        let d = decimal_string(n as u64);
        push_str(&mut m, d.as_str());
        push_str(&mut m, " byte(s)");
        return Err(bad_input(m));
    }
    let mut bytes: Vec<u8> = Vec::new();
    let mut v = value;
    let mut k: usize = 0;
    while k < n
        invariant
            k <= n <= 8,
            bytes@ + le_bytes(v as nat, (n - k) as nat) == le_bytes(value as nat, n as nat),
        decreases n - k,
    {
        let ghost before = bytes@;
        bytes.push((v % 256) as u8);
        proof {
            assert(le_bytes(v as nat, (n - k) as nat) == seq![(v % 256) as u8] + le_bytes(
                (v / 256) as nat,
                (n - k - 1) as nat,
            ));
            assert(bytes@ + le_bytes((v / 256) as nat, (n - k - 1) as nat) =~= before + le_bytes(
                v as nat,
                (n - k) as nat,
            ));
        }
        v = v / 256;
        k += 1;
    }
    proof {
        assert(bytes@ + Seq::<u8>::empty() =~= bytes@);
    }
    if !little_endian {
        let mut rev: Vec<u8> = Vec::new();
        let mut j: usize = bytes.len();
        while j > 0
            invariant
                j <= bytes@.len(),
                rev@ == bytes@.skip(j as int).reverse(),
            decreases j,
        {
            rev.push(bytes[j - 1]);
            proof {
                assert(rev@ =~= bytes@.skip(j - 1).reverse());
            }
            j -= 1;
        }
        proof {
            assert(bytes@.skip(0) =~= bytes@);
        }
        return Ok(rev);
    }
    Ok(bytes)
}

/// Somewhere to read bytes from, so finding does not need the whole file.
pub trait Bytes {
    /// Everything the store holds.
    spec fn content(&self) -> Seq<u8>;

    /// Whether the store is whole enough to be read.
    spec fn readable(&self) -> bool;

    /// Whether every read of the store succeeds, as one of a store held in
    /// memory does.
    spec fn infallible(&self) -> bool;

    /// Total length.
    fn len(&self) -> (r: u64)
        requires
            self.readable(),
        ensures
            r as int == self.content().len(),
    ;

    /// Whether there is nothing.
    fn is_empty(&self) -> (r: bool)
        requires
            self.readable(),
        ensures
            r == (self.content().len() == 0),
    {
        self.len() == 0
    }

    /// Read up to `len` bytes at `offset`, short at the end. Reading changes
    /// nothing.
    fn read_at(&mut self, offset: u64, len: usize) -> (r: Result<Vec<u8>, Error>)
        requires
            old(self).readable(),
        ensures
            final(self).readable(),
            final(self).content() == old(self).content(),
            final(self).infallible() == old(self).infallible(),
            old(self).infallible() ==> r is Ok,
            r matches Ok(v) ==> v@ == old(self).content().subrange(
                min_int(offset as int, old(self).content().len() as int),
                min_int(offset + len, old(self).content().len() as int),
            ),
    ;
}

/// The smaller of two integers.
pub open spec fn min_int(a: int, b: int) -> int {
    if a < b {
        a
    } else {
        b
    }
}

/// Bytes held in memory are a store like any other.
impl Bytes for Vec<u8> {
    open spec fn content(&self) -> Seq<u8> {
        self@
    }

    open spec fn readable(&self) -> bool {
        true
    }

    open spec fn infallible(&self) -> bool {
        true
    }

    fn len(&self) -> (r: u64) {
        self.len() as u64
    }

    fn read_at(&mut self, offset: u64, len: usize) -> (r: Result<Vec<u8>, Error>) {
        let n = self.len();
        let from: usize = if offset < n as u64 {
            offset as usize
        } else {
            n
        };
        let to: usize = if len <= n - from {
            from + len
        } else {
            n
        };
        let mut out: Vec<u8> = Vec::new();
        let mut k = from;
        while k < to
            invariant
                from <= k <= to <= n == self@.len(),
                out@ == self@.subrange(from as int, k as int),
            decreases to - k,
        {
            out.push(self[k]);
            proof {
                assert(self@.subrange(from as int, k + 1) =~= self@.subrange(from as int, k as int).push(
                    self@[k as int],
                ));
            }
            k += 1;
        }
        Ok(out)
    }
}

/// How much is read at a time while scanning.
pub const CHUNK: usize = 0x10000;

/// Whether some match starts in `[lo, hi)`.
pub open spec fn match_between(content: Seq<u8>, needle: Seq<Option<u8>>, lo: int, hi: int) -> bool {
    exists|j: int| lo <= j < hi && #[trigger] matches_at(content, needle, j)
}

/// A window read at `at` matches where the content does.
proof fn lemma_window_match(content: Seq<u8>, window: Seq<u8>, needle: Seq<Option<u8>>, at: int, i: int)
    requires
        0 <= at <= content.len(),
        window == content.subrange(at, at + window.len()),
        at + window.len() <= content.len(),
        0 <= i,
        i + needle.len() <= window.len(),
    ensures
        matches_at(window, needle, i) == matches_at(content, needle, at + i),
{
    if matches_at(window, needle, i) {
        assert forall|k: int| 0 <= k < needle.len() implies (#[trigger] needle[k] matches Some(b)
            ==> content[at + i + k] == b) by {
            assert(window[i + k] == content[at + i + k]);
        }
    }
    if matches_at(content, needle, at + i) {
        assert forall|k: int| 0 <= k < needle.len() implies (#[trigger] needle[k] matches Some(b)
            ==> window[i + k] == b) by {
            assert(window[i + k] == content[at + i + k]);
        }
    }
}

/// No match can start where the needle would run past the end.
proof fn lemma_no_match_past_end(content: Seq<u8>, needle: Seq<Option<u8>>, lo: int, hi: int)
    requires
        lo + needle.len() > content.len(),
    ensures
        !match_between(content, needle, lo, hi),
{
    if match_between(content, needle, lo, hi) {
        let j = choose|j: int| lo <= j < hi && #[trigger] matches_at(content, needle, j);
    }
}

/// Two stretches with no match make one.
proof fn lemma_join_no_match(content: Seq<u8>, needle: Seq<Option<u8>>, a: int, b: int, c: int)
    requires
        !match_between(content, needle, a, b),
        !match_between(content, needle, b, c),
    ensures
        !match_between(content, needle, a, c),
{
    if match_between(content, needle, a, c) {
        let j = choose|j: int| a <= j < c && #[trigger] matches_at(content, needle, j);
        if j < b {
            assert(match_between(content, needle, a, b));
        } else {
            assert(match_between(content, needle, b, c));
        }
    }
}

/// A smaller stretch of a stretch with no match has none.
proof fn lemma_narrow_no_match(content: Seq<u8>, needle: Seq<Option<u8>>, a: int, b: int, a2: int, b2: int)
    requires
        !match_between(content, needle, a, b),
        a <= a2,
        b2 <= b,
    ensures
        !match_between(content, needle, a2, b2),
{
    if match_between(content, needle, a2, b2) {
        let j = choose|j: int| a2 <= j < b2 && #[trigger] matches_at(content, needle, j);
        assert(match_between(content, needle, a, b));
    }
}

/// The first match at or after `from`, read a chunk at a time with the
/// chunks overlapping, so a match lying across a seam is still found.
pub fn find_forward<B: Bytes>(source: &mut B, needle: &Needle, from: u64) -> (r: Result<Option<u64>, Error>)
    requires
        old(source).readable(),
        needle@.len() + CHUNK <= usize::MAX,
    ensures
        final(source).readable(),
        final(source).content() == old(source).content(),
        final(source).infallible() == old(source).infallible(),
        old(source).infallible() ==> r is Ok,
        needle@.len() == 0 ==> r matches Ok(None),
        r matches Ok(Some(at)) ==> at >= from && matches_at(old(source).content(), needle@, at as int)
            && !match_between(old(source).content(), needle@, from as int, at as int),
        r matches Ok(None) ==> needle@.len() == 0 || !match_between(
            old(source).content(),
            needle@,
            from as int,
            old(source).content().len() as int + 1,
        ),
{
    let ghost c = source.content();
    let total = source.len();
    let nlen = needle.len();
    if nlen == 0 || total < nlen as u64 {
        proof {
            if nlen > 0 {
                lemma_no_match_past_end(c, needle@, from as int, c.len() as int + 1);
                lemma_no_match_past_end(c, needle@, 0, from as int);
            }
        }
        return Ok(None);
    }
    let last_start = total - nlen as u64;
    let mut at = if from < last_start + 1 { from } else { last_start + 1 };
    let want = CHUNK + (nlen - 1);
    proof {
        lemma_no_match_past_end(c, needle@, last_start + 1, c.len() as int + 1);
    }
    while at <= last_start
        invariant
            c == source.content(),
            source.infallible() == old(source).infallible(),
            c == old(source).content(),
            source.readable(),
            total as int == c.len(),
            nlen == needle@.len(),
            nlen >= 1,
            last_start as int == c.len() - nlen,
            want == CHUNK + nlen - 1,
            from <= at || at == last_start + 1,
            !match_between(c, needle@, from as int, at as int),
        decreases u64::MAX - at,
    {
        let window = match source.read_at(at, want) {
            Ok(w) => w,
            Err(e) => {
                return Err(e);
            },
        };
        let wl = window.len();
        proof {
            assert(window@ == c.subrange(at as int, min_int(at + want, c.len() as int)));
        }
        let mut i: usize = 0;
        while i <= wl - nlen
            invariant
                source.infallible() == old(source).infallible(),
                c == source.content(),
                c == old(source).content(),
                source.readable(),
                wl == window@.len(),
                i <= wl - nlen + 1,
                window@ == c.subrange(at as int, min_int(at + want, c.len() as int)),
                window@ == c.subrange(at as int, at + wl),
                at + wl <= c.len(),
                total as int == c.len(),
                at <= last_start,
                last_start as int == c.len() - nlen,
                nlen == needle@.len(),
                nlen >= 1,
                nlen <= wl,
                from <= at,
                !match_between(c, needle@, from as int, at + i),
            decreases wl - nlen + 1 - i,
        {
            proof {
                lemma_window_match(c, window@, needle@, at as int, i as int);
            }
            if needle.matches(window.as_slice(), i) {
                return Ok(Some(at + i as u64));
            }
            proof {
                if match_between(c, needle@, from as int, at + i + 1) {
                    let j = choose|j: int| from <= j < at + i + 1 && #[trigger] matches_at(c, needle@, j);
                    if j < at + i {
                        assert(match_between(c, needle@, from as int, at + i));
                    }
                }
            }
            i += 1;
        }
        proof {
            // What was scanned reaches the next chunk, or every start there is.
            if at + want <= c.len() {
                assert(at + i == at + CHUNK);
            } else {
                assert(at + i == last_start + 1);
                lemma_no_match_past_end(c, needle@, at + i, c.len() as int + 1);
                lemma_join_no_match(c, needle@, from as int, at + i, c.len() as int + 1);
            }
        }
        match at.checked_add(CHUNK as u64) {
            Some(next) => {
                proof {
                    if at + want > c.len() {
                        if next <= c.len() + 1 {
                            lemma_narrow_no_match(c, needle@, from as int, c.len() as int + 1, from as int, next as int);
                        } else {
                            lemma_no_match_past_end(c, needle@, c.len() as int + 1, next as int);
                            lemma_join_no_match(c, needle@, from as int, c.len() as int + 1, next as int);
                        }
                    }
                }
                at = next;
            },
            None => {
                proof {
                    assert(at + i == at + CHUNK || at + i == last_start + 1);
                    lemma_no_match_past_end(c, needle@, at + i, c.len() as int + 1);
                    lemma_join_no_match(c, needle@, from as int, at + i, c.len() as int + 1);
                }
                return Ok(None);
            },
        }
    }
    proof {
        lemma_join_no_match(c, needle@, from as int, at as int, c.len() as int + 1);
        if at < from {
            lemma_narrow_no_match(c, needle@, at as int, c.len() as int + 1, from as int, c.len() as int + 1);
        }
    }
    Ok(None)
}

/// The last match starting strictly before `before`, read a chunk at a time
/// backwards with the chunks overlapping.
pub fn find_backward<B: Bytes>(source: &mut B, needle: &Needle, before: u64) -> (r: Result<Option<u64>, Error>)
    requires
        old(source).readable(),
        needle@.len() + CHUNK <= usize::MAX,
    ensures
        final(source).readable(),
        final(source).content() == old(source).content(),
        final(source).infallible() == old(source).infallible(),
        old(source).infallible() ==> r is Ok,
        needle@.len() == 0 ==> r matches Ok(None),
        r matches Ok(Some(at)) ==> at < before && matches_at(old(source).content(), needle@, at as int)
            && !match_between(old(source).content(), needle@, at + 1, before as int),
        r matches Ok(None) ==> needle@.len() == 0 || !match_between(
            old(source).content(),
            needle@,
            0,
            before as int,
        ),
{
    let ghost c = source.content();
    let total = source.len();
    let nlen = needle.len();
    if nlen == 0 || total < nlen as u64 || before == 0 {
        proof {
            if nlen > 0 && total < nlen as u64 {
                lemma_no_match_past_end(c, needle@, 0, before as int);
            }
        }
        return Ok(None);
    }
    let mut end = if before < total { before } else { total };
    proof {
        if before > total {
            lemma_no_match_past_end(c, needle@, total as int, before as int);
        }
    }
    loop
        invariant
            c == source.content(),
            source.infallible() == old(source).infallible(),
            c == old(source).content(),
            source.readable(),
            total as int == c.len(),
            nlen == needle@.len(),
            nlen + CHUNK <= usize::MAX,
            1 <= nlen <= total,
            0 < end <= total,
            end <= before,
            !match_between(c, needle@, end as int, before as int),
        decreases end,
    {
        let start = if end > CHUNK as u64 { end - CHUNK as u64 } else { 0 };
        let span = (end - start) as usize;
        let want = span + (nlen - 1);
        let window = match source.read_at(start, want) {
            Ok(w) => w,
            Err(e) => {
                return Err(e);
            },
        };
        let wl = window.len();
        proof {
            assert(window@ == c.subrange(start as int, min_int(start + want, c.len() as int)));
        }
        if wl >= nlen {
            let mut i: usize = wl - nlen + 1;
            proof {
                // Starts past the window's last are past the content's end,
                // or at or after `end`.
                if start + want > c.len() {
                    lemma_no_match_past_end(c, needle@, start + i, end as int);
                }
                lemma_join_no_match(c, needle@, start + i, end as int, before as int);
            }
            while i > 0
                invariant
                    source.infallible() == old(source).infallible(),
                    c == source.content(),
                    c == old(source).content(),
                    source.readable(),
                    wl == window@.len(),
                    i <= wl - nlen + 1,
                    window@ == c.subrange(start as int, min_int(start + want, c.len() as int)),
                    window@ == c.subrange(start as int, start + wl),
                    start + wl <= c.len(),
                    end <= total,
                    total as int == c.len(),
                    start < end <= before,
                    nlen == needle@.len(),
                    nlen >= 1,
                    nlen <= wl,
                    !match_between(c, needle@, start + i, before as int),
                decreases i,
            {
                let k = i - 1;
                let here = start + k as u64;
                proof {
                    lemma_window_match(c, window@, needle@, start as int, k as int);
                }
                if here < before && needle.matches(window.as_slice(), k) {
                    return Ok(Some(here));
                }
                proof {
                    if match_between(c, needle@, here as int, before as int) {
                        let j = choose|j: int| here <= j < before && #[trigger] matches_at(c, needle@, j);
                        if j > here {
                            assert(match_between(c, needle@, start + i, before as int));
                        }
                    }
                }
                i = k;
            }
        } else {
            proof {
                lemma_no_match_past_end(c, needle@, start as int, end as int);
                lemma_join_no_match(c, needle@, start as int, end as int, before as int);
            }
        }
        if start == 0 {
            return Ok(None);
        }
        end = start;
    }
}

} // verus!
