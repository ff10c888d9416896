//! Getting bytes out to somewhere else, and back in again.
//!
//! The formats are the ones the places bytes are copied into want, already
//! punctuated. Coming back there is no menu: a paste is read as hex if it is
//! hex, as base64 if it has base64's shape, and as text otherwise.

use vstd::prelude::*;
use vstd::utf8::encode_utf8;

use crate::error::{Error, ErrorCode};
use crate::hexedit::find::{hex_value, is_hex_digit};
use crate::text::{chars_of, digit_char, is_whitespace, is_ws, push_char, push_str, slice_to_vec, trim, trim_chars};

verus! {

/// How bytes are written out.
#[derive(Debug, Clone, Copy, PartialEq, Eq, Structural)]
pub enum Format {
    /// The bytes themselves, each as the Latin-1 character of that value.
    Raw,
    /// `504b0304`.
    HexString,
    /// `50 4B 03 04`, which is how a signature is written in a spec.
    HexSpaced,
    /// `{ 0x50, 0x4b, 0x03, 0x04 }`.
    CArray,
    /// `[0x50, 0x4b, 0x03, 0x04]`.
    RustArray,
    /// `b"\x50\x4b\x03\x04"`.
    PythonBytes,
    /// Base64, standard alphabet with padding.
    Base64,
}

/// A format's menu label key.
pub open spec fn format_label_key(f: Format) -> Seq<char> {
    match f {
        Format::Raw => "hex.copy.raw"@,
        Format::HexString => "hex.copy.hex_string"@,
        Format::HexSpaced => "hex.copy.hex_spaced"@,
        Format::CArray => "hex.copy.c_array"@,
        Format::RustArray => "hex.copy.rust_array"@,
        Format::PythonBytes => "hex.copy.python_bytes"@,
        Format::Base64 => "hex.copy.base64"@,
    }
}

impl Format {
    /// Every format, in the order the menu offers them.
    pub fn all() -> (r: Vec<Format>)
        ensures
            r@ == seq![
                Format::Raw,
                Format::HexString,
                Format::HexSpaced,
                Format::CArray,
                Format::RustArray,
                Format::PythonBytes,
                Format::Base64,
            ],
    {
        let r = vec![
            Format::Raw,
            Format::HexString,
            Format::HexSpaced,
            Format::CArray,
            Format::RustArray,
            Format::PythonBytes,
            Format::Base64,
        ];
        proof {
            assert(r@ =~= seq![
                Format::Raw,
                Format::HexString,
                Format::HexSpaced,
                Format::CArray,
                Format::RustArray,
                Format::PythonBytes,
                Format::Base64,
            ]);
        }
        r
    }

    /// Catalogue key for the menu entry.
    pub fn label_key(self) -> (r: &'static str)
        ensures
            r@ == format_label_key(self),
    {
        match self {
            Format::Raw => "hex.copy.raw",
            Format::HexString => "hex.copy.hex_string",
            Format::HexSpaced => "hex.copy.hex_spaced",
            Format::CArray => "hex.copy.c_array",
            Format::RustArray => "hex.copy.rust_array",
            Format::PythonBytes => "hex.copy.python_bytes",
            Format::Base64 => "hex.copy.base64",
        }
    }
}

/// An uppercase hex digit.
pub open spec fn digit_upper(d: nat) -> char {
    if d < 10 {
        ((d + 48) as u8) as char
    } else {
        ((d + 55) as u8) as char
    }
}

/// A byte as two lowercase hex digits.
pub open spec fn hex_lower(b: u8) -> Seq<char> {
    seq![digit_char((b / 16) as nat), digit_char((b % 16) as nat)]
}

/// A byte as two uppercase hex digits.
pub open spec fn hex_upper(b: u8) -> Seq<char> {
    seq![digit_upper((b / 16) as nat), digit_upper((b % 16) as nat)]
}

/// Each byte as its hex pair, with `sep` before each one after the first,
/// and `before` in front of every pair.
pub open spec fn hex_run(bs: Seq<u8>, upper: bool, before: Seq<char>, sep: Seq<char>) -> Seq<char>
    decreases bs.len(),
{
    if bs.len() == 0 {
        Seq::empty()
    } else {
        hex_run(bs.drop_last(), upper, before, sep) + (if bs.len() > 1 {
            sep
        } else {
            Seq::empty()
        }) + before + if upper {
            hex_upper(bs.last())
        } else {
            hex_lower(bs.last())
        }
    }
}

/// `n` spaces.
pub open spec fn spaces(n: nat) -> Seq<char> {
    Seq::new(n, |i: int| ' ')
}

/// The `0x..` elements of an array, a line break and an indent before every
/// twelfth after the first, a space before the rest.
pub open spec fn array_elements(bs: Seq<u8>, indent: nat) -> Seq<char>
    decreases bs.len(),
{
    if bs.len() == 0 {
        Seq::empty()
    } else {
        let i = bs.len() - 1;
        array_elements(bs.drop_last(), indent) + (if i == 0 {
            Seq::empty()
        } else if i % 12 == 0 {
            seq![',', '\n'] + spaces(indent)
        } else {
            seq![',', ' ']
        }) + "0x"@ + hex_lower(bs.last())
    }
}

/// The base64 alphabet.
pub open spec fn b64_char(v: u32) -> char {
    if v < 26 {
        ((v + 65) as u8) as char
    } else if v < 52 {
        ((v + 71) as u8) as char
    } else if v < 62 {
        ((v - 4) as u8) as char
    } else if v == 62 {
        '+'
    } else {
        '/'
    }
}

/// Up to three bytes as four base64 characters, padded with `=`.
pub open spec fn b64_quad(b0: u8, b1: u8, b2: u8, count: nat) -> Seq<char> {
    let n: u32 = ((b0 as u32) << 16u32) | ((b1 as u32) << 8u32) | (b2 as u32);
    seq![
        b64_char((n >> 18u32) & 63u32),
        b64_char((n >> 12u32) & 63u32),
        if count > 1 { b64_char((n >> 6u32) & 63u32) } else { '=' },
        if count > 2 { b64_char(n & 63u32) } else { '=' },
    ]
}

/// Bytes in base64, three at a time from the front.
pub open spec fn b64_encode(bs: Seq<u8>) -> Seq<char>
    decreases bs.len(),
{
    if bs.len() == 0 {
        Seq::empty()
    } else if bs.len() >= 3 {
        b64_quad(bs[0], bs[1], bs[2], 3) + b64_encode(bs.skip(3))
    } else if bs.len() == 2 {
        b64_quad(bs[0], bs[1], 0, 2)
    } else {
        b64_quad(bs[0], 0, 0, 1)
    }
}

/// Bytes in a format.
pub open spec fn render_spec(bs: Seq<u8>, f: Format) -> Seq<char> {
    match f {
        Format::Raw => bs.map_values(|b: u8| b as char),
        Format::HexString => hex_run(bs, false, Seq::empty(), Seq::empty()),
        Format::HexSpaced => hex_run(bs, true, Seq::empty(), seq![' ']),
        Format::CArray => "{ "@ + array_elements(bs, 2) + " }"@,
        Format::RustArray => "["@ + array_elements(bs, 1) + "]"@,
        Format::PythonBytes => "b\""@ + hex_run(bs, false, "\\x"@, Seq::empty()) + "\""@,
        Format::Base64 => b64_encode(bs),
    }
}

fn digit_lower_of(d: u8) -> (r: char)
    requires
        d < 16,
    ensures
        r == digit_char(d as nat),
{
    if d < 10 {
        ((d + 48) as u8) as char
    } else {
        ((d + 87) as u8) as char
    }
}

fn digit_upper_of(d: u8) -> (r: char)
    requires
        d < 16,
    ensures
        r == digit_upper(d as nat),
{
    if d < 10 {
        ((d + 48) as u8) as char
    } else {
        ((d + 55) as u8) as char
    }
}

fn push_hex(s: &mut String, b: u8, upper: bool)
    ensures
        final(s)@ == old(s)@ + if upper {
            hex_upper(b)
        } else {
            hex_lower(b)
        },
{
    if upper {
        push_char(s, digit_upper_of(b / 16));
        push_char(s, digit_upper_of(b % 16));
    } else {
        push_char(s, digit_lower_of(b / 16));
        push_char(s, digit_lower_of(b % 16));
    }
    proof {
        assert(final(s)@ =~= old(s)@ + if upper {
            hex_upper(b)
        } else {
            hex_lower(b)
        });
    }
}

/// Each byte as its hex pair, `sep` between, `before` in front of each.
fn render_hex_run(s: &mut String, bs: &[u8], upper: bool, before: &str, sep: &str)
    ensures
        final(s)@ == old(s)@ + hex_run(bs@, upper, before@, sep@),
{
    let mut i: usize = 0;
    proof {
        assert(bs@.take(0) =~= Seq::<u8>::empty());
        assert(s@ =~= old(s)@ + hex_run(bs@.take(0), upper, before@, sep@));
    }
    while i < bs.len()
        invariant
            i <= bs@.len(),
            s@ == old(s)@ + hex_run(bs@.take(i as int), upper, before@, sep@),
        decreases bs.len() - i,
    {
        if i > 0 {
            push_str(s, sep);
        }
        push_str(s, before);
        push_hex(s, bs[i], upper);
        proof {
            assert(bs@.take(i + 1).drop_last() =~= bs@.take(i as int));
            assert(bs@.take(i + 1).last() == bs@[i as int]);
            assert(s@ =~= old(s)@ + hex_run(bs@.take(i + 1), upper, before@, sep@));
        }
        i += 1;
    }
    proof {
        assert(bs@.take(i as int) =~= bs@);
    }
}

/// The `0x..` elements of an array.
fn render_elements(s: &mut String, bs: &[u8], indent: usize)
    ensures
        final(s)@ == old(s)@ + array_elements(bs@, indent as nat),
{
    let mut i: usize = 0;
    proof {
        assert(bs@.take(0) =~= Seq::<u8>::empty());
        assert(s@ =~= old(s)@ + array_elements(bs@.take(0), indent as nat));
    }
    while i < bs.len()
        invariant
            i <= bs@.len(),
            s@ == old(s)@ + array_elements(bs@.take(i as int), indent as nat),
        decreases bs.len() - i,
    {
        let ghost before = s@;
        if i > 0 {
            push_char(s, ',');
            if i % 12 == 0 {
                push_char(s, '\n');
                let mut k: usize = 0;
                while k < indent
                    invariant
                        k <= indent,
                        s@ == before + seq![',', '\n'] + spaces(k as nat),
                    decreases indent - k,
                {
                    push_char(s, ' ');
                    proof {
                        assert(s@ =~= before + seq![',', '\n'] + spaces((k + 1) as nat));
                    }
                    k += 1;
                }
            } else {
                push_char(s, ' ');
            }
        }
        push_char(s, '0');
        push_char(s, 'x');
        push_hex(s, bs[i], false);
        proof {
            reveal_strlit("0x");
            assert(bs@.take(i + 1).drop_last() =~= bs@.take(i as int));
            assert(bs@.take(i + 1).last() == bs@[i as int]);
            assert(s@ =~= old(s)@ + array_elements(bs@.take(i + 1), indent as nat));
        }
        i += 1;
    }
    proof {
        assert(bs@.take(i as int) =~= bs@);
    }
}

fn b64_char_of(v: u32) -> (r: char)
    requires
        v < 64,
    ensures
        r == b64_char(v),
{
    if v < 26 {
        ((v + 65) as u8) as char
    } else if v < 52 {
        ((v + 71) as u8) as char
    } else if v < 62 {
        ((v - 4) as u8) as char
    } else if v == 62 {
        '+'
    } else {
        '/'
    }
}

fn push_quad(s: &mut String, b0: u8, b1: u8, b2: u8, count: usize)
    requires
        1 <= count <= 3,
    ensures
        final(s)@ == old(s)@ + b64_quad(b0, b1, b2, count as nat),
{
    let n: u32 = ((b0 as u32) << 16u32) | ((b1 as u32) << 8u32) | (b2 as u32);
    assert((n >> 18u32) & 63u32 < 64) by (bit_vector);
    assert((n >> 12u32) & 63u32 < 64) by (bit_vector);
    assert((n >> 6u32) & 63u32 < 64) by (bit_vector);
    assert(n & 63u32 < 64) by (bit_vector);
    push_char(s, b64_char_of((n >> 18u32) & 63u32));
    push_char(s, b64_char_of((n >> 12u32) & 63u32));
    if count > 1 {
        push_char(s, b64_char_of((n >> 6u32) & 63u32));
    } else {
        push_char(s, '=');
    }
    if count > 2 {
        push_char(s, b64_char_of(n & 63u32));
    } else {
        push_char(s, '=');
    }
    proof {
        assert(final(s)@ =~= old(s)@ + b64_quad(b0, b1, b2, count as nat));
    }
}

/// Bytes in base64.
fn render_base64(s: &mut String, bs: &[u8])
    ensures
        final(s)@ == old(s)@ + b64_encode(bs@),
{
    let mut i: usize = 0;
    proof {
        assert(bs@.skip(0) =~= bs@);
        assert(s@ + b64_encode(bs@.skip(0)) =~= old(s)@ + b64_encode(bs@));
    }
    while i < bs.len()
        invariant
            i <= bs@.len(),
            s@ + b64_encode(bs@.skip(i as int)) == old(s)@ + b64_encode(bs@),
        decreases bs.len() - i,
    {
        let ghost rest = bs@.skip(i as int);
        let left = bs.len() - i;
        let ghost before = s@;
        if left >= 3 {
            push_quad(s, bs[i], bs[i + 1], bs[i + 2], 3);
            proof {
                assert(rest[0] == bs@[i as int] && rest[1] == bs@[i + 1] && rest[2] == bs@[i + 2]);
                assert(rest.skip(3) =~= bs@.skip(i + 3));
                assert(s@ + b64_encode(bs@.skip(i + 3)) =~= before + b64_encode(rest));
            }
            i += 3;
        } else if left == 2 {
            push_quad(s, bs[i], bs[i + 1], 0, 2);
            proof {
                assert(rest[0] == bs@[i as int] && rest[1] == bs@[i + 1]);
                assert(bs@.skip(i + 2) =~= Seq::<u8>::empty());
                assert(s@ + b64_encode(bs@.skip(i + 2)) =~= before + b64_encode(rest));
            }
            i += 2;
        } else {
            push_quad(s, bs[i], 0, 0, 1);
            proof {
                assert(rest[0] == bs@[i as int]);
                assert(bs@.skip(i + 1) =~= Seq::<u8>::empty());
                assert(s@ + b64_encode(bs@.skip(i + 1)) =~= before + b64_encode(rest));
            }
            i += 1;
        }
    }
    proof {
        assert(bs@.skip(i as int) =~= Seq::<u8>::empty());
        assert(s@ + Seq::<char>::empty() =~= s@);
    }
}

/// Render `bytes` in `format`. `Raw` is each byte as the Latin-1
/// character of that value, the one lossless way to put bytes in a string.
pub fn render(bytes: &[u8], format: Format) -> (r: String)
    ensures
        r@ == render_spec(bytes@, format),
{
    let mut s = String::new();
    match format {
        Format::Raw => {
            let mut i: usize = 0;
            while i < bytes.len()
                invariant
                    i <= bytes@.len(),
                    s@ == bytes@.take(i as int).map_values(|b: u8| b as char),
                decreases bytes.len() - i,
            {
                push_char(&mut s, bytes[i] as char);
                proof {
                    assert(s@ =~= bytes@.take(i + 1).map_values(|b: u8| b as char));
                }
                i += 1;
            }
            proof {
                assert(bytes@.take(i as int) =~= bytes@);
                assert(s@ == render_spec(bytes@, format));
            }
        },
        Format::HexString => {
            render_hex_run(&mut s, bytes, false, "", "");
            proof {
                reveal_strlit("");
                assert(""@ =~= Seq::<char>::empty());
                assert(s@ =~= render_spec(bytes@, format));
            }
        },
        Format::HexSpaced => {
            render_hex_run(&mut s, bytes, true, "", " ");
            proof {
                reveal_strlit("");
                reveal_strlit(" ");
                assert(""@ =~= Seq::<char>::empty());
                assert(" "@ =~= seq![' ']);
                assert(s@ =~= render_spec(bytes@, format));
            }
        },
        Format::CArray => {
            push_str(&mut s, "{ ");
            render_elements(&mut s, bytes, 2);
            push_str(&mut s, " }");
            proof {
                assert(s@ == render_spec(bytes@, format));
            }
        },
        Format::RustArray => {
            push_str(&mut s, "[");
            render_elements(&mut s, bytes, 1);
            push_str(&mut s, "]");
            proof {
                assert(s@ == render_spec(bytes@, format));
            }
        },
        Format::PythonBytes => {
            push_str(&mut s, "b\"");
            render_hex_run(&mut s, bytes, false, "\\x", "");
            push_str(&mut s, "\"");
            proof {
                reveal_strlit("");
                assert(""@ =~= Seq::<char>::empty());
                assert(s@ =~= render_spec(bytes@, format));
            }
        },
        Format::Base64 => {
            render_base64(&mut s, bytes);
        },
    }
    s
}

/// ASCII white space, as `u8::is_ascii_whitespace` has it.
pub open spec fn ascii_ws(c: char) -> bool {
    c == ' ' || c == '\t' || c == '\n' || c == '\x0C' || c == '\r'
}

/// A base64 character's value.
pub open spec fn b64_value(c: char) -> Option<u32> {
    if 'A' <= c && c <= 'Z' {
        Some((c as u32 - 65) as u32)
    } else if 'a' <= c && c <= 'z' {
        Some((c as u32 - 71) as u32)
    } else if '0' <= c && c <= '9' {
        Some((c as u32 + 4) as u32)
    } else if c == '+' {
        Some(62)
    } else if c == '/' {
        Some(63)
    } else {
        None
    }
}

/// The bytes four base64 characters hold: padding only in the last two
/// places, and nothing but padding after it.
pub open spec fn decode_quad(q: Seq<char>) -> Option<Seq<u8>> {
    if q[0] == '=' || q[1] == '=' || b64_value(q[0]) is None || b64_value(q[1]) is None {
        None
    } else {
        let v0 = b64_value(q[0])->0;
        let v1 = b64_value(q[1])->0;
        if q[2] == '=' {
            if q[3] != '=' {
                None
            } else {
                let n: u32 = (v0 << 18u32) | (v1 << 12u32);
                Some(seq![((n >> 16u32) & 0xffu32) as u8])
            }
        } else if b64_value(q[2]) is None {
            None
        } else {
            let v2 = b64_value(q[2])->0;
            if q[3] == '=' {
                let n: u32 = (v0 << 18u32) | (v1 << 12u32) | (v2 << 6u32);
                Some(seq![((n >> 16u32) & 0xffu32) as u8, ((n >> 8u32) & 0xffu32) as u8])
            } else if b64_value(q[3]) is None {
                None
            } else {
                let v3 = b64_value(q[3])->0;
                let n: u32 = (v0 << 18u32) | (v1 << 12u32) | (v2 << 6u32) | v3;
                Some(
                    seq![
                        ((n >> 16u32) & 0xffu32) as u8,
                        ((n >> 8u32) & 0xffu32) as u8,
                        (n & 0xffu32) as u8,
                    ],
                )
            }
        }
    }
}

/// Base64 text, four characters at a time from the front.
pub open spec fn decode_quads(c: Seq<char>) -> Option<Seq<u8>>
    decreases c.len(),
{
    if c.len() < 4 {
        Some(Seq::empty())
    } else {
        match (decode_quad(c.take(4)), decode_quads(c.skip(4))) {
            (Some(a), Some(b)) => Some(a + b),
            _ => None,
        }
    }
}

/// Whether a character is not ASCII white space.
pub open spec fn not_ascii_ws() -> spec_fn(char) -> bool {
    |c: char| !ascii_ws(c)
}

/// Whether a character is not white space.
pub open spec fn not_unicode_ws() -> spec_fn(char) -> bool {
    |c: char| !is_ws(c)
}

/// Base64 text read back, ASCII white space ignored.
pub open spec fn un_base64(t: Seq<char>) -> Option<Seq<u8>> {
    let c = t.filter(not_ascii_ws());
    if c.len() == 0 || c.len() % 4 != 0 {
        None
    } else {
        decode_quads(c)
    }
}

/// A character of base64's alphabet or its padding.
pub open spec fn b64_shaped(c: char) -> bool {
    ('A' <= c && c <= 'Z') || ('a' <= c && c <= 'z') || ('0' <= c && c <= '9') || c == '+' || c
        == '/' || c == '='
}

/// The shape of base64, not merely its alphabet: whole quads, and not all
/// hex digits, since what is all hex digits is hex.
pub open spec fn looks_like_base64(t: Seq<char>) -> bool {
    let c = t.filter(not_unicode_ws());
    &&& c.len() >= 4
    &&& c.len() % 4 == 0
    &&& forall|i: int| 0 <= i < c.len() ==> b64_shaped(#[trigger] c[i])
    &&& !(forall|i: int| 0 <= i < c.len() ==> is_hex_digit(#[trigger] c[i]))
}

/// Whether text starts with the two characters `a`, `b`.
pub open spec fn starts2(s: Seq<char>, a: char, b: char) -> bool {
    s.len() >= 2 && s[0] == a && s[1] == b
}

/// Text without a last `c` it must end with.
pub open spec fn strip_last(s: Seq<char>, c: char) -> Option<Seq<char>> {
    if s.len() > 0 && s.last() == c {
        Some(s.drop_last())
    } else {
        None
    }
}

/// A Python bytes literal's quotes peeled off; a literal that does not
/// close is nothing.
pub open spec fn peel_python(body: Seq<char>) -> Option<Seq<char>> {
    if starts2(body, 'b', '"') || starts2(body, 'B', '"') {
        strip_last(body.skip(2), '"')
    } else if starts2(body, 'b', '\'') || starts2(body, 'B', '\'') {
        strip_last(body.skip(2), '\'')
    } else {
        Some(body)
    }
}

/// A C or Rust array's brackets peeled off.
pub open spec fn peel_array(b: Seq<char>) -> Seq<char> {
    if b.len() >= 2 && b[0] == '{' && b.last() == '}' {
        b.subrange(1, b.len() - 1)
    } else if b.len() >= 2 && b[0] == '[' && b.last() == ']' {
        b.subrange(1, b.len() - 1)
    } else {
        b
    }
}

/// Every `a` `b` pair, left to right, made a space.
pub open spec fn replace_pair(s: Seq<char>, a: char, b: char) -> Seq<char>
    decreases s.len(),
{
    if s.len() >= 2 && s[0] == a && s[1] == b {
        seq![' '] + replace_pair(s.skip(2), a, b)
    } else if s.len() == 0 {
        s
    } else {
        seq![s[0]] + replace_pair(s.drop_first(), a, b)
    }
}

/// Whether a character is neither white space nor a comma.
pub open spec fn digit_keep() -> spec_fn(char) -> bool {
    |c: char| !is_ws(c) && c != ','
}

/// Hex digits two at a time as bytes.
pub open spec fn hex_bytes(d: Seq<char>) -> Seq<u8>
    decreases d.len(),
{
    if d.len() < 2 {
        Seq::empty()
    } else {
        seq![(hex_value(d[0]) * 16 + hex_value(d[1])) as u8] + hex_bytes(d.skip(2))
    }
}

/// The digits left once a paste's notation is peeled off.
pub open spec fn hex_digits_of(t: Seq<char>) -> Option<Seq<char>> {
    match peel_python(trim(t)) {
        None => None,
        Some(body) => {
            let spaced = replace_pair(
                replace_pair(replace_pair(peel_array(trim(body)), '0', 'x'), '0', 'X'),
                '\\',
                'x',
            );
            Some(spaced.filter(digit_keep()))
        },
    }
}

/// A paste read as hex: once its notation is peeled off, paired hex digits.
pub open spec fn as_hex_spec(t: Seq<char>) -> Option<Seq<u8>> {
    match hex_digits_of(t) {
        None => None,
        Some(d) => if d.len() == 0 || d.len() % 2 != 0 || !(forall|i: int|
            0 <= i < d.len() ==> is_hex_digit(#[trigger] d[i])) {
            None
        } else {
            Some(hex_bytes(d))
        },
    }
}

/// What a paste is read as: hex if it is hex, base64 if it has base64's
/// shape and decodes, and its own UTF-8 bytes otherwise.
pub open spec fn paste_spec(t: Seq<char>) -> (Seq<u8>, Seq<char>) {
    match as_hex_spec(t) {
        Some(b) => (b, "hex.paste.hex"@),
        None => if looks_like_base64(t) && un_base64(t) is Some {
            (un_base64(t)->0, "hex.paste.base64"@)
        } else {
            (encode_utf8(t), "hex.paste.text"@)
        },
    }
}

/// What a pasted string turned out to be.
#[derive(Debug, Clone, PartialEq, Eq)]
pub struct Pasted {
    /// What the pasted text turned out to be, as bytes.
    pub bytes: Vec<u8>,
    /// Catalogue key naming how it was read, so the window can say so.
    pub read_as: &'static str,
}

/// The filter a mode names: 0 drops ASCII white space, 1 drops white
/// space, 2 drops white space and commas.
pub open spec fn keep_for(mode: u8) -> spec_fn(char) -> bool {
    if mode == 0 {
        not_ascii_ws()
    } else if mode == 1 {
        not_unicode_ws()
    } else {
        digit_keep()
    }
}

fn filter_mode(s: &[char], mode: u8) -> (r: Vec<char>)
    ensures
        r@ == s@.filter(keep_for(mode)),
{
    let ghost keep = keep_for(mode);
    let mut out: Vec<char> = Vec::new();
    let mut i: usize = 0;
    while i < s.len()
        invariant
            i <= s@.len(),
            keep == keep_for(mode),
            out@ == s@.take(i as int).filter(keep),
        decreases s.len() - i,
    {
        proof {
            reveal_with_fuel(Seq::filter, 1);
            assert(s@.take(i + 1).drop_last() =~= s@.take(i as int));
        }
        let c = s[i];
        let pass = if mode == 0 {
            !(c == ' ' || c == '\t' || c == '\n' || c == '\x0C' || c == '\r')
        } else if mode == 1 {
            !is_whitespace(c)
        } else {
            !is_whitespace(c) && c != ','
        };
        if pass {
            out.push(c);
        }
        proof {
            assert(pass == keep(s@[i as int]));
        }
        i += 1;
    }
    proof {
        assert(s@.take(i as int) =~= s@);
    }
    out
}

fn replace_pair_chars(s: &[char], a: char, b: char) -> (r: Vec<char>)
    ensures
        r@ == replace_pair(s@, a, b),
{
    let mut out: Vec<char> = Vec::new();
    let mut i: usize = 0;
    proof {
        assert(s@.skip(0) =~= s@);
        assert(out@ + replace_pair(s@, a, b) =~= replace_pair(s@, a, b));
    }
    while i < s.len()
        invariant
            i <= s@.len(),
            out@ + replace_pair(s@.skip(i as int), a, b) == replace_pair(s@, a, b),
        decreases s.len() - i,
    {
        let ghost rest = s@.skip(i as int);
        if i + 1 < s.len() && s[i] == a && s[i + 1] == b {
            out.push(' ');
            proof {
                assert(rest.skip(2) =~= s@.skip(i + 2));
                assert(out@ + replace_pair(s@.skip(i + 2), a, b) =~= replace_pair(s@, a, b));
            }
            i += 2;
        } else {
            out.push(s[i]);
            proof {
                assert(rest.drop_first() =~= s@.skip(i + 1));
                assert(rest[0] == s@[i as int]);
                assert(out@ + replace_pair(s@.skip(i + 1), a, b) =~= replace_pair(s@, a, b));
            }
            i += 1;
        }
    }
    proof {
        assert(s@.skip(i as int) =~= Seq::<char>::empty());
        assert(out@ + Seq::<char>::empty() =~= out@);
    }
    out
}

fn peel_python_chars(body: &[char]) -> (r: Option<Vec<char>>)
    ensures
        r matches Some(v) ==> peel_python(body@) == Some(v@),
        r is None ==> peel_python(body@) is None,
{
    let n = body.len();
    let close = if n >= 2 && (body[0] == 'b' || body[0] == 'B') && body[1] == '"' {
        '"'
    } else if n >= 2 && (body[0] == 'b' || body[0] == 'B') && body[1] == '\'' {
        '\''
    } else {
        return Some(slice_to_vec(body, 0, n));
    };
    proof {
        assert(body@.subrange(0, n as int) =~= body@);
    }
    if n >= 3 && body[n - 1] == close {
        let inner = slice_to_vec(body, 2, n - 1);
        proof {
            assert(inner@ =~= body@.skip(2).drop_last());
        }
        Some(inner)
    } else {
        None
    }
}

fn peel_array_chars(b: &[char]) -> (r: Vec<char>)
    ensures
        r@ == peel_array(b@),
{
    let n = b.len();
    if n >= 2 && ((b[0] == '{' && b[n - 1] == '}') || (b[0] == '[' && b[n - 1] == ']')) {
        slice_to_vec(b, 1, n - 1)
    } else {
        proof {
            assert(b@.subrange(0, n as int) =~= b@);
        }
        slice_to_vec(b, 0, n)
    }
}

fn hex_bytes_of(d: &[char]) -> (r: Vec<u8>)
    requires
        forall|i: int| 0 <= i < d@.len() ==> is_hex_digit(#[trigger] d@[i]),
        d@.len() % 2 == 0,
    ensures
        r@ == hex_bytes(d@),
{
    let mut out: Vec<u8> = Vec::new();
    let mut i: usize = 0;
    proof {
        assert(d@.skip(0) =~= d@);
        assert(out@ + hex_bytes(d@) =~= hex_bytes(d@));
    }
    while i < d.len()
        invariant
            i <= d@.len(),
            i % 2 == 0,
            d@.len() % 2 == 0,
            forall|j: int| 0 <= j < d@.len() ==> is_hex_digit(#[trigger] d@[j]),
            out@ + hex_bytes(d@.skip(i as int)) == hex_bytes(d@),
        decreases d.len() - i,
    {
        let ghost rest = d@.skip(i as int);
        let hi = match crate::text::to_digit(d[i], 16) {
            Some(v) => v as u8,
            None => 0,
        };
        let lo = match crate::text::to_digit(d[i + 1], 16) {
            Some(v) => v as u8,
            None => 0,
        };
        proof {
            assert(is_hex_digit(d@[i as int]) && is_hex_digit(d@[i + 1]));
            assert(rest[0] == d@[i as int] && rest[1] == d@[i + 1]);
            assert(rest.skip(2) =~= d@.skip(i + 2));
        }
        out.push(hi * 16 + lo);
        proof {
            assert(out@ + hex_bytes(d@.skip(i + 2)) =~= hex_bytes(d@));
        }
        i += 2;
    }
    proof {
        assert(d@.skip(i as int) =~= Seq::<char>::empty());
        assert(out@ + Seq::<u8>::empty() =~= out@);
    }
    out
}

fn all_hex(d: &[char]) -> (r: bool)
    ensures
        r == (forall|i: int| 0 <= i < d@.len() ==> is_hex_digit(#[trigger] d@[i])),
{
    let mut i: usize = 0;
    while i < d.len()
        invariant
            i <= d@.len(),
            forall|j: int| 0 <= j < i ==> is_hex_digit(#[trigger] d@[j]),
        decreases d.len() - i,
    {
        let c = d[i];
        if !(('0' <= c && c <= '9') || ('a' <= c && c <= 'f') || ('A' <= c && c <= 'F')) {
            proof {
                assert(!is_hex_digit(d@[i as int]));
            }
            return false;
        }
        i += 1;
    }
    true
}

/// A paste read as hex, if it is hex.
fn as_hex(t: &[char]) -> (r: Option<Vec<u8>>)
    ensures
        r matches Some(v) ==> as_hex_spec(t@) == Some(v@),
        r is None ==> as_hex_spec(t@) is None,
{
    let body = trim_chars(t);
    let peeled = match peel_python_chars(body.as_slice()) {
        Some(p) => p,
        None => {
            return None;
        },
    };
    let body2 = trim_chars(peeled.as_slice());
    let inner = peel_array_chars(body2.as_slice());
    let r1 = replace_pair_chars(inner.as_slice(), '0', 'x');
    let r2 = replace_pair_chars(r1.as_slice(), '0', 'X');
    let r3 = replace_pair_chars(r2.as_slice(), '\\', 'x');
    let digits = filter_mode(r3.as_slice(), 2);
    proof {
        assert(digits@ == hex_digits_of(t@)->0);
    }
    if digits.len() == 0 || digits.len() % 2 != 0 {
        return None;
    }
    if !all_hex(digits.as_slice()) {
        return None;
    }
    Some(hex_bytes_of(digits.as_slice()))
}

fn b64_value_of(c: char) -> (r: Option<u32>)
    ensures
        r == b64_value(c),
{
    if 'A' <= c && c <= 'Z' {
        Some(c as u32 - 65)
    } else if 'a' <= c && c <= 'z' {
        Some(c as u32 - 71)
    } else if '0' <= c && c <= '9' {
        Some(c as u32 + 4)
    } else if c == '+' {
        Some(62)
    } else if c == '/' {
        Some(63)
    } else {
        None
    }
}

fn decode_quad_chars(q0: char, q1: char, q2: char, q3: char, out: &mut Vec<u8>) -> (r: bool)
    ensures
        r == decode_quad(seq![q0, q1, q2, q3]) is Some,
        r ==> final(out)@ == old(out)@ + decode_quad(seq![q0, q1, q2, q3])->0,
{
    let ghost q = seq![q0, q1, q2, q3];
    if q0 == '=' || q1 == '=' {
        return false;
    }
    let v0 = match b64_value_of(q0) {
        Some(v) => v,
        None => {
            return false;
        },
    };
    let v1 = match b64_value_of(q1) {
        Some(v) => v,
        None => {
            return false;
        },
    };
    if q2 == '=' {
        if q3 != '=' {
            return false;
        }
        let n: u32 = (v0 << 18u32) | (v1 << 12u32);
        out.push(((n >> 16u32) & 0xffu32) as u8);
        proof {
            assert(final(out)@ =~= old(out)@ + decode_quad(q)->0);
        }
        return true;
    }
    let v2 = match b64_value_of(q2) {
        Some(v) => v,
        None => {
            return false;
        },
    };
    if q3 == '=' {
        let n: u32 = (v0 << 18u32) | (v1 << 12u32) | (v2 << 6u32);
        out.push(((n >> 16u32) & 0xffu32) as u8);
        out.push(((n >> 8u32) & 0xffu32) as u8);
        proof {
            assert(final(out)@ =~= old(out)@ + decode_quad(q)->0);
        }
        return true;
    }
    let v3 = match b64_value_of(q3) {
        Some(v) => v,
        None => {
            return false;
        },
    };
    let n: u32 = (v0 << 18u32) | (v1 << 12u32) | (v2 << 6u32) | v3;
    out.push(((n >> 16u32) & 0xffu32) as u8);
    out.push(((n >> 8u32) & 0xffu32) as u8);
    out.push((n & 0xffu32) as u8);
    proof {
        assert(final(out)@ =~= old(out)@ + decode_quad(q)->0);
    }
    true
}

/// Base64 text read back.
fn un_base64_chars(t: &[char]) -> (r: Option<Vec<u8>>)
    ensures
        r matches Some(v) ==> un_base64(t@) == Some(v@),
        r is None ==> un_base64(t@) is None,
{
    let c = filter_mode(t, 0);
    if c.len() == 0 || c.len() % 4 != 0 {
        return None;
    }
    let mut out: Vec<u8> = Vec::new();
    let mut i: usize = 0;
    proof {
        assert(c@.skip(0) =~= c@);
        assert(Seq::<u8>::empty() + Seq::<u8>::empty() =~= Seq::<u8>::empty());
    }
    while i < c.len()
        invariant
            i <= c@.len(),
            i % 4 == 0,
            c@.len() % 4 == 0,
            c@ == t@.filter(not_ascii_ws()),
            decode_quads(c@) == match decode_quads(c@.skip(i as int)) {
                Some(rest) => Some(out@ + rest),
                None => None::<Seq<u8>>,
            },
        decreases c.len() - i,
    {
        let ghost rest = c@.skip(i as int);
        proof {
            assert(rest.take(4) =~= seq![c@[i as int], c@[i + 1], c@[i + 2], c@[i + 3]]);
            assert(rest.skip(4) =~= c@.skip(i + 4));
        }
        let ghost before = out@;
        if !decode_quad_chars(c[i], c[i + 1], c[i + 2], c[i + 3], &mut out) {
            return None;
        }
        proof {
            match decode_quads(c@.skip(i + 4)) {
                Some(r2) => {
                    assert(out@ + r2 =~= before + (decode_quad(rest.take(4))->0 + r2));
                },
                None => {},
            }
        }
        i += 4;
    }
    proof {
        assert(c@.skip(i as int) =~= Seq::<char>::empty());
        assert(out@ + Seq::<u8>::empty() =~= out@);
    }
    Some(out)
}

/// Whether a paste has base64's shape.
fn looks_like_base64_chars(t: &[char]) -> (r: bool)
    ensures
        r == looks_like_base64(t@),
{
    let c = filter_mode(t, 1);
    if c.len() < 4 || c.len() % 4 != 0 {
        return false;
    }
    let mut i: usize = 0;
    proof {
        assert(c@ == t@.filter(not_unicode_ws()));
    }
    while i < c.len()
        invariant
            i <= c@.len(),
            c@ == t@.filter(not_unicode_ws()),
            c@.len() >= 4,
            c@.len() % 4 == 0,
            forall|j: int| 0 <= j < i ==> b64_shaped(#[trigger] c@[j]),
        decreases c.len() - i,
    {
        let ch = c[i];
        if !(('A' <= ch && ch <= 'Z') || ('a' <= ch && ch <= 'z') || ('0' <= ch && ch <= '9') || ch
            == '+' || ch == '/' || ch == '=') {
            proof {
                assert(!b64_shaped(c@[i as int]));
            }
            return false;
        }
        i += 1;
    }
    !all_hex(c.as_slice())
}

/// Work out what a pasted string is and turn it into bytes: hex first,
/// base64 when it has base64's shape, and text otherwise, so that a paste
/// is refused only when there is nothing there at all.
pub fn parse_paste(text: &str) -> (r: Result<Pasted, Error>)
    ensures
        trim(text@).len() == 0 ==> (r matches Err(e) && e.spec_code() == ErrorCode::InvalidPath
            && e.spec_context() == "nothing to paste"@),
        trim(text@).len() > 0 ==> (r matches Ok(p) && p.bytes@ == paste_spec(trim(text@)).0
            && p.read_as@ == paste_spec(trim(text@)).1),
{
    let all = chars_of(text);
    let t = trim_chars(all.as_slice());
    if t.len() == 0 {
        return Err(Error::new(ErrorCode::InvalidPath, "nothing to paste"));
    }
    if let Some(bytes) = as_hex(t.as_slice()) {
        return Ok(Pasted { bytes, read_as: "hex.paste.hex" });
    }
    if looks_like_base64_chars(t.as_slice()) {
        if let Some(bytes) = un_base64_chars(t.as_slice()) {
            return Ok(Pasted { bytes, read_as: "hex.paste.base64" });
        }
    }
    let owned = crate::text::string_of(t.as_slice());
    let bytes = owned.as_str().as_bytes();
    let mut out: Vec<u8> = Vec::new();
    let mut i: usize = 0;
    while i < bytes.len()
        invariant
            i <= bytes@.len(),
            out@ == bytes@.take(i as int),
        decreases bytes.len() - i,
    {
        out.push(bytes[i]);
        proof {
            assert(out@ =~= bytes@.take(i + 1));
        }
        i += 1;
    }
    proof {
        assert(bytes@.take(i as int) =~= bytes@);
    }
    Ok(Pasted { bytes: out, read_as: "hex.paste.text" })
}

/// Each base64 character reads back as its value.
proof fn lemma_b64_char(v: u32)
    requires
        v < 64,
    ensures
        b64_value(b64_char(v)) == Some(v),
        !ascii_ws(b64_char(v)),
        b64_char(v) != '=',
{
}

/// A quad of three bytes, two bytes or one reads back as those bytes.
proof fn lemma_quad(b0: u8, b1: u8, b2: u8, count: nat)
    requires
        1 <= count <= 3,
        count < 3 ==> b2 == 0,
        count < 2 ==> b1 == 0,
    ensures
        decode_quad(b64_quad(b0, b1, b2, count)) == Some(
            if count == 3 {
                seq![b0, b1, b2]
            } else if count == 2 {
                seq![b0, b1]
            } else {
                seq![b0]
            },
        ),
        forall|i: int| 0 <= i < 4 ==> !ascii_ws(#[trigger] b64_quad(b0, b1, b2, count)[i]),
{
    let n: u32 = ((b0 as u32) << 16u32) | ((b1 as u32) << 8u32) | (b2 as u32);
    let v0 = (n >> 18u32) & 63u32;
    let v1 = (n >> 12u32) & 63u32;
    let v2 = (n >> 6u32) & 63u32;
    let v3 = n & 63u32;
    assert(v0 < 64 && v1 < 64 && v2 < 64 && v3 < 64) by (bit_vector)
        requires
            v0 == (n >> 18u32) & 63u32,
            v1 == (n >> 12u32) & 63u32,
            v2 == (n >> 6u32) & 63u32,
            v3 == n & 63u32,
    ;
    lemma_b64_char(v0);
    lemma_b64_char(v1);
    lemma_b64_char(v2);
    lemma_b64_char(v3);
    let q = b64_quad(b0, b1, b2, count);
    assert(q[0] == b64_char(v0) && q[1] == b64_char(v1));
    let m1: u32 = (v0 << 18u32) | (v1 << 12u32);
    let m2: u32 = (v0 << 18u32) | (v1 << 12u32) | (v2 << 6u32);
    let m3: u32 = (v0 << 18u32) | (v1 << 12u32) | (v2 << 6u32) | v3;
    assert(((m3 >> 16u32) & 0xffu32) as u8 == b0 && ((m3 >> 8u32) & 0xffu32) as u8 == b1 && (m3
        & 0xffu32) as u8 == b2) by (bit_vector)
        requires
            n == ((b0 as u32) << 16u32) | ((b1 as u32) << 8u32) | (b2 as u32),
            v0 == (n >> 18u32) & 63u32,
            v1 == (n >> 12u32) & 63u32,
            v2 == (n >> 6u32) & 63u32,
            v3 == n & 63u32,
            m3 == (v0 << 18u32) | (v1 << 12u32) | (v2 << 6u32) | v3,
    ;
    assert(((m2 >> 16u32) & 0xffu32) as u8 == b0 && ((m2 >> 8u32) & 0xffu32) as u8 == b1) by (bit_vector)
        requires
            n == ((b0 as u32) << 16u32) | ((b1 as u32) << 8u32) | (b2 as u32),
            v0 == (n >> 18u32) & 63u32,
            v1 == (n >> 12u32) & 63u32,
            v2 == (n >> 6u32) & 63u32,
            m2 == (v0 << 18u32) | (v1 << 12u32) | (v2 << 6u32),
    ;
    assert(((m1 >> 16u32) & 0xffu32) as u8 == b0) by (bit_vector)
        requires
            n == ((b0 as u32) << 16u32) | ((b1 as u32) << 8u32) | (b2 as u32),
            v0 == (n >> 18u32) & 63u32,
            v1 == (n >> 12u32) & 63u32,
            m1 == (v0 << 18u32) | (v1 << 12u32),
    ;
    if count == 3 {
        assert(decode_quad(q) =~= Some(seq![b0, b1, b2]));
    } else if count == 2 {
        assert(decode_quad(q) =~= Some(seq![b0, b1]));
    } else {
        assert(decode_quad(q) =~= Some(seq![b0]));
    }
}

/// Base64 holds no white space, and reads back four characters at a time
/// as the bytes it was written from.
proof fn lemma_encode_decode(bs: Seq<u8>)
    ensures
        decode_quads(b64_encode(bs)) == Some(bs),
        b64_encode(bs).len() % 4 == 0,
        bs.len() > 0 ==> b64_encode(bs).len() > 0,
        forall|i: int| 0 <= i < b64_encode(bs).len() ==> !ascii_ws(#[trigger] b64_encode(bs)[i]),
    decreases bs.len(),
{
    let e = b64_encode(bs);
    if bs.len() == 0 {
    } else if bs.len() >= 3 {
        lemma_quad(bs[0], bs[1], bs[2], 3);
        lemma_encode_decode(bs.skip(3));
        let q = b64_quad(bs[0], bs[1], bs[2], 3);
        let rest = b64_encode(bs.skip(3));
        assert(e.take(4) =~= q);
        assert(e.skip(4) =~= rest);
        assert(seq![bs[0], bs[1], bs[2]] + bs.skip(3) =~= bs);
        assert(e.len() == 4 + rest.len());
        assert(decode_quads(e) == Some(seq![bs[0], bs[1], bs[2]] + bs.skip(3)));
        assert forall|i: int| 0 <= i < e.len() implies !ascii_ws(#[trigger] e[i]) by {
            if i < 4 {
                assert(e[i] == q[i]);
            } else {
                assert(e[i] == rest[i - 4]);
            }
        }
    } else {
        let count: nat = bs.len();
        if count == 2 {
            lemma_quad(bs[0], bs[1], 0, 2);
            assert(seq![bs[0], bs[1]] =~= bs);
        } else {
            lemma_quad(bs[0], 0, 0, 1);
            assert(seq![bs[0]] =~= bs);
        }
        assert(e.len() == 4);
        assert(e.take(4) =~= e);
        assert(e.skip(4) =~= Seq::<char>::empty());
        assert(decode_quads(Seq::<char>::empty()) == Some(Seq::<u8>::empty()));
        assert(bs + Seq::<u8>::empty() =~= bs);
        assert(decode_quads(e) == Some(bs + Seq::<u8>::empty()));
    }
}

/// What is written as base64 reads back as the bytes it came from.
pub proof fn law_base64_round_trip(bs: Seq<u8>)
    requires
        bs.len() > 0,
    ensures
        un_base64(b64_encode(bs)) == Some(bs),
{
    lemma_encode_decode(bs);
    let e = b64_encode(bs);
    let keep = not_ascii_ws();
    assert(forall|i: int| 0 <= i < e.len() ==> keep(e[i]));
    lemma_filter_keeps_all(e, keep);
}

/// Filtering by what every element passes changes nothing.
proof fn lemma_filter_keeps_all(s: Seq<char>, keep: spec_fn(char) -> bool)
    requires
        forall|i: int| 0 <= i < s.len() ==> keep(#[trigger] s[i]),
    ensures
        s.filter(keep) == s,
    decreases s.len(),
{
    reveal_with_fuel(Seq::filter, 1);
    if s.len() > 0 {
        assert forall|i: int| 0 <= i < s.drop_last().len() implies keep(#[trigger] s.drop_last()[i]) by {
            assert(s.drop_last()[i] == s[i]);
        }
        lemma_filter_keeps_all(s.drop_last(), keep);
        assert(s.drop_last().push(s.last()) =~= s);
    }
}

/// The six-bit groups of three bytes, as base64 reads them.
proof fn lemma_sextets(b0: u8, b1: u8, b2: u8)
    ensures
        ({
            let n: u32 = ((b0 as u32) << 16u32) | ((b1 as u32) << 8u32) | (b2 as u32);
            &&& (n >> 18u32) & 63u32 == b0 / 4
            &&& (n >> 12u32) & 63u32 == (b0 % 4) * 16 + b1 / 16
            &&& (n >> 6u32) & 63u32 == (b1 % 16) * 4 + b2 / 64
            &&& n & 63u32 == b2 % 64
        }),
{
    assert(({
        let n: u32 = ((b0 as u32) << 16u32) | ((b1 as u32) << 8u32) | (b2 as u32);
        &&& (n >> 18u32) & 63u32 == b0 / 4
        &&& (n >> 12u32) & 63u32 == (b0 % 4) * 16 + b1 / 16
        &&& (n >> 6u32) & 63u32 == (b1 % 16) * 4 + b2 / 64
        &&& n & 63u32 == b2 % 64
    })) by (bit_vector);
}

/// Base64 writes each three bytes as four characters of the standard
/// alphabet (RFC 4648: `A`-`Z`, `a`-`z`, `0`-`9`, `+`, `/`), one for each
/// six bits from the highest down, and a short tail of one or two bytes
/// with `=` for the characters it has no bits for.
pub proof fn law_base64_standard_alphabet(bs: Seq<u8>)
    ensures
        ({
            let a = "ABCDEFGHIJKLMNOPQRSTUVWXYZabcdefghijklmnopqrstuvwxyz0123456789+/"@;
            &&& bs.len() >= 3 ==> b64_encode(bs) == seq![
                a[(bs[0] / 4) as int],
                a[(bs[0] % 4) * 16 + bs[1] / 16],
                a[(bs[1] % 16) * 4 + bs[2] / 64],
                a[(bs[2] % 64) as int],
            ] + b64_encode(bs.skip(3))
            &&& bs.len() == 2 ==> b64_encode(bs) == seq![
                a[(bs[0] / 4) as int],
                a[(bs[0] % 4) * 16 + bs[1] / 16],
                a[(bs[1] % 16) * 4],
                '=',
            ]
            &&& bs.len() == 1 ==> b64_encode(bs) == seq![a[(bs[0] / 4) as int], a[(bs[0] % 4) * 16], '=', '=']
        }),
{
    let a = "ABCDEFGHIJKLMNOPQRSTUVWXYZabcdefghijklmnopqrstuvwxyz0123456789+/"@;
    reveal_strlit("ABCDEFGHIJKLMNOPQRSTUVWXYZabcdefghijklmnopqrstuvwxyz0123456789+/");
    assert forall|v: u32| v < 64 implies #[trigger] b64_char(v) == a[v as int] by {
        lemma_alphabet_at(v);
    }
    if bs.len() >= 3 {
        lemma_sextets(bs[0], bs[1], bs[2]);
    } else if bs.len() == 2 {
        lemma_sextets(bs[0], bs[1], 0);
    } else if bs.len() == 1 {
        lemma_sextets(bs[0], 0, 0);
    }
}

/// The standard alphabet's character for each six-bit value.
proof fn lemma_alphabet_at(v: u32)
    requires
        v < 64,
    ensures
        b64_char(v) == "ABCDEFGHIJKLMNOPQRSTUVWXYZabcdefghijklmnopqrstuvwxyz0123456789+/"@[v as int],
{
    let a = "ABCDEFGHIJKLMNOPQRSTUVWXYZabcdefghijklmnopqrstuvwxyz0123456789+/"@;
    reveal_strlit("ABCDEFGHIJKLMNOPQRSTUVWXYZabcdefghijklmnopqrstuvwxyz0123456789+/");
    if v == 0 {
        assert(a[0] == 'A');
    } else if v == 1 {
        assert(a[1] == 'B');
    } else if v == 2 {
        assert(a[2] == 'C');
    } else if v == 3 {
        assert(a[3] == 'D');
    } else if v == 4 {
        assert(a[4] == 'E');
    } else if v == 5 {
        assert(a[5] == 'F');
    } else if v == 6 {
        assert(a[6] == 'G');
    } else if v == 7 {
        assert(a[7] == 'H');
    } else if v == 8 {
        assert(a[8] == 'I');
    } else if v == 9 {
        assert(a[9] == 'J');
    } else if v == 10 {
        assert(a[10] == 'K');
    } else if v == 11 {
        assert(a[11] == 'L');
    } else if v == 12 {
        assert(a[12] == 'M');
    } else if v == 13 {
        assert(a[13] == 'N');
    } else if v == 14 {
        assert(a[14] == 'O');
    } else if v == 15 {
        assert(a[15] == 'P');
    } else if v == 16 {
        assert(a[16] == 'Q');
    } else if v == 17 {
        assert(a[17] == 'R');
    } else if v == 18 {
        assert(a[18] == 'S');
    } else if v == 19 {
        assert(a[19] == 'T');
    } else if v == 20 {
        assert(a[20] == 'U');
    } else if v == 21 {
        assert(a[21] == 'V');
    } else if v == 22 {
        assert(a[22] == 'W');
    } else if v == 23 {
        assert(a[23] == 'X');
    } else if v == 24 {
        assert(a[24] == 'Y');
    } else if v == 25 {
        assert(a[25] == 'Z');
    } else if v == 26 {
        assert(a[26] == 'a');
    } else if v == 27 {
        assert(a[27] == 'b');
    } else if v == 28 {
        assert(a[28] == 'c');
    } else if v == 29 {
        assert(a[29] == 'd');
    } else if v == 30 {
        assert(a[30] == 'e');
    } else if v == 31 {
        assert(a[31] == 'f');
    } else if v == 32 {
        assert(a[32] == 'g');
    } else if v == 33 {
        assert(a[33] == 'h');
    } else if v == 34 {
        assert(a[34] == 'i');
    } else if v == 35 {
        assert(a[35] == 'j');
    } else if v == 36 {
        assert(a[36] == 'k');
    } else if v == 37 {
        assert(a[37] == 'l');
    } else if v == 38 {
        assert(a[38] == 'm');
    } else if v == 39 {
        assert(a[39] == 'n');
    } else if v == 40 {
        assert(a[40] == 'o');
    } else if v == 41 {
        assert(a[41] == 'p');
    } else if v == 42 {
        assert(a[42] == 'q');
    } else if v == 43 {
        assert(a[43] == 'r');
    } else if v == 44 {
        assert(a[44] == 's');
    } else if v == 45 {
        assert(a[45] == 't');
    } else if v == 46 {
        assert(a[46] == 'u');
    } else if v == 47 {
        assert(a[47] == 'v');
    } else if v == 48 {
        assert(a[48] == 'w');
    } else if v == 49 {
        assert(a[49] == 'x');
    } else if v == 50 {
        assert(a[50] == 'y');
    } else if v == 51 {
        assert(a[51] == 'z');
    } else if v == 52 {
        assert(a[52] == '0');
    } else if v == 53 {
        assert(a[53] == '1');
    } else if v == 54 {
        assert(a[54] == '2');
    } else if v == 55 {
        assert(a[55] == '3');
    } else if v == 56 {
        assert(a[56] == '4');
    } else if v == 57 {
        assert(a[57] == '5');
    } else if v == 58 {
        assert(a[58] == '6');
    } else if v == 59 {
        assert(a[59] == '7');
    } else if v == 60 {
        assert(a[60] == '8');
    } else if v == 61 {
        assert(a[61] == '9');
    } else if v == 62 {
        assert(a[62] == '+');
    } else if v == 63 {
        assert(a[63] == '/');
    }
}

} // verus!
