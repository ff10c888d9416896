//! Keymaps: chord to command id.
//!
//! Keymaps are data, not code. They are loaded, validated and swapped at
//! runtime, and a conflict is reported at load rather than discovered when a
//! shortcut silently does the wrong thing.
//!
//! A chord names the *primary* modifier — the platform's main accelerator,
//! Command on macOS and Control elsewhere — so a keymap file works on every
//! platform without being rewritten, and `ctrl` stays available for the cases
//! that mean Control everywhere.

use vstd::prelude::*;
use vstd::std_specs::iter::IteratorSpec;

use crate::commands::ids::{CommandId, CommandRegistry};
use crate::hexedit::find::{char_debug, char_debug_text};
use crate::ordered::{TextKey, TextMap};
use crate::text::{
    ascii_lower, ascii_upper, before_first, before_first_chars, chars_eq, chars_of, decimal,
    decimal_string, find, find_char_from, is_ws, lemma_find_from, lower_chars, parse_unsigned,
    parse_unsigned_chars, push_char, push_str, slice_to_vec, split_chars, split_lines, split_seq,
    string_of, text_lines, trim, trim_chars, lemma_trim_plain, lemma_split_at_first,
    lemma_split_whole, lemma_decimal_digits, lemma_parse_decimal,
};

verus! {

/// Modifier state of a chord: four independently held keys.
#[derive(Debug, Clone, Copy, Default, PartialEq, Eq, Structural, Hash, PartialOrd, Ord)]
pub struct Modifiers {
    /// The platform's primary accelerator: Command on macOS, Control else.
    pub primary: bool,
    /// Control, where it is genuinely meant as Control on every platform.
    pub control: bool,
    /// Shift.
    pub shift: bool,
    /// Option / Alt.
    pub alt: bool,
}

impl Modifiers {
    /// No modifiers.
    pub fn none() -> (r: Self)
        ensures
            !r.primary && !r.control && !r.shift && !r.alt,
    {
        Self { primary: false, control: false, shift: false, alt: false }
    }

    /// Primary only.
    pub fn primary_only() -> (r: Self)
        ensures
            r.primary && !r.control && !r.shift && !r.alt,
    {
        Self { primary: true, control: false, shift: false, alt: false }
    }

    /// Whether any modifier is held.
    pub fn any(self) -> (r: bool)
        ensures
            r == (self.primary || self.control || self.shift || self.alt),
    {
        self.primary || self.control || self.shift || self.alt
    }
}

/// A key, independent of layout and of any toolkit's key codes.
#[derive(Debug, Clone, Copy, PartialEq, Eq, Structural, Hash, PartialOrd, Ord)]
pub enum Key {
    /// A printable character key.
    Char(char),
    /// A function key, 1-based.
    Function(u8),
    /// Arrow up.
    Up,
    /// Arrow down.
    Down,
    /// Arrow left.
    Left,
    /// Arrow right.
    Right,
    /// Enter / Return.
    Enter,
    /// Escape.
    Escape,
    /// Space. Distinct from `Char(' ')` because it is a command key here.
    Space,
    /// Tab.
    Tab,
    /// Backspace.
    Backspace,
    /// Delete forward.
    Delete,
    /// Home.
    Home,
    /// End.
    End,
    /// Page up.
    PageUp,
    /// Page down.
    PageDown,
    /// Insert.
    Insert,
}

/// A modifier combination plus a key.
#[derive(Debug, Clone, Copy, PartialEq, Eq, Structural, Hash, PartialOrd, Ord)]
pub struct KeyChord {
    /// Modifier state.
    pub modifiers: Modifiers,
    /// The key.
    pub key: Key,
}

/// The position of a key's variant in the declaration.
pub open spec fn key_variant(k: Key) -> int {
    match k {
        Key::Char(_) => 0,
        Key::Function(_) => 1,
        Key::Up => 2,
        Key::Down => 3,
        Key::Left => 4,
        Key::Right => 5,
        Key::Enter => 6,
        Key::Escape => 7,
        Key::Space => 8,
        Key::Tab => 9,
        Key::Backspace => 10,
        Key::Delete => 11,
        Key::Home => 12,
        Key::End => 13,
        Key::PageUp => 14,
        Key::PageDown => 15,
        Key::Insert => 16,
    }
}

/// What a key carries.
pub open spec fn key_payload(k: Key) -> int {
    match k {
        Key::Char(c) => c as int,
        Key::Function(n) => n as int,
        _ => 0,
    }
}

/// The modifiers as four bits, in field order.
pub open spec fn modifier_bits(m: Modifiers) -> int {
    (if m.primary { 8int } else { 0 }) + (if m.control { 4int } else { 0 }) + (if m.shift {
        2int
    } else {
        0
    }) + (if m.alt { 1int } else { 0 })
}

/// A number for each chord that orders chords the way their derived `Ord`
/// does: modifiers first, field by field, then the key's variant, then what
/// it carries.
pub open spec fn chord_rank(c: KeyChord) -> int {
    modifier_bits(c.modifiers) * 0x100_0000_0000 + key_variant(c.key) * 0x1_0000_0000
        + key_payload(c.key)
}

/// Different chords have different ranks.
pub proof fn lemma_rank_injective(a: KeyChord, b: KeyChord)
    requires
        chord_rank(a) == chord_rank(b),
    ensures
        a == b,
{
    assert(0 <= key_payload(a.key) < 0x1_0000_0000);
    assert(0 <= key_payload(b.key) < 0x1_0000_0000);
    assert(modifier_bits(a.modifiers) == modifier_bits(b.modifiers));
    assert(key_variant(a.key) == key_variant(b.key));
    assert(key_payload(a.key) == key_payload(b.key));
    assert(a.modifiers == b.modifiers);
    match a.key {
        Key::Char(c) => {
            if let Key::Char(d) = b.key {
                assert(c as int == d as int);
            }
        },
        _ => {},
    }
}

impl KeyChord {
    /// A chord.
    pub fn new(modifiers: Modifiers, key: Key) -> (r: Self)
        ensures
            r.modifiers == modifiers && r.key == key,
    {
        Self { modifiers, key }
    }

    /// A chord with no modifiers.
    pub fn plain(key: Key) -> (r: Self)
        ensures
            !r.modifiers.primary && !r.modifiers.control && !r.modifiers.shift && !r.modifiers.alt,
            r.key == key,
    {
        Self { modifiers: Modifiers::none(), key }
    }

    /// The chord's rank, for keeping bindings in chord order.
    pub fn rank(&self) -> (r: u64)
        ensures
            r as int == chord_rank(*self),
    {
        let m: u64 = (if self.modifiers.primary { 8u64 } else { 0 }) + (if self.modifiers.control {
            4u64
        } else {
            0
        }) + (if self.modifiers.shift { 2u64 } else { 0 }) + (if self.modifiers.alt {
            1u64
        } else {
            0
        });
        let (v, p): (u64, u64) = match self.key {
            Key::Char(c) => (0, c as u64),
            Key::Function(n) => (1, n as u64),
            Key::Up => (2, 0),
            Key::Down => (3, 0),
            Key::Left => (4, 0),
            Key::Right => (5, 0),
            Key::Enter => (6, 0),
            Key::Escape => (7, 0),
            Key::Space => (8, 0),
            Key::Tab => (9, 0),
            Key::Backspace => (10, 0),
            Key::Delete => (11, 0),
            Key::Home => (12, 0),
            Key::End => (13, 0),
            Key::PageUp => (14, 0),
            Key::PageDown => (15, 0),
            Key::Insert => (16, 0),
        };
        m * 0x100_0000_0000 + v * 0x1_0000_0000 + p
    }
}

/// Why a keymap was rejected.
#[derive(Debug, Clone, PartialEq, Eq)]
pub enum KeymapError {
    /// A modifier name was not recognised.
    UnknownModifier(String),
    /// A key name was not recognised.
    UnknownKey(String),
    /// Two bindings claim the same chord.
    Conflict {
        /// The contested chord, as written.
        chord: String,
        /// The command bound first.
        existing: CommandId,
        /// The command that tried to take it.
        incoming: CommandId,
    },
    /// A binding names a command that does not exist.
    UnknownCommand(CommandId),
    /// A line could not be read as `chord = command`.
    MalformedLine {
        /// 1-based line number.
        line: usize,
    },
}

/// A [`KeymapError`] with its text as character sequences.
pub enum KeymapFault {
    /// A modifier name was not recognised.
    UnknownModifier(Seq<char>),
    /// A key name was not recognised.
    UnknownKey(Seq<char>),
    /// Two bindings claim the same chord.
    Conflict { chord: Seq<char>, existing: Seq<char>, incoming: Seq<char> },
    /// A binding names a command that does not exist.
    UnknownCommand(Seq<char>),
    /// A line could not be read as `chord = command`.
    MalformedLine { line: int },
}

impl View for KeymapError {
    type V = KeymapFault;

    closed spec fn view(&self) -> KeymapFault {
        match self {
            KeymapError::UnknownModifier(s) => KeymapFault::UnknownModifier(s@),
            KeymapError::UnknownKey(s) => KeymapFault::UnknownKey(s@),
            KeymapError::Conflict { chord, existing, incoming } => KeymapFault::Conflict {
                chord: chord@,
                existing: existing@,
                incoming: incoming@,
            },
            KeymapError::UnknownCommand(id) => KeymapFault::UnknownCommand(id@),
            KeymapError::MalformedLine { line } => KeymapFault::MalformedLine { line: *line as int },
        }
    }
}

impl KeymapError {
    /// A description for developers.
    pub fn to_string(&self) -> (r: String)
        ensures
            r@ == error_text(self@),
    {
        let mut s = String::new();
        match self {
            KeymapError::UnknownModifier(m) => {
                push_str(&mut s, "unknown modifier: ");
                push_str(&mut s, m.as_str());
            },
            KeymapError::UnknownKey(k) => {
                push_str(&mut s, "unknown key: ");
                push_str(&mut s, k.as_str());
            },
            KeymapError::Conflict { chord, existing, incoming } => {
                push_str(&mut s, "chord ");
                push_str(&mut s, chord.as_str());
                push_str(&mut s, " is bound to both ");
                push_str(&mut s, existing.as_str());
                push_str(&mut s, " and ");
                push_str(&mut s, incoming.as_str());
            },
            KeymapError::UnknownCommand(id) => {
                push_str(&mut s, "binding names unknown command: ");
                push_str(&mut s, id.as_str());
            },
            KeymapError::MalformedLine { line } => {
                push_str(&mut s, "malformed binding on line ");
                let n = decimal_string(*line as u64);
                push_str(&mut s, n.as_str());
            },
        }
        s
    }
}

/// The developer-facing text of an error.
pub open spec fn error_text(e: KeymapFault) -> Seq<char> {
    match e {
        KeymapFault::UnknownModifier(m) => "unknown modifier: "@ + m,
        KeymapFault::UnknownKey(k) => "unknown key: "@ + k,
        KeymapFault::Conflict { chord, existing, incoming } => "chord "@ + chord
            + " is bound to both "@ + existing + " and "@ + incoming,
        KeymapFault::UnknownCommand(id) => "binding names unknown command: "@ + id,
        KeymapFault::MalformedLine { line } => "malformed binding on line "@ + decimal(
            line as nat,
        ),
    }
}

/// Which modifier a name sets: 0 primary, 1 control, 2 shift, 3 alt.
pub open spec fn modifier_named(t: Seq<char>) -> Option<u8> {
    if t == "primary"@ || t == "cmdorctrl"@ {
        Some(0)
    } else if t == "ctrl"@ || t == "control"@ {
        Some(1)
    } else if t == "shift"@ {
        Some(2)
    } else if t == "alt"@ || t == "option"@ || t == "opt"@ {
        Some(3)
    } else {
        None
    }
}

/// The key a name stands for, if it names one.
pub open spec fn named_key_spec(t: Seq<char>) -> Option<Key> {
    if t == "up"@ {
        Some(Key::Up)
    } else if t == "down"@ {
        Some(Key::Down)
    } else if t == "left"@ {
        Some(Key::Left)
    } else if t == "right"@ {
        Some(Key::Right)
    } else if t == "enter"@ {
        Some(Key::Enter)
    } else if t == "return"@ {
        Some(Key::Enter)
    } else if t == "escape"@ {
        Some(Key::Escape)
    } else if t == "esc"@ {
        Some(Key::Escape)
    } else if t == "space"@ {
        Some(Key::Space)
    } else if t == "tab"@ {
        Some(Key::Tab)
    } else if t == "backspace"@ {
        Some(Key::Backspace)
    } else if t == "delete"@ {
        Some(Key::Delete)
    } else if t == "del"@ {
        Some(Key::Delete)
    } else if t == "home"@ {
        Some(Key::Home)
    } else if t == "end"@ {
        Some(Key::End)
    } else if t == "pageup"@ {
        Some(Key::PageUp)
    } else if t == "pagedown"@ {
        Some(Key::PageDown)
    } else if t == "insert"@ {
        Some(Key::Insert)
    } else if t == "ins"@ {
        Some(Key::Insert)
    } else if t == "comma"@ {
        Some(Key::Char(','))
    } else if t == "period"@ {
        Some(Key::Char('.'))
    } else if t == "dot"@ {
        Some(Key::Char('.'))
    } else if t == "minus"@ {
        Some(Key::Char('-'))
    } else if t == "dash"@ {
        Some(Key::Char('-'))
    } else if t == "equal"@ {
        Some(Key::Char('='))
    } else if t == "plus"@ {
        Some(Key::Char('+'))
    } else if t == "asterisk"@ {
        Some(Key::Char('*'))
    } else if t == "star"@ {
        Some(Key::Char('*'))
    } else if t == "underscore"@ {
        Some(Key::Char('_'))
    } else if t == "slash"@ {
        Some(Key::Char('/'))
    } else if t == "backslash"@ {
        Some(Key::Char('\\'))
    } else if t == "semicolon"@ {
        Some(Key::Char(';'))
    } else if t == "quote"@ {
        Some(Key::Char('\''))
    } else if t == "bracketleft"@ {
        Some(Key::Char('['))
    } else if t == "bracketright"@ {
        Some(Key::Char(']'))
    } else if t == "grave"@ {
        Some(Key::Char('`'))
    } else if t == "backtick"@ {
        Some(Key::Char('`'))
    } else {
        None
    }
}

/// A key name read: a function key `f1` to `f24`, a named key, or a single
/// character.
pub open spec fn spec_parse_key(t: Seq<char>) -> Result<Key, KeymapFault> {
    match function_key_number(t) {
        Some(n) => Ok(Key::Function(n as u8)),
        None => match named_key_spec(t) {
            Some(k) => Ok(k),
            None => if t.len() == 1 {
                Ok(Key::Char(t[0]))
            } else {
                Err(KeymapFault::UnknownKey(t))
            },
        },
    }
}

/// The number of a function key name `f1` to `f24`.
pub open spec fn function_key_number(t: Seq<char>) -> Option<int> {
    if t.len() > 0 && t[0] == 'f' {
        match parse_unsigned(t.drop_first(), 10, 255) {
            Some(n) => if 1 <= n <= 24 {
                Some(n)
            } else {
                None
            },
            None => None,
        }
    } else {
        None
    }
}

/// The chord the `+`-separated parts from `i` on make, given the modifiers
/// and key read so far.
pub open spec fn chord_from_parts(
    parts: Seq<Seq<char>>,
    i: int,
    text: Seq<char>,
    m: Modifiers,
    key: Option<Key>,
) -> Result<KeyChord, KeymapFault>
    decreases parts.len() - i,
{
    if i < 0 || i >= parts.len() {
        match key {
            Some(k) => Ok(KeyChord { modifiers: m, key: k }),
            None => Err(KeymapFault::UnknownKey(text)),
        }
    } else {
        let part = trim(parts[i]);
        match modifier_named(part) {
            Some(0) => chord_from_parts(parts, i + 1, text, Modifiers { primary: true, ..m }, key),
            Some(1) => chord_from_parts(parts, i + 1, text, Modifiers { control: true, ..m }, key),
            Some(2) => chord_from_parts(parts, i + 1, text, Modifiers { shift: true, ..m }, key),
            Some(_) => chord_from_parts(parts, i + 1, text, Modifiers { alt: true, ..m }, key),
            None => if part.len() == 0 {
                Err(KeymapFault::UnknownModifier(text))
            } else if key is Some {
                Err(KeymapFault::UnknownModifier(part))
            } else {
                match spec_parse_key(part) {
                    Ok(k) => chord_from_parts(parts, i + 1, text, m, Some(k)),
                    Err(e) => Err(e),
                }
            },
        }
    }
}

/// A chord as `KeyChord::parse` reads it: trimmed and lowercased (ASCII),
/// split at `+`, each part a modifier name or the one key.
pub open spec fn spec_parse_chord(text: Seq<char>) -> Result<KeyChord, KeymapFault> {
    let lowered = trim(text).map_values(|c: char| ascii_lower(c));
    if lowered.len() == 0 {
        Err(KeymapFault::UnknownKey(text))
    } else {
        chord_from_parts(
            split_seq(lowered, '+'),
            0,
            text,
            Modifiers { primary: false, control: false, shift: false, alt: false },
            None,
        )
    }
}

fn named_key(t: &[char]) -> (r: Option<Key>)
    ensures
        r == named_key_spec(t@),
{
    if chars_eq(t, chars_of("up").as_slice()) {
        Some(Key::Up)
    } else if chars_eq(t, chars_of("down").as_slice()) {
        Some(Key::Down)
    } else if chars_eq(t, chars_of("left").as_slice()) {
        Some(Key::Left)
    } else if chars_eq(t, chars_of("right").as_slice()) {
        Some(Key::Right)
    } else if chars_eq(t, chars_of("enter").as_slice()) {
        Some(Key::Enter)
    } else if chars_eq(t, chars_of("return").as_slice()) {
        Some(Key::Enter)
    } else if chars_eq(t, chars_of("escape").as_slice()) {
        Some(Key::Escape)
    } else if chars_eq(t, chars_of("esc").as_slice()) {
        Some(Key::Escape)
    } else if chars_eq(t, chars_of("space").as_slice()) {
        Some(Key::Space)
    } else if chars_eq(t, chars_of("tab").as_slice()) {
        Some(Key::Tab)
    } else if chars_eq(t, chars_of("backspace").as_slice()) {
        Some(Key::Backspace)
    } else if chars_eq(t, chars_of("delete").as_slice()) {
        Some(Key::Delete)
    } else if chars_eq(t, chars_of("del").as_slice()) {
        Some(Key::Delete)
    } else if chars_eq(t, chars_of("home").as_slice()) {
        Some(Key::Home)
    } else if chars_eq(t, chars_of("end").as_slice()) {
        Some(Key::End)
    } else if chars_eq(t, chars_of("pageup").as_slice()) {
        Some(Key::PageUp)
    } else if chars_eq(t, chars_of("pagedown").as_slice()) {
        Some(Key::PageDown)
    } else if chars_eq(t, chars_of("insert").as_slice()) {
        Some(Key::Insert)
    } else if chars_eq(t, chars_of("ins").as_slice()) {
        Some(Key::Insert)
    } else if chars_eq(t, chars_of("comma").as_slice()) {
        Some(Key::Char(','))
    } else if chars_eq(t, chars_of("period").as_slice()) {
        Some(Key::Char('.'))
    } else if chars_eq(t, chars_of("dot").as_slice()) {
        Some(Key::Char('.'))
    } else if chars_eq(t, chars_of("minus").as_slice()) {
        Some(Key::Char('-'))
    } else if chars_eq(t, chars_of("dash").as_slice()) {
        Some(Key::Char('-'))
    } else if chars_eq(t, chars_of("equal").as_slice()) {
        Some(Key::Char('='))
    } else if chars_eq(t, chars_of("plus").as_slice()) {
        Some(Key::Char('+'))
    } else if chars_eq(t, chars_of("asterisk").as_slice()) {
        Some(Key::Char('*'))
    } else if chars_eq(t, chars_of("star").as_slice()) {
        Some(Key::Char('*'))
    } else if chars_eq(t, chars_of("underscore").as_slice()) {
        Some(Key::Char('_'))
    } else if chars_eq(t, chars_of("slash").as_slice()) {
        Some(Key::Char('/'))
    } else if chars_eq(t, chars_of("backslash").as_slice()) {
        Some(Key::Char('\\'))
    } else if chars_eq(t, chars_of("semicolon").as_slice()) {
        Some(Key::Char(';'))
    } else if chars_eq(t, chars_of("quote").as_slice()) {
        Some(Key::Char('\''))
    } else if chars_eq(t, chars_of("bracketleft").as_slice()) {
        Some(Key::Char('['))
    } else if chars_eq(t, chars_of("bracketright").as_slice()) {
        Some(Key::Char(']'))
    } else if chars_eq(t, chars_of("grave").as_slice()) {
        Some(Key::Char('`'))
    } else if chars_eq(t, chars_of("backtick").as_slice()) {
        Some(Key::Char('`'))
    } else {
        None
    }
}

fn modifier_of(t: &[char]) -> (r: Option<u8>)
    ensures
        r == modifier_named(t@),
{
    if chars_eq(t, chars_of("primary").as_slice()) || chars_eq(t, chars_of("cmdorctrl").as_slice()) {
        Some(0)
    } else if chars_eq(t, chars_of("ctrl").as_slice()) || chars_eq(
        t,
        chars_of("control").as_slice(),
    ) {
        Some(1)
    } else if chars_eq(t, chars_of("shift").as_slice()) {
        Some(2)
    } else if chars_eq(t, chars_of("alt").as_slice()) || chars_eq(t, chars_of("option").as_slice())
        || chars_eq(t, chars_of("opt").as_slice()) {
        Some(3)
    } else {
        None
    }
}

/// Read one key name.
fn parse_key(t: &[char]) -> (r: Result<Key, KeymapError>)
    ensures
        r matches Ok(k) ==> spec_parse_key(t@) == Ok::<Key, KeymapFault>(k),
        r matches Err(e) ==> spec_parse_key(t@) == Err::<Key, KeymapFault>(e@),
{
    if t.len() > 0 && t[0] == 'f' {
        let rest = slice_to_vec(t, 1, t.len());
        proof {
            assert(rest@ =~= t@.drop_first());
        }
        if let Some(n) = parse_unsigned_chars(rest.as_slice(), 10, 255) {
            if 1 <= n && n <= 24 {
                return Ok(Key::Function(n as u8));
            }
        }
    }
    if let Some(k) = named_key(t) {
        return Ok(k);
    }
    if t.len() == 1 {
        return Ok(Key::Char(t[0]));
    }
    Err(KeymapError::UnknownKey(crate::text::string_of(t)))
}

impl KeyChord {
    /// Parse a chord such as `primary+shift+n`, `f5`, `space`.
    pub fn parse(text: &str) -> (r: Result<Self, KeymapError>)
        ensures
            r matches Ok(c) ==> spec_parse_chord(text@) == Ok::<KeyChord, KeymapFault>(c),
            r matches Err(e) ==> spec_parse_chord(text@) == Err::<KeyChord, KeymapFault>(e@),
    {
        let all = chars_of(text);
        let trimmed = trim_chars(all.as_slice());
        let lowered = lower_chars(trimmed.as_slice());
        if lowered.len() == 0 {
            return Err(KeymapError::UnknownKey(text.to_owned()));
        }
        let parts = split_chars(lowered.as_slice(), '+');
        let ghost pv = parts@.map_values(|v: Vec<char>| v@);
        let mut modifiers = Modifiers::none();
        let mut key: Option<Key> = None;
        let mut i: usize = 0;
        while i < parts.len()
            invariant
                i <= parts@.len(),
                pv == parts@.map_values(|v: Vec<char>| v@),
                pv == split_seq(lowered@, '+'),
                lowered@ == trim(text@).map_values(|c: char| ascii_lower(c)),
                lowered@.len() > 0,
                spec_parse_chord(text@) == chord_from_parts(pv, i as int, text@, modifiers, key),
            decreases parts.len() - i,
        {
            let part = trim_chars(parts[i].as_slice());
            proof {
                assert(pv[i as int] == parts@[i as int]@);
            }
            match modifier_of(part.as_slice()) {
                Some(0) => {
                    modifiers.primary = true;
                },
                Some(1) => {
                    modifiers.control = true;
                },
                Some(2) => {
                    modifiers.shift = true;
                },
                Some(_) => {
                    modifiers.alt = true;
                },
                None => {
                    if part.len() == 0 {
                        return Err(KeymapError::UnknownModifier(text.to_owned()));
                    }
                    if key.is_some() {
                        return Err(KeymapError::UnknownModifier(crate::text::string_of(part.as_slice())));
                    }
                    match parse_key(part.as_slice()) {
                        Ok(k) => {
                            key = Some(k);
                        },
                        Err(e) => {
                            return Err(e);
                        },
                    }
                },
            }
            i += 1;
        }
        match key {
            Some(k) => Ok(Self { modifiers, key: k }),
            None => Err(KeymapError::UnknownKey(text.to_owned())),
        }
    }
}

/// What `char::to_lowercase` yields for a character.
pub uninterp spec fn lowercase_of(c: char) -> Seq<char>;

/// What `char::to_uppercase` yields for a character.
pub uninterp spec fn uppercase_of(c: char) -> Seq<char>;

/// `char::to_lowercase`, collected: the Unicode lowercase mapping, which
/// the name stands for.
#[verifier::external_body]
fn char_lowercase(c: char) -> (r: String)
    ensures
        r@ == lowercase_of(c),
{
    c.to_lowercase().to_string()
}

/// `char::to_uppercase`, collected: the Unicode uppercase mapping, which
/// the name stands for.
#[verifier::external_body]
fn char_uppercase(c: char) -> (r: String)
    ensures
        r@ == uppercase_of(c),
{
    c.to_uppercase().to_string()
}

/// One character, lowercased the Unicode way; ASCII by ASCII's rule.
fn lowercase_text(c: char) -> (r: String)
    ensures
        (c as u32) < 128 ==> r@ == seq![ascii_lower(c)],
        (c as u32) >= 128 ==> r@ == lowercase_of(c),
{
    if (c as u32) < 128 {
        let mut s = String::new();
        push_char(&mut s, crate::text::to_ascii_lower(c));
        s
    } else {
        char_lowercase(c)
    }
}

/// One character, uppercased the Unicode way; ASCII by ASCII's rule.
fn uppercase_text(c: char) -> (r: String)
    ensures
        (c as u32) < 128 ==> r@ == seq![ascii_upper(c)],
        (c as u32) >= 128 ==> r@ == uppercase_of(c),
{
    if (c as u32) < 128 {
        let mut s = String::new();
        push_char(&mut s, crate::text::to_ascii_upper(c));
        s
    } else {
        char_uppercase(c)
    }
}

/// The name a punctuation key is written with, so that a keymap file never
/// has to hold a bare `,`, `=`, `+` or `#`.
pub open spec fn punctuation_name(c: char) -> Option<Seq<char>> {
    if c == ',' {
        Some("comma"@)
    } else if c == '.' {
        Some("period"@)
    } else if c == '-' {
        Some("minus"@)
    } else if c == '=' {
        Some("equal"@)
    } else if c == '+' {
        Some("plus"@)
    } else if c == '*' {
        Some("asterisk"@)
    } else if c == '_' {
        Some("underscore"@)
    } else if c == '/' {
        Some("slash"@)
    } else if c == '\\' {
        Some("backslash"@)
    } else if c == ';' {
        Some("semicolon"@)
    } else if c == '\'' {
        Some("quote"@)
    } else if c == '[' {
        Some("bracketleft"@)
    } else if c == ']' {
        Some("bracketright"@)
    } else if c == '`' {
        Some("grave"@)
    } else {
        None
    }
}

fn punctuation_name_of(c: char) -> (r: Option<&'static str>)
    ensures
        r matches Some(t) ==> punctuation_name(c) == Some(t@),
        r is None ==> punctuation_name(c) is None,
{
    let r = if c == ',' {
        Some("comma")
    } else if c == '.' {
        Some("period")
    } else if c == '-' {
        Some("minus")
    } else if c == '=' {
        Some("equal")
    } else if c == '+' {
        Some("plus")
    } else if c == '*' {
        Some("asterisk")
    } else if c == '_' {
        Some("underscore")
    } else if c == '/' {
        Some("slash")
    } else if c == '\\' {
        Some("backslash")
    } else if c == ';' {
        Some("semicolon")
    } else if c == '\'' {
        Some("quote")
    } else if c == '[' {
        Some("bracketleft")
    } else if c == ']' {
        Some("bracketright")
    } else if c == '`' {
        Some("grave")
    } else {
        None
    };
    r
}

/// How a key is written in a keymap file.
pub open spec fn key_source_name(k: Key) -> Seq<char> {
    match k {
        Key::Char(c) => match punctuation_name(c) {
            Some(n) => n,
            None => if (c as u32) < 128 {
                seq![ascii_lower(c)]
            } else {
                lowercase_of(c)
            },
        },
        Key::Function(n) => "f"@ + decimal(n as nat),
        Key::Up => "up"@,
        Key::Down => "down"@,
        Key::Left => "left"@,
        Key::Right => "right"@,
        Key::Enter => "enter"@,
        Key::Escape => "escape"@,
        Key::Space => "space"@,
        Key::Tab => "tab"@,
        Key::Backspace => "backspace"@,
        Key::Delete => "delete"@,
        Key::Home => "home"@,
        Key::End => "end"@,
        Key::PageUp => "pageup"@,
        Key::PageDown => "pagedown"@,
        Key::Insert => "insert"@,
    }
}

/// How a key is written for the toolkit's shortcut parser.
pub open spec fn key_portable_name(k: Key) -> Seq<char> {
    match k {
        Key::Char(c) => if (c as u32) < 128 {
            seq![ascii_upper(c)]
        } else {
            uppercase_of(c)
        },
        Key::Function(n) => "F"@ + decimal(n as nat),
        Key::Up => "Up"@,
        Key::Down => "Down"@,
        Key::Left => "Left"@,
        Key::Right => "Right"@,
        Key::Enter => "Return"@,
        Key::Escape => "Esc"@,
        Key::Space => "Space"@,
        Key::Tab => "Tab"@,
        Key::Backspace => "Backspace"@,
        Key::Delete => "Delete"@,
        Key::Home => "Home"@,
        Key::End => "End"@,
        Key::PageUp => "PgUp"@,
        Key::PageDown => "PgDown"@,
        Key::Insert => "Ins"@,
    }
}

/// A chord in the keymap file's syntax: the modifiers in the order primary,
/// ctrl, alt, shift, each followed by `+`, then the key.
pub open spec fn chord_source_text(c: KeyChord) -> Seq<char> {
    (if c.modifiers.primary { "primary+"@ } else { Seq::empty() }) + (if c.modifiers.control {
        "ctrl+"@
    } else {
        Seq::empty()
    }) + (if c.modifiers.alt { "alt+"@ } else { Seq::empty() }) + (if c.modifiers.shift {
        "shift+"@
    } else {
        Seq::empty()
    }) + key_source_name(c.key)
}

/// A chord as the toolkit's shortcut parser reads it: `Ctrl` for primary,
/// `Meta` for a real Control, then `Alt`, `Shift` and the key, joined by `+`.
pub open spec fn chord_portable_text(c: KeyChord) -> Seq<char> {
    (if c.modifiers.primary { "Ctrl+"@ } else { Seq::empty() }) + (if c.modifiers.control {
        "Meta+"@
    } else {
        Seq::empty()
    }) + (if c.modifiers.alt { "Alt+"@ } else { Seq::empty() }) + (if c.modifiers.shift {
        "Shift+"@
    } else {
        Seq::empty()
    }) + key_portable_name(c.key)
}

/// The toolkit's shortcut parser reads each named key by its own name:
/// Page Up is `PgUp` and Page Down `PgDown`, Enter is `Return`, Escape
/// `Esc`, Insert `Ins`, a function key `F` and its number, and a chord is
/// its modifiers, each followed by `+`, then that name.
pub proof fn law_portable_key_names(c: KeyChord)
    ensures
        c.key == Key::PageUp ==> key_portable_name(c.key) == seq!['P', 'g', 'U', 'p'],
        c.key == Key::PageDown ==> key_portable_name(c.key) == seq!['P', 'g', 'D', 'o', 'w', 'n'],
        c.key == Key::Up ==> key_portable_name(c.key) == seq!['U', 'p'],
        c.key == Key::Down ==> key_portable_name(c.key) == seq!['D', 'o', 'w', 'n'],
        c.key == Key::Left ==> key_portable_name(c.key) == seq!['L', 'e', 'f', 't'],
        c.key == Key::Right ==> key_portable_name(c.key) == seq!['R', 'i', 'g', 'h', 't'],
        c.key == Key::Enter ==> key_portable_name(c.key) == seq!['R', 'e', 't', 'u', 'r', 'n'],
        c.key == Key::Escape ==> key_portable_name(c.key) == seq!['E', 's', 'c'],
        c.key == Key::Space ==> key_portable_name(c.key) == seq!['S', 'p', 'a', 'c', 'e'],
        c.key == Key::Tab ==> key_portable_name(c.key) == seq!['T', 'a', 'b'],
        c.key == Key::Backspace ==> key_portable_name(c.key) == seq!['B', 'a', 'c', 'k', 's', 'p', 'a', 'c', 'e'],
        c.key == Key::Delete ==> key_portable_name(c.key) == seq!['D', 'e', 'l', 'e', 't', 'e'],
        c.key == Key::Home ==> key_portable_name(c.key) == seq!['H', 'o', 'm', 'e'],
        c.key == Key::End ==> key_portable_name(c.key) == seq!['E', 'n', 'd'],
        c.key == Key::Insert ==> key_portable_name(c.key) == seq!['I', 'n', 's'],
        c.key matches Key::Function(n) ==> key_portable_name(c.key) == seq!['F'] + decimal(n as nat),
        !c.modifiers.primary && !c.modifiers.control && !c.modifiers.alt && !c.modifiers.shift ==> chord_portable_text(c) == key_portable_name(c.key),
        c.modifiers.primary && !c.modifiers.control && !c.modifiers.alt && !c.modifiers.shift ==> chord_portable_text(c) == seq!['C', 't', 'r', 'l', '+'] + key_portable_name(c.key),
{
    reveal_strlit("PgUp");
    reveal_strlit("PgDown");
    reveal_strlit("Up");
    reveal_strlit("Down");
    reveal_strlit("Left");
    reveal_strlit("Right");
    reveal_strlit("Return");
    reveal_strlit("Esc");
    reveal_strlit("Space");
    reveal_strlit("Tab");
    reveal_strlit("Backspace");
    reveal_strlit("Delete");
    reveal_strlit("Home");
    reveal_strlit("End");
    reveal_strlit("Ins");
    reveal_strlit("F");
    reveal_strlit("Ctrl+");
    assert(Seq::<char>::empty() + Seq::<char>::empty() + Seq::<char>::empty() + Seq::<char>::empty()
        + key_portable_name(c.key) =~= key_portable_name(c.key));
    assert("Ctrl+"@ + Seq::<char>::empty() + Seq::<char>::empty() + Seq::<char>::empty()
        + key_portable_name(c.key) =~= seq!['C', 't', 'r', 'l', '+'] + key_portable_name(c.key));
    match c.key {
        Key::PageUp => assert("PgUp"@ =~= seq!['P', 'g', 'U', 'p']),
        Key::PageDown => assert("PgDown"@ =~= seq!['P', 'g', 'D', 'o', 'w', 'n']),
        Key::Up => assert("Up"@ =~= seq!['U', 'p']),
        Key::Down => assert("Down"@ =~= seq!['D', 'o', 'w', 'n']),
        Key::Left => assert("Left"@ =~= seq!['L', 'e', 'f', 't']),
        Key::Right => assert("Right"@ =~= seq!['R', 'i', 'g', 'h', 't']),
        Key::Enter => assert("Return"@ =~= seq!['R', 'e', 't', 'u', 'r', 'n']),
        Key::Escape => assert("Esc"@ =~= seq!['E', 's', 'c']),
        Key::Space => assert("Space"@ =~= seq!['S', 'p', 'a', 'c', 'e']),
        Key::Tab => assert("Tab"@ =~= seq!['T', 'a', 'b']),
        Key::Backspace => assert("Backspace"@ =~= seq!['B', 'a', 'c', 'k', 's', 'p', 'a', 'c', 'e']),
        Key::Delete => assert("Delete"@ =~= seq!['D', 'e', 'l', 'e', 't', 'e']),
        Key::Home => assert("Home"@ =~= seq!['H', 'o', 'm', 'e']),
        Key::End => assert("End"@ =~= seq!['E', 'n', 'd']),
        Key::Insert => assert("Ins"@ =~= seq!['I', 'n', 's']),
        Key::Function(n) => assert("F"@ =~= seq!['F']),
        _ => {},
    }
}

fn fixed_key_name(k: Key, portable: bool) -> (r: &'static str)
    requires
        !(k is Char) && !(k is Function),
    ensures
        !portable ==> r@ == key_source_name(k),
        portable ==> r@ == key_portable_name(k),
{
    match k {
        Key::Up => if portable { "Up" } else { "up" },
        Key::Down => if portable { "Down" } else { "down" },
        Key::Left => if portable { "Left" } else { "left" },
        Key::Right => if portable { "Right" } else { "right" },
        Key::Enter => if portable { "Return" } else { "enter" },
        Key::Escape => if portable { "Esc" } else { "escape" },
        Key::Space => if portable { "Space" } else { "space" },
        Key::Tab => if portable { "Tab" } else { "tab" },
        Key::Backspace => if portable { "Backspace" } else { "backspace" },
        Key::Delete => if portable { "Delete" } else { "delete" },
        Key::Home => if portable { "Home" } else { "home" },
        Key::End => if portable { "End" } else { "end" },
        Key::PageUp => if portable { "PgUp" } else { "pageup" },
        Key::PageDown => if portable { "PgDown" } else { "pagedown" },
        _ => if portable { "Ins" } else { "insert" },
    }
}

impl KeyChord {
    /// Render in the keymap file's own syntax, so a saved keymap reloads.
    pub fn to_source_text(&self) -> (r: String)
        ensures
            r@ == chord_source_text(*self),
    {
        let mut s = String::new();
        if self.modifiers.primary {
            push_str(&mut s, "primary+");
        }
        if self.modifiers.control {
            push_str(&mut s, "ctrl+");
        }
        if self.modifiers.alt {
            push_str(&mut s, "alt+");
        }
        if self.modifiers.shift {
            push_str(&mut s, "shift+");
        }
        let ghost prefix = s@;
        match self.key {
            Key::Char(c) => match punctuation_name_of(c) {
                Some(n) => push_str(&mut s, n),
                None => {
                    let l = lowercase_text(c);
                    push_str(&mut s, l.as_str());
                },
            },
            Key::Function(n) => {
                push_str(&mut s, "f");
                let d = decimal_string(n as u64);
                push_str(&mut s, d.as_str());
            },
            k => push_str(&mut s, fixed_key_name(k, false)),
        }
        proof {
            assert(s@ =~= chord_source_text(*self));
        }
        s
    }

    /// Render as a string the toolkit's shortcut parser accepts: `primary`
    /// becomes `Ctrl`, which the toolkit maps to Command on macOS, so one
    /// keymap file is right on every platform.
    pub fn to_portable_shortcut(&self) -> (r: String)
        ensures
            r@ == chord_portable_text(*self),
    {
        let mut s = String::new();
        if self.modifiers.primary {
            push_str(&mut s, "Ctrl+");
        }
        if self.modifiers.control {
            push_str(&mut s, "Meta+");
        }
        if self.modifiers.alt {
            push_str(&mut s, "Alt+");
        }
        if self.modifiers.shift {
            push_str(&mut s, "Shift+");
        }
        match self.key {
            Key::Char(c) => {
                let u = uppercase_text(c);
                push_str(&mut s, u.as_str());
            },
            Key::Function(n) => {
                push_str(&mut s, "F");
                let d = decimal_string(n as u64);
                push_str(&mut s, d.as_str());
            },
            k => push_str(&mut s, fixed_key_name(k, true)),
        }
        proof {
            assert(s@ =~= chord_portable_text(*self));
        }
        s
    }
}

/// Bindings whose chords rise strictly in rank: sorted, and no chord twice.
pub open spec fn in_chord_order(s: Seq<(KeyChord, Seq<char>)>) -> bool {
    forall|i: int, j: int|
        #![trigger s[i], s[j]]
        0 <= i < j < s.len() ==> chord_rank(s[i].0) < chord_rank(s[j].0)
}

/// Whether some binding has chord `k`.
pub open spec fn binds(s: Seq<(KeyChord, Seq<char>)>, k: KeyChord) -> bool {
    exists|i: int| 0 <= i < s.len() && (#[trigger] s[i]).0 == k
}

/// The command of a binding with chord `k`.
pub open spec fn bound_to(s: Seq<(KeyChord, Seq<char>)>, k: KeyChord) -> Seq<char> {
    s[choose|i: int| 0 <= i < s.len() && (#[trigger] s[i]).0 == k].1
}

/// Bindings as a map from chord to command.
pub open spec fn binding_map(s: Seq<(KeyChord, Seq<char>)>) -> Map<KeyChord, Seq<char>> {
    Map::new(|k: KeyChord| binds(s, k), |k: KeyChord| bound_to(s, k))
}

/// In chord order, the binding at `i` is what the map holds for its chord.
pub proof fn lemma_binding_at(s: Seq<(KeyChord, Seq<char>)>, i: int)
    requires
        in_chord_order(s),
        0 <= i < s.len(),
    ensures
        binding_map(s).contains_key(s[i].0),
        binding_map(s)[s[i].0] == s[i].1,
{
    assert(binds(s, s[i].0));
    let j = choose|j: int| 0 <= j < s.len() && (#[trigger] s[j]).0 == s[i].0;
    if j < i {
        assert(chord_rank(s[j].0) < chord_rank(s[i].0));
    } else if j > i {
        assert(chord_rank(s[i].0) < chord_rank(s[j].0));
    }
}

/// Putting a binding where its rank belongs keeps the order and adds it to
/// the map.
pub proof fn lemma_insert_binding(s: Seq<(KeyChord, Seq<char>)>, p: int, k: KeyChord, v: Seq<char>)
    requires
        in_chord_order(s),
        0 <= p <= s.len(),
        forall|i: int| 0 <= i < p ==> chord_rank(#[trigger] s[i].0) < chord_rank(k),
        p < s.len() ==> chord_rank(k) < chord_rank(s[p].0),
    ensures
        in_chord_order(s.insert(p, (k, v))),
        binding_map(s.insert(p, (k, v))) == binding_map(s).insert(k, v),
{
    let t = s.insert(p, (k, v));
    assert forall|i: int, j: int| 0 <= i < j < t.len() implies #[trigger] chord_rank(t[i].0)
        < #[trigger] chord_rank(t[j].0) by {
        if j < p {
        } else if i > p {
            assert(t[i] == s[i - 1] && t[j] == s[j - 1]);
        } else if i == p {
            assert(t[j] == s[j - 1]);
            if j - 1 > p {
                assert(chord_rank(s[p].0) < chord_rank(s[j - 1].0));
            }
        } else if j == p {
            assert(t[i] == s[i]);
        } else {
            assert(t[i] == s[i] && t[j] == s[j - 1]);
            assert(chord_rank(s[i].0) < chord_rank(k));
            if j - 1 > p {
                assert(chord_rank(s[p].0) < chord_rank(s[j - 1].0));
            }
        }
    }
    assert(in_chord_order(t));
    let m = binding_map(s).insert(k, v);
    assert forall|q: KeyChord| binding_map(t).contains_key(q) <==> m.contains_key(q) by {
        if binding_map(t).contains_key(q) {
            let i = choose|i: int| 0 <= i < t.len() && (#[trigger] t[i]).0 == q;
            if i < p {
                assert(t[i] == s[i]);
                lemma_binding_at(s, i);
            } else if i > p {
                assert(t[i] == s[i - 1]);
                lemma_binding_at(s, i - 1);
            }
        }
        if m.contains_key(q) {
            if q == k {
                assert(t[p] == (k, v));
                lemma_binding_at(t, p);
            } else {
                let i = choose|i: int| 0 <= i < s.len() && (#[trigger] s[i]).0 == q;
                if i < p {
                    assert(t[i] == s[i]);
                    lemma_binding_at(t, i);
                } else {
                    assert(t[i + 1] == s[i]);
                    lemma_binding_at(t, i + 1);
                }
            }
        }
    }
    assert forall|q: KeyChord| #[trigger] binding_map(t).contains_key(q) implies binding_map(t)[q]
        == m[q] by {
        let i = choose|i: int| 0 <= i < t.len() && (#[trigger] t[i]).0 == q;
        lemma_binding_at(t, i);
        if i < p {
            assert(t[i] == s[i]);
            lemma_binding_at(s, i);
        } else if i > p {
            assert(t[i] == s[i - 1]);
            lemma_binding_at(s, i - 1);
            assert(chord_rank(k) < chord_rank(s[i - 1].0)) by {
                if i - 1 > p {
                    assert(chord_rank(s[p].0) < chord_rank(s[i - 1].0));
                }
            }
        }
    }
    assert(binding_map(t) =~= m);
}

/// Taking a binding out keeps the order and drops its chord from the map.
pub proof fn lemma_remove_binding(s: Seq<(KeyChord, Seq<char>)>, p: int)
    requires
        in_chord_order(s),
        0 <= p < s.len(),
    ensures
        in_chord_order(s.remove(p)),
        binding_map(s.remove(p)) == binding_map(s).remove(s[p].0),
{
    let t = s.remove(p);
    let k = s[p].0;
    assert forall|i: int, j: int| 0 <= i < j < t.len() implies #[trigger] chord_rank(t[i].0)
        < #[trigger] chord_rank(t[j].0) by {
        if j < p {
        } else if i >= p {
            assert(t[i] == s[i + 1] && t[j] == s[j + 1]);
        } else {
            assert(t[i] == s[i] && t[j] == s[j + 1]);
        }
    }
    let m = binding_map(s).remove(k);
    assert forall|q: KeyChord| binding_map(t).contains_key(q) <==> m.contains_key(q) by {
        if binding_map(t).contains_key(q) {
            let i = choose|i: int| 0 <= i < t.len() && (#[trigger] t[i]).0 == q;
            if i < p {
                assert(t[i] == s[i]);
                lemma_binding_at(s, i);
                assert(chord_rank(s[i].0) < chord_rank(s[p].0));
            } else {
                assert(t[i] == s[i + 1]);
                lemma_binding_at(s, i + 1);
                assert(chord_rank(s[p].0) < chord_rank(s[i + 1].0));
            }
        }
        if m.contains_key(q) {
            let i = choose|i: int| 0 <= i < s.len() && (#[trigger] s[i]).0 == q;
            assert(i != p);
            if i < p {
                assert(t[i] == s[i]);
                lemma_binding_at(t, i);
            } else {
                assert(t[i - 1] == s[i]);
                lemma_binding_at(t, i - 1);
            }
        }
    }
    assert forall|q: KeyChord| #[trigger] binding_map(t).contains_key(q) implies binding_map(t)[q]
        == m[q] by {
        let i = choose|i: int| 0 <= i < t.len() && (#[trigger] t[i]).0 == q;
        lemma_binding_at(t, i);
        if i < p {
            assert(t[i] == s[i]);
            lemma_binding_at(s, i);
        } else {
            assert(t[i] == s[i + 1]);
            lemma_binding_at(s, i + 1);
        }
    }
    assert(binding_map(t) =~= m);
}

/// A map without the chords bound to `command`.
pub open spec fn without_command(m: Map<KeyChord, Seq<char>>, command: Seq<char>) -> Map<
    KeyChord,
    Seq<char>,
> {
    Map::new(|k: KeyChord| m.contains_key(k) && m[k] != command, |k: KeyChord| m[k])
}

/// The commands of some bindings, in order.
pub open spec fn commands_of(s: Seq<(KeyChord, Seq<char>)>) -> Seq<Seq<char>> {
    s.map_values(|e: (KeyChord, Seq<char>)| e.1)
}

/// Whether a binding's command is `command`.
pub open spec fn binding_has(command: Seq<char>) -> spec_fn((KeyChord, Seq<char>)) -> bool {
    |e: (KeyChord, Seq<char>)| e.1 == command
}

/// The chords bound to `command`, in chord order.
pub open spec fn chords_bound_to(s: Seq<(KeyChord, Seq<char>)>, command: Seq<char>) -> Seq<
    KeyChord,
> {
    s.filter(binding_has(command)).map_values(
        |e: (KeyChord, Seq<char>)| e.0,
    )
}

/// Putting one binding of `command` among bindings of other commands
/// leaves exactly its chord bound to `command`.
pub proof fn lemma_only_binding(s: Seq<(KeyChord, Seq<char>)>, at: int, chord: KeyChord, command: Seq<char>)
    requires
        0 <= at <= s.len(),
        forall|i: int| 0 <= i < s.len() ==> (#[trigger] s[i]).1 != command,
    ensures
        chords_bound_to(s.insert(at, (chord, command)), command) == seq![chord],
{
    let pred = binding_has(command);
    let a = s.take(at);
    let b = s.skip(at);
    assert(s.insert(at, (chord, command)) =~= a + seq![(chord, command)] + b);
    Seq::filter_distributes_over_add(a + seq![(chord, command)], b, pred);
    Seq::filter_distributes_over_add(a, seq![(chord, command)], pred);
    assert(a.all(|x: (KeyChord, Seq<char>)| !pred(x))) by {
        assert forall|i: int| 0 <= i < a.len() implies !pred(#[trigger] a[i]) by {
            assert(a[i] == s[i]);
        }
    }
    assert(b.all(|x: (KeyChord, Seq<char>)| !pred(x))) by {
        assert forall|i: int| 0 <= i < b.len() implies !pred(#[trigger] b[i]) by {
            assert(b[i] == s[at + i]);
        }
    }
    a.lemma_all_neg_filter_empty(pred);
    b.lemma_all_neg_filter_empty(pred);
    reveal_with_fuel(Seq::filter, 2);
    assert(seq![(chord, command)].filter(pred) =~= seq![(chord, command)]) by {
        assert(seq![(chord, command)].drop_last() =~= Seq::<(KeyChord, Seq<char>)>::empty());
    }
    assert(a.filter(pred) =~= Seq::<(KeyChord, Seq<char>)>::empty());
    assert(b.filter(pred) =~= Seq::<(KeyChord, Seq<char>)>::empty());
    assert(s.insert(at, (chord, command)).filter(pred) =~= seq![(chord, command)]);
    assert(seq![(chord, command)].map_values(|e: (KeyChord, Seq<char>)| e.0) =~= seq![chord]);
}

/// A named set of bindings.
///
/// A keymap can also record that a command is explicitly unbound, which is
/// different from not mentioning it: a user's own keymap is stored as a diff
/// against a preset, where "not mentioned" means "whatever the preset says".
#[derive(Debug, Clone, PartialEq, Eq)]
pub struct Keymap {
    name: String,
    bindings: Vec<(KeyChord, CommandId)>,
    unbound: TextMap<CommandId, ()>,
    type_ahead: bool,
}

impl Keymap {
    /// The keymap's name.
    pub closed spec fn spec_name(&self) -> Seq<char> {
        self.name@
    }

    /// The bindings in chord order, each command by its text.
    pub closed spec fn entries(&self) -> Seq<(KeyChord, Seq<char>)> {
        self.bindings@.map_values(|p: (KeyChord, CommandId)| (p.0, p.1@))
    }

    /// Chord to command.
    pub open spec fn bound(&self) -> Map<KeyChord, Seq<char>> {
        binding_map(self.entries())
    }

    /// The commands recorded as deliberately unbound, in id order.
    pub closed spec fn unbound_ids(&self) -> Seq<Seq<char>> {
        self.unbound.keys()
    }

    /// Whether bare printable keys jump to a file name.
    pub closed spec fn spec_type_ahead(&self) -> bool {
        self.type_ahead
    }

    /// Bindings in chord order; unbound ids sorted, each once.
    pub closed spec fn wf(&self) -> bool {
        &&& in_chord_order(self.entries())
        &&& self.unbound.wf()
    }

    /// A well-formed keymap's bindings are in chord order, each chord once,
    /// so each binding is what the map holds for its chord.
    pub proof fn lemma_chord_order(&self)
        requires
            self.wf(),
        ensures
            in_chord_order(self.entries()),
    {
    }

    /// An empty keymap, with type-ahead on.
    pub fn new(name: &str) -> (r: Self)
        ensures
            r.wf(),
            r.spec_name() == name@,
            r.entries() == Seq::<(KeyChord, Seq<char>)>::empty(),
            r.unbound_ids() == Seq::<Seq<char>>::empty(),
            r.spec_type_ahead(),
    {
        let r = Self {
            name: name.to_owned(),
            bindings: Vec::new(),
            unbound: TextMap::new(),
            type_ahead: true,
        };
        proof {
            assert(r.entries() =~= Seq::<(KeyChord, Seq<char>)>::empty());
            assert(r.unbound_ids() =~= Seq::<Seq<char>>::empty());
        }
        r
    }

    /// Whether a bare printable key jumps to a file name. True in the
    /// platform preset; false in a preset where a bare letter is a command.
    pub fn type_ahead(&self) -> (r: bool)
        ensures
            r == self.spec_type_ahead(),
    {
        self.type_ahead
    }

    /// Set whether bare printable keys jump to a file name.
    pub fn set_type_ahead(&mut self, on: bool)
        ensures
            final(self).spec_type_ahead() == on,
            final(self).spec_name() == old(self).spec_name(),
            final(self).entries() == old(self).entries(),
            final(self).unbound_ids() == old(self).unbound_ids(),
            final(self).wf() == old(self).wf(),
    {
        self.type_ahead = on;
    }

    /// The keymap's name.
    pub fn name(&self) -> (r: &str)
        ensures
            r@ == self.spec_name(),
    {
        self.name.as_str()
    }

    /// How many bindings there are.
    pub fn len(&self) -> (r: usize)
        ensures
            r == self.entries().len(),
    {
        self.bindings.len()
    }

    /// Whether there are no bindings.
    pub fn is_empty(&self) -> (r: bool)
        ensures
            r == (self.entries().len() == 0),
    {
        self.bindings.len() == 0
    }

    /// Where `chord` is, or where it would go.
    fn locate(&self, chord: &KeyChord) -> (r: (usize, bool))
        requires
            self.wf(),
        ensures
            r.0 <= self.entries().len(),
            forall|i: int| 0 <= i < r.0 ==> chord_rank(#[trigger] self.entries()[i].0) < chord_rank(*chord),
            r.1 <==> (r.0 < self.entries().len() && self.entries()[r.0 as int].0 == *chord),
            !r.1 && r.0 < self.entries().len() ==> chord_rank(*chord) < chord_rank(
                self.entries()[r.0 as int].0,
            ),
            r.1 <==> self.bound().contains_key(*chord),
    {
        let target = chord.rank();
        let ghost s = self.entries();
        let mut i: usize = 0;
        while i < self.bindings.len()
            invariant
                i <= s.len(),
                s == self.entries(),
                s.len() == self.bindings@.len(),
                in_chord_order(s),
                target as int == chord_rank(*chord),
                forall|j: int| 0 <= j < i ==> chord_rank(#[trigger] s[j].0) < target,
            decreases self.bindings.len() - i,
        {
            let here = self.bindings[i].0.rank();
            proof {
                assert(s[i as int].0 == self.bindings@[i as int].0);
            }
            if here >= target {
                if here == target {
                    proof {
                        lemma_rank_injective(s[i as int].0, *chord);
                        lemma_binding_at(s, i as int);
                    }
                    return (i, true);
                }
                proof {
                    if binds(s, *chord) {
                        let j = choose|j: int| 0 <= j < s.len() && (#[trigger] s[j]).0 == *chord;
                        if j > i {
                            assert(chord_rank(s[i as int].0) < chord_rank(s[j].0));
                        }
                    }
                }
                return (i, false);
            }
            i += 1;
        }
        proof {
            if binds(s, *chord) {
                let j = choose|j: int| 0 <= j < s.len() && (#[trigger] s[j]).0 == *chord;
                assert(chord_rank(s[j].0) < target);
            }
        }
        (i, false)
    }

    /// The command bound to a chord, as an id.
    ///
    /// This returns an id, never a handler.
    pub fn resolve(&self, chord: &KeyChord) -> (r: Option<&CommandId>)
        requires
            self.wf(),
        ensures
            r is Some <==> self.bound().contains_key(*chord),
            r matches Some(id) ==> id@ == self.bound()[*chord],
    {
        let (i, found) = self.locate(chord);
        if found {
            proof {
                lemma_binding_at(self.entries(), i as int);
            }
            Some(&self.bindings[i].1)
        } else {
            None
        }
    }

    /// Which command a chord is bound to, if any.
    pub fn command_for(&self, chord: &KeyChord) -> (r: Option<&CommandId>)
        requires
            self.wf(),
        ensures
            r is Some <==> self.bound().contains_key(*chord),
            r matches Some(id) ==> id@ == self.bound()[*chord],
    {
        self.resolve(chord)
    }

    /// Put a binding for a chord that has none where its rank belongs.
    fn insert_binding(&mut self, at: usize, chord: KeyChord, command: CommandId)
        requires
            old(self).wf(),
            at <= old(self).entries().len(),
            forall|i: int| 0 <= i < at ==> chord_rank(#[trigger] old(self).entries()[i].0) < chord_rank(chord),
            at < old(self).entries().len() ==> chord_rank(chord) < chord_rank(
                old(self).entries()[at as int].0,
            ),
        ensures
            final(self).wf(),
            final(self).entries() == old(self).entries().insert(at as int, (chord, command@)),
            final(self).bound() == old(self).bound().insert(chord, command@),
            final(self).spec_name() == old(self).spec_name(),
            final(self).unbound_ids() == old(self).unbound_ids(),
            final(self).spec_type_ahead() == old(self).spec_type_ahead(),
    {
        let ghost v = command@;
        self.bindings.insert(at, (chord, command));
        proof {
            assert(self.entries() =~= old(self).entries().insert(at as int, (chord, v)));
            lemma_insert_binding(old(self).entries(), at as int, chord, v);
        }
    }

    /// Take out the binding at a position.
    fn remove_binding(&mut self, at: usize) -> (r: CommandId)
        requires
            old(self).wf(),
            at < old(self).entries().len(),
        ensures
            final(self).wf(),
            r@ == old(self).entries()[at as int].1,
            final(self).entries() == old(self).entries().remove(at as int),
            final(self).bound() == old(self).bound().remove(old(self).entries()[at as int].0),
            final(self).spec_name() == old(self).spec_name(),
            final(self).unbound_ids() == old(self).unbound_ids(),
            final(self).spec_type_ahead() == old(self).spec_type_ahead(),
    {
        let (_, command) = self.bindings.remove(at);
        proof {
            assert(self.entries() =~= old(self).entries().remove(at as int));
            lemma_remove_binding(old(self).entries(), at as int);
        }
        command
    }
}

/// What `{:?}` writes for a flag.
pub open spec fn bool_debug_text(b: bool) -> Seq<char> {
    if b {
        "true"@
    } else {
        "false"@
    }
}

/// What the derived `Debug` writes for a key: the variant's name, and a
/// character or a function key's number in brackets.
pub open spec fn key_debug_text(k: Key) -> Seq<char> {
    match k {
        Key::Char(c) => "Char("@ + char_debug_text(c) + ")"@,
        Key::Function(n) => "Function("@ + decimal(n as nat) + ")"@,
        Key::Up => "Up"@,
        Key::Down => "Down"@,
        Key::Left => "Left"@,
        Key::Right => "Right"@,
        Key::Enter => "Enter"@,
        Key::Escape => "Escape"@,
        Key::Space => "Space"@,
        Key::Tab => "Tab"@,
        Key::Backspace => "Backspace"@,
        Key::Delete => "Delete"@,
        Key::Home => "Home"@,
        Key::End => "End"@,
        Key::PageUp => "PageUp"@,
        Key::PageDown => "PageDown"@,
        Key::Insert => "Insert"@,
    }
}

/// What the derived `Debug` writes for a chord, as a conflict reports it.
pub open spec fn chord_debug_text(c: KeyChord) -> Seq<char> {
    "KeyChord { modifiers: Modifiers { primary: "@ + bool_debug_text(c.modifiers.primary)
        + ", control: "@ + bool_debug_text(c.modifiers.control) + ", shift: "@
        + bool_debug_text(c.modifiers.shift) + ", alt: "@ + bool_debug_text(c.modifiers.alt)
        + " }, key: "@ + key_debug_text(c.key) + " }"@
}

/// Add a flag's `Debug` text.
fn push_bool_debug(s: &mut String, b: bool)
    ensures
        final(s)@ == old(s)@ + bool_debug_text(b),
{
    if b {
        push_str(s, "true");
    } else {
        push_str(s, "false");
    }
}

/// A key's `Debug` text.
fn key_debug(k: Key) -> (r: String)
    ensures
        r@ == key_debug_text(k),
{
    let mut s = String::new();
    match k {
        Key::Char(c) => {
            push_str(&mut s, "Char(");
            let t = char_debug(c);
            push_str(&mut s, t.as_str());
            push_str(&mut s, ")");
        },
        Key::Function(n) => {
            push_str(&mut s, "Function(");
            let t = decimal_string(n as u64);
            push_str(&mut s, t.as_str());
            push_str(&mut s, ")");
        },
        Key::Up => push_str(&mut s, "Up"),
        Key::Down => push_str(&mut s, "Down"),
        Key::Left => push_str(&mut s, "Left"),
        Key::Right => push_str(&mut s, "Right"),
        Key::Enter => push_str(&mut s, "Enter"),
        Key::Escape => push_str(&mut s, "Escape"),
        Key::Space => push_str(&mut s, "Space"),
        Key::Tab => push_str(&mut s, "Tab"),
        Key::Backspace => push_str(&mut s, "Backspace"),
        Key::Delete => push_str(&mut s, "Delete"),
        Key::Home => push_str(&mut s, "Home"),
        Key::End => push_str(&mut s, "End"),
        Key::PageUp => push_str(&mut s, "PageUp"),
        Key::PageDown => push_str(&mut s, "PageDown"),
        Key::Insert => push_str(&mut s, "Insert"),
    }
    proof {
        reveal_strlit("");
    }
    assert(s@ =~= key_debug_text(k));
    s
}

/// A chord's `Debug` text.
fn chord_debug(c: &KeyChord) -> (r: String)
    ensures
        r@ == chord_debug_text(*c),
{
    let mut s = String::new();
    push_str(&mut s, "KeyChord { modifiers: Modifiers { primary: ");
    push_bool_debug(&mut s, c.modifiers.primary);
    push_str(&mut s, ", control: ");
    push_bool_debug(&mut s, c.modifiers.control);
    push_str(&mut s, ", shift: ");
    push_bool_debug(&mut s, c.modifiers.shift);
    push_str(&mut s, ", alt: ");
    push_bool_debug(&mut s, c.modifiers.alt);
    push_str(&mut s, " }, key: ");
    let k = key_debug(c.key);
    push_str(&mut s, k.as_str());
    push_str(&mut s, " }");
    proof {
        reveal_strlit("");
    }
    assert(s@ =~= chord_debug_text(*c));
    s
}

impl Keymap {
    /// Remove every chord bound to a command; how many were removed.
    pub fn unbind_command(&mut self, command: &CommandId) -> (r: usize)
        requires
            old(self).wf(),
        ensures
            final(self).wf(),
            final(self).bound() == without_command(old(self).bound(), command@),
            r == old(self).entries().len() - final(self).entries().len(),
            final(self).spec_name() == old(self).spec_name(),
            final(self).unbound_ids() == old(self).unbound_ids(),
            final(self).spec_type_ahead() == old(self).spec_type_ahead(),
    {
        let ghost s = self.entries();
        let ghost c = command@;
        let mut kept: Vec<(KeyChord, CommandId)> = Vec::new();
        let mut i: usize = 0;
        while i < self.bindings.len()
            invariant
                i <= s.len(),
                s == self.entries(),
                s.len() == self.bindings@.len(),
                in_chord_order(s),
                c == command@,
                kept@.len() <= i,
                in_chord_order(kept@.map_values(|p: (KeyChord, CommandId)| (p.0, p.1@))),
                i < s.len() ==> forall|j: int|
                    0 <= j < kept@.len() ==> chord_rank(#[trigger] kept@[j].0) < chord_rank(s[i as int].0),
                forall|j: int|
                    0 <= j < kept@.len() ==> exists|t: int|
                        0 <= t < i && s[t] == (#[trigger] kept@[j].0, kept@[j].1@) && s[t].1 != c,
                forall|t: int|
                    0 <= t < i && #[trigger] s[t].1 != c ==> exists|j: int|
                        0 <= j < kept@.len() && s[t] == (#[trigger] kept@[j].0, kept@[j].1@),
            decreases self.bindings.len() - i,
        {
            let ghost kv = kept@.map_values(|p: (KeyChord, CommandId)| (p.0, p.1@));
            proof {
                assert(s[i as int] == (self.bindings@[i as int].0, self.bindings@[i as int].1@));
            }
            if !self.bindings[i].1.same_as(command) {
                let entry = (self.bindings[i].0, self.bindings[i].1.duplicate());
                let ghost ok = kept@;
                kept.push(entry);
                proof {
                    let nv = kept@.map_values(|p: (KeyChord, CommandId)| (p.0, p.1@));
                    assert(nv =~= kv.push(s[i as int]));
                    assert forall|a: int, b: int| 0 <= a < b < nv.len() implies #[trigger] chord_rank(
                        nv[a].0,
                    ) < #[trigger] chord_rank(nv[b].0) by {
                        if b < kv.len() {
                            assert(nv[a] == kv[a] && nv[b] == kv[b]);
                        } else {
                            assert(nv[a] == kv[a]);
                            assert(kv[a].0 == kept@[a].0);
                        }
                    }
                    if i + 1 < s.len() {
                        assert(chord_rank(s[i as int].0) < chord_rank(s[i + 1].0));
                    }
                    assert forall|t: int| 0 <= t < i + 1 && #[trigger] s[t].1 != c implies exists|j: int|
                        0 <= j < kept@.len() && s[t] == (#[trigger] kept@[j].0, kept@[j].1@) by {
                        if t == i {
                            let last = kept@.len() - 1;
                            assert(kept@[last] == entry);
                            assert(s[t] == (kept@[last].0, kept@[last].1@));
                        } else {
                            let j = choose|j: int|
                                0 <= j < ok.len() && s[t] == (#[trigger] ok[j].0, ok[j].1@);
                            assert(kept@[j] == ok[j]);
                        }
                    }
                }
            } else {
                proof {
                    if i + 1 < s.len() {
                        assert(chord_rank(s[i as int].0) < chord_rank(s[i + 1].0));
                    }
                }
            }
            i += 1;
        }
        let removed = self.bindings.len() - kept.len();
        self.bindings = kept;
        proof {
            let t = self.entries();
            let m = without_command(binding_map(s), c);
            assert forall|j: int| 0 <= j < t.len() implies exists|u: int|
                0 <= u < s.len() && s[u] == #[trigger] t[j] && s[u].1 != c by {
                assert(t[j] == (self.bindings@[j].0, self.bindings@[j].1@));
            }
            assert forall|q: KeyChord| binding_map(t).contains_key(q) <==> m.contains_key(q) by {
                if binding_map(t).contains_key(q) {
                    let j = choose|j: int| 0 <= j < t.len() && (#[trigger] t[j]).0 == q;
                    let u = choose|u: int| 0 <= u < s.len() && s[u] == #[trigger] t[j] && s[u].1 != c;
                    lemma_binding_at(s, u);
                }
                if m.contains_key(q) {
                    let u = choose|u: int| 0 <= u < s.len() && (#[trigger] s[u]).0 == q;
                    lemma_binding_at(s, u);
                    assert(s[u].1 != c);
                    let j = choose|j: int|
                        0 <= j < self.bindings@.len() && s[u] == (#[trigger] self.bindings@[j].0,
                        self.bindings@[j].1@);
                    assert(t[j] == s[u]);
                }
            }
            assert forall|q: KeyChord| #[trigger] binding_map(t).contains_key(q) implies binding_map(
                t,
            )[q] == m[q] by {
                let j = choose|j: int| 0 <= j < t.len() && (#[trigger] t[j]).0 == q;
                lemma_binding_at(t, j);
                let u = choose|u: int| 0 <= u < s.len() && s[u] == #[trigger] t[j] && s[u].1 != c;
                lemma_binding_at(s, u);
            }
            assert(binding_map(t) =~= m);
        }
        removed
    }

    /// Bind a chord. Binding a chord again to the command it already has
    /// changes nothing and is no error.
    pub fn bind(&mut self, chord: KeyChord, command: CommandId) -> (r: Result<(), KeymapError>)
        requires
            old(self).wf(),
        ensures
            final(self).wf(),
            final(self).spec_name() == old(self).spec_name(),
            final(self).unbound_ids() == old(self).unbound_ids(),
            final(self).spec_type_ahead() == old(self).spec_type_ahead(),
            old(self).bound().contains_key(chord) && old(self).bound()[chord] != command@ ==> {
                &&& r matches Err(e) && e@ == (KeymapFault::Conflict {
                    chord: chord_debug_text(chord),
                    existing: old(self).bound()[chord],
                    incoming: command@,
                })
                &&& final(self).entries() == old(self).entries()
            },
            !(old(self).bound().contains_key(chord) && old(self).bound()[chord] != command@) ==> {
                &&& r is Ok
                &&& final(self).bound() == old(self).bound().insert(chord, command@)
            },
            old(self).bound().contains_key(chord) && old(self).bound()[chord] == command@
                ==> final(self).entries() == old(self).entries(),
            !old(self).bound().contains_key(chord) ==> exists|at: int|
                0 <= at <= old(self).entries().len() && final(self).entries() == old(self).entries().insert(at, (chord, command@)),
    {
        let (i, found) = self.locate(&chord);
        if found {
            proof {
                lemma_binding_at(self.entries(), i as int);
            }
            if !self.bindings[i].1.same_as(&command) {
                return Err(
                    KeymapError::Conflict {
                        chord: chord_debug(&chord),
                        existing: self.bindings[i].1.duplicate(),
                        incoming: command,
                    },
                );
            }
            proof {
                assert(self.bound().insert(chord, command@) =~= self.bound());
            }
            return Ok(());
        }
        self.insert_binding(i, chord, command);
        Ok(())
    }

    /// Give a command a chord, replacing whatever chords it had.
    ///
    /// When another command owns the chord nothing changes: a rebinding that
    /// half-applied would leave the user with neither shortcut working.
    pub fn rebind(&mut self, command: &CommandId, chord: KeyChord) -> (r: Result<(), KeymapError>)
        requires
            old(self).wf(),
        ensures
            final(self).wf(),
            final(self).spec_name() == old(self).spec_name(),
            final(self).unbound_ids() == old(self).unbound_ids(),
            final(self).spec_type_ahead() == old(self).spec_type_ahead(),
            old(self).bound().contains_key(chord) && old(self).bound()[chord] != command@ ==> {
                &&& r matches Err(e) && e@ == (KeymapFault::Conflict {
                    chord: chord_portable_text(chord),
                    existing: old(self).bound()[chord],
                    incoming: command@,
                })
                &&& final(self).entries() == old(self).entries()
            },
            !(old(self).bound().contains_key(chord) && old(self).bound()[chord] != command@) ==> {
                &&& r is Ok
                &&& final(self).bound() == without_command(old(self).bound(), command@).insert(
                    chord,
                    command@,
                )
                &&& chords_bound_to(final(self).entries(), command@) == seq![chord]
            },
    {
        let (i, found) = self.locate(&chord);
        if found {
            proof {
                lemma_binding_at(self.entries(), i as int);
            }
            if !self.bindings[i].1.same_as(command) {
                return Err(
                    KeymapError::Conflict {
                        chord: chord.to_portable_shortcut(),
                        existing: self.bindings[i].1.duplicate(),
                        incoming: command.duplicate(),
                    },
                );
            }
        }
        self.unbind_command(command);
        let (j, again) = self.locate(&chord);
        proof {
            assert(!again);
            let s = self.entries();
            assert forall|i: int| 0 <= i < s.len() implies (#[trigger] s[i]).1 != command@ by {
                lemma_binding_at(s, i);
            }
            lemma_only_binding(s, j as int, chord, command@);
        }
        self.insert_binding(j, chord, command.duplicate());
        Ok(())
    }

    /// Every chord bound to a command, in chord order, for showing shortcuts
    /// in menus.
    pub fn chords_for(&self, command: &CommandId) -> (r: Vec<&KeyChord>)
        ensures
            r@.map_values(|c: &KeyChord| *c) == chords_bound_to(self.entries(), command@),
    {
        let mut out: Vec<&KeyChord> = Vec::new();
        let ghost s = self.entries();
        let ghost pred = binding_has(command@);
        let mut i: usize = 0;
        while i < self.bindings.len()
            invariant
                i <= s.len(),
                s == self.entries(),
                s.len() == self.bindings@.len(),
                pred == binding_has(command@),
                out@.map_values(|c: &KeyChord| *c) == s.take(i as int).filter(pred).map_values(
                    |e: (KeyChord, Seq<char>)| e.0,
                ),
            decreases self.bindings.len() - i,
        {
            proof {
                reveal_with_fuel(Seq::filter, 1);
                assert(s.take(i + 1).drop_last() =~= s.take(i as int));
                assert(s[i as int] == (self.bindings@[i as int].0, self.bindings@[i as int].1@));
            }
            let ghost before = out@;
            if self.bindings[i].1.same_as(command) {
                out.push(&self.bindings[i].0);
                proof {
                    assert(s.take(i + 1).filter(pred) == s.take(i as int).filter(pred).push(
                        s[i as int],
                    ));
                    assert(out@.map_values(|c: &KeyChord| *c) =~= before.map_values(
                        |c: &KeyChord| *c,
                    ).push(s[i as int].0));
                    assert(out@.map_values(|c: &KeyChord| *c) =~= s.take(i + 1).filter(
                        pred,
                    ).map_values(|e: (KeyChord, Seq<char>)| e.0));
                }
            } else {
                proof {
                    assert(s.take(i + 1).filter(pred) == s.take(i as int).filter(pred));
                }
            }
            i += 1;
        }
        proof {
            assert(s.take(i as int) =~= s);
        }
        out
    }
}

/// The first binding's position whose command the registry lacks.
pub open spec fn first_unregistered(
    s: Seq<(KeyChord, Seq<char>)>,
    registry: CommandRegistry,
    i: int,
) -> Option<int>
    decreases s.len() - i,
{
    if i < 0 || i >= s.len() {
        None
    } else if !registry.has(s[i].1) {
        Some(i)
    } else {
        first_unregistered(s, registry, i + 1)
    }
}

impl Keymap {
    /// Record that a command is deliberately unbound: its chords go, and the
    /// id joins the unbound ones.
    pub fn set_unbound(&mut self, command: CommandId)
        requires
            old(self).wf(),
        ensures
            final(self).wf(),
            final(self).bound() == without_command(old(self).bound(), command@),
            forall|k: Seq<char>|
                final(self).unbound_ids().contains(k) <==> (old(self).unbound_ids().contains(k) || k
                    == command@),
            final(self).spec_name() == old(self).spec_name(),
            final(self).spec_type_ahead() == old(self).spec_type_ahead(),
    {
        self.unbind_command(&command);
        let ghost k = command@;
        self.unbound.insert(command, ());
        proof {
            assert forall|q: Seq<char>|
                self.unbound_ids().contains(q) <==> (old(self).unbound_ids().contains(q) || q
                    == k) by {
                assert(self.unbound.has(q) == self.unbound_ids().contains(q));
            }
        }
    }

    /// The commands this map says have no shortcut, in id order.
    pub fn unbound_list(&self) -> (r: Vec<&CommandId>)
        ensures
            r@.map_values(|c: &CommandId| c@) == self.unbound_ids(),
    {
        let entries = self.unbound.as_slice();
        let mut out: Vec<&CommandId> = Vec::new();
        let mut i: usize = 0;
        while i < entries.len()
            invariant
                i <= entries@.len(),
                entries@ == self.unbound.entries(),
                out@.map_values(|c: &CommandId| c@) == self.unbound_ids().take(i as int),
            decreases entries.len() - i,
        {
            let ghost before = out@;
            out.push(&entries[i].0);
            proof {
                assert(self.unbound_ids()[i as int] == entries@[i as int].0.key_view());
                assert(out@.map_values(|c: &CommandId| c@) =~= before.map_values(|c: &CommandId| c@).push(entries@[i as int].0@));
                assert(out@.map_values(|c: &CommandId| c@) =~= self.unbound_ids().take(i + 1));
            }
            i += 1;
        }
        proof {
            assert(self.unbound_ids().take(i as int) =~= self.unbound_ids());
        }
        out
    }

    /// The commands this map says have no shortcut.
    pub fn unbound(&self) -> (r: std::vec::IntoIter<&CommandId>)
        ensures
            r.remaining().map_values(|c: &CommandId| c@) == self.unbound_ids(),
    {
        let v = self.unbound_list();
        proof {
            broadcast use vstd::std_specs::vec::axiom_spec_into_iter;
        }
        v.into_iter()
    }

    /// Every binding, in chord order.
    pub fn bindings_list(&self) -> (r: Vec<(&KeyChord, &CommandId)>)
        ensures
            r@.map_values(|p: (&KeyChord, &CommandId)| (*p.0, p.1@)) == self.entries(),
    {
        let mut out: Vec<(&KeyChord, &CommandId)> = Vec::new();
        let mut i: usize = 0;
        while i < self.bindings.len()
            invariant
                i <= self.bindings@.len(),
                out@.map_values(|p: (&KeyChord, &CommandId)| (*p.0, p.1@)) == self.entries().take(
                    i as int,
                ),
            decreases self.bindings.len() - i,
        {
            let entry = &self.bindings[i];
            let ghost before = out@;
            out.push((&entry.0, &entry.1));
            proof {
                assert(self.entries()[i as int] == (self.bindings@[i as int].0, self.bindings@[i as int].1@));
                assert(out@.map_values(|p: (&KeyChord, &CommandId)| (*p.0, p.1@)) =~= before.map_values(|p: (&KeyChord, &CommandId)| (*p.0, p.1@)).push(self.entries()[i as int]));
                assert(out@.map_values(|p: (&KeyChord, &CommandId)| (*p.0, p.1@)) =~= self.entries().take(
                    i + 1,
                ));
            }
            i += 1;
        }
        proof {
            assert(self.entries().take(i as int) =~= self.entries());
        }
        out
    }

    /// Every binding, in chord order.
    pub fn iter(&self) -> (r: std::vec::IntoIter<(&KeyChord, &CommandId)>)
        ensures
            r.remaining().map_values(|p: (&KeyChord, &CommandId)| (*p.0, p.1@)) == self.entries(),
    {
        let v = self.bindings_list();
        proof {
            broadcast use vstd::std_specs::vec::axiom_spec_into_iter;
        }
        v.into_iter()
    }

    /// Check every binding names a registered command; the first that does
    /// not, in chord order, is the error.
    pub fn validate_against(&self, registry: &CommandRegistry) -> (r: Result<(), KeymapError>)
        requires
            registry.wf(),
        ensures
            r is Ok <==> first_unregistered(self.entries(), *registry, 0) is None,
            r matches Err(e) ==> exists|i: int|
                first_unregistered(self.entries(), *registry, 0) == Some(i) && e@
                    == KeymapFault::UnknownCommand(self.entries()[i].1),
    {
        let ghost s = self.entries();
        let mut i: usize = 0;
        while i < self.bindings.len()
            invariant
                i <= s.len(),
                s == self.entries(),
                s.len() == self.bindings@.len(),
                registry.wf(),
                first_unregistered(s, *registry, 0) == first_unregistered(s, *registry, i as int),
            decreases self.bindings.len() - i,
        {
            proof {
                assert(s[i as int].1 == self.bindings@[i as int].1@);
            }
            if !registry.contains(&self.bindings[i].1) {
                return Err(KeymapError::UnknownCommand(self.bindings[i].1.duplicate()));
            }
            i += 1;
        }
        Ok(())
    }
}

/// The first chord, in chord order, that `s` binds to `command`.
pub open spec fn first_chord(s: Seq<(KeyChord, Seq<char>)>, command: Seq<char>) -> Option<KeyChord> {
    let f = chords_bound_to(s, command);
    if f.len() > 0 {
        Some(f[0])
    } else {
        None
    }
}

/// Whether a binding is the preset's own: the preset's first chord for the
/// command is this one.
pub open spec fn as_in_preset(preset: Seq<(KeyChord, Seq<char>)>, e: (KeyChord, Seq<char>)) -> bool {
    first_chord(preset, e.1) == Some(e.0)
}

/// A command has no chord exactly when it is no binding's command.
pub proof fn lemma_no_chords(s: Seq<(KeyChord, Seq<char>)>, command: Seq<char>)
    ensures
        chords_bound_to(s, command).len() == 0 <==> !commands_of(s).contains(command),
{
    let pred = binding_has(command);
    if commands_of(s).contains(command) {
        let i = choose|i: int| 0 <= i < commands_of(s).len() && commands_of(s)[i] == command;
        s.lemma_filter_contains(pred, i);
        assert(s.filter(pred).len() > 0);
    }
    if s.filter(pred).len() > 0 {
        s.lemma_filter_pred(pred, 0);
        s.lemma_filter_contains_rev(pred, s.filter(pred)[0]);
        let i = choose|i: int| 0 <= i < s.len() && s[i] == s.filter(pred)[0];
        assert(commands_of(s)[i] == command);
    }
}

/// One binding of a diff laid over a map: the chord leaves whatever held
/// it, the command leaves its other chords, and the two are bound.
pub open spec fn layer_binding(m: Map<KeyChord, Seq<char>>, e: (KeyChord, Seq<char>)) -> Map<
    KeyChord,
    Seq<char>,
> {
    without_command(m.remove(e.0), e.1).insert(e.0, e.1)
}

/// The first `n` of a diff's unbound ids laid over a map, each where `keep`
/// says so.
pub open spec fn layer_unbound(
    m: Map<KeyChord, Seq<char>>,
    ids: Seq<Seq<char>>,
    keep: Seq<bool>,
    n: int,
) -> Map<KeyChord, Seq<char>>
    decreases n,
{
    if n <= 0 {
        m
    } else {
        let before = layer_unbound(m, ids, keep, n - 1);
        if keep[n - 1] {
            without_command(before, ids[n - 1])
        } else {
            before
        }
    }
}

/// The first `n` of a diff's bindings laid over a map, each where `keep`
/// says so.
pub open spec fn layer_bindings(
    m: Map<KeyChord, Seq<char>>,
    es: Seq<(KeyChord, Seq<char>)>,
    keep: Seq<bool>,
    n: int,
) -> Map<KeyChord, Seq<char>>
    decreases n,
{
    if n <= 0 {
        m
    } else {
        let before = layer_bindings(m, es, keep, n - 1);
        if keep[n - 1] {
            layer_binding(before, es[n - 1])
        } else {
            before
        }
    }
}

/// How many of the first `n` decisions are "drop".
pub open spec fn dropped(keep: Seq<bool>, n: int) -> int
    decreases n,
{
    if n <= 0 {
        0
    } else {
        dropped(keep, n - 1) + if keep[n - 1] {
            0int
        } else {
            1int
        }
    }
}

impl Keymap {
    /// The unbound commands, in id order.
    pub closed spec fn unbound_commands(&self) -> Seq<CommandId> {
        self.unbound.entries().map_values(|e: (CommandId, ())| e.0)
    }

    /// The bound commands, in chord order.
    pub closed spec fn bound_commands(&self) -> Seq<CommandId> {
        self.bindings@.map_values(|e: (KeyChord, CommandId)| e.1)
    }

    /// What this map changes relative to `preset`.
    ///
    /// Only differences are kept, so a later release's new bindings reach a
    /// user who customised something else: every binding that is not the
    /// preset's first chord for its command, and, as explicitly unbound,
    /// every command the preset binds and this map does not.
    pub fn diff_from(&self, preset: &Self) -> (r: Self)
        requires
            self.wf(),
            preset.wf(),
        ensures
            r.wf(),
            r.spec_name() == self.spec_name(),
            r.spec_type_ahead(),
            r.entries() == self.entries().filter(
                |e: (KeyChord, Seq<char>)| !as_in_preset(preset.entries(), e),
            ),
            forall|k: Seq<char>|
                r.unbound_ids().contains(k) <==> (commands_of(preset.entries()).contains(k)
                    && !commands_of(self.entries()).contains(k)),
    {
        let mut diff = Keymap::new(self.name.as_str());
        let ghost s = self.entries();
        let ghost ps = preset.entries();
        let ghost pred = |e: (KeyChord, Seq<char>)| !as_in_preset(ps, e);
        let mut i: usize = 0;
        while i < self.bindings.len()
            invariant
                i <= s.len(),
                s == self.entries(),
                ps == preset.entries(),
                s.len() == self.bindings@.len(),
                in_chord_order(s),
                pred == (|e: (KeyChord, Seq<char>)| !as_in_preset(ps, e)),
                diff.wf(),
                diff.spec_name() == self.spec_name(),
                diff.spec_type_ahead(),
                diff.unbound_ids() == Seq::<Seq<char>>::empty(),
                diff.entries() == s.take(i as int).filter(pred),
                i < s.len() ==> forall|j: int|
                    0 <= j < diff.entries().len() ==> chord_rank(#[trigger] diff.entries()[j].0)
                        < chord_rank(s[i as int].0),
            decreases self.bindings.len() - i,
        {
            proof {
                reveal_with_fuel(Seq::filter, 1);
                assert(s.take(i + 1).drop_last() =~= s.take(i as int));
                assert(s[i as int] == (self.bindings@[i as int].0, self.bindings@[i as int].1@));
            }
            let chord = self.bindings[i].0;
            let theirs = preset.chords_for(&self.bindings[i].1);
            let same = theirs.len() > 0 && *theirs[0] == chord;
            proof {
                let f = chords_bound_to(ps, s[i as int].1);
                assert(theirs@.map_values(|c: &KeyChord| *c) == f);
                if theirs@.len() > 0 {
                    assert(f[0] == *theirs@[0]);
                }
                assert(same == as_in_preset(ps, s[i as int]));
            }
            let ghost before = diff.entries();
            if !same {
                diff.bindings.push((chord, self.bindings[i].1.duplicate()));
                proof {
                    assert(diff.entries() =~= before.push(s[i as int]));
                    assert(s.take(i + 1).filter(pred) == before.push(s[i as int]));
                    assert forall|a: int, b: int| 0 <= a < b < diff.entries().len() implies #[trigger] chord_rank(
                        diff.entries()[a].0,
                    ) < #[trigger] chord_rank(diff.entries()[b].0) by {
                        if b < before.len() {
                            assert(diff.entries()[a] == before[a] && diff.entries()[b] == before[b]);
                        } else {
                            assert(diff.entries()[a] == before[a]);
                        }
                    }
                }
            } else {
                proof {
                    assert(s.take(i + 1).filter(pred) == s.take(i as int).filter(pred));
                }
            }
            proof {
                if i + 1 < s.len() {
                    assert(chord_rank(s[i as int].0) < chord_rank(s[i + 1].0));
                }
            }
            i += 1;
        }
        proof {
            assert(s.take(i as int) =~= s);
        }
        let ghost kept = diff.entries();
        let mut j: usize = 0;
        while j < preset.bindings.len()
            invariant
                j <= ps.len(),
                ps == preset.entries(),
                s == self.entries(),
                ps.len() == preset.bindings@.len(),
                diff.wf(),
                diff.spec_name() == self.spec_name(),
                diff.spec_type_ahead(),
                diff.entries() == kept,
                forall|k: Seq<char>|
                    diff.unbound_ids().contains(k) <==> (commands_of(ps.take(j as int)).contains(k)
                        && !commands_of(s).contains(k)),
            decreases preset.bindings.len() - j,
        {
            proof {
                assert(ps[j as int].1 == preset.bindings@[j as int].1@);
                assert(commands_of(ps.take(j + 1)) =~= commands_of(ps.take(j as int)).push(
                    ps[j as int].1,
                ));
            }
            let ghost c = ps[j as int].1;
            let mine = self.chords_for(&preset.bindings[j].1);
            proof {
                lemma_no_chords(s, c);
                let a = commands_of(ps.take(j as int));
                let b = commands_of(ps.take(j + 1));
                assert forall|k: Seq<char>| b.contains(k) <==> (a.contains(k) || k == c) by {
                    if b.contains(k) {
                        let x = choose|x: int| 0 <= x < b.len() && b[x] == k;
                        if x < a.len() {
                            assert(a[x] == k);
                        }
                    }
                    if a.contains(k) {
                        let x = choose|x: int| 0 <= x < a.len() && a[x] == k;
                        assert(b[x] == k);
                    }
                    if k == c {
                        assert(b[j as int] == c);
                    }
                }
            }
            if mine.len() == 0 {
                let ghost before = diff.unbound_ids();
                diff.unbound.insert(preset.bindings[j].1.duplicate(), ());
                proof {
                    assert forall|k: Seq<char>|
                        diff.unbound_ids().contains(k) <==> (commands_of(ps.take(j + 1)).contains(k)
                            && !commands_of(s).contains(k)) by {
                        assert(diff.unbound.has(k) == diff.unbound_ids().contains(k));
                        if k != c {
                            assert(commands_of(ps.take(j + 1)).contains(k) <==> commands_of(
                                ps.take(j as int),
                            ).contains(k));
                        }
                    }
                }
            } else {
                proof {
                    assert forall|k: Seq<char>|
                        diff.unbound_ids().contains(k) <==> (commands_of(ps.take(j + 1)).contains(k)
                            && !commands_of(s).contains(k)) by {
                        if k != c {
                            assert(commands_of(ps.take(j + 1)).contains(k) <==> commands_of(
                                ps.take(j as int),
                            ).contains(k));
                        }
                    }
                }
            }
            j += 1;
        }
        proof {
            assert(ps.take(j as int) =~= ps);
        }
        diff
    }

    /// Lay a diff over this map, with a decision for each of its unbound ids
    /// and each of its bindings whether the command still exists.
    ///
    /// Kept unbound ids lose their chords; kept bindings take their chord
    /// from whatever held it; the rest are counted and dropped.
    pub fn apply_diff_decided(
        &mut self,
        diff: &Self,
        keep_unbound: &[bool],
        keep_bound: &[bool],
    ) -> (r: usize)
        requires
            diff.unbound_ids().len() + diff.entries().len() <= usize::MAX,
            old(self).wf(),
            diff.wf(),
            keep_unbound@.len() == diff.unbound_ids().len(),
            keep_bound@.len() == diff.entries().len(),
        ensures
            final(self).wf(),
            final(self).bound() == layer_bindings(
                layer_unbound(
                    old(self).bound(),
                    diff.unbound_ids(),
                    keep_unbound@,
                    keep_unbound@.len() as int,
                ),
                diff.entries(),
                keep_bound@,
                keep_bound@.len() as int,
            ),
            r == dropped(keep_unbound@, keep_unbound@.len() as int) + dropped(
                keep_bound@,
                keep_bound@.len() as int,
            ),
            final(self).spec_name() == old(self).spec_name(),
            final(self).unbound_ids() == old(self).unbound_ids(),
            final(self).spec_type_ahead() == old(self).spec_type_ahead(),
    {
        let ids = diff.unbound.as_slice();
        let ghost m0 = self.bound();
        let mut count: usize = 0;
        let mut i: usize = 0;
        while i < ids.len()
            invariant
                i <= ids@.len() == keep_unbound@.len(),
                ids@ == diff.unbound.entries(),
                diff.unbound_ids() == diff.unbound.keys(),
                self.wf(),
                self.bound() == layer_unbound(m0, diff.unbound_ids(), keep_unbound@, i as int),
                count == dropped(keep_unbound@, i as int),
                count <= i,
                diff.unbound_ids().len() + diff.entries().len() <= usize::MAX,
                diff.unbound_ids().len() == ids@.len(),
                self.spec_name() == old(self).spec_name(),
                self.unbound_ids() == old(self).unbound_ids(),
                self.spec_type_ahead() == old(self).spec_type_ahead(),
            decreases ids.len() - i,
        {
            proof {
                assert(diff.unbound_ids()[i as int] == ids@[i as int].0@);
            }
            if keep_unbound[i] {
                self.unbind_command(&ids[i].0);
            } else {
                count += 1;
            }
            i += 1;
        }
        let ghost m1 = self.bound();
        let es = diff.bindings.as_slice();
        let mut k: usize = 0;
        let mut later: usize = 0;
        while k < es.len()
            invariant
                k <= es@.len() == keep_bound@.len(),
                es@ == diff.bindings@,
                diff.entries() == diff.bindings@.map_values(|p: (KeyChord, CommandId)| (p.0, p.1@)),
                self.wf(),
                self.bound() == layer_bindings(m1, diff.entries(), keep_bound@, k as int),
                later == dropped(keep_bound@, k as int),
                later <= k,
                count <= diff.unbound_ids().len(),
                diff.unbound_ids().len() + diff.entries().len() <= usize::MAX,
                es@.len() == diff.entries().len(),
                self.spec_name() == old(self).spec_name(),
                self.unbound_ids() == old(self).unbound_ids(),
                self.spec_type_ahead() == old(self).spec_type_ahead(),
            decreases es.len() - k,
        {
            let ghost e = diff.entries()[k as int];
            proof {
                assert(e == (es@[k as int].0, es@[k as int].1@));
            }
            if keep_bound[k] {
                let chord = es[k].0;
                let (at, found) = self.locate(&chord);
                if found {
                    self.remove_binding(at);
                } else {
                    proof {
                        assert(self.bound().remove(chord) =~= self.bound());
                    }
                }
                self.unbind_command(&es[k].1);
                let (to, again) = self.locate(&chord);
                proof {
                    assert(!again);
                }
                self.insert_binding(to, chord, es[k].1.duplicate());
            } else {
                later += 1;
            }
            k += 1;
        }
        count + later
    }

    /// Lay a diff over this map. `keep` decides which command ids still
    /// exist; a binding or removal for one that does not is dropped rather
    /// than treated as an error, and the count is returned so the caller can
    /// say something changed.
    pub fn apply_diff(&mut self, diff: &Self, keep: impl Fn(&CommandId) -> bool) -> (r: usize)
        requires
            diff.unbound_ids().len() + diff.entries().len() <= usize::MAX,
            old(self).wf(),
            diff.wf(),
            forall|id: &CommandId| keep.requires((id,)),
        ensures
            final(self).wf(),
            exists|ku: Seq<bool>, kb: Seq<bool>|
                {
                    &&& ku.len() == diff.unbound_ids().len()
                    &&& kb.len() == diff.entries().len()
                    &&& forall|i: int|
                        0 <= i < ku.len() ==> keep.ensures((&diff.unbound_commands()[i],), ku[i])
                    &&& forall|i: int|
                        0 <= i < kb.len() ==> keep.ensures((&diff.bound_commands()[i],), kb[i])
                    &&& final(self).bound() == layer_bindings(
                        layer_unbound(old(self).bound(), diff.unbound_ids(), ku, ku.len() as int),
                        diff.entries(),
                        kb,
                        kb.len() as int,
                    )
                    &&& r == dropped(ku, ku.len() as int) + dropped(kb, kb.len() as int)
                },
            final(self).spec_name() == old(self).spec_name(),
            final(self).unbound_ids() == old(self).unbound_ids(),
            final(self).spec_type_ahead() == old(self).spec_type_ahead(),
    {
        let ids = diff.unbound.as_slice();
        let mut ku: Vec<bool> = Vec::new();
        let mut i: usize = 0;
        while i < ids.len()
            invariant
                i <= ids@.len(),
                ids@ == diff.unbound.entries(),
                ku@.len() == i,
                forall|id: &CommandId| keep.requires((id,)),
                forall|j: int|
                    0 <= j < i ==> keep.ensures((&diff.unbound_commands()[j],), #[trigger] ku@[j]),
            decreases ids.len() - i,
        {
            let b = keep(&ids[i].0);
            proof {
                assert(diff.unbound_commands()[i as int] == ids@[i as int].0);
            }
            ku.push(b);
            i += 1;
        }
        let mut kb: Vec<bool> = Vec::new();
        let mut k: usize = 0;
        while k < diff.bindings.len()
            invariant
                k <= diff.bindings@.len(),
                kb@.len() == k,
                forall|id: &CommandId| keep.requires((id,)),
                forall|j: int|
                    0 <= j < k ==> keep.ensures((&diff.bound_commands()[j],), #[trigger] kb@[j]),
            decreases diff.bindings.len() - k,
        {
            let b = keep(&diff.bindings[k].1);
            proof {
                assert(diff.bound_commands()[k as int] == diff.bindings@[k as int].1);
            }
            kb.push(b);
            k += 1;
        }
        proof {
            assert(diff.unbound_ids().len() == diff.unbound.entries().len());
            assert(diff.entries().len() == diff.bindings@.len());
        }
        self.apply_diff_decided(diff, ku.as_slice(), kb.as_slice())
    }
}

/// A binding as a line of the keymap file.
pub open spec fn binding_line(e: (KeyChord, Seq<char>)) -> Seq<char> {
    chord_source_text(e.0) + " = "@ + e.1
}

/// An explicit removal as a line of the keymap file.
pub open spec fn unbound_line(id: Seq<char>) -> Seq<char> {
    "none = "@ + id
}

/// The lines a keymap is saved as: the type-ahead option only when it is
/// off, then the bindings in chord order, then the removals in id order.
pub open spec fn keymap_lines(
    type_ahead: bool,
    es: Seq<(KeyChord, Seq<char>)>,
    ids: Seq<Seq<char>>,
) -> Seq<Seq<char>> {
    (if type_ahead {
        Seq::empty()
    } else {
        seq!["!type_ahead = off"@]
    }) + es.map_values(|e: (KeyChord, Seq<char>)| binding_line(e)) + ids.map_values(
        |id: Seq<char>| unbound_line(id),
    )
}

/// Each line followed by a newline.
pub open spec fn line_block(lines: Seq<Seq<char>>) -> Seq<char>
    decreases lines.len(),
{
    if lines.len() == 0 {
        Seq::empty()
    } else {
        line_block(lines.drop_last()) + lines.last() + seq!['\n']
    }
}

/// Lines joined by newlines, with one more at the end.
pub open spec fn lines_text(lines: Seq<Seq<char>>) -> Seq<char> {
    if lines.len() == 0 {
        seq!['\n']
    } else {
        line_block(lines)
    }
}

/// What a keymap has read so far.
pub struct KeymapState {
    /// Chord to command.
    pub bound: Map<KeyChord, Seq<char>>,
    /// Commands recorded as unbound.
    pub unbound: Set<Seq<char>>,
    /// The type-ahead option.
    pub type_ahead: bool,
}

/// The state a keymap file starts from: nothing bound, type-ahead on.
pub open spec fn empty_state() -> KeymapState {
    KeymapState { bound: Map::empty(), unbound: Set::empty(), type_ahead: true }
}

/// Whether an option's value turns it on.
pub open spec fn is_on(v: Seq<char>) -> bool {
    v == "on"@ || v == "true"@ || v == "yes"@
}

/// The keymap file's lines from `i` on, read over `st`: `#` starts a
/// comment, blank lines are skipped, `!name = value` sets an option, `none =
/// id` records a removal, and `chord = id` binds, a chord already bound to
/// another command being a conflict.
pub open spec fn parse_lines(lines: Seq<Seq<char>>, i: int, st: KeymapState) -> Result<
    KeymapState,
    KeymapFault,
>
    decreases lines.len() - i,
{
    if i < 0 || i >= lines.len() {
        Ok(st)
    } else {
        let line = trim(before_first(lines[i], '#'));
        if line.len() == 0 {
            parse_lines(lines, i + 1, st)
        } else {
            match find(line, '=') {
                None => Err(KeymapFault::MalformedLine { line: i + 1 }),
                Some(e) => {
                    let raw = line.take(e);
                    let ct = trim(raw);
                    let vt = trim(line.skip(e + 1));
                    if ct.len() > 0 && ct[0] == '!' {
                        if trim(ct.drop_first()) == "type_ahead"@ {
                            parse_lines(lines, i + 1, KeymapState { type_ahead: is_on(vt), ..st })
                        } else {
                            Err(KeymapFault::MalformedLine { line: i + 1 })
                        }
                    } else if vt.len() == 0 {
                        Err(KeymapFault::MalformedLine { line: i + 1 })
                    } else if ct.map_values(|c: char| ascii_lower(c)) == "none"@ {
                        parse_lines(lines, i + 1, KeymapState { unbound: st.unbound.insert(vt), ..st })
                    } else {
                        match spec_parse_chord(raw) {
                            Err(f) => Err(f),
                            Ok(c) => if st.bound.contains_key(c) && st.bound[c] != vt {
                                Err(
                                    KeymapFault::Conflict {
                                        chord: ct,
                                        existing: st.bound[c],
                                        incoming: vt,
                                    },
                                )
                            } else {
                                parse_lines(
                                    lines,
                                    i + 1,
                                    KeymapState { bound: st.bound.insert(c, vt), ..st },
                                )
                            },
                        }
                    }
                },
            }
        }
    }
}

/// A keymap file read from the start.
pub open spec fn spec_parse_keymap(text: Seq<char>) -> Result<KeymapState, KeymapFault> {
    parse_lines(text_lines(text), 0, empty_state())
}

impl Keymap {
    /// Whether this map holds what a state says.
    pub open spec fn holds(&self, st: KeymapState) -> bool {
        &&& self.bound() == st.bound
        &&& forall|k: Seq<char>| self.unbound_ids().contains(k) <==> st.unbound.contains(k)
        &&& self.spec_type_ahead() == st.type_ahead
    }

    /// Write back in the `chord = command.id` format the loader reads, so a
    /// saved keymap is read as it was.
    pub fn to_text(&self) -> (r: String)
        ensures
            r@ == lines_text(keymap_lines(self.spec_type_ahead(), self.entries(), self.unbound_ids())),
    {
        let ghost lines = keymap_lines(self.spec_type_ahead(), self.entries(), self.unbound_ids());
        let ghost es = self.entries();
        let ghost ids = self.unbound_ids();
        let mut out = String::new();
        let mut head: usize = 0;
        if !self.type_ahead {
            push_str(&mut out, "!type_ahead = off");
            push_char(&mut out, '\n');
            head = 1;
            proof {
                assert(lines[0] == "!type_ahead = off"@);
                assert(lines.take(1).drop_last() =~= Seq::<Seq<char>>::empty());
                assert(line_block(Seq::<Seq<char>>::empty()) == Seq::<char>::empty());
                assert(lines.take(1).last() == "!type_ahead = off"@);
                assert(out@ =~= line_block(lines.take(1)));
            }
        } else {
            proof {
                assert(lines.take(0) =~= Seq::<Seq<char>>::empty());
            }
        }
        let mut i: usize = 0;
        while i < self.bindings.len()
            invariant
                i <= es.len() == self.bindings@.len(),
                es == self.entries(),
                ids == self.unbound_ids(),
                lines == keymap_lines(self.spec_type_ahead(), es, ids),
                head == (if self.spec_type_ahead() { 0int } else { 1int }),
                lines.len() == head + es.len() + ids.len(),
                out@ == line_block(lines.take(head + i)),
            decreases self.bindings.len() - i,
        {
            let chord_text = self.bindings[i].0.to_source_text();
            push_str(&mut out, chord_text.as_str());
            push_str(&mut out, " = ");
            push_str(&mut out, self.bindings[i].1.as_str());
            push_char(&mut out, '\n');
            proof {
                assert(es[i as int] == (self.bindings@[i as int].0, self.bindings@[i as int].1@));
                assert(lines[head + i] == binding_line(es[i as int]));
                assert(lines.take(head + i + 1).drop_last() =~= lines.take(head + i));
                assert(out@ =~= line_block(lines.take(head + i + 1)));
            }
            i += 1;
        }
        let idv = self.unbound.as_slice();
        let mut j: usize = 0;
        while j < idv.len()
            invariant
                j <= ids.len() == idv@.len(),
                idv@ == self.unbound.entries(),
                ids == self.unbound.keys(),
                lines == keymap_lines(self.spec_type_ahead(), es, ids),
                lines.len() == head + es.len() + ids.len(),
                out@ == line_block(lines.take(head + es.len() + j)),
            decreases idv.len() - j,
        {
            push_str(&mut out, "none = ");
            push_str(&mut out, idv[j].0.as_str());
            push_char(&mut out, '\n');
            proof {
                assert(ids[j as int] == idv@[j as int].0@);
                assert(lines[head + es.len() + j] == unbound_line(ids[j as int]));
                assert(lines.take(head + es.len() + j + 1).drop_last() =~= lines.take(
                    head + es.len() + j,
                ));
                assert(out@ =~= line_block(lines.take(head + es.len() + j + 1)));
            }
            j += 1;
        }
        proof {
            assert(lines.take(lines.len() as int) =~= lines);
        }
        if self.type_ahead && self.bindings.len() == 0 && idv.len() == 0 {
            push_char(&mut out, '\n');
            proof {
                if lines.len() > 0 {
                    assert(line_block(lines).len() > 0);
                }
            }
        }
        out
    }
}

fn is_on_chars(v: &[char]) -> (r: bool)
    ensures
        r == is_on(v@),
{
    chars_eq(v, chars_of("on").as_slice()) || chars_eq(v, chars_of("true").as_slice()) || chars_eq(
        v,
        chars_of("yes").as_slice(),
    )
}

impl Keymap {
    /// Read a keymap from `chord = command.id` lines, `#` starting a comment.
    ///
    /// Conflicts are found here, at load.
    pub fn parse(name: &str, text: &str) -> (r: Result<Self, KeymapError>)
        ensures
            r matches Ok(k) ==> {
                &&& k.wf()
                &&& k.spec_name() == name@
                &&& spec_parse_keymap(text@) matches Ok(st) && k.holds(st)
            },
            r matches Err(e) ==> spec_parse_keymap(text@) == Err::<KeymapState, KeymapFault>(e@),
    {
        let all = chars_of(text);
        let lines = split_lines(all.as_slice());
        let ghost ls = text_lines(all@);
        let mut map = Keymap::new(name);
        let ghost mut st = empty_state();
        proof {
            assert(map.bound() =~= st.bound);
        }
        let mut i: usize = 0;
        while i < lines.len()
            invariant
                i <= lines@.len(),
                ls == text_lines(text@),
                lines@.map_values(|v: Vec<char>| v@) == ls,
                map.wf(),
                map.spec_name() == name@,
                map.holds(st),
                spec_parse_keymap(text@) == parse_lines(ls, i as int, st),
            decreases lines.len() - i,
        {
            proof {
                assert(lines@[i as int]@ == ls[i as int]);
            }
            let bare = before_first_chars(lines[i].as_slice(), '#');
            let line = trim_chars(bare.as_slice());
            if line.len() == 0 {
                i += 1;
                continue;
            }
            let eq = find_char_from(line.as_slice(), '=', 0);
            let e = match eq {
                None => {
                    return Err(KeymapError::MalformedLine { line: i + 1 });
                },
                Some(e) => e,
            };
            proof {
                lemma_find_from(line@, '=', 0);
            }
            let raw = slice_to_vec(line.as_slice(), 0, e);
            let rest = slice_to_vec(line.as_slice(), e + 1, line.len());
            let ct = trim_chars(raw.as_slice());
            let vt = trim_chars(rest.as_slice());
            proof {
                assert(raw@ == line@.take(e as int));
                assert(rest@ == line@.skip(e + 1));
            }
            if ct.len() > 0 && ct[0] == '!' {
                let opt_rest = slice_to_vec(ct.as_slice(), 1, ct.len());
                let opt = trim_chars(opt_rest.as_slice());
                proof {
                    assert(opt_rest@ =~= ct@.drop_first());
                }
                if chars_eq(opt.as_slice(), chars_of("type_ahead").as_slice()) {
                    map.type_ahead = is_on_chars(vt.as_slice());
                    proof {
                        st = KeymapState { type_ahead: is_on(vt@), ..st };
                    }
                    i += 1;
                    continue;
                }
                return Err(KeymapError::MalformedLine { line: i + 1 });
            }
            if vt.len() == 0 {
                return Err(KeymapError::MalformedLine { line: i + 1 });
            }
            let command = CommandId::from_string(string_of(vt.as_slice()));
            let lowered = lower_chars(ct.as_slice());
            if chars_eq(lowered.as_slice(), chars_of("none").as_slice()) {
                map.set_unbound_only(command);
                proof {
                    st = KeymapState { unbound: st.unbound.insert(vt@), ..st };
                }
                i += 1;
                continue;
            }
            let chord_text = string_of(raw.as_slice());
            let chord = match KeyChord::parse(chord_text.as_str()) {
                Ok(c) => c,
                Err(err) => {
                    return Err(err);
                },
            };
            match map.resolve(&chord) {
                Some(existing) => {
                    if !existing.same_as(&command) {
                        return Err(
                            KeymapError::Conflict {
                                chord: string_of(ct.as_slice()),
                                existing: existing.duplicate(),
                                incoming: command,
                            },
                        );
                    }
                },
                None => {},
            }
            let _ = map.bind(chord, command);
            proof {
                st = KeymapState { bound: st.bound.insert(chord, vt@), ..st };
            }
            i += 1;
        }
        Ok(map)
    }

    /// Record an id as unbound without touching the bindings: what a `none`
    /// line says.
    fn set_unbound_only(&mut self, command: CommandId)
        requires
            old(self).wf(),
        ensures
            final(self).wf(),
            final(self).entries() == old(self).entries(),
            forall|k: Seq<char>|
                final(self).unbound_ids().contains(k) <==> (old(self).unbound_ids().contains(k) || k
                    == command@),
            final(self).spec_name() == old(self).spec_name(),
            final(self).spec_type_ahead() == old(self).spec_type_ahead(),
    {
        let ghost k = command@;
        self.unbound.insert(command, ());
        proof {
            assert forall|q: Seq<char>|
                self.unbound_ids().contains(q) <==> (old(self).unbound_ids().contains(q) || q
                    == k) by {
                assert(self.unbound.has(q) == self.unbound_ids().contains(q));
                assert(old(self).unbound.has(q) == old(self).unbound_ids().contains(q));
            }
        }
    }
}

/// Text with no white space, no `+`, and nothing that ASCII lowercasing
/// would change.
pub open spec fn plain_word(t: Seq<char>) -> bool {
    forall|i: int|
        0 <= i < t.len() ==> !is_ws(#[trigger] t[i]) && t[i] != '+' && ascii_lower(t[i]) == t[i]
}

/// Text with no white space and nothing that ASCII lowercasing would change.
pub open spec fn settled(t: Seq<char>) -> bool {
    forall|i: int| 0 <= i < t.len() ==> !is_ws(#[trigger] t[i]) && ascii_lower(t[i]) == t[i]
}

/// A key the file syntax writes and reads back as itself: a character key
/// that is one printable ASCII character ASCII lowercasing leaves alone, a
/// function key from F1 to F24, or any named key.
pub open spec fn writable_key(k: Key) -> bool {
    match k {
        Key::Char(ch) => (ch as u32) < 128 && !is_ws(ch) && ascii_lower(ch) == ch,
        Key::Function(n) => 1 <= n <= 24,
        _ => true,
    }
}

proof fn lemma_parts_step(
    w: Seq<char>,
    s: Seq<Seq<char>>,
    i: int,
    text: Seq<char>,
    m: Modifiers,
    key: Option<Key>,
)
    requires
        0 <= i,
    ensures
        chord_from_parts(seq![w] + s, i + 1, text, m, key) == chord_from_parts(s, i, text, m, key),
    decreases s.len() - i,
{
    let p = seq![w] + s;
    if i < s.len() {
        assert(p[i + 1] == s[i]);
        let part = trim(s[i]);
        match modifier_named(part) {
            Some(0) => lemma_parts_step(w, s, i + 1, text, Modifiers { primary: true, ..m }, key),
            Some(1) => lemma_parts_step(w, s, i + 1, text, Modifiers { control: true, ..m }, key),
            Some(2) => lemma_parts_step(w, s, i + 1, text, Modifiers { shift: true, ..m }, key),
            Some(_) => lemma_parts_step(w, s, i + 1, text, Modifiers { alt: true, ..m }, key),
            None => {
                if part.len() != 0 && key is None {
                    match spec_parse_key(part) {
                        Ok(k) => lemma_parts_step(w, s, i + 1, text, m, Some(k)),
                        Err(_) => {},
                    }
                }
            },
        }
    }
}

/// A one-character name that is no punctuation reads back as that key.
proof fn lemma_single_char_name(ch: char)
    requires
        !is_ws(ch),
        ch != '+',
    ensures
        modifier_named(seq![ch]) is None,
        spec_parse_key(seq![ch]) == Ok::<Key, KeymapFault>(Key::Char(ch)),
{
    reveal_strlit("up");
    reveal_strlit("down");
    reveal_strlit("left");
    reveal_strlit("right");
    reveal_strlit("enter");
    reveal_strlit("return");
    reveal_strlit("escape");
    reveal_strlit("esc");
    reveal_strlit("space");
    reveal_strlit("tab");
    reveal_strlit("backspace");
    reveal_strlit("delete");
    reveal_strlit("del");
    reveal_strlit("home");
    reveal_strlit("end");
    reveal_strlit("pageup");
    reveal_strlit("pagedown");
    reveal_strlit("insert");
    reveal_strlit("ins");
    reveal_strlit("comma");
    reveal_strlit("period");
    reveal_strlit("dot");
    reveal_strlit("minus");
    reveal_strlit("dash");
    reveal_strlit("equal");
    reveal_strlit("plus");
    reveal_strlit("asterisk");
    reveal_strlit("star");
    reveal_strlit("underscore");
    reveal_strlit("slash");
    reveal_strlit("backslash");
    reveal_strlit("semicolon");
    reveal_strlit("quote");
    reveal_strlit("bracketleft");
    reveal_strlit("bracketright");
    reveal_strlit("grave");
    reveal_strlit("backtick");
    reveal_strlit("primary");
    reveal_strlit("cmdorctrl");
    reveal_strlit("ctrl");
    reveal_strlit("control");
    reveal_strlit("shift");
    reveal_strlit("alt");
    reveal_strlit("option");
    reveal_strlit("opt");
    let t = seq![ch];
    assert(named_key_spec(t) is None);
    if ch == 'f' {
        assert(t.drop_first() =~= Seq::<char>::empty());
    }
    assert(function_key_number(t) is None);
}

/// A function key's name reads back as that key.
proof fn lemma_function_name(n: u8)
    requires
        1 <= n <= 24,
    ensures
        plain_word("f"@ + decimal(n as nat)),
        modifier_named("f"@ + decimal(n as nat)) is None,
        spec_parse_key("f"@ + decimal(n as nat)) == Ok::<Key, KeymapFault>(Key::Function(n)),
{
    reveal_strlit("up");
    reveal_strlit("down");
    reveal_strlit("left");
    reveal_strlit("right");
    reveal_strlit("enter");
    reveal_strlit("return");
    reveal_strlit("escape");
    reveal_strlit("esc");
    reveal_strlit("space");
    reveal_strlit("tab");
    reveal_strlit("backspace");
    reveal_strlit("delete");
    reveal_strlit("del");
    reveal_strlit("home");
    reveal_strlit("end");
    reveal_strlit("pageup");
    reveal_strlit("pagedown");
    reveal_strlit("insert");
    reveal_strlit("ins");
    reveal_strlit("comma");
    reveal_strlit("period");
    reveal_strlit("dot");
    reveal_strlit("minus");
    reveal_strlit("dash");
    reveal_strlit("equal");
    reveal_strlit("plus");
    reveal_strlit("asterisk");
    reveal_strlit("star");
    reveal_strlit("underscore");
    reveal_strlit("slash");
    reveal_strlit("backslash");
    reveal_strlit("semicolon");
    reveal_strlit("quote");
    reveal_strlit("bracketleft");
    reveal_strlit("bracketright");
    reveal_strlit("grave");
    reveal_strlit("backtick");
    reveal_strlit("primary");
    reveal_strlit("cmdorctrl");
    reveal_strlit("ctrl");
    reveal_strlit("control");
    reveal_strlit("shift");
    reveal_strlit("alt");
    reveal_strlit("option");
    reveal_strlit("opt");
    reveal_strlit("f");
    lemma_decimal_digits(n as nat);
    lemma_parse_decimal(n as nat, 255);
    let d = decimal(n as nat);
    let name = "f"@ + d;
    assert(name[0] == 'f');
    assert(name.drop_first() =~= d);
    assert(function_key_number(name) == Some(n as int));
    assert forall|i: int| 0 <= i < name.len() implies !is_ws(#[trigger] name[i]) && name[i] != '+'
        && ascii_lower(name[i]) == name[i] by {
        if i > 0 {
            assert(name[i] == d[i - 1]);
            assert('0' <= d[i - 1] <= '9');
        }
    }
}

/// The named keys' and punctuation's names read back as their keys.
proof fn lemma_named_key_name(k: Key)
    requires
        !(k is Function),
        k matches Key::Char(ch) ==> punctuation_name(ch) is Some,
    ensures
        plain_word(key_source_name(k)),
        key_source_name(k).len() > 0,
        modifier_named(key_source_name(k)) is None,
        spec_parse_key(key_source_name(k)) == Ok::<Key, KeymapFault>(k),
{
    reveal_strlit("up");
    reveal_strlit("down");
    reveal_strlit("left");
    reveal_strlit("right");
    reveal_strlit("enter");
    reveal_strlit("return");
    reveal_strlit("escape");
    reveal_strlit("esc");
    reveal_strlit("space");
    reveal_strlit("tab");
    reveal_strlit("backspace");
    reveal_strlit("delete");
    reveal_strlit("del");
    reveal_strlit("home");
    reveal_strlit("end");
    reveal_strlit("pageup");
    reveal_strlit("pagedown");
    reveal_strlit("insert");
    reveal_strlit("ins");
    reveal_strlit("comma");
    reveal_strlit("period");
    reveal_strlit("dot");
    reveal_strlit("minus");
    reveal_strlit("dash");
    reveal_strlit("equal");
    reveal_strlit("plus");
    reveal_strlit("asterisk");
    reveal_strlit("star");
    reveal_strlit("underscore");
    reveal_strlit("slash");
    reveal_strlit("backslash");
    reveal_strlit("semicolon");
    reveal_strlit("quote");
    reveal_strlit("bracketleft");
    reveal_strlit("bracketright");
    reveal_strlit("grave");
    reveal_strlit("backtick");
    reveal_strlit("primary");
    reveal_strlit("cmdorctrl");
    reveal_strlit("ctrl");
    reveal_strlit("control");
    reveal_strlit("shift");
    reveal_strlit("alt");
    reveal_strlit("option");
    reveal_strlit("opt");
    let name = key_source_name(k);
    assert(function_key_number(name) is None);
}

/// A writable key's name is a plain word that is no modifier and reads back
/// as the key.
proof fn lemma_key_name(k: Key)
    requires
        writable_key(k),
    ensures
        key_source_name(k).len() > 0,
        plain_word(key_source_name(k)),
        modifier_named(key_source_name(k)) is None,
        spec_parse_key(key_source_name(k)) == Ok::<Key, KeymapFault>(k),
{
    match k {
        Key::Char(ch) => {
            if punctuation_name(ch) is None {
                assert(ch != '+');
                lemma_single_char_name(ch);
                assert(key_source_name(k) == seq![ch]);
            } else {
                lemma_named_key_name(k);
            }
        },
        Key::Function(n) => lemma_function_name(n),
        _ => lemma_named_key_name(k),
    }
}

/// The modifier words and what each sets.
proof fn lemma_modifier_words()
    ensures
        plain_word("primary"@) && "primary"@.len() > 0 && modifier_named("primary"@) == Some(0u8),
        plain_word("ctrl"@) && "ctrl"@.len() > 0 && modifier_named("ctrl"@) == Some(1u8),
        plain_word("shift"@) && "shift"@.len() > 0 && modifier_named("shift"@) == Some(2u8),
        plain_word("alt"@) && "alt"@.len() > 0 && modifier_named("alt"@) == Some(3u8),
{
    reveal_strlit("primary");
    reveal_strlit("cmdorctrl");
    reveal_strlit("ctrl");
    reveal_strlit("control");
    reveal_strlit("shift");
    reveal_strlit("alt");
    reveal_strlit("option");
    reveal_strlit("opt");
    assert(plain_word("ctrl"@));
    assert("ctrl"@ != "primary"@);
    assert("ctrl"@.len() != "cmdorctrl"@.len());
}

/// A word, a `+`, and more settled text is settled text.
proof fn lemma_settled_join(w: Seq<char>, rest: Seq<char>)
    requires
        plain_word(w),
        settled(rest),
    ensures
        settled(w + seq!['+'] + rest),
{
    let t = w + seq!['+'] + rest;
    assert forall|i: int| 0 <= i < t.len() implies !is_ws(#[trigger] t[i]) && ascii_lower(t[i])
        == t[i] by {
        if i < w.len() {
            assert(t[i] == w[i]);
        } else if i == w.len() {
            assert(t[i] == '+');
        } else {
            assert(t[i] == rest[i - w.len() - 1]);
        }
    }
}

/// The text of a chord, one optional modifier word at a time.
proof fn lemma_prefixed_parse(
    on: bool,
    w: Seq<char>,
    rest: Seq<char>,
    text: Seq<char>,
    m: Modifiers,
    set: Modifiers,
)
    requires
        w.len() > 0,
        plain_word(w),
        modifier_named(w) matches Some(b) && set == match b {
            0u8 => Modifiers { primary: true, ..m },
            1u8 => Modifiers { control: true, ..m },
            2u8 => Modifiers { shift: true, ..m },
            _ => Modifiers { alt: true, ..m },
        },
    ensures
        on ==> chord_from_parts(split_seq(w + seq!['+'] + rest, '+'), 0, text, m, None)
            == chord_from_parts(split_seq(rest, '+'), 0, text, set, None),
{
    if on {
        assert(!w.contains('+'));
        lemma_split_at_first(w, rest, '+');
        lemma_trim_plain(w);
        let s = split_seq(rest, '+');
        assert((seq![w] + s)[0] == w);
        lemma_parts_step(w, s, 0, text, set, None);
    }
}

/// A chord written in the file syntax reads back as itself, for every chord
/// whose key the syntax can write.
#[verifier::rlimit(80)]
#[verifier::spinoff_prover]
pub proof fn law_chord_text_round_trip(c: KeyChord)
    requires
        writable_key(c.key),
    ensures
        spec_parse_chord(chord_source_text(c)) == Ok::<KeyChord, KeymapFault>(c),
        settled(chord_source_text(c)),
        chord_source_text(c).len() > 0,
{
    reveal_strlit("primary+");
    reveal_strlit("ctrl+");
    reveal_strlit("alt+");
    reveal_strlit("shift+");
    reveal_strlit("primary");
    reveal_strlit("ctrl");
    reveal_strlit("alt");
    reveal_strlit("shift");
    lemma_modifier_words();
    let mo = c.modifiers;
    let name = key_source_name(c.key);
    lemma_key_name(c.key);
    let t4 = name;
    let t3 = if mo.shift { "shift"@ + seq!['+'] + t4 } else { t4 };
    let t2 = if mo.alt { "alt"@ + seq!['+'] + t3 } else { t3 };
    let t1 = if mo.control { "ctrl"@ + seq!['+'] + t2 } else { t2 };
    let t0 = if mo.primary { "primary"@ + seq!['+'] + t1 } else { t1 };
    assert(chord_source_text(c) =~= t0);
    let m0 = Modifiers { primary: false, control: false, shift: false, alt: false };
    let m1 = if mo.primary { Modifiers { primary: true, ..m0 } } else { m0 };
    let m2 = if mo.control { Modifiers { control: true, ..m1 } } else { m1 };
    let m3 = if mo.alt { Modifiers { alt: true, ..m2 } } else { m2 };
    let m4 = if mo.shift { Modifiers { shift: true, ..m3 } } else { m3 };
    assert(m4 == mo);
    assert(settled(t4));
    if mo.shift {
        lemma_settled_join("shift"@, t4);
    }
    if mo.alt {
        lemma_settled_join("alt"@, t3);
    }
    if mo.control {
        lemma_settled_join("ctrl"@, t2);
    }
    if mo.primary {
        lemma_settled_join("primary"@, t1);
    }
    assert(settled(t0));
    assert(t0.len() > 0);
    assert(!is_ws(t0[0]) && !is_ws(t0.last()));
    lemma_trim_plain(t0);
    assert(t0.map_values(|ch: char| ascii_lower(ch)) =~= t0);
    lemma_prefixed_parse(mo.primary, "primary"@, t1, t0, m0, Modifiers { primary: true, ..m0 });
    lemma_prefixed_parse(mo.control, "ctrl"@, t2, t0, m1, Modifiers { control: true, ..m1 });
    lemma_prefixed_parse(mo.alt, "alt"@, t3, t0, m2, Modifiers { alt: true, ..m2 });
    lemma_prefixed_parse(mo.shift, "shift"@, t4, t0, m3, Modifiers { shift: true, ..m3 });
    assert(!name.contains('+'));
    lemma_split_whole(name, '+');
    lemma_trim_plain(name);
    let text = chord_source_text(c);
    let start = chord_from_parts(split_seq(t0, '+'), 0, text, m0, None);
    assert(spec_parse_chord(text) == start);
    assert(start == chord_from_parts(split_seq(t1, '+'), 0, text, m1, None));
    assert(start == chord_from_parts(split_seq(t2, '+'), 0, text, m2, None));
    assert(start == chord_from_parts(split_seq(t3, '+'), 0, text, m3, None));
    assert(start == chord_from_parts(seq![name], 0, text, m4, None));
    assert(seq![name][0] == name);
    assert(chord_from_parts(seq![name], 0, text, m4, None) == chord_from_parts(
        seq![name],
        1,
        text,
        m4,
        Some(c.key),
    ));
}

impl Default for Keymap {
    /// An unnamed keymap with nothing bound and type-ahead off.
    fn default() -> (r: Self)
        ensures
            r.wf(),
            r.spec_name() == Seq::<char>::empty(),
            r.entries() == Seq::<(KeyChord, Seq<char>)>::empty(),
            r.unbound_ids() == Seq::<Seq<char>>::empty(),
            !r.spec_type_ahead(),
    {
        let r = Keymap {
            name: String::new(),
            bindings: Vec::new(),
            unbound: TextMap::new(),
            type_ahead: false,
        };
        proof {
            assert(r.entries() =~= Seq::<(KeyChord, Seq<char>)>::empty());
            assert(r.unbound_ids() =~= Seq::<Seq<char>>::empty());
        }
        r
    }
}

/// A key a keymap line writes and reads back: one the chord syntax writes,
/// other than `#`, which starts a comment.
pub open spec fn line_key(k: Key) -> bool {
    writable_key(k) && k != Key::Char('#')
}

/// A chord a keymap line writes and reads back: its key one of those, and
/// not a bare `!`, which starts an option line.
pub open spec fn line_chord(c: KeyChord) -> bool {
    &&& line_key(c.key)
    &&& !(c.key == Key::Char('!') && !c.modifiers.primary && !c.modifiers.control && !c.modifiers.alt
        && !c.modifiers.shift)
}

/// A command id a keymap line holds: not empty, no white space, no `#`.
pub open spec fn line_id(t: Seq<char>) -> bool {
    &&& t.len() > 0
    &&& forall|i: int| 0 <= i < t.len() ==> !is_ws(#[trigger] t[i]) && t[i] != '#'
}

/// What a key's name is made of, as far as a keymap line cares.
proof fn lemma_name_marks(k: Key)
    requires
        line_key(k),
    ensures
        key_source_name(k).len() > 0,
        !key_source_name(k).contains('#'),
        !key_source_name(k).contains('='),
        key_source_name(k)[0] == '!' ==> k == Key::Char('!'),
        key_source_name(k) != "none"@,
{
    reveal_strlit("up");
    reveal_strlit("down");
    reveal_strlit("left");
    reveal_strlit("right");
    reveal_strlit("enter");
    reveal_strlit("escape");
    reveal_strlit("space");
    reveal_strlit("tab");
    reveal_strlit("backspace");
    reveal_strlit("delete");
    reveal_strlit("home");
    reveal_strlit("end");
    reveal_strlit("pageup");
    reveal_strlit("pagedown");
    reveal_strlit("insert");
    reveal_strlit("comma");
    reveal_strlit("period");
    reveal_strlit("minus");
    reveal_strlit("equal");
    reveal_strlit("plus");
    reveal_strlit("asterisk");
    reveal_strlit("underscore");
    reveal_strlit("slash");
    reveal_strlit("backslash");
    reveal_strlit("semicolon");
    reveal_strlit("quote");
    reveal_strlit("bracketleft");
    reveal_strlit("bracketright");
    reveal_strlit("grave");
    reveal_strlit("none");
    reveal_strlit("f");
    let name = key_source_name(k);
    lemma_key_name(k);
    match k {
        Key::Function(n) => {
            lemma_decimal_digits(n as nat);
            let d = decimal(n as nat);
            assert(name == "f"@ + d);
            assert(name[0] == 'f');
            assert forall|i: int| 0 <= i < name.len() implies name[i] != '#' && name[i] != '=' by {
                if i > 0 {
                    assert(name[i] == d[i - 1]);
                }
            }
        },
        _ => {},
    }
}

/// Text with no `c` in it, joined, has none.
proof fn lemma_free_join(a: Seq<char>, b: Seq<char>, c: char)
    requires
        !a.contains(c),
        !b.contains(c),
    ensures
        !(a + b).contains(c),
{
    if (a + b).contains(c) {
        let i = choose|i: int| 0 <= i < (a + b).len() && (a + b)[i] == c;
        if i < a.len() {
            assert(a[i] == c);
        } else {
            assert(b[i - a.len()] == c);
        }
    }
}

/// A chord as a keymap line writes it: settled text with no `#` and no
/// `=`, not starting with `!`, and not the word `none`.
proof fn lemma_chord_marks(c: KeyChord)
    requires
        line_chord(c),
    ensures
        chord_source_text(c).len() > 0,
        settled(chord_source_text(c)),
        !chord_source_text(c).contains('#'),
        !chord_source_text(c).contains('='),
        chord_source_text(c)[0] != '!',
        chord_source_text(c) != "none"@,
{
    reveal_strlit("primary+");
    reveal_strlit("ctrl+");
    reveal_strlit("alt+");
    reveal_strlit("shift+");
    reveal_strlit("none");
    law_chord_text_round_trip(c);
    lemma_name_marks(c.key);
    let name = key_source_name(c.key);
    let mo = c.modifiers;
    let e = Seq::<char>::empty();
    let p1 = if mo.primary { "primary+"@ } else { e };
    let p2 = if mo.control { "ctrl+"@ } else { e };
    let p3 = if mo.alt { "alt+"@ } else { e };
    let p4 = if mo.shift { "shift+"@ } else { e };
    let t = chord_source_text(c);
    assert(t == p1 + p2 + p3 + p4 + name);
    assert(!p1.contains('#') && !p1.contains('='));
    assert(!p2.contains('#') && !p2.contains('='));
    assert(!p3.contains('#') && !p3.contains('='));
    assert(!p4.contains('#') && !p4.contains('='));
    lemma_free_join(p1, p2, '#');
    lemma_free_join(p1 + p2, p3, '#');
    lemma_free_join(p1 + p2 + p3, p4, '#');
    lemma_free_join(p1 + p2 + p3 + p4, name, '#');
    lemma_free_join(p1, p2, '=');
    lemma_free_join(p1 + p2, p3, '=');
    lemma_free_join(p1 + p2 + p3, p4, '=');
    lemma_free_join(p1 + p2 + p3 + p4, name, '=');
    if mo.primary {
        assert(t[0] == 'p');
        assert(t.len() >= 9);
    } else if mo.control {
        assert(t[0] == 'c');
        assert(t.len() >= 6);
    } else if mo.alt {
        assert(t[0] == 'a');
        assert(t.len() >= 5);
    } else if mo.shift {
        assert(t[0] == 's');
        assert(t.len() >= 7);
    } else {
        assert(t =~= name);
    }
}

/// Text made settled, trimmed, with a space on either side, is itself.
proof fn lemma_trim_spaced(t: Seq<char>)
    requires
        t.len() > 0,
        !is_ws(t[0]),
        !is_ws(t.last()),
    ensures
        trim(t + seq![' ']) == t,
        trim(seq![' '] + t) == t,
        trim(t) == t,
{
    let a = t + seq![' '];
    assert(crate::text::trim_start(a) == a);
    assert(a.drop_last() =~= t);
    assert(crate::text::trim_end(a) == crate::text::trim_end(t));
    assert(crate::text::trim_end(t) == t);
    let b = seq![' '] + t;
    assert(b.drop_first() =~= t);
    assert(crate::text::trim_start(b) == crate::text::trim_start(t));
    assert(crate::text::trim_start(t) == t);
    lemma_trim_plain(t);
}

/// The `+`-separated parts read the same chord whatever text an error would
/// have quoted.
proof fn lemma_parts_any_text(parts: Seq<Seq<char>>, i: int, t1: Seq<char>, t2: Seq<char>, m: Modifiers, key: Option<Key>)
    requires
        chord_from_parts(parts, i, t1, m, key) is Ok,
    ensures
        chord_from_parts(parts, i, t2, m, key) == chord_from_parts(parts, i, t1, m, key),
    decreases parts.len() - i,
{
    if 0 <= i < parts.len() {
        let part = trim(parts[i]);
        match modifier_named(part) {
            Some(0) => lemma_parts_any_text(parts, i + 1, t1, t2, Modifiers { primary: true, ..m }, key),
            Some(1) => lemma_parts_any_text(parts, i + 1, t1, t2, Modifiers { control: true, ..m }, key),
            Some(2) => lemma_parts_any_text(parts, i + 1, t1, t2, Modifiers { shift: true, ..m }, key),
            Some(_) => lemma_parts_any_text(parts, i + 1, t1, t2, Modifiers { alt: true, ..m }, key),
            None => {
                if part.len() != 0 && key is None {
                    match spec_parse_key(part) {
                        Ok(k) => lemma_parts_any_text(parts, i + 1, t1, t2, m, Some(k)),
                        Err(_) => {},
                    }
                }
            },
        }
    }
}

/// A binding line read over a state that does not bind its chord yet.
proof fn lemma_binding_step(lines: Seq<Seq<char>>, i: int, c: KeyChord, id: Seq<char>, st: KeymapState)
    requires
        0 <= i < lines.len(),
        lines[i] == binding_line((c, id)),
        line_chord(c),
        line_id(id),
        !st.bound.contains_key(c),
    ensures
        parse_lines(lines, i, st) == parse_lines(lines, i + 1, KeymapState { bound: st.bound.insert(c, id), ..st }),
{
    reveal_strlit(" = ");
    reveal_strlit("none");
    lemma_chord_marks(c);
    law_chord_text_round_trip(c);
    let t = chord_source_text(c);
    let line = lines[i];
    let sp = t + seq![' '];
    let tail = seq!['='] + seq![' '] + id;
    assert(line =~= sp + tail);
    assert(!" = "@.contains('#'));
    assert(!id.contains('#'));
    crate::text::lemma_find_none(line, '#');
    assert(before_first(line, '#') == line);
    lemma_trim_plain(line);
    assert(!sp.contains('=')) by {
        if sp.contains('=') {
            let j = choose|j: int| 0 <= j < sp.len() && #[trigger] sp[j] == '=';
            if j < t.len() {
                assert(t[j] == '=');
            }
        }
    }
    crate::text::lemma_find_after(sp, tail, '=');
    assert(find(line, '=') == Some(t.len() as int + 1));
    assert(line.take(t.len() as int + 1) =~= sp);
    lemma_trim_spaced(t);
    lemma_trim_spaced(id);
    assert(line.skip(t.len() as int + 2) =~= seq![' '] + id);
    assert(t.map_values(|ch: char| ascii_lower(ch)) =~= t);
    let m0 = Modifiers { primary: false, control: false, shift: false, alt: false };
    assert(spec_parse_chord(t) == chord_from_parts(split_seq(t, '+'), 0, t, m0, None));
    lemma_parts_any_text(split_seq(t, '+'), 0, t, sp, m0, None);
    assert(spec_parse_chord(sp) == Ok::<KeyChord, KeymapFault>(c));
}

/// A removal line read over a state.
proof fn lemma_unbound_step(lines: Seq<Seq<char>>, i: int, id: Seq<char>, st: KeymapState)
    requires
        0 <= i < lines.len(),
        lines[i] == unbound_line(id),
        line_id(id),
    ensures
        parse_lines(lines, i, st) == parse_lines(lines, i + 1, KeymapState { unbound: st.unbound.insert(id), ..st }),
{
    reveal_strlit("none = ");
    reveal_strlit("none");
    let line = lines[i];
    let sp = "none"@ + seq![' '];
    let tail = seq!['='] + seq![' '] + id;
    assert(line =~= sp + tail);
    assert(!"none = "@.contains('#'));
    assert(!id.contains('#'));
    crate::text::lemma_find_none(line, '#');
    lemma_trim_plain(line);
    assert(!sp.contains('='));
    crate::text::lemma_find_after(sp, tail, '=');
    assert(line.take(5) =~= sp);
    lemma_trim_spaced("none"@);
    lemma_trim_spaced(id);
    assert(line.skip(6) =~= seq![' '] + id);
    assert("none"@.map_values(|ch: char| ascii_lower(ch)) =~= "none"@);
}

/// The type-ahead line read over a state.
proof fn lemma_option_step(lines: Seq<Seq<char>>, i: int, st: KeymapState)
    requires
        0 <= i < lines.len(),
        lines[i] == "!type_ahead = off"@,
    ensures
        parse_lines(lines, i, st) == parse_lines(lines, i + 1, KeymapState { type_ahead: false, ..st }),
{
    reveal_strlit("!type_ahead = off");
    reveal_strlit("!type_ahead");
    reveal_strlit("type_ahead");
    reveal_strlit("off");
    reveal_strlit("on");
    reveal_strlit("true");
    reveal_strlit("yes");
    let line = lines[i];
    let sp = "!type_ahead"@ + seq![' '];
    let tail = seq!['='] + seq![' '] + "off"@;
    assert(line =~= sp + tail);
    crate::text::lemma_find_none(line, '#');
    lemma_trim_plain(line);
    assert(!sp.contains('='));
    crate::text::lemma_find_after(sp, tail, '=');
    assert(line.take(12) =~= sp);
    lemma_trim_spaced("!type_ahead"@);
    lemma_trim_spaced("off"@);
    assert(line.skip(13) =~= seq![' '] + "off"@);
    assert("!type_ahead"@.drop_first() =~= "type_ahead"@);
    lemma_trim_spaced("type_ahead"@);
}

/// Lines joined with newlines, taken from the front.
proof fn lemma_block_front(lines: Seq<Seq<char>>)
    requires
        lines.len() > 0,
    ensures
        line_block(lines) == lines[0] + seq!['\n'] + line_block(lines.drop_first()),
    decreases lines.len(),
{
    if lines.len() == 1 {
        assert(lines.drop_last() =~= Seq::<Seq<char>>::empty());
        assert(lines.drop_first() =~= Seq::<Seq<char>>::empty());
        assert(line_block(lines) =~= lines[0] + seq!['\n'] + line_block(lines.drop_first()));
    } else {
        lemma_block_front(lines.drop_last());
        assert(lines.drop_last().drop_first() =~= lines.drop_first().drop_last());
        assert(lines.drop_first().last() == lines.last());
        assert(line_block(lines) =~= lines[0] + seq!['\n'] + line_block(lines.drop_first()));
    }
}

/// Lines with no newline in them, joined with newlines, cut back apart.
proof fn lemma_block_split(lines: Seq<Seq<char>>)
    requires
        forall|i: int| 0 <= i < lines.len() ==> !(#[trigger] lines[i]).contains('\n'),
    ensures
        split_seq(line_block(lines), '\n') == lines.push(Seq::<char>::empty()),
    decreases lines.len(),
{
    if lines.len() == 0 {
        assert(!Seq::<char>::empty().contains('\n'));
        lemma_split_whole(Seq::<char>::empty(), '\n');
        assert(lines.push(Seq::<char>::empty()) =~= seq![Seq::<char>::empty()]);
    } else {
        lemma_block_front(lines);
        let rest = lines.drop_first();
        assert forall|i: int| 0 <= i < rest.len() implies !(#[trigger] rest[i]).contains('\n') by {
            assert(rest[i] == lines[i + 1]);
        }
        lemma_block_split(rest);
        assert(!lines[0].contains('\n'));
        lemma_split_at_first(lines[0], line_block(rest), '\n');
        assert(seq![lines[0]] + rest.push(Seq::<char>::empty()) =~= lines.push(Seq::<char>::empty()));
    }
}

/// A saved keymap's text read back as lines is the lines it was saved as.
proof fn lemma_lines_back(lines: Seq<Seq<char>>)
    requires
        lines.len() > 0,
        forall|i: int| 0 <= i < lines.len() ==> !(#[trigger] lines[i]).contains('\n') && (lines[i].len() == 0
            || lines[i].last() != '\r'),
    ensures
        text_lines(lines_text(lines)) == lines,
{
    lemma_block_split(lines);
    let p = split_seq(line_block(lines), '\n');
    assert(p == lines.push(Seq::<char>::empty()));
    assert forall|i: int| 0 <= i < lines.len() implies #[trigger] crate::text::strip_cr(p[i]) == lines[i] by {
        assert(p[i] == lines[i]);
    }
    assert(text_lines(lines_text(lines)) =~= lines);
}

/// What reading the first `i` lines a keymap is saved as leaves.
spec fn read_so_far(ta: bool, es: Seq<(KeyChord, Seq<char>)>, ids: Seq<Seq<char>>, i: int) -> KeymapState {
    let o: int = if ta { 0 } else { 1 };
    if i < o {
        empty_state()
    } else if i <= o + es.len() {
        KeymapState { bound: binding_map(es.take(i - o)), unbound: Set::empty(), type_ahead: ta }
    } else {
        KeymapState {
            bound: binding_map(es),
            unbound: Set::new(|x: Seq<char>| ids.take(i - o - es.len()).contains(x)),
            type_ahead: ta,
        }
    }
}

/// One more binding in chord order binds one more chord.
proof fn lemma_binding_grows(es: Seq<(KeyChord, Seq<char>)>, j: int)
    requires
        in_chord_order(es),
        0 <= j < es.len(),
    ensures
        !binding_map(es.take(j)).contains_key(es[j].0),
        binding_map(es.take(j + 1)) == binding_map(es.take(j)).insert(es[j].0, es[j].1),
{
    let a = es.take(j);
    let b = es.take(j + 1);
    assert(in_chord_order(a));
    assert(in_chord_order(b));
    if binds(a, es[j].0) {
        let m = choose|m: int| 0 <= m < a.len() && (#[trigger] a[m]).0 == es[j].0;
        assert(a[m] == es[m]);
        assert(chord_rank(es[m].0) < chord_rank(es[j].0));
    }
    assert(b[j] == es[j]);
    lemma_binding_at(b, j);
    assert forall|k: KeyChord| #[trigger] binding_map(b).contains_key(k) == binding_map(a).insert(es[j].0, es[j].1).contains_key(k) by {
        if binds(b, k) && k != es[j].0 {
            let m = choose|m: int| 0 <= m < b.len() && (#[trigger] b[m]).0 == k;
            assert(m < j);
            assert(a[m] == b[m]);
        }
        if binds(a, k) {
            let m = choose|m: int| 0 <= m < a.len() && (#[trigger] a[m]).0 == k;
            assert(b[m] == a[m]);
        }
    }
    assert forall|k: KeyChord| binding_map(b).contains_key(k) implies #[trigger] binding_map(b)[k] == binding_map(a).insert(es[j].0, es[j].1)[k] by {
        if k != es[j].0 {
            let m = choose|m: int| 0 <= m < b.len() && (#[trigger] b[m]).0 == k;
            assert(m < j);
            assert(a[m] == b[m]);
            lemma_binding_at(b, m);
            lemma_binding_at(a, m);
        }
    }
    assert(binding_map(b) =~= binding_map(a).insert(es[j].0, es[j].1));
}

/// Reading a saved keymap's lines from `i` on, over what the lines before
/// left, ends with what all of them leave.
proof fn lemma_read_rest(ta: bool, es: Seq<(KeyChord, Seq<char>)>, ids: Seq<Seq<char>>, i: int)
    requires
        in_chord_order(es),
        forall|j: int| 0 <= j < es.len() ==> line_chord((#[trigger] es[j]).0) && line_id(es[j].1),
        forall|j: int| 0 <= j < ids.len() ==> line_id(#[trigger] ids[j]),
        0 <= i <= keymap_lines(ta, es, ids).len(),
    ensures
        parse_lines(keymap_lines(ta, es, ids), i, read_so_far(ta, es, ids, i)) == Ok::<KeymapState, KeymapFault>(
            read_so_far(ta, es, ids, keymap_lines(ta, es, ids).len() as int),
        ),
    decreases keymap_lines(ta, es, ids).len() - i,
{
    let lines = keymap_lines(ta, es, ids);
    let n = lines.len() as int;
    let o: int = if ta { 0 } else { 1 };
    let opt: Seq<Seq<char>> = if ta { Seq::empty() } else { seq!["!type_ahead = off"@] };
    let bl = es.map_values(|e: (KeyChord, Seq<char>)| binding_line(e));
    let ul = ids.map_values(|id: Seq<char>| unbound_line(id));
    assert(lines == opt + bl + ul);
    assert(n == o + es.len() + ids.len());
    if i < n {
        let st = read_so_far(ta, es, ids, i);
        if i < o {
            assert(lines[i] == "!type_ahead = off"@);
            lemma_option_step(lines, i, st);
            assert(es.take(0) =~= Seq::<(KeyChord, Seq<char>)>::empty());
            assert(binding_map(es.take(0)) =~= Map::<KeyChord, Seq<char>>::empty());
            assert(read_so_far(ta, es, ids, i + 1) == KeymapState { type_ahead: false, ..st });
        } else if i < o + es.len() {
            let j = i - o;
            assert(lines[i] == bl[j]);
            lemma_binding_grows(es, j);
            lemma_binding_step(lines, i, es[j].0, es[j].1, st);
            assert(read_so_far(ta, es, ids, i + 1) == KeymapState { bound: st.bound.insert(es[j].0, es[j].1), ..st });
        } else {
            let j = i - o - es.len();
            assert(lines[i] == ul[j]);
            lemma_unbound_step(lines, i, ids[j], st);
            assert(es.take(es.len() as int) =~= es);
            let next = Set::new(|x: Seq<char>| ids.take(j + 1).contains(x));
            let before = Set::new(|x: Seq<char>| ids.take(j).contains(x));
            assert forall|x: Seq<char>| #[trigger] next.contains(x) == st.unbound.insert(ids[j]).contains(x) by {
                if j == 0 {
                    assert(ids.take(1) =~= seq![ids[0]]);
                } else {
                    assert(ids.take(j + 1) =~= ids.take(j).push(ids[j]));
                }
                if ids.take(j + 1).contains(x) {
                    let m = choose|m: int| 0 <= m < ids.take(j + 1).len() && #[trigger] ids.take(j + 1)[m] == x;
                    if m < j {
                        assert(ids.take(j)[m] == x);
                    }
                }
                if j > 0 && before.contains(x) {
                    let m = choose|m: int| 0 <= m < ids.take(j).len() && #[trigger] ids.take(j)[m] == x;
                    assert(ids.take(j + 1)[m] == x);
                }
                assert(ids.take(j + 1)[j] == ids[j]);
            }
            if j == 0 {
                assert(st.unbound =~= Set::<Seq<char>>::empty());
            } else {
                assert(st.unbound == before);
            }
            assert(next =~= st.unbound.insert(ids[j]));
            assert(read_so_far(ta, es, ids, i + 1) == KeymapState { unbound: st.unbound.insert(ids[j]), ..st });
        }
        lemma_read_rest(ta, es, ids, i + 1);
    }
}

/// A keymap written as text reads back as itself, for every keymap whose
/// chords and command ids the text can hold: a key other than `#` (which
/// starts a comment) that the chord syntax writes, no bare `!` (which
/// starts an option), and ids that are not empty, with no white space and
/// no `#`.
#[verifier::rlimit(40)]
pub proof fn law_keymap_text_round_trip(k: &Keymap)
    requires
        k.wf(),
        forall|j: int| 0 <= j < k.entries().len() ==> line_chord((#[trigger] k.entries()[j]).0) && line_id(k.entries()[j].1),
        forall|j: int| 0 <= j < k.unbound_ids().len() ==> line_id(#[trigger] k.unbound_ids()[j]),
    ensures
        spec_parse_keymap(lines_text(keymap_lines(k.spec_type_ahead(), k.entries(), k.unbound_ids()))) matches Ok(st)
            && k.holds(st),
{
    reveal_strlit("!type_ahead = off");
    reveal_strlit(" = ");
    reveal_strlit("none = ");
    let ta = k.spec_type_ahead();
    let es = k.entries();
    let ids = k.unbound_ids();
    let lines = keymap_lines(ta, es, ids);
    let n = lines.len() as int;
    let o: int = if ta { 0 } else { 1 };
    let opt: Seq<Seq<char>> = if ta { Seq::empty() } else { seq!["!type_ahead = off"@] };
    let bl = es.map_values(|e: (KeyChord, Seq<char>)| binding_line(e));
    let ul = ids.map_values(|id: Seq<char>| unbound_line(id));
    assert(lines == opt + bl + ul);
    assert(es.take(0) =~= Seq::<(KeyChord, Seq<char>)>::empty());
    assert(binding_map(es.take(0)) =~= Map::<KeyChord, Seq<char>>::empty());
    assert(read_so_far(ta, es, ids, 0) == empty_state());
    lemma_read_rest(ta, es, ids, 0);
    let fin = read_so_far(ta, es, ids, n);
    if n == 0 {
        let e = Seq::<char>::empty();
        assert(lines_text(lines) == seq!['\n']);
        assert(!e.contains('\n'));
        lemma_split_whole(e, '\n');
        lemma_split_at_first(e, e, '\n');
        assert(e + seq!['\n'] + e =~= seq!['\n']);
        assert(text_lines(seq!['\n']) =~= seq![e]);
        assert(parse_lines(seq![e], 1, empty_state()) == Ok::<KeymapState, KeymapFault>(empty_state()));
        assert(trim(before_first(e, '#')) =~= e) by {
            crate::text::lemma_find_none(e, '#');
        }
        assert(parse_lines(seq![e], 0, empty_state()) == Ok::<KeymapState, KeymapFault>(empty_state()));
        assert(es =~= Seq::<(KeyChord, Seq<char>)>::empty());
        assert(k.bound() =~= empty_state().bound);
    } else {
        assert forall|i: int| 0 <= i < lines.len() implies !(#[trigger] lines[i]).contains('\n') && (lines[i].len() == 0
            || lines[i].last() != '\r') by {
            if i < o {
                assert(lines[i] == "!type_ahead = off"@);
            } else if i < o + es.len() {
                let j = i - o;
                assert(lines[i] == bl[j]);
                lemma_chord_marks(es[j].0);
                let t = chord_source_text(es[j].0);
                let line = binding_line(es[j]);
                assert(line =~= t + " = "@ + es[j].1);
                if line.contains('\n') {
                    let m = choose|m: int| 0 <= m < line.len() && #[trigger] line[m] == '\n';
                    if m < t.len() {
                        assert(t[m] == '\n');
                    } else if m >= t.len() + 3 {
                        assert(es[j].1[m - t.len() - 3] == '\n');
                    }
                }
                assert(line.last() == es[j].1.last());
            } else {
                let j = i - o - es.len();
                assert(lines[i] == ul[j]);
                let line = unbound_line(ids[j]);
                if line.contains('\n') {
                    let m = choose|m: int| 0 <= m < line.len() && #[trigger] line[m] == '\n';
                    if m >= 7 {
                        assert(ids[j][m - 7] == '\n');
                    }
                }
                assert(line.last() == ids[j].last());
            }
        }
        lemma_lines_back(lines);
        assert(es.take(es.len() as int) =~= es);
        assert(ids.take(ids.len() as int) =~= ids);
        assert forall|x: Seq<char>| ids.contains(x) <==> #[trigger] fin.unbound.contains(x) by {
            if ids.len() == 0 {
                assert(fin.unbound =~= Set::<Seq<char>>::empty());
            }
        }
    }
}

} // verus!
