//! Working out which offset someone means.
//!
//! One box, several ways of writing a position: `0x1F4` from a spec, `500.`
//! from a calculator, `+0x200` for the next record, `-512.` to step back a
//! sector, and `end-4` for a trailer.

use vstd::prelude::*;

use crate::error::{Error, ErrorCode};
use crate::text::{
    ascii_lower, chars_of, is_whitespace, is_ws, lower_chars, parse_unsigned, parse_unsigned_chars,
    push_str, slice_to_vec,
};

verus! {

/// Whether a character counts in a typed position: spaces and underscores
/// are ignored, so a pasted offset works.
pub open spec fn offset_char() -> spec_fn(char) -> bool {
    |c: char| !is_ws(c) && c != '_'
}

/// A typed position with spaces and underscores dropped and ASCII letters
/// lowercased.
pub open spec fn offset_text(t: Seq<char>) -> Seq<char> {
    t.filter(offset_char()).map_values(|c: char| ascii_lower(c))
}

/// One number, hexadecimal unless it says otherwise: `0x` and `$` are hex,
/// `0n` and a trailing `.` decimal.
pub open spec fn number_value(d: Seq<char>) -> Option<int> {
    let max = u64::MAX as int;
    if d.len() >= 2 && d[0] == '0' && d[1] == 'x' {
        parse_unsigned(d.skip(2), 16, max)
    } else if d.len() >= 1 && d[0] == '$' {
        parse_unsigned(d.skip(1), 16, max)
    } else if d.len() >= 2 && d[0] == '0' && d[1] == 'n' {
        parse_unsigned(d.skip(2), 10, max)
    } else if d.len() >= 1 && d.last() == '.' {
        parse_unsigned(d.drop_last(), 10, max)
    } else {
        parse_unsigned(d, 16, max)
    }
}

/// Why a typed position was refused.
pub enum GotoFault {
    /// It is not a position.
    NotAPosition,
    /// It is before the start of the file.
    BeforeStart,
}

/// Whether a typed position starts with `end`.
pub open spec fn from_end(l: Seq<char>) -> bool {
    l.len() >= 3 && l[0] == 'e' && l[1] == 'n' && l[2] == 'd'
}

/// Where a typed position lands: measured from the start, from the cursor
/// when it has a sign, or from the end after `end`; clamped to the end
/// rather than refused past it; refused before the start.
pub open spec fn resolve_spec(t: Seq<char>, cursor: u64, len: u64) -> Result<int, GotoFault> {
    let l = offset_text(t);
    if l.len() == 0 {
        Err(GotoFault::NotAPosition)
    } else {
        let base: int = if from_end(l) {
            len as int
        } else if l[0] == '+' || l[0] == '-' {
            cursor as int
        } else {
            0
        };
        let rest = if from_end(l) {
            l.skip(3)
        } else {
            l
        };
        if rest.len() == 0 {
            Ok(base)
        } else {
            let negative = rest[0] == '-';
            let digits = if rest[0] == '-' || rest[0] == '+' {
                rest.drop_first()
            } else {
                rest
            };
            if digits.len() == 0 {
                Err(GotoFault::NotAPosition)
            } else {
                match number_value(digits) {
                    None => Err(GotoFault::NotAPosition),
                    Some(m) => if negative {
                        if base < m {
                            Err(GotoFault::BeforeStart)
                        } else if base - m < len {
                            Ok(base - m)
                        } else {
                            Ok(len as int)
                        }
                    } else if base + m > u64::MAX {
                        Err(GotoFault::NotAPosition)
                    } else if base + m < len {
                        Ok(base + m)
                    } else {
                        Ok(len as int)
                    },
                }
            }
        }
    }
}

/// The context a refusal carries: the text as typed, and why.
pub open spec fn goto_context(t: Seq<char>, f: GotoFault) -> Seq<char> {
    match f {
        GotoFault::NotAPosition => t + ": not a position in this file"@,
        GotoFault::BeforeStart => t + ": that is before the start of the file"@,
    }
}

fn refuse(text: &str, before_start: bool) -> (r: Error)
    ensures
        r.spec_code() == ErrorCode::InvalidPath,
        r.spec_context() == goto_context(
            text@,
            if before_start {
                GotoFault::BeforeStart
            } else {
                GotoFault::NotAPosition
            },
        ),
{
    let mut s = text.to_owned();
    if before_start {
        push_str(&mut s, ": that is before the start of the file");
    } else {
        push_str(&mut s, ": not a position in this file");
    }
    Error::with_context(ErrorCode::InvalidPath, s)
}

/// Read one number, hexadecimal unless it says otherwise.
fn number(d: &[char]) -> (r: Option<u64>)
    ensures
        r matches Some(v) ==> number_value(d@) == Some(v as int),
        r is None ==> number_value(d@) is None,
{
    let n = d.len();
    if n >= 2 && d[0] == '0' && d[1] == 'x' {
        let rest = slice_to_vec(d, 2, n);
        proof {
            assert(rest@ =~= d@.skip(2));
        }
        parse_unsigned_chars(rest.as_slice(), 16, u64::MAX)
    } else if n >= 1 && d[0] == '$' {
        let rest = slice_to_vec(d, 1, n);
        proof {
            assert(rest@ =~= d@.skip(1));
        }
        parse_unsigned_chars(rest.as_slice(), 16, u64::MAX)
    } else if n >= 2 && d[0] == '0' && d[1] == 'n' {
        let rest = slice_to_vec(d, 2, n);
        proof {
            assert(rest@ =~= d@.skip(2));
        }
        parse_unsigned_chars(rest.as_slice(), 10, u64::MAX)
    } else if n >= 1 && d[n - 1] == '.' {
        let rest = slice_to_vec(d, 0, n - 1);
        proof {
            assert(rest@ =~= d@.drop_last());
        }
        parse_unsigned_chars(rest.as_slice(), 10, u64::MAX)
    } else {
        parse_unsigned_chars(d, 16, u64::MAX)
    }
}

/// Parse a position and resolve it against where the cursor is now. An
/// expression that is not understood is refused, never read as zero.
pub fn resolve(text: &str, cursor: u64, len: u64) -> (r: Result<u64, Error>)
    ensures
        resolve_spec(text@, cursor, len) matches Ok(v) ==> r == Ok::<u64, Error>(v as u64),
        resolve_spec(text@, cursor, len) matches Err(f) ==> (r matches Err(e) && e.spec_code()
            == ErrorCode::InvalidPath && e.spec_context() == goto_context(text@, f)),
{
    let cs = chars_of(text);
    let mut kept: Vec<char> = Vec::new();
    let mut i: usize = 0;
    while i < cs.len()
        invariant
            i <= cs@.len(),
            kept@ == cs@.take(i as int).filter(offset_char()),
        decreases cs.len() - i,
    {
        proof {
            reveal_with_fuel(Seq::filter, 1);
            assert(cs@.take(i + 1).drop_last() =~= cs@.take(i as int));
        }
        let c = cs[i];
        if !is_whitespace(c) && c != '_' {
            kept.push(c);
        }
        i += 1;
    }
    proof {
        assert(cs@.take(i as int) =~= cs@);
    }
    let l = lower_chars(kept.as_slice());
    let ghost lv = offset_text(text@);
    proof {
        assert(l@ == lv);
    }
    if l.len() == 0 {
        return Err(refuse(text, false));
    }
    let at_end = l.len() >= 3 && l[0] == 'e' && l[1] == 'n' && l[2] == 'd';
    let base: u64 = if at_end {
        len
    } else if l[0] == '+' || l[0] == '-' {
        cursor
    } else {
        0
    };
    let rest = if at_end {
        slice_to_vec(l.as_slice(), 3, l.len())
    } else {
        slice_to_vec(l.as_slice(), 0, l.len())
    };
    proof {
        if at_end {
            assert(rest@ =~= lv.skip(3));
        } else {
            assert(rest@ =~= lv);
        }
    }
    if rest.len() == 0 {
        return Ok(base);
    }
    let negative = rest[0] == '-';
    let digits = if rest[0] == '-' || rest[0] == '+' {
        slice_to_vec(rest.as_slice(), 1, rest.len())
    } else {
        slice_to_vec(rest.as_slice(), 0, rest.len())
    };
    proof {
        assert(rest@.subrange(1, rest@.len() as int) =~= rest@.drop_first());
        assert(rest@.subrange(0, rest@.len() as int) =~= rest@);
    }
    if digits.len() == 0 {
        return Err(refuse(text, false));
    }
    let magnitude = match number(digits.as_slice()) {
        Some(m) => m,
        None => {
            return Err(refuse(text, false));
        },
    };
    let resolved = if negative {
        match base.checked_sub(magnitude) {
            Some(v) => v,
            None => {
                return Err(refuse(text, true));
            },
        }
    } else {
        match base.checked_add(magnitude) {
            Some(v) => v,
            None => {
                return Err(refuse(text, false));
            },
        }
    };
    Ok(if resolved < len { resolved } else { len })
}

} // verus!
