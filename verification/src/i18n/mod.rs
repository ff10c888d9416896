//! Localization.
//!
//! Stable semantic keys, an English fallback, no sentence assembled from
//! fragments, and detectable missing translations. The catalogue format is
//! this crate's own and every consumer goes through [`Localizer`], so the
//! framework behind it can change without touching the callers.

pub mod catalog;
pub mod localizer;

pub use catalog::{Catalog, CatalogError, CatalogErrorReason, Message};
pub use localizer::{Args, Localizer};

use vstd::prelude::*;

use crate::text::{
    ascii_lower, chars_eq, chars_of, split_chars, split_seq, to_ascii_lower,
};

verus! {

/// A BCP-47-style locale identifier, e.g. `en` or `zh-TW`.
#[derive(Debug, Clone, PartialEq, Eq, Hash, PartialOrd, Ord)]
pub struct LocaleId(String);

impl View for LocaleId {
    type V = Seq<char>;

    closed spec fn view(&self) -> Seq<char> {
        self.0@
    }
}

/// A system tag with `_` read as `-` and ASCII letters lowercased.
pub open spec fn normalized_tag(t: Seq<char>) -> Seq<char> {
    t.map_values(|c: char| ascii_lower(if c == '_' { '-' } else { c }))
}

/// Whether a piece of text is not empty.
pub open spec fn nonempty_text() -> spec_fn(Seq<char>) -> bool {
    |p: Seq<char>| p.len() > 0
}

/// The non-empty `-`-separated parts of a normalized tag.
pub open spec fn tag_parts(t: Seq<char>) -> Seq<Seq<char>> {
    split_seq(normalized_tag(t), '-').filter(nonempty_text())
}

/// A part that marks Traditional Chinese: the Hant script, or a region that
/// writes it.
pub open spec fn traditional_mark(p: Seq<char>) -> bool {
    p == "hant"@ || p == "tw"@ || p == "hk"@ || p == "mo"@
}

/// The shipped locale a system tag names: English for any `en`, Traditional
/// Chinese for a `zh` with a Traditional script or region after it, and
/// nothing otherwise.
pub open spec fn shipped_match(t: Seq<char>) -> Option<Seq<char>> {
    let parts = tag_parts(t);
    if parts.len() == 0 {
        None
    } else if parts[0] == "en"@ {
        Some("en"@)
    } else if parts[0] != "zh"@ {
        None
    } else if exists|i: int| 1 <= i < parts.len() && traditional_mark(#[trigger] parts[i]) {
        Some("zh-TW"@)
    } else {
        None
    }
}

/// The first of `tags` from `i` on that names a shipped locale.
pub open spec fn first_shipped(tags: Seq<Seq<char>>, i: int) -> Option<Seq<char>>
    decreases tags.len() - i,
{
    if i < 0 || i >= tags.len() {
        None
    } else {
        match shipped_match(tags[i]) {
            Some(l) => Some(l),
            None => first_shipped(tags, i + 1),
        }
    }
}

impl LocaleId {
    /// English, the fallback locale.
    pub const EN: &'static str = "en";

    /// Taiwan Traditional Chinese.
    pub const ZH_TW: &'static str = "zh-TW";

    /// Wrap an identifier.
    pub fn new(id: &str) -> (r: Self)
        ensures
            r@ == id@,
    {
        LocaleId(id.to_owned())
    }

    /// The English fallback locale.
    pub fn english() -> (r: Self)
        ensures
            r@ == "en"@,
    {
        Self::new("en")
    }

    /// Taiwan Traditional Chinese.
    pub fn traditional_chinese() -> (r: Self)
        ensures
            r@ == "zh-TW"@,
    {
        Self::new("zh-TW")
    }

    /// Every locale the application ships, best match first.
    pub fn shipped() -> (r: Vec<&'static str>)
        ensures
            r@.len() == 2,
            r@[0]@ == "en"@,
            r@[1]@ == "zh-TW"@,
    {
        vec!["en", "zh-TW"]
    }

    /// The identifier as text.
    pub fn as_str(&self) -> (r: &str)
        ensures
            r@ == self@,
    {
        self.0.as_str()
    }

    /// Another value with the same identifier.
    pub fn duplicate(&self) -> (r: Self)
        ensures
            r@ == self@,
    {
        LocaleId(self.0.as_str().to_owned())
    }

    /// The shipped locale that best matches a system locale tag, whatever
    /// separator and case the platform favours; English, the fallback, when
    /// nothing shipped matches.
    ///
    /// Traditional Chinese is matched by script or region, never by the
    /// language alone: a bare `zh` covers both scripts and falls back rather
    /// than guessing.
    pub fn best_match(system_tag: &str) -> (r: Self)
        ensures
            r@ == match shipped_match(system_tag@) {
                Some(l) => l,
                None => "en"@,
            },
    {
        match Self::match_shipped(system_tag) {
            Some(l) => l,
            None => Self::english(),
        }
    }

    /// The best shipped locale for a list of preferred tags, in the user's
    /// order: the first tag we ship wins, so a user whose first choice we do
    /// not have gets their second rather than the fallback.
    pub fn best_match_of(tags: &[&str]) -> (r: Self)
        ensures
            r@ == match first_shipped(tags@.map_values(|t: &str| t@), 0) {
                Some(l) => l,
                None => "en"@,
            },
    {
        let ghost ts = tags@.map_values(|t: &str| t@);
        let mut i: usize = 0;
        while i < tags.len()
            invariant
                i <= tags@.len(),
                ts == tags@.map_values(|t: &str| t@),
                first_shipped(ts, 0) == first_shipped(ts, i as int),
            decreases tags.len() - i,
        {
            proof {
                assert(ts[i as int] == tags@[i as int]@);
            }
            match Self::match_shipped(tags[i]) {
                Some(l) => {
                    return l;
                },
                None => {},
            }
            i += 1;
        }
        Self::english()
    }

    /// The shipped locale a tag names, if we ship one for it.
    fn match_shipped(system_tag: &str) -> (r: Option<Self>)
        ensures
            r matches Some(l) ==> shipped_match(system_tag@) == Some(l@),
            r is None ==> shipped_match(system_tag@) is None,
    {
        let raw = chars_of(system_tag);
        let mut normalized: Vec<char> = Vec::new();
        let mut k: usize = 0;
        while k < raw.len()
            invariant
                k <= raw@.len(),
                raw@ == system_tag@,
                normalized@ == normalized_tag(raw@.take(k as int)),
            decreases raw.len() - k,
        {
            let c = raw[k];
            let d = if c == '_' { '-' } else { c };
            normalized.push(to_ascii_lower(d));
            proof {
                assert(normalized@ =~= normalized_tag(raw@.take(k + 1)));
            }
            k += 1;
        }
        proof {
            assert(raw@.take(k as int) =~= raw@);
        }
        let pieces = split_chars(normalized.as_slice(), '-');
        let ghost pv = pieces@.map_values(|v: Vec<char>| v@);
        let mut parts: Vec<&Vec<char>> = Vec::new();
        let mut j: usize = 0;
        while j < pieces.len()
            invariant
                j <= pieces@.len(),
                pv == pieces@.map_values(|v: Vec<char>| v@),
                parts@.map_values(|v: &Vec<char>| v@) == pv.take(j as int).filter(nonempty_text()),
            decreases pieces.len() - j,
        {
            proof {
                reveal_with_fuel(Seq::filter, 1);
                assert(pv.take(j + 1).drop_last() =~= pv.take(j as int));
                assert(pv[j as int] == pieces@[j as int]@);
            }
            let ghost before = parts@;
            if pieces[j].len() > 0 {
                parts.push(&pieces[j]);
                proof {
                    assert(parts@.map_values(|v: &Vec<char>| v@) =~= before.map_values(
                        |v: &Vec<char>| v@,
                    ).push(pv[j as int]));
                }
            }
            j += 1;
        }
        let ghost ps = tag_parts(system_tag@);
        proof {
            assert(pv.take(j as int) =~= pv);
            assert(parts@.map_values(|v: &Vec<char>| v@) == ps);
        }
        if parts.len() == 0 {
            return None;
        }
        proof {
            assert(parts@[0]@ == ps[0]);
        }
        if chars_eq(parts[0].as_slice(), chars_of("en").as_slice()) {
            return Some(Self::english());
        }
        if !chars_eq(parts[0].as_slice(), chars_of("zh").as_slice()) {
            return None;
        }
        let mut i: usize = 1;
        while i < parts.len()
            invariant
                1 <= i <= parts@.len(),
                parts@.map_values(|v: &Vec<char>| v@) == ps,
                ps == tag_parts(system_tag@),
                ps[0] == "zh"@,
                ps[0] != "en"@,
                forall|q: int| 1 <= q < i ==> !traditional_mark(#[trigger] ps[q]),
            decreases parts.len() - i,
        {
            let p = parts[i].as_slice();
            proof {
                assert(p@ == ps[i as int]);
            }
            if chars_eq(p, chars_of("hant").as_slice()) || chars_eq(p, chars_of("tw").as_slice())
                || chars_eq(p, chars_of("hk").as_slice()) || chars_eq(p, chars_of("mo").as_slice()) {
                proof {
                    assert(traditional_mark(ps[i as int]));
                }
                return Some(Self::traditional_chinese());
            }
            i += 1;
        }
        None
    }
}

/// Whatever the system reports, the locale picked is one that ships:
/// English or Traditional Chinese, never an error and never a guess.
pub proof fn law_best_match_is_shipped(tags: Seq<Seq<char>>)
    ensures
        forall|t: Seq<char>|
            #[trigger] shipped_match(t) matches Some(l) ==> l == "en"@ || l == "zh-TW"@,
        first_shipped(tags, 0) matches Some(l) ==> l == "en"@ || l == "zh-TW"@,
{
    lemma_first_shipped(tags, 0);
}

proof fn lemma_first_shipped(tags: Seq<Seq<char>>, i: int)
    ensures
        first_shipped(tags, i) matches Some(l) ==> l == "en"@ || l == "zh-TW"@,
    decreases tags.len() - i,
{
    if 0 <= i < tags.len() {
        lemma_first_shipped(tags, i + 1);
    }
}

} // verus!
