//! Resolving a key to display text.
//!
//! English is the fallback, missing translations are detectable, and a key
//! that exists nowhere is an error rather than an English string leaking
//! into the interface.

use vstd::prelude::*;
use vstd::std_specs::iter::IteratorSpec;

use crate::error::{Error, ErrorCode};
use crate::i18n::catalog::{rendered, scan_placeholders, Catalog, Message};
use crate::i18n::LocaleId;
use crate::ordered::TextMap;
use crate::text::push_str;

verus! {

/// Named arguments for a message: data such as counts, names and paths,
/// never translated fragments of a sentence.
#[derive(Debug, Clone, PartialEq, Eq)]
pub struct Args(TextMap<String, String>);

impl Args {
    /// Name to value.
    pub closed spec fn spec_map(&self) -> Map<Seq<char>, Seq<char>> {
        Map::new(|k: Seq<char>| self.0.has(k), |k: Seq<char>| self.0.value_of(k)@)
    }

    /// The names, sorted.
    pub closed spec fn spec_names(&self) -> Seq<Seq<char>> {
        self.0.keys()
    }

    /// Sorted, each name once.
    pub closed spec fn wf(&self) -> bool {
        self.0.wf()
    }

    /// No arguments.
    pub fn new() -> (r: Self)
        ensures
            r.wf(),
            r.spec_map() == Map::<Seq<char>, Seq<char>>::empty(),
            r.spec_names().len() == 0,
    {
        let r = Args(TextMap::new());
        proof {
            assert(r.spec_map() =~= Map::<Seq<char>, Seq<char>>::empty());
        }
        r
    }

    /// Add or replace an argument.
    pub fn with(self, name: &str, value: &str) -> (r: Self)
        requires
            self.wf(),
        ensures
            r.wf(),
            r.spec_map() == self.spec_map().insert(name@, value@),
    {
        let mut m = self.0;
        let ghost before = m;
        m.insert(name.to_owned(), value.to_owned());
        let r = Args(m);
        proof {
            assert forall|k: Seq<char>| #[trigger] r.spec_map().contains_key(k) implies r.spec_map()[k]
                == self.spec_map().insert(name@, value@)[k] by {
                let i = choose|i: int| 0 <= i < m.entries().len() && m.keys()[i] == k;
                m.lemma_value_at(i);
                if k == name@ {
                    let w = choose|w: int|
                        0 <= w < m.entries().len() && m.keys()[w] == name@ && m.entries()[w].1@
                            == value@;
                    m.lemma_value_at(w);
                } else {
                    assert(before.entries().contains(m.entries()[i]));
                    let j = choose|j: int|
                        0 <= j < before.entries().len() && before.entries()[j] == m.entries()[i];
                    before.lemma_value_at(j);
                }
            }
            assert(r.spec_map() =~= self.spec_map().insert(name@, value@));
        }
        r
    }

    /// The value for a name.
    pub fn lookup(&self, name: &str) -> (r: Option<&String>)
        requires
            self.wf(),
        ensures
            r is Some <==> self.spec_map().contains_key(name@),
            r matches Some(v) ==> v@ == self.spec_map()[name@],
    {
        self.0.get(name)
    }

    /// The argument names supplied, sorted.
    pub fn name_list(&self) -> (r: Vec<&str>)
        ensures
            r@.map_values(|s: &str| s@) == self.spec_names(),
    {
        let entries = self.0.as_slice();
        let mut out: Vec<&str> = Vec::new();
        let mut i: usize = 0;
        while i < entries.len()
            invariant
                i <= entries@.len(),
                entries@ == self.0.entries(),
                out@.map_values(|s: &str| s@) == self.spec_names().take(i as int),
            decreases entries.len() - i,
        {
            let ghost before = out@;
            out.push(entries[i].0.as_str());
            proof {
                assert(self.spec_names()[i as int] == entries@[i as int].0@);
                assert(out@.map_values(|s: &str| s@) =~= before.map_values(|s: &str| s@).push(
                    entries@[i as int].0@,
                ));
                assert(self.spec_names().take(i + 1) =~= self.spec_names().take(i as int).push(
                    entries@[i as int].0@,
                ));
            }
            i += 1;
        }
        proof {
            assert(self.spec_names().take(i as int) =~= self.spec_names());
        }
        out
    }

    /// The argument names supplied, sorted.
    pub fn names(&self) -> (r: std::vec::IntoIter<&str>)
        ensures
            r.remaining().map_values(|s: &str| s@) == self.spec_names(),
    {
        let v = self.name_list();
        proof {
            broadcast use vstd::std_specs::vec::axiom_spec_into_iter;
        }
        v.into_iter()
    }
}

impl Default for Args {
    /// No arguments.
    fn default() -> (r: Self)
        ensures
            r.wf(),
            r.spec_map() == Map::<Seq<char>, Seq<char>>::empty(),
    {
        Args::new()
    }
}

/// What a message resolves to, given the template that was found.
pub open spec fn resolved_text(template: Seq<char>, args: Map<Seq<char>, Seq<char>>) -> Seq<char> {
    rendered(
        template,
        scan_placeholders(template) matches Ok(ns) && ns.len() > 0,
        args,
    )
}

/// The developer-facing context of a key missing everywhere.
pub open spec fn missing_text(key: Seq<char>, locale: Seq<char>) -> Seq<char> {
    "key `"@ + key + "` missing in `"@ + locale + "` and fallback"@
}

/// Resolves localization keys against a primary catalogue with an English
/// fallback.
#[derive(Debug, Clone)]
pub struct Localizer {
    primary: Catalog,
    fallback: Catalog,
}

impl Localizer {
    /// The catalogue used first.
    pub closed spec fn spec_primary(&self) -> Catalog {
        self.primary
    }

    /// The catalogue used when the first lacks a key.
    pub closed spec fn spec_fallback(&self) -> Catalog {
        self.fallback
    }

    /// Both catalogues are well formed.
    pub open spec fn wf(&self) -> bool {
        self.spec_primary().wf() && self.spec_fallback().wf()
    }

    /// The template a key resolves to: the primary catalogue's, else the
    /// fallback's.
    pub open spec fn template_for(&self, key: Seq<char>) -> Option<Seq<char>> {
        if self.spec_primary().texts().contains_key(key) {
            Some(self.spec_primary().texts()[key])
        } else if self.spec_fallback().texts().contains_key(key) {
            Some(self.spec_fallback().texts()[key])
        } else {
            None
        }
    }

    /// Build a localizer. The fallback is the English catalogue; passing
    /// the same catalogue for both is what the English locale does.
    pub fn new(primary: Catalog, fallback: Catalog) -> (r: Self)
        ensures
            r.spec_primary() == primary,
            r.spec_fallback() == fallback,
    {
        Self { primary, fallback }
    }

    /// The active locale.
    pub fn locale(&self) -> (r: &LocaleId)
        ensures
            r@ == self.spec_primary().spec_locale(),
    {
        self.primary.locale()
    }

    /// The fallback locale.
    pub fn fallback_locale(&self) -> (r: &LocaleId)
        ensures
            r@ == self.spec_fallback().spec_locale(),
    {
        self.fallback.locale()
    }

    /// Replace the primary catalogue and nothing else: switching locale
    /// must not disturb any other state.
    pub fn set_primary(&mut self, primary: Catalog)
        ensures
            final(self).spec_primary() == primary,
            final(self).spec_fallback() == old(self).spec_fallback(),
    {
        self.primary = primary;
    }

    /// Whether a key resolves in the primary catalogue, so that an
    /// untranslated string can be found.
    pub fn is_translated(&self, key: &str) -> (r: bool)
        requires
            self.wf(),
        ensures
            r == self.spec_primary().texts().contains_key(key@),
    {
        self.primary.contains(key)
    }

    /// Resolve a key and substitute arguments. A key in neither catalogue is
    /// a missing-localization error, never invented text.
    pub fn format(&self, key: &str, args: &Args) -> (r: Result<String, Error>)
        requires
            self.wf(),
            args.wf(),
        ensures
            self.template_for(key@) matches Some(t) ==> (r matches Ok(s) && s@ == resolved_text(
                t,
                args.spec_map(),
            )),
            self.template_for(key@) is None ==> (r matches Err(e) && e.spec_code()
                == ErrorCode::MissingLocalization && e.spec_context() == missing_text(
                key@,
                self.spec_primary().spec_locale(),
            )),
    {
        let message = match self.primary.get(key) {
            Some(m) => m,
            None => match self.fallback.get(key) {
                Some(m) => m,
                None => {
                    let mut context = String::new();
                    push_str(&mut context, "key `");
                    push_str(&mut context, key);
                    push_str(&mut context, "` missing in `");
                    push_str(&mut context, self.primary.locale().as_str());
                    push_str(&mut context, "` and fallback");
                    return Err(Error::with_context(ErrorCode::MissingLocalization, context));
                },
            },
        };
        proof {
            message.lemma_placeholders_match();
        }
        Ok(message.render(args))
    }

    /// Resolve a key with no arguments.
    pub fn text(&self, key: &str) -> (r: Result<String, Error>)
        requires
            self.wf(),
        ensures
            self.template_for(key@) matches Some(t) ==> (r matches Ok(s) && s@ == resolved_text(
                t,
                Map::empty(),
            )),
            self.template_for(key@) is None ==> (r matches Err(e) && e.spec_code()
                == ErrorCode::MissingLocalization && e.spec_context() == missing_text(
                key@,
                self.spec_primary().spec_locale(),
            )),
    {
        self.format(key, &Args::new())
    }

    /// Resolve a key, or show the key itself when it is missing: for code
    /// that must render something, such as a crash reporter.
    pub fn text_or_key(&self, key: &str) -> (r: String)
        requires
            self.wf(),
        ensures
            self.template_for(key@) matches Some(t) ==> r@ == resolved_text(t, Map::empty()),
            self.template_for(key@) is None ==> r@ == key@,
    {
        match self.text(key) {
            Ok(s) => s,
            Err(_) => key.to_owned(),
        }
    }
}

} // verus!
