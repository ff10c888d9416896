//! Text in dictionary order, and maps kept in that order.
//!
//! Catalogue keys, command ids and placeholder names are listed in sorted
//! order and looked up by their text. This is the order they are kept in,
//! the comparison that decides it, and a map whose entries stay sorted and
//! unique through every insertion and removal.

use vstd::prelude::*;

use crate::text::chars_of;

verus! {

/// The result of comparing two keys.
#[derive(Debug, Clone, Copy, PartialEq, Eq, Structural)]
pub enum Order {
    /// The first comes before the second.
    Less,
    /// They are the same text.
    Equal,
    /// The first comes after the second.
    Greater,
}

/// Dictionary order on character sequences: the first difference decides,
/// and a proper prefix comes first. The same order `String` sorts by.
pub open spec fn seq_lt(a: Seq<char>, b: Seq<char>) -> bool
    decreases a.len(),
{
    if a.len() == 0 {
        b.len() > 0
    } else if b.len() == 0 {
        false
    } else if a[0] < b[0] {
        true
    } else if a[0] == b[0] {
        seq_lt(a.drop_first(), b.drop_first())
    } else {
        false
    }
}

/// Nothing comes before itself.
pub proof fn lemma_lt_irreflexive(a: Seq<char>)
    ensures
        !seq_lt(a, a),
    decreases a.len(),
{
    if a.len() > 0 {
        lemma_lt_irreflexive(a.drop_first());
    }
}

/// The order is transitive.
pub proof fn lemma_lt_transitive(a: Seq<char>, b: Seq<char>, c: Seq<char>)
    requires
        seq_lt(a, b),
        seq_lt(b, c),
    ensures
        seq_lt(a, c),
    decreases a.len(),
{
    if a.len() > 0 && b.len() > 0 && c.len() > 0 && a[0] == b[0] && b[0] == c[0] {
        lemma_lt_transitive(a.drop_first(), b.drop_first(), c.drop_first());
    }
}

/// Two different sequences are ordered one way or the other, never both.
pub proof fn lemma_lt_total(a: Seq<char>, b: Seq<char>)
    ensures
        a != b ==> seq_lt(a, b) || seq_lt(b, a),
        !(seq_lt(a, b) && seq_lt(b, a)),
        seq_lt(a, b) ==> a != b,
    decreases a.len(),
{
    if a.len() > 0 && b.len() > 0 && a[0] == b[0] {
        lemma_lt_total(a.drop_first(), b.drop_first());
        if a.drop_first() == b.drop_first() {
            assert(a =~= seq![a[0]] + a.drop_first());
            assert(b =~= seq![b[0]] + b.drop_first());
        }
    }
    if a.len() == 0 && b.len() == 0 {
        assert(a =~= b);
    }
    if a.len() > 0 {
        lemma_lt_irreflexive(a);
    }
}

/// Compare two character slices in dictionary order.
pub fn compare_chars(a: &[char], b: &[char]) -> (r: Order)
    ensures
        r == Order::Less <==> seq_lt(a@, b@),
        r == Order::Equal <==> a@ == b@,
        r == Order::Greater <==> seq_lt(b@, a@),
{
    let mut i: usize = 0;
    proof {
        assert(a@.skip(0) =~= a@);
        assert(b@.skip(0) =~= b@);
    }
    while i < a.len() && i < b.len() && a[i] == b[i]
        invariant
            i <= a.len(),
            i <= b.len(),
            a@.take(i as int) == b@.take(i as int),
            seq_lt(a@, b@) == seq_lt(a@.skip(i as int), b@.skip(i as int)),
            seq_lt(b@, a@) == seq_lt(b@.skip(i as int), a@.skip(i as int)),
        decreases a.len() - i,
    {
        proof {
            assert(a@.skip(i as int).drop_first() =~= a@.skip(i + 1));
            assert(b@.skip(i as int).drop_first() =~= b@.skip(i + 1));
            assert(a@.take(i + 1) =~= a@.take(i as int).push(a@[i as int]));
            assert(b@.take(i + 1) =~= b@.take(i as int).push(b@[i as int]));
        }
        i += 1;
    }
    proof {
        lemma_lt_total(a@, b@);
        lemma_lt_irreflexive(a@);
    }
    if i < a.len() && i < b.len() {
        proof {
            assert(a@[i as int] != b@[i as int]);
        }
        if a[i] < b[i] {
            Order::Less
        } else {
            Order::Greater
        }
    } else if i < b.len() {
        proof {
            assert(a@ =~= a@.take(i as int));
        }
        Order::Less
    } else if i < a.len() {
        proof {
            assert(b@ =~= b@.take(i as int));
        }
        Order::Greater
    } else {
        proof {
            assert(a@ =~= a@.take(i as int));
            assert(b@ =~= b@.take(i as int));
        }
        Order::Equal
    }
}

/// Compare two strings in dictionary order.
pub fn compare_str(a: &str, b: &str) -> (r: Order)
    ensures
        r == Order::Less <==> seq_lt(a@, b@),
        r == Order::Equal <==> a@ == b@,
        r == Order::Greater <==> seq_lt(b@, a@),
{
    let ca = chars_of(a);
    let cb = chars_of(b);
    compare_chars(ca.as_slice(), cb.as_slice())
}

/// Something keyed by its text.
pub trait TextKey {
    /// The key's text.
    spec fn key_view(&self) -> Seq<char>;

    /// The key's text, borrowed.
    fn key_str(&self) -> (r: &str)
        ensures
            r@ == self.key_view(),
    ;
}

impl TextKey for String {
    open spec fn key_view(&self) -> Seq<char> {
        self@
    }

    fn key_str(&self) -> (r: &str) {
        self.as_str()
    }
}

/// Whether a sequence of keys is strictly increasing: sorted, and no key twice.
pub open spec fn strictly_sorted(keys: Seq<Seq<char>>) -> bool {
    forall|i: int, j: int| 0 <= i < j < keys.len() ==> #[trigger] seq_lt(keys[i], keys[j])
}

/// Entries kept sorted by key, each key at most once.
#[derive(Debug, Clone, PartialEq, Eq)]
pub struct TextMap<K, V> {
    entries: Vec<(K, V)>,
}

impl<K: TextKey, V> TextMap<K, V> {
    /// The entries, in key order.
    pub closed spec fn entries(&self) -> Seq<(K, V)> {
        self.entries@
    }

    /// The keys' text, in order.
    pub open spec fn keys(&self) -> Seq<Seq<char>> {
        self.entries().map_values(|e: (K, V)| e.0.key_view())
    }

    /// Sorted, with every key once.
    pub open spec fn wf(&self) -> bool {
        strictly_sorted(self.keys())
    }

    /// Whether a key is present.
    pub open spec fn has(&self, k: Seq<char>) -> bool {
        self.keys().contains(k)
    }

    /// The value under a key that is present.
    pub open spec fn value_of(&self, k: Seq<char>) -> V {
        self.entries()[choose|i: int| 0 <= i < self.entries().len() && self.keys()[i] == k].1
    }

    /// In a well-formed map, the entry at `i` is what its key looks up.
    pub proof fn lemma_value_at(&self, i: int)
        requires
            self.wf(),
            0 <= i < self.entries().len(),
        ensures
            self.has(self.keys()[i]),
            self.value_of(self.keys()[i]) == self.entries()[i].1,
    {
        let k = self.keys()[i];
        assert(self.keys()[i] == k);
        let j = choose|j: int| 0 <= j < self.entries().len() && self.keys()[j] == k;
        lemma_lt_irreflexive(k);
        if j < i {
            assert(seq_lt(self.keys()[j], self.keys()[i]));
        } else if j > i {
            assert(seq_lt(self.keys()[i], self.keys()[j]));
        }
    }

    /// An empty map.
    pub fn new() -> (r: Self)
        ensures
            r.entries() == Seq::<(K, V)>::empty(),
            r.wf(),
    {
        Self { entries: Vec::new() }
    }

    /// How many entries there are.
    pub fn len(&self) -> (r: usize)
        ensures
            r == self.entries().len(),
    {
        self.entries.len()
    }

    /// The entries, in key order.
    pub fn as_slice(&self) -> (r: &[(K, V)])
        ensures
            r@ == self.entries(),
    {
        self.entries.as_slice()
    }

    /// Where `key` is, or where it would go: every key before the position
    /// sorts before `key`, and the one at it (if any) does not.
    pub fn position(&self, key: &str) -> (r: (usize, bool))
        requires
            self.wf(),
        ensures
            r.0 <= self.entries().len(),
            forall|i: int| 0 <= i < r.0 ==> seq_lt(#[trigger] self.keys()[i], key@),
            r.1 <==> (r.0 < self.entries().len() && self.keys()[r.0 as int] == key@),
            !r.1 && r.0 < self.entries().len() ==> seq_lt(key@, self.keys()[r.0 as int]),
            r.1 <==> self.has(key@),
    {
        let mut i: usize = 0;
        while i < self.entries.len()
            invariant
                i <= self.entries().len(),
                self.wf(),
                forall|j: int| 0 <= j < i ==> seq_lt(#[trigger] self.keys()[j], key@),
            decreases self.entries().len() - i,
        {
            let c = compare_str(self.entries[i].0.key_str(), key);
            match c {
                Order::Less => {
                    i += 1;
                },
                Order::Equal => {
                    proof {
                        assert(self.keys()[i as int] == key@);
                        assert(self.has(key@));
                    }
                    return (i, true);
                },
                Order::Greater => {
                    proof {
                        self.lemma_absent_from(i as int, key@);
                    }
                    return (i, false);
                },
            }
        }
        proof {
            if self.has(key@) {
                let j = choose|j: int| 0 <= j < self.keys().len() && self.keys()[j] == key@;
                lemma_lt_irreflexive(key@);
            }
        }
        (i, false)
    }

    proof fn lemma_absent_from(&self, i: int, k: Seq<char>)
        requires
            self.wf(),
            0 <= i < self.entries().len(),
            seq_lt(k, self.keys()[i]),
            forall|j: int| 0 <= j < i ==> seq_lt(#[trigger] self.keys()[j], k),
        ensures
            !self.has(k),
    {
        if self.has(k) {
            let j = choose|j: int| 0 <= j < self.keys().len() && self.keys()[j] == k;
            lemma_lt_irreflexive(k);
            if j > i {
                assert(seq_lt(self.keys()[i], self.keys()[j]));
                lemma_lt_total(k, self.keys()[i]);
            } else if j == i {
            } else {
            }
        }
    }

    /// The entry for `key`, if there is one.
    pub fn get(&self, key: &str) -> (r: Option<&V>)
        requires
            self.wf(),
        ensures
            r is Some <==> self.has(key@),
            r matches Some(v) ==> exists|i: int|
                0 <= i < self.entries().len() && self.keys()[i] == key@ && self.entries()[i].1
                    == *v,
            r matches Some(v) ==> *v == self.value_of(key@),
    {
        let (i, found) = self.position(key);
        if found {
            proof {
                self.lemma_value_at(i as int);
            }
            Some(&self.entries[i].1)
        } else {
            None
        }
    }

    /// Whether `key` is present.
    pub fn contains(&self, key: &str) -> (r: bool)
        requires
            self.wf(),
        ensures
            r == self.has(key@),
    {
        self.position(key).1
    }

    /// Put `value` under `key`, replacing and returning what was there.
    pub fn insert(&mut self, key: K, value: V) -> (r: Option<V>)
        requires
            old(self).wf(),
        ensures
            final(self).wf(),
            r is Some <==> old(self).has(key.key_view()),
            r matches Some(v) ==> exists|i: int|
                0 <= i < old(self).entries().len() && old(self).keys()[i] == key.key_view()
                    && old(self).entries()[i].1 == v,
            final(self).has(key.key_view()),
            forall|k: Seq<char>| k != key.key_view() ==> (final(self).has(k) <==> old(self).has(k)),
            final(self).entries().len() == old(self).entries().len() + if r is Some {
                0int
            } else {
                1int
            },
            exists|i: int|
                0 <= i < final(self).entries().len() && final(self).keys()[i] == key.key_view()
                    && final(self).entries()[i].1 == value,
            forall|i: int|
                0 <= i < final(self).entries().len() && final(self).keys()[i] != key.key_view()
                    ==> old(self).entries().contains(#[trigger] final(self).entries()[i]),
            final(self).value_of(key.key_view()) == value,
            forall|k: Seq<char>|
                k != key.key_view() && old(self).has(k) ==> #[trigger] final(self).value_of(k)
                    == old(self).value_of(k),
    {
        let ghost kv = key.key_view();
        let ghost val = value;
        let r = self.insert_entry(key, value);
        proof {
            let w = choose|w: int|
                0 <= w < self.entries().len() && self.keys()[w] == kv && self.entries()[w].1 == val;
            self.lemma_value_at(w);
            assert forall|k: Seq<char>| k != kv && old(self).has(k) implies #[trigger] self.value_of(k)
                == old(self).value_of(k) by {
                assert(self.has(k));
                let i = choose|i: int| 0 <= i < self.keys().len() && self.keys()[i] == k;
                self.lemma_value_at(i);
                assert(old(self).entries().contains(self.entries()[i]));
                let j = choose|j: int|
                    0 <= j < old(self).entries().len() && old(self).entries()[j] == self.entries()[i];
                old(self).lemma_value_at(j);
            }
        }
        r
    }

    fn insert_entry(&mut self, key: K, value: V) -> (r: Option<V>)
        requires
            old(self).wf(),
        ensures
            final(self).wf(),
            r is Some <==> old(self).has(key.key_view()),
            r matches Some(v) ==> exists|i: int|
                0 <= i < old(self).entries().len() && old(self).keys()[i] == key.key_view()
                    && old(self).entries()[i].1 == v,
            final(self).has(key.key_view()),
            forall|k: Seq<char>| k != key.key_view() ==> (final(self).has(k) <==> old(self).has(k)),
            final(self).entries().len() == old(self).entries().len() + if r is Some {
                0int
            } else {
                1int
            },
            exists|i: int|
                0 <= i < final(self).entries().len() && final(self).keys()[i] == key.key_view()
                    && final(self).entries()[i].1 == value,
            forall|i: int|
                0 <= i < final(self).entries().len() && final(self).keys()[i] != key.key_view()
                    ==> old(self).entries().contains(#[trigger] final(self).entries()[i]),
    {
        let (i, found) = self.position(key.key_str());
        let ghost old_entries = self.entries@;
        let ghost k = key.key_view();
        if found {
            let (_, old_value) = self.entries.remove(i);
            self.entries.insert(i, (key, value));
            proof {
                assert(old(self).entries()[i as int].1 == old_value);
                assert(self.entries@ =~= old_entries.update(i as int, self.entries@[i as int]));
                assert(self.keys() =~= old(self).keys().update(i as int, k));
                assert(self.keys()[i as int] == old(self).keys()[i as int]);
                assert(self.keys() =~= old(self).keys());
                assert forall|j: int|
                    0 <= j < self.entries().len() && self.keys()[j] != k implies old(
                    self,
                ).entries().contains(#[trigger] self.entries()[j]) by {
                    assert(j != i);
                    assert(self.entries()[j] == old_entries[j]);
                }
            }
            Some(old_value)
        } else {
            self.entries.insert(i, (key, value));
            proof {
                assert(self.entries@ =~= old_entries.insert(i as int, self.entries@[i as int]));
                let ok = old(self).keys();
                assert(self.keys() =~= ok.insert(i as int, k));
                assert forall|a: int, b: int| 0 <= a < b < self.keys().len() implies #[trigger] seq_lt(
                    self.keys()[a],
                    self.keys()[b],
                ) by {
                    if b < i {
                    } else if a > i {
                        assert(self.keys()[a] == ok[a - 1]);
                        assert(self.keys()[b] == ok[b - 1]);
                    } else if a == i {
                        assert(self.keys()[b] == ok[b - 1]);
                        if b - 1 > i {
                            assert(seq_lt(ok[i as int], ok[b - 1]));
                            lemma_lt_transitive(k, ok[i as int], ok[b - 1]);
                        }
                    } else if b == i {
                    } else {
                        assert(a < i && i < b);
                        assert(self.keys()[b] == ok[b - 1]);
                    }
                }
                assert forall|q: Seq<char>| q != k implies (self.has(q) <==> old(self).has(q)) by {
                    if self.has(q) {
                        let j = choose|j: int| 0 <= j < self.keys().len() && self.keys()[j] == q;
                        if j < i {
                            assert(ok[j] == q);
                        } else {
                            assert(j != i);
                            assert(ok[j - 1] == q);
                        }
                    }
                    if old(self).has(q) {
                        let j = choose|j: int| 0 <= j < ok.len() && ok[j] == q;
                        if j < i {
                            assert(self.keys()[j] == q);
                        } else {
                            assert(self.keys()[j + 1] == q);
                        }
                    }
                }
                assert(self.keys()[i as int] == k);
                assert forall|j: int|
                    0 <= j < self.entries().len() && self.keys()[j] != k implies old(
                    self,
                ).entries().contains(#[trigger] self.entries()[j]) by {
                    if j < i {
                        assert(self.entries()[j] == old_entries[j]);
                    } else {
                        assert(j != i);
                        assert(self.entries()[j] == old_entries[j - 1]);
                    }
                }
            }
            None
        }
    }

    /// Take the entry for `key` out, if there is one.
    pub fn remove(&mut self, key: &str) -> (r: Option<V>)
        requires
            old(self).wf(),
        ensures
            final(self).wf(),
            r is Some <==> old(self).has(key@),
            !final(self).has(key@),
            forall|k: Seq<char>| k != key@ ==> (final(self).has(k) <==> old(self).has(k)),
            forall|k: Seq<char>| k != key@ && old(self).has(k) ==> final(self).value_of(k) == old(self).value_of(k),
            final(self).entries().len() <= old(self).entries().len(),
    {
        let (i, found) = self.position(key);
        if found {
            let ghost old_entries = self.entries@;
            let (_, v) = self.entries.remove(i);
            proof {
                let ok = old(self).keys();
                assert(self.entries@ =~= old_entries.remove(i as int));
                assert(self.keys() =~= ok.remove(i as int));
                assert forall|a: int, b: int| 0 <= a < b < self.keys().len() implies #[trigger] seq_lt(
                    self.keys()[a],
                    self.keys()[b],
                ) by {
                    if b < i {
                    } else if a >= i {
                        assert(self.keys()[a] == ok[a + 1]);
                        assert(self.keys()[b] == ok[b + 1]);
                    } else {
                        assert(self.keys()[b] == ok[b + 1]);
                    }
                }
                assert forall|q: Seq<char>| q != key@ implies (self.has(q) <==> old(self).has(q)) by {
                    if self.has(q) {
                        let j = choose|j: int| 0 <= j < self.keys().len() && self.keys()[j] == q;
                        if j < i {
                            assert(ok[j] == q);
                        } else {
                            assert(ok[j + 1] == q);
                        }
                    }
                    if old(self).has(q) {
                        let j = choose|j: int| 0 <= j < ok.len() && ok[j] == q;
                        if j < i {
                            assert(self.keys()[j] == q);
                        } else {
                            assert(j != i);
                            assert(self.keys()[j - 1] == q);
                        }
                    }
                }
                assert forall|q: Seq<char>| q != key@ && old(self).has(q) implies self.value_of(q) == old(self).value_of(q) by {
                    let j = choose|j: int| 0 <= j < ok.len() && ok[j] == q;
                    old(self).lemma_value_at(j);
                    if j < i {
                        self.lemma_value_at(j);
                        assert(self.keys()[j] == q);
                    } else {
                        assert(j != i);
                        self.lemma_value_at(j - 1);
                        assert(self.keys()[j - 1] == q);
                    }
                }
                if self.has(key@) {
                    let j = choose|j: int| 0 <= j < self.keys().len() && self.keys()[j] == key@;
                    lemma_lt_irreflexive(key@);
                    if j < i {
                        assert(seq_lt(ok[j], ok[i as int]));
                    } else {
                        assert(seq_lt(ok[i as int], ok[j + 1]));
                    }
                }
            }
            Some(v)
        } else {
            None
        }
    }
}

impl TextMap<String, ()> {
    /// A copy with the same keys.
    pub fn duplicate(&self) -> (r: Self)
        ensures
            r.keys() == self.keys(),
            self.wf() ==> r.wf(),
    {
        let mut out: Vec<(String, ())> = Vec::new();
        let mut i: usize = 0;
        while i < self.entries.len()
            invariant
                i <= self.entries@.len(),
                out@.map_values(|e: (String, ())| e.0@) == self.keys().take(i as int),
            decreases self.entries.len() - i,
        {
            let ghost before = out@;
            out.push((self.entries[i].0.as_str().to_owned(), ()));
            proof {
                assert(self.keys()[i as int] == self.entries@[i as int].0@);
                assert(out@.map_values(|e: (String, ())| e.0@) =~= before.map_values(
                    |e: (String, ())| e.0@,
                ).push(self.entries@[i as int].0@));
                assert(self.keys().take(i + 1) =~= self.keys().take(i as int).push(
                    self.entries@[i as int].0@,
                ));
            }
            i += 1;
        }
        let r = TextMap { entries: out };
        proof {
            assert(self.keys().take(i as int) =~= self.keys());
            assert(r.keys() =~= out@.map_values(|e: (String, ())| e.0@));
        }
        r
    }
}

} // verus!
