//! Undo and redo.
//!
//! Each change is kept with what is needed to go both ways. What a change
//! took out is kept as the runs it was, not as bytes: putting runs back
//! gives each byte back where it came from, where typing the bytes again
//! would leave undone work looking like fresh edits. The buffer itself is
//! never copied.

use vstd::prelude::*;

use crate::error::Error;
use crate::hexedit::buffer::{
    added_run, alike, all_ok, fetch, in_range, lemma_alike_content, lemma_alike_untouched, lemma_in_range,
    lemma_lengths, lemma_views, origins, same_origin, total, untouched, Buffer, Removed, Source,
};
use crate::hexedit::find::{min_int, Bytes};

verus! {

/// One change, with both sides of it.
enum Edit {
    /// Bytes typed in at `at`.
    Inserted { at: u64, bytes: Vec<u8> },
    /// A stretch taken out at `at`.
    Deleted { at: u64, removed: Removed },
    /// Bytes typed over a stretch at `at`. What was underneath can be
    /// shorter than what was typed, when typing ran past the end.
    Overwrote { at: u64, removed: Removed, after: Vec<u8> },
}

/// The buffer at one point of its history: where each byte came from, the
/// bytes, which were added in the session, and where the change that left
/// this point happened.
pub struct Snapshot {
    /// Where each byte came from.
    pub origins: Seq<(Source, int)>,
    /// The bytes.
    pub bytes: Seq<u8>,
    /// Which bytes were added in the session.
    pub marks: Seq<bool>,
    /// Where the change next to this point happened.
    pub at: u64,
}

/// The buffer as it is, with the place of the change that moves from it.
pub open spec fn snapshot<B: Bytes>(b: Buffer<B>, at: u64) -> Snapshot {
    Snapshot { origins: b.provenance(), bytes: b.document(), marks: b.edited(), at }
}

/// Whether a snapshot describes bytes that exist, and describes them
/// consistently.
pub open spec fn snapshot_ok(s: Snapshot, original: Seq<u8>, store: Seq<u8>) -> bool {
    &&& in_range(s.origins, original.len() as int, store.len() as int)
    &&& s.bytes == s.origins.map_values(|o: (Source, int)| fetch(o, original, store))
    &&& s.marks == s.origins.map_values(|o: (Source, int)| o.0 == Source::Added)
    &&& s.origins.len() <= u64::MAX
}

/// Whether `x` are bytes added in the session holding `bytes`.
pub open spec fn fresh(x: Seq<(Source, int)>, bytes: Seq<u8>, store: Seq<u8>) -> bool {
    &&& x.len() == bytes.len()
    &&& forall|i: int| 0 <= i < x.len() ==> (#[trigger] x[i]).0 == Source::Added && store[x[i].1] == bytes[i]
}

/// Whether `e` leads from `before` to `after`, as far as undoing and redoing
/// it need: either can be put in place of one alike it.
spec fn leads(e: Edit, before: Seq<(Source, int)>, after: Seq<(Source, int)>, original_len: int, store: Seq<u8>) -> bool {
    match e {
        Edit::Inserted { at, bytes } => {
            let n = bytes@.len() as int;
            &&& n > 0
            &&& at + n <= after.len()
            &&& after.len() == before.len() + n
            &&& alike(after.take(at as int), before.take(at as int), store)
            &&& alike(after.skip(at + n), before.skip(at as int), store)
            &&& fresh(after.subrange(at as int, at + n), bytes@, store)
        },
        Edit::Deleted { at, removed } => {
            let r = origins(removed.runs());
            &&& r.len() > 0
            &&& at + r.len() <= before.len()
            &&& all_ok(removed.runs(), original_len, store.len() as int)
            &&& alike(r, before.subrange(at as int, at + r.len()), store)
            &&& alike(after, before.take(at as int) + before.skip(at + r.len()), store)
        },
        Edit::Overwrote { at, removed, after: bytes } => {
            let r = origins(removed.runs());
            let n = bytes@.len() as int;
            &&& n > 0
            &&& at + r.len() <= before.len()
            &&& all_ok(removed.runs(), original_len, store.len() as int)
            &&& alike(r, before.subrange(at as int, at + r.len()), store)
            &&& at + n <= after.len()
            &&& after.len() == before.len() - r.len() + n
            &&& alike(after.take(at as int), before.take(at as int), store)
            &&& alike(after.skip(at + n), before.skip(at + r.len()), store)
            &&& fresh(after.subrange(at as int, at + n), bytes@, store)
        },
    }
}

/// Where a change happened.
spec fn place(e: Edit) -> u64 {
    match e {
        Edit::Inserted { at, .. } => at,
        Edit::Deleted { at, .. } => at,
        Edit::Overwrote { at, .. } => at,
    }
}

proof fn lemma_alike_refl(x: Seq<(Source, int)>, store: Seq<u8>)
    ensures
        alike(x, x, store),
{
}

proof fn lemma_alike_sym(x: Seq<(Source, int)>, y: Seq<(Source, int)>, store: Seq<u8>)
    requires
        alike(x, y, store),
    ensures
        alike(y, x, store),
{
    assert forall|i: int| 0 <= i < y.len() implies same_origin(#[trigger] y[i], x[i], store) by {
        assert(same_origin(x[i], y[i], store));
    }
}

proof fn lemma_alike_trans(x: Seq<(Source, int)>, y: Seq<(Source, int)>, z: Seq<(Source, int)>, store: Seq<u8>)
    requires
        alike(x, y, store),
        alike(y, z, store),
    ensures
        alike(x, z, store),
{
    assert forall|i: int| 0 <= i < x.len() implies same_origin(#[trigger] x[i], z[i], store) by {
        assert(same_origin(x[i], y[i], store));
        assert(same_origin(y[i], z[i], store));
    }
}

proof fn lemma_alike_parts(x: Seq<(Source, int)>, y: Seq<(Source, int)>, j: int, k: int, store: Seq<u8>)
    requires
        alike(x, y, store),
        0 <= j <= k <= x.len(),
    ensures
        alike(x.take(j), y.take(j), store),
        alike(x.skip(j), y.skip(j), store),
        alike(x.subrange(j, k), y.subrange(j, k), store),
{
    assert forall|i: int| 0 <= i < x.take(j).len() implies same_origin(#[trigger] x.take(j)[i], y.take(j)[i], store) by {
        assert(same_origin(x[i], y[i], store));
    }
    assert forall|i: int| 0 <= i < x.skip(j).len() implies same_origin(#[trigger] x.skip(j)[i], y.skip(j)[i], store) by {
        assert(same_origin(x[i + j], y[i + j], store));
    }
    assert forall|i: int| 0 <= i < x.subrange(j, k).len() implies same_origin(#[trigger] x.subrange(j, k)[i], y.subrange(j, k)[i], store) by {
        assert(same_origin(x[i + j], y[i + j], store));
    }
}

proof fn lemma_alike_join(x1: Seq<(Source, int)>, y1: Seq<(Source, int)>, x2: Seq<(Source, int)>, y2: Seq<(Source, int)>, store: Seq<u8>)
    requires
        alike(x1, y1, store),
        alike(x2, y2, store),
    ensures
        alike(x1 + x2, y1 + y2, store),
{
    assert forall|i: int| 0 <= i < (x1 + x2).len() implies same_origin(#[trigger] (x1 + x2)[i], (y1 + y2)[i], store) by {
        if i < x1.len() {
            assert(same_origin(x1[i], y1[i], store));
        } else {
            assert(same_origin(x2[i - x1.len()], y2[i - x1.len()], store));
        }
    }
}

proof fn lemma_alike_grow(x: Seq<(Source, int)>, y: Seq<(Source, int)>, original_len: int, store: Seq<u8>, more: Seq<u8>)
    requires
        alike(x, y, store),
        in_range(x, original_len, store.len() as int),
        in_range(y, original_len, store.len() as int),
    ensures
        alike(x, y, store + more),
{
    assert forall|i: int| 0 <= i < x.len() implies same_origin(#[trigger] x[i], y[i], store + more) by {
        assert(same_origin(x[i], y[i], store));
        assert(0 <= x[i].1 < match x[i].0 {
            Source::Original => original_len,
            Source::Added => store.len() as int,
        });
        assert(0 <= y[i].1 < match y[i].0 {
            Source::Original => original_len,
            Source::Added => store.len() as int,
        });
    }
}

proof fn lemma_fresh_alike(x: Seq<(Source, int)>, y: Seq<(Source, int)>, bytes: Seq<u8>, store: Seq<u8>)
    requires
        alike(x, y, store),
        fresh(y, bytes, store),
    ensures
        fresh(x, bytes, store),
{
    assert forall|i: int| 0 <= i < x.len() implies (#[trigger] x[i]).0 == Source::Added && store[x[i].1] == bytes[i] by {
        assert(same_origin(x[i], y[i], store));
        assert(y[i].0 == Source::Added);
    }
}

proof fn lemma_in_range_parts(x: Seq<(Source, int)>, j: int, k: int, original_len: int, added_len: int, more: int)
    requires
        in_range(x, original_len, added_len),
        0 <= j <= k <= x.len(),
        more >= 0,
    ensures
        in_range(x.take(j), original_len, added_len),
        in_range(x.skip(j), original_len, added_len),
        in_range(x.subrange(j, k), original_len, added_len),
        in_range(x, original_len, added_len + more),
{
    assert forall|i: int| 0 <= i < x.take(j).len() implies 0 <= (#[trigger] x.take(j)[i]).1 < match x.take(j)[i].0 {
        Source::Original => original_len,
        Source::Added => added_len,
    } by {
        assert(x.take(j)[i] == x[i]);
    }
    assert forall|i: int| 0 <= i < x.skip(j).len() implies 0 <= (#[trigger] x.skip(j)[i]).1 < match x.skip(j)[i].0 {
        Source::Original => original_len,
        Source::Added => added_len,
    } by {
        assert(x.skip(j)[i] == x[i + j]);
    }
    assert forall|i: int| 0 <= i < x.subrange(j, k).len() implies 0 <= (#[trigger] x.subrange(j, k)[i]).1 < match x.subrange(j, k)[i].0 {
        Source::Original => original_len,
        Source::Added => added_len,
    } by {
        assert(x.subrange(j, k)[i] == x[i + j]);
    }
    assert forall|i: int| 0 <= i < x.len() implies 0 <= (#[trigger] x[i]).1 < match x[i].0 {
        Source::Original => original_len,
        Source::Added => added_len + more,
    } by {
        assert(0 <= x[i].1 < match x[i].0 {
            Source::Original => original_len,
            Source::Added => added_len,
        });
    }
}

/// A change leads to anything alike where it leads.
proof fn lemma_leads_after(e: Edit, b: Seq<(Source, int)>, a: Seq<(Source, int)>, a2: Seq<(Source, int)>, original_len: int, store: Seq<u8>)
    requires
        leads(e, b, a, original_len, store),
        alike(a2, a, store),
    ensures
        leads(e, b, a2, original_len, store),
{
    match e {
        Edit::Inserted { at, bytes } => {
            let n = bytes@.len() as int;
            lemma_alike_parts(a2, a, at as int, at + n, store);
            lemma_alike_parts(a2, a, at + n, at + n, store);
            lemma_alike_trans(a2.take(at as int), a.take(at as int), b.take(at as int), store);
            lemma_alike_trans(a2.skip(at + n), a.skip(at + n), b.skip(at as int), store);
            lemma_fresh_alike(a2.subrange(at as int, at + n), a.subrange(at as int, at + n), bytes@, store);
        },
        Edit::Deleted { at, removed } => {
            let r = origins(removed.runs());
            lemma_alike_trans(a2, a, b.take(at as int) + b.skip(at + r.len()), store);
        },
        Edit::Overwrote { at, removed, after: bytes } => {
            let r = origins(removed.runs());
            let n = bytes@.len() as int;
            lemma_alike_parts(a2, a, at as int, at + n, store);
            lemma_alike_parts(a2, a, at + n, at + n, store);
            lemma_alike_trans(a2.take(at as int), a.take(at as int), b.take(at as int), store);
            lemma_alike_trans(a2.skip(at + n), a.skip(at + n), b.skip(at + r.len()), store);
            lemma_fresh_alike(a2.subrange(at as int, at + n), a.subrange(at as int, at + n), bytes@, store);
        },
    }
}

/// A change leads from anything alike where it leads from.
proof fn lemma_leads_before(e: Edit, b: Seq<(Source, int)>, b2: Seq<(Source, int)>, a: Seq<(Source, int)>, original_len: int, store: Seq<u8>)
    requires
        leads(e, b, a, original_len, store),
        alike(b2, b, store),
    ensures
        leads(e, b2, a, original_len, store),
{
    lemma_alike_sym(b2, b, store);
    match e {
        Edit::Inserted { at, bytes } => {
            let n = bytes@.len() as int;
            lemma_alike_parts(b, b2, at as int, at as int, store);
            lemma_alike_trans(a.take(at as int), b.take(at as int), b2.take(at as int), store);
            lemma_alike_trans(a.skip(at + n), b.skip(at as int), b2.skip(at as int), store);
        },
        Edit::Deleted { at, removed } => {
            let r = origins(removed.runs());
            lemma_alike_parts(b, b2, at as int, at + r.len(), store);
            lemma_alike_parts(b, b2, at + r.len(), at + r.len(), store);
            lemma_alike_trans(r, b.subrange(at as int, at + r.len()), b2.subrange(at as int, at + r.len()), store);
            lemma_alike_join(b.take(at as int), b2.take(at as int), b.skip(at + r.len()), b2.skip(at + r.len()), store);
            lemma_alike_trans(a, b.take(at as int) + b.skip(at + r.len()), b2.take(at as int) + b2.skip(at + r.len()), store);
        },
        Edit::Overwrote { at, removed, after: bytes } => {
            let r = origins(removed.runs());
            let n = bytes@.len() as int;
            lemma_alike_parts(b, b2, at as int, at + r.len(), store);
            lemma_alike_parts(b, b2, at + r.len(), at + r.len(), store);
            lemma_alike_trans(r, b.subrange(at as int, at + r.len()), b2.subrange(at as int, at + r.len()), store);
            lemma_alike_trans(a.take(at as int), b.take(at as int), b2.take(at as int), store);
            lemma_alike_trans(a.skip(at + n), b.skip(at + r.len()), b2.skip(at + r.len()), store);
        },
    }
}

/// A change still leads where it did once more is added to the store.
proof fn lemma_leads_grow(e: Edit, b: Seq<(Source, int)>, a: Seq<(Source, int)>, original_len: int, store: Seq<u8>, more: Seq<u8>)
    requires
        leads(e, b, a, original_len, store),
        in_range(b, original_len, store.len() as int),
        in_range(a, original_len, store.len() as int),
    ensures
        leads(e, b, a, original_len, store + more),
{
    let s2 = store + more;
    let l = store.len() as int;
    match e {
        Edit::Inserted { at, bytes } => {
            let n = bytes@.len() as int;
            lemma_in_range_parts(a, at as int, at + n, original_len, l, 0);
            lemma_in_range_parts(a, at + n, at + n, original_len, l, 0);
            lemma_in_range_parts(b, at as int, at as int, original_len, l, 0);
            lemma_alike_grow(a.take(at as int), b.take(at as int), original_len, store, more);
            lemma_alike_grow(a.skip(at + n), b.skip(at as int), original_len, store, more);
            let x = a.subrange(at as int, at + n);
            assert forall|i: int| 0 <= i < x.len() implies (#[trigger] x[i]).0 == Source::Added && s2[x[i].1] == bytes@[i] by {
                assert(x[i].0 == Source::Added && store[x[i].1] == bytes@[i]);
                assert(0 <= x[i].1 < l);
            }
        },
        Edit::Deleted { at, removed } => {
            let r = origins(removed.runs());
            lemma_in_range(removed.runs(), original_len, l);
            lemma_in_range_parts(b, at as int, at + r.len(), original_len, l, 0);
            lemma_in_range_parts(b, at + r.len(), at + r.len(), original_len, l, 0);
            lemma_alike_grow(r, b.subrange(at as int, at + r.len()), original_len, store, more);
            let joined = b.take(at as int) + b.skip(at + r.len());
            assert forall|i: int| 0 <= i < joined.len() implies 0 <= (#[trigger] joined[i]).1 < match joined[i].0 {
                Source::Original => original_len,
                Source::Added => l,
            } by {
                if i < at {
                    assert(joined[i] == b.take(at as int)[i]);
                } else {
                    assert(joined[i] == b.skip(at + r.len())[i - at]);
                }
            }
            lemma_alike_grow(a, joined, original_len, store, more);
            assert forall|i: int| 0 <= i < removed.runs().len() implies crate::hexedit::buffer::piece_ok(#[trigger] removed.runs()[i], original_len, s2.len() as int) by {
                assert(crate::hexedit::buffer::piece_ok(removed.runs()[i], original_len, l));
            }
        },
        Edit::Overwrote { at, removed, after: bytes } => {
            let r = origins(removed.runs());
            let n = bytes@.len() as int;
            lemma_in_range(removed.runs(), original_len, l);
            lemma_in_range_parts(b, at as int, at + r.len(), original_len, l, 0);
            lemma_in_range_parts(b, at + r.len(), at + r.len(), original_len, l, 0);
            lemma_in_range_parts(a, at as int, at + n, original_len, l, 0);
            lemma_in_range_parts(a, at + n, at + n, original_len, l, 0);
            lemma_alike_grow(r, b.subrange(at as int, at + r.len()), original_len, store, more);
            lemma_alike_grow(a.take(at as int), b.take(at as int), original_len, store, more);
            lemma_alike_grow(a.skip(at + n), b.skip(at + r.len()), original_len, store, more);
            let x = a.subrange(at as int, at + n);
            assert forall|i: int| 0 <= i < x.len() implies (#[trigger] x[i]).0 == Source::Added && s2[x[i].1] == bytes@[i] by {
                assert(x[i].0 == Source::Added && store[x[i].1] == bytes@[i]);
                assert(0 <= x[i].1 < l);
            }
            assert forall|i: int| 0 <= i < removed.runs().len() implies crate::hexedit::buffer::piece_ok(#[trigger] removed.runs()[i], original_len, s2.len() as int) by {
                assert(crate::hexedit::buffer::piece_ok(removed.runs()[i], original_len, l));
            }
        },
    }
}

/// A snapshot stays true of the bytes once more is added to the store.
proof fn lemma_snapshot_grow(s: Snapshot, original: Seq<u8>, store: Seq<u8>, more: Seq<u8>)
    requires
        snapshot_ok(s, original, store),
    ensures
        snapshot_ok(s, original, store + more),
{
    let l = store.len() as int;
    lemma_in_range_parts(s.origins, 0, 0, original.len() as int, l, more.len() as int);
    assert forall|i: int| 0 <= i < s.origins.len() implies #[trigger] fetch(s.origins[i], original, store + more) == fetch(s.origins[i], original, store) by {
        assert(0 <= s.origins[i].1 < match s.origins[i].0 {
            Source::Original => original.len() as int,
            Source::Added => l,
        });
    }
    assert(s.origins.map_values(|o: (Source, int)| fetch(o, original, store + more)) =~= s.origins.map_values(|o: (Source, int)| fetch(o, original, store)));
}

/// What a buffer's document and marks are, from where its bytes come from.
proof fn lemma_buffer_snapshot<B: Bytes>(b: Buffer<B>, at: u64)
    requires
        b.wf(),
    ensures
        snapshot_ok(snapshot(b, at), b.original(), b.store()),
{
    lemma_in_range(b.runs(), b.original().len() as int, b.store().len() as int);
    lemma_views(b.runs(), b.original(), b.store());
    lemma_lengths(b.runs(), b.original(), b.store());
}

/// A buffer and everything done to it.
pub struct History<B> {
    buffer: Buffer<B>,
    done: Vec<Edit>,
    undone: Vec<Edit>,
    past: Ghost<Seq<Snapshot>>,
    future: Ghost<Seq<Snapshot>>,
    start: Ghost<Seq<(Source, int)>>,
}

impl<B: Bytes> History<B> {
    /// The buffer as it is now.
    pub closed spec fn current(&self) -> Buffer<B> {
        self.buffer
    }

    /// The buffer before each change that can be undone, oldest first, each
    /// with where that change happened.
    pub closed spec fn past(&self) -> Seq<Snapshot> {
        self.past@
    }

    /// The buffer after each change that can be redone, the next to redo
    /// last, each with where that change happened.
    pub closed spec fn future(&self) -> Seq<Snapshot> {
        self.future@
    }

    /// Where each byte came from when the history began.
    pub closed spec fn start(&self) -> Seq<(Source, int)> {
        self.start@
    }

    /// Whether two histories hold the same changes.
    pub closed spec fn same_record(&self, other: &Self) -> bool {
        &&& self.done@ == other.done@
        &&& self.undone@ == other.undone@
        &&& self.past@ == other.past@
        &&& self.future@ == other.future@
        &&& self.start@ == other.start@
    }

    /// The buffer is whole, and the record of changes is consistent with it.
    pub open spec fn wf(&self) -> bool {
        &&& self.current().wf()
        &&& self.consistent()
    }

    /// Every recorded change leads from the state before it to the state
    /// after it, both ways, and every snapshot describes bytes that exist.
    pub closed spec fn consistent(&self) -> bool {
        let o = self.buffer.original();
        let a = self.buffer.store();
        let now = self.buffer.provenance();
        &&& self.buffer.wf()
        &&& self.past@.len() == self.done@.len()
        &&& self.future@.len() == self.undone@.len()
        &&& forall|k: int| 0 <= k < self.done@.len() ==> leads(#[trigger] self.done@[k], self.past@[k].origins,
            if k + 1 < self.past@.len() { self.past@[k + 1].origins } else { now }, o.len() as int, a)
        &&& forall|k: int| 0 <= k < self.done@.len() ==> self.past@[k].at == place(#[trigger] self.done@[k])
        &&& forall|k: int| 0 <= k < self.undone@.len() ==> leads(#[trigger] self.undone@[k],
            if k + 1 < self.future@.len() { self.future@[k + 1].origins } else { now }, self.future@[k].origins, o.len() as int, a)
        &&& forall|k: int| 0 <= k < self.undone@.len() ==> self.future@[k].at == place(#[trigger] self.undone@[k])
        &&& forall|k: int| 0 <= k < self.past@.len() ==> snapshot_ok(#[trigger] self.past@[k], o, a)
        &&& forall|k: int| 0 <= k < self.future@.len() ==> snapshot_ok(#[trigger] self.future@[k], o, a)
        &&& in_range(self.start@, o.len() as int, a.len() as int)
        &&& if self.past@.len() > 0 {
            alike(self.past@[0].origins, self.start@, a)
        } else {
            alike(now, self.start@, a)
        }
    }

    /// Start with a buffer and nothing done to it.
    pub fn new(buffer: Buffer<B>) -> (r: Self)
        requires
            buffer.wf(),
        ensures
            r.wf(),
            r.current() == buffer,
            r.past().len() == 0,
            r.future().len() == 0,
            r.start() == buffer.provenance(),
    {
        let ghost now = buffer.provenance();
        proof {
            lemma_in_range(buffer.runs(), buffer.original().len() as int, buffer.store().len() as int);
        }
        History {
            buffer,
            done: Vec::new(),
            undone: Vec::new(),
            past: Ghost(Seq::empty()),
            future: Ghost(Seq::empty()),
            start: Ghost(now),
        }
    }

    /// The buffer, for reading.
    pub fn buffer(&self) -> (r: &Buffer<B>)
        ensures
            *r == self.current(),
    {
        &self.buffer
    }

    /// The buffer, for reading rows, which needs it mutably. What is done
    /// through it is not recorded.
    pub fn buffer_mut(&mut self) -> (r: &mut Buffer<B>)
        ensures
            *r == old(self).current(),
            final(self).current() == *final(r),
            final(self).same_record(old(self)),
    {
        &mut self.buffer
    }

    /// Reading through [`History::buffer_mut`], which changes nothing the
    /// buffer is made of, keeps the history whole.
    pub proof fn lemma_reading_keeps(before: &Self, after: &Self)
        requires
            before.wf(),
            after.same_record(before),
            after.current().wf(),
            after.current().original() == before.current().original(),
            after.current().store() == before.current().store(),
            after.current().provenance() == before.current().provenance(),
        ensures
            after.wf(),
    {
    }

    /// Whether there is anything to undo.
    pub fn can_undo(&self) -> (r: bool)
        requires
            self.wf(),
        ensures
            r == (self.past().len() > 0),
    {
        self.done.len() > 0
    }

    /// Whether there is anything to redo.
    pub fn can_redo(&self) -> (r: bool)
        requires
            self.wf(),
        ensures
            r == (self.future().len() > 0),
    {
        self.undone.len() > 0
    }

    /// How many changes have been made and not undone.
    pub fn depth(&self) -> (r: usize)
        requires
            self.wf(),
        ensures
            r == self.past().len(),
    {
        self.done.len()
    }

    /// Record `edit`, made from the buffer that `snap` describes with
    /// `store` as the store then, and drop whatever could have been redone.
    fn record(&mut self, edit: Edit, snap: Ghost<Snapshot>, store: Ghost<Seq<u8>>)
        requires
            old(self).buffer.wf(),
            old(self).past@.len() == old(self).done@.len(),
            old(self).buffer.original().len() <= u64::MAX,
            ({
                let o = old(self).buffer.original();
                let a = old(self).buffer.store();
                let a0 = store@;
                let now = old(self).buffer.provenance();
                &&& a0.len() <= a.len()
                &&& a == a0 + a.skip(a0.len() as int)
                &&& snapshot_ok(snap@, o, a0)
                &&& snap@.at == place(edit)
                &&& leads(edit, snap@.origins, now, o.len() as int, a)
                &&& forall|k: int| 0 <= k < old(self).done@.len() ==> leads(#[trigger] old(self).done@[k], old(self).past@[k].origins,
                    if k + 1 < old(self).past@.len() { old(self).past@[k + 1].origins } else { snap@.origins }, o.len() as int, a0)
                &&& forall|k: int| 0 <= k < old(self).done@.len() ==> old(self).past@[k].at == place(#[trigger] old(self).done@[k])
                &&& forall|k: int| 0 <= k < old(self).past@.len() ==> snapshot_ok(#[trigger] old(self).past@[k], o, a0)
                &&& in_range(old(self).start@, o.len() as int, a0.len() as int)
                &&& if old(self).past@.len() > 0 {
                    alike(old(self).past@[0].origins, old(self).start@, a0)
                } else {
                    alike(snap@.origins, old(self).start@, a0)
                }
            }),
        ensures
            final(self).wf(),
            final(self).buffer == old(self).buffer,
            final(self).past@ == old(self).past@.push(snap@),
            final(self).future@.len() == 0,
            final(self).start@ == old(self).start@,
    {
        let ghost o = self.buffer.original();
        let ghost a = self.buffer.store();
        let ghost a0 = store@;
        let ghost more = a.skip(a0.len() as int);
        let ghost old_done = self.done@;
        let ghost old_past = self.past@;
        self.done.push(edit);
        self.undone.clear();
        self.past = Ghost(self.past@.push(snap@));
        self.future = Ghost(Seq::empty());
        proof {
            let l = a0.len() as int;
            lemma_snapshot_grow(snap@, o, a0, more);
            assert forall|k: int| 0 <= k < self.past@.len() implies snapshot_ok(#[trigger] self.past@[k], o, a) by {
                if k < old_past.len() {
                    lemma_snapshot_grow(old_past[k], o, a0, more);
                }
            }
            assert forall|k: int| 0 <= k < self.done@.len() implies leads(#[trigger] self.done@[k], self.past@[k].origins,
                if k + 1 < self.past@.len() { self.past@[k + 1].origins } else { self.buffer.provenance() }, o.len() as int, a) by {
                if k < old_done.len() {
                    let next = if k + 1 < old_past.len() { old_past[k + 1].origins } else { snap@.origins };
                    assert(snapshot_ok(old_past[k], o, a0));
                    if k + 1 < old_past.len() {
                        assert(snapshot_ok(old_past[k + 1], o, a0));
                    }
                    lemma_leads_grow(old_done[k], old_past[k].origins, next, o.len() as int, a0, more);
                }
            }
            assert forall|k: int| 0 <= k < self.done@.len() implies self.past@[k].at == place(#[trigger] self.done@[k]) by {
                if k < old_done.len() {
                    assert(old_past[k].at == place(old_done[k]));
                }
            }
            lemma_in_range_parts(self.start@, 0, 0, o.len() as int, l, more.len() as int);
            if old_past.len() > 0 {
                assert(snapshot_ok(old_past[0], o, a0));
                lemma_alike_grow(old_past[0].origins, self.start@, o.len() as int, a0, more);
            } else {
                lemma_alike_grow(snap@.origins, self.start@, o.len() as int, a0, more);
            }
        }
    }
    /// Insert `bytes` at `at`, or at the end when `at` is past it, and
    /// record it.
    pub fn insert(&mut self, at: u64, bytes: &[u8])
        requires
            old(self).wf(),
            old(self).current().document().len() + bytes@.len() <= u64::MAX,
        ensures
            final(self).wf(),
            final(self).current().original() == old(self).current().original(),
            final(self).start() == old(self).start(),
            bytes@.len() == 0 ==> final(self).current() == old(self).current() && final(self).past() == old(self).past()
                && final(self).future() == old(self).future(),
            bytes@.len() > 0 ==> {
                let d = old(self).current().document();
                let m = old(self).current().edited();
                let at2 = min_int(at as int, d.len() as int);
                &&& final(self).current().document() == d.take(at2) + bytes@ + d.skip(at2)
                &&& final(self).current().edited() == m.take(at2) + Seq::new(bytes@.len(), |i: int| true) + m.skip(at2)
                &&& final(self).past() == old(self).past().push(snapshot(old(self).current(), at2 as u64))
                &&& final(self).future().len() == 0
            },
    {
        if bytes.len() == 0 {
            return;
        }
        let n = self.buffer.len();
        let at = if at < n { at } else { n };
        let ghost snap = snapshot(self.buffer, at);
        let ghost a0 = self.buffer.store();
        let ghost p0 = self.buffer.provenance();
        proof {
            lemma_buffer_snapshot(self.buffer, at);
            lemma_lengths(self.buffer.runs(), self.buffer.original(), a0);
        }
        self.buffer.insert(at, bytes);
        let copy = vstd::slice::slice_to_vec(bytes);
        let edit = Edit::Inserted { at, bytes: copy };
        proof {
            let p1 = self.buffer.provenance();
            let a1 = self.buffer.store();
            let m = bytes@.len() as int;
            lemma_lengths(self.buffer.runs(), self.buffer.original(), a1);
            assert(p1.take(at as int) =~= p0.take(at as int));
            assert(p1.skip(at + m) =~= p0.skip(at as int));
            lemma_alike_refl(p0.take(at as int), a1);
            lemma_alike_refl(p0.skip(at as int), a1);
            let x = p1.subrange(at as int, at + m);
            assert forall|i: int| 0 <= i < x.len() implies (#[trigger] x[i]).0 == Source::Added && a1[x[i].1] == bytes@[i] by {
                assert(x[i] == (Source::Added, a0.len() + i));
            }
            assert(a1.skip(a0.len() as int) =~= bytes@);
        }
        self.record(edit, Ghost(snap), Ghost(a0));
    }

    /// Take out `len` bytes at `at`, or as many as there are, and record
    /// what they were; nothing happens for none, or at or past the end.
    pub fn delete(&mut self, at: u64, len: u64) -> (r: Result<(), Error>)
        requires
            old(self).wf(),
        ensures
            r is Ok,
            final(self).wf(),
            final(self).current().original() == old(self).current().original(),
            final(self).start() == old(self).start(),
            ({
                let d = old(self).current().document();
                let m = old(self).current().edited();
                if len == 0 || at >= d.len() {
                    &&& final(self).current() == old(self).current()
                    &&& final(self).past() == old(self).past()
                    &&& final(self).future() == old(self).future()
                } else {
                    let end = at + min_int(len as int, d.len() - at);
                    &&& final(self).current().document() == d.take(at as int) + d.skip(end)
                    &&& final(self).current().edited() == m.take(at as int) + m.skip(end)
                    &&& final(self).past() == old(self).past().push(snapshot(old(self).current(), at))
                    &&& final(self).future().len() == 0
                }
            }),
    {
        let n = self.buffer.len();
        if len == 0 || at >= n {
            return Ok(());
        }
        let ghost snap = snapshot(self.buffer, at);
        let ghost a0 = self.buffer.store();
        let ghost p0 = self.buffer.provenance();
        proof {
            lemma_buffer_snapshot(self.buffer, at);
            lemma_lengths(self.buffer.runs(), self.buffer.original(), a0);
        }
        let removed = self.buffer.take(at, len);
        proof {
            let p1 = self.buffer.provenance();
            let r = origins(removed.runs());
            lemma_alike_refl(r, a0);
            lemma_alike_refl(p1, a0);
            assert(a0.skip(a0.len() as int) =~= Seq::<u8>::empty());
            assert(a0 + a0.skip(a0.len() as int) =~= a0);
        }
        let edit = Edit::Deleted { at, removed };
        self.record(edit, Ghost(snap), Ghost(a0));
        Ok(())
    }

    /// Write `bytes` over what is at `at`, extending the document where they
    /// run past its end, and record what was underneath.
    pub fn overwrite(&mut self, at: u64, bytes: &[u8]) -> (r: Result<(), Error>)
        requires
            old(self).wf(),
            old(self).current().document().len() + bytes@.len() <= u64::MAX,
        ensures
            r is Ok,
            final(self).wf(),
            final(self).current().original() == old(self).current().original(),
            final(self).start() == old(self).start(),
            bytes@.len() == 0 ==> final(self).current() == old(self).current() && final(self).past() == old(self).past()
                && final(self).future() == old(self).future(),
            bytes@.len() > 0 ==> {
                let d = old(self).current().document();
                let m = old(self).current().edited();
                let at2 = min_int(at as int, d.len() as int);
                let end = at2 + min_int(d.len() - at2, bytes@.len() as int);
                &&& final(self).current().document() == d.take(at2) + bytes@ + d.skip(end)
                &&& final(self).current().edited() == m.take(at2) + Seq::new(bytes@.len(), |i: int| true) + m.skip(end)
                &&& final(self).past() == old(self).past().push(snapshot(old(self).current(), at2 as u64))
                &&& final(self).future().len() == 0
            },
    {
        if bytes.len() == 0 {
            return Ok(());
        }
        let n = self.buffer.len();
        let at = if at < n { at } else { n };
        let room = n - at;
        let overlap = if room < bytes.len() as u64 { room } else { bytes.len() as u64 };
        let ghost snap = snapshot(self.buffer, at);
        let ghost a0 = self.buffer.store();
        let ghost p0 = self.buffer.provenance();
        let ghost d0 = self.buffer.document();
        let ghost m0 = self.buffer.edited();
        proof {
            lemma_buffer_snapshot(self.buffer, at);
            lemma_lengths(self.buffer.runs(), self.buffer.original(), a0);
        }
        let removed = self.buffer.take(at, overlap);
        let ghost p1 = self.buffer.provenance();
        let ghost d1 = self.buffer.document();
        let ghost m1 = self.buffer.edited();
        proof {
            lemma_lengths(self.buffer.runs(), self.buffer.original(), a0);
            if overlap == 0 {
                assert(p0.take(at as int) + p0.skip(at + overlap) =~= p0);
                assert(d0.take(at as int) + d0.skip(at + overlap) =~= d0);
                assert(m0.take(at as int) + m0.skip(at + overlap) =~= m0);
                assert(origins(removed.runs()) =~= p0.subrange(at as int, at + overlap));
            }
            assert(p1 == p0.take(at as int) + p0.skip(at + overlap));
            assert(d1 == d0.take(at as int) + d0.skip(at + overlap));
            assert(m1 == m0.take(at as int) + m0.skip(at + overlap));
        }
        self.buffer.insert(at, bytes);
        let copy = vstd::slice::slice_to_vec(bytes);
        proof {
            let p2 = self.buffer.provenance();
            let a1 = self.buffer.store();
            let k = bytes@.len() as int;
            let r = origins(removed.runs());
            lemma_lengths(self.buffer.runs(), self.buffer.original(), a1);
            assert(d1.take(at as int) =~= d0.take(at as int));
            assert(d1.skip(at as int) =~= d0.skip(at + overlap));
            assert(m1.take(at as int) =~= m0.take(at as int));
            assert(m1.skip(at as int) =~= m0.skip(at + overlap));
            assert(p2.take(at as int) =~= p0.take(at as int));
            assert(p2.skip(at + k) =~= p0.skip(at + overlap));
            lemma_alike_refl(p0.take(at as int), a1);
            lemma_alike_refl(p0.skip(at + overlap), a1);
            let x = p2.subrange(at as int, at + k);
            assert forall|i: int| 0 <= i < x.len() implies (#[trigger] x[i]).0 == Source::Added && a1[x[i].1] == bytes@[i] by {
                assert(x[i] == (Source::Added, a0.len() + i));
            }
            assert(a1.skip(a0.len() as int) =~= bytes@);
            lemma_alike_refl(r, a1);
            assert forall|i: int| 0 <= i < removed.runs().len() implies crate::hexedit::buffer::piece_ok(#[trigger] removed.runs()[i], self.buffer.original().len() as int, a1.len() as int) by {
                assert(crate::hexedit::buffer::piece_ok(removed.runs()[i], self.buffer.original().len() as int, a0.len() as int));
            }
        }
        let edit = Edit::Overwrote { at, removed, after: copy };
        self.record(edit, Ghost(snap), Ghost(a0));
        Ok(())
    }
    /// Undo the last change not yet undone, giving back the bytes as they
    /// were before it and where each came from, and say where it happened.
    pub fn undo(&mut self) -> (r: Option<u64>)
        requires
            old(self).wf(),
        ensures
            final(self).wf(),
            final(self).current().original() == old(self).current().original(),
            final(self).current().store() == old(self).current().store(),
            final(self).start() == old(self).start(),
            old(self).past().len() == 0 ==> r is None && final(self).current() == old(self).current()
                && final(self).past() == old(self).past() && final(self).future() == old(self).future(),
            old(self).past().len() > 0 ==> {
                let s = old(self).past().last();
                &&& r == Some(s.at)
                &&& final(self).current().document() == s.bytes
                &&& final(self).current().edited() == s.marks
                &&& alike(final(self).current().provenance(), s.origins, final(self).current().store())
                &&& final(self).past() == old(self).past().drop_last()
                &&& final(self).future() == old(self).future().push(snapshot(old(self).current(), s.at))
            },
    {
        if self.done.len() == 0 {
            return None;
        }
        let ghost o = self.buffer.original();
        let ghost a = self.buffer.store();
        let ghost cur = self.buffer.provenance();
        let ghost old_done = self.done@;
        let ghost old_undone = self.undone@;
        let ghost old_past = self.past@;
        let ghost old_future = self.future@;
        let ghost b = self.past@.last();
        let ghost snap = snapshot(self.buffer, b.at);
        let ghost last = old_done.len() - 1;
        proof {
            lemma_buffer_snapshot(self.buffer, b.at);
            lemma_lengths(self.buffer.runs(), o, a);
            assert(leads(old_done[last], old_past[last].origins, cur, o.len() as int, a));
            assert(snapshot_ok(old_past[last], o, a));
            assert(old_past[last] == b);
        }
        let popped = self.done.pop();
        let edit = match popped {
            Some(e) => e,
            None => {
                return None;
            },
        };
        proof {
            assert(edit == old_done[last]);
        }
        self.past = Ghost(self.past@.drop_last());
        let at = match &edit {
            Edit::Inserted { at, bytes } => {
                self.buffer.delete(*at, bytes.len() as u64);
                proof {
                    let n = bytes@.len() as int;
                    let now = self.buffer.provenance();
                    assert(now == cur.take(*at as int) + cur.skip(*at + n));
                    lemma_alike_join(cur.take(*at as int), b.origins.take(*at as int), cur.skip(*at + n), b.origins.skip(*at as int), a);
                    assert(b.origins.take(*at as int) + b.origins.skip(*at as int) =~= b.origins);
                }
                *at
            },
            Edit::Deleted { at, removed } => {
                proof {
                    let r = origins(removed.runs());
                    lemma_lengths(removed.runs(), o, a);
                }
                self.buffer.put(*at, removed);
                proof {
                    let r = origins(removed.runs());
                    let k = r.len() as int;
                    let now = self.buffer.provenance();
                    let bo = b.origins;
                    let rest = bo.take(*at as int) + bo.skip(*at + k);
                    lemma_alike_parts(cur, rest, *at as int, *at as int, a);
                    assert(rest.take(*at as int) =~= bo.take(*at as int));
                    assert(rest.skip(*at as int) =~= bo.skip(*at + k));
                    lemma_alike_join(cur.take(*at as int), bo.take(*at as int), r, bo.subrange(*at as int, *at + k), a);
                    lemma_alike_join(cur.take(*at as int) + r, bo.take(*at as int) + bo.subrange(*at as int, *at + k),
                        cur.skip(*at as int), bo.skip(*at + k), a);
                    assert(bo.take(*at as int) + bo.subrange(*at as int, *at + k) + bo.skip(*at + k) =~= bo);
                }
                *at
            },
            Edit::Overwrote { at, removed, after } => {
                self.buffer.delete(*at, after.len() as u64);
                let ghost mid = self.buffer.provenance();
                proof {
                    lemma_lengths(removed.runs(), o, a);
                    lemma_lengths(self.buffer.runs(), o, a);
                }
                self.buffer.put(*at, removed);
                proof {
                    let r = origins(removed.runs());
                    let k = r.len() as int;
                    let n = after@.len() as int;
                    let now = self.buffer.provenance();
                    let bo = b.origins;
                    assert(mid == cur.take(*at as int) + cur.skip(*at + n));
                    assert(mid.take(*at as int) =~= cur.take(*at as int));
                    assert(mid.skip(*at as int) =~= cur.skip(*at + n));
                    lemma_alike_join(cur.take(*at as int), bo.take(*at as int), r, bo.subrange(*at as int, *at + k), a);
                    lemma_alike_join(cur.take(*at as int) + r, bo.take(*at as int) + bo.subrange(*at as int, *at + k),
                        cur.skip(*at + n), bo.skip(*at + k), a);
                    assert(bo.take(*at as int) + bo.subrange(*at as int, *at + k) + bo.skip(*at + k) =~= bo);
                }
                *at
            },
        };
        let ghost now = self.buffer.provenance();
        proof {
            assert(alike(now, b.origins, a));
            assert(at == place(edit));
        }
        self.undone.push(edit);
        self.future = Ghost(self.future@.push(snap));
        proof {
            lemma_leads_before(edit, b.origins, now, cur, o.len() as int, a);
            assert forall|k: int| 0 <= k < self.done@.len() implies leads(#[trigger] self.done@[k], self.past@[k].origins,
                if k + 1 < self.past@.len() { self.past@[k + 1].origins } else { now }, o.len() as int, a) by {
                assert(self.done@[k] == old_done[k]);
                assert(self.past@[k] == old_past[k]);
                if k + 1 == self.past@.len() {
                    lemma_leads_after(old_done[k], old_past[k].origins, b.origins, now, o.len() as int, a);
                }
            }
            assert forall|k: int| 0 <= k < self.done@.len() implies self.past@[k].at == place(#[trigger] self.done@[k]) by {
                assert(self.done@[k] == old_done[k]);
                assert(old_past[k].at == place(old_done[k]));
            }
            assert forall|k: int| 0 <= k < self.undone@.len() implies leads(#[trigger] self.undone@[k],
                if k + 1 < self.future@.len() { self.future@[k + 1].origins } else { now }, self.future@[k].origins, o.len() as int, a) by {
                if k < old_undone.len() {
                    assert(self.undone@[k] == old_undone[k]);
                    assert(self.future@[k] == old_future[k]);
                    if k + 1 < old_future.len() {
                        assert(self.future@[k + 1] == old_future[k + 1]);
                    }
                }
            }
            assert forall|k: int| 0 <= k < self.undone@.len() implies self.future@[k].at == place(#[trigger] self.undone@[k]) by {
                if k < old_undone.len() {
                    assert(self.undone@[k] == old_undone[k]);
                    assert(old_future[k].at == place(old_undone[k]));
                }
            }
            assert forall|k: int| 0 <= k < self.past@.len() implies snapshot_ok(#[trigger] self.past@[k], o, a) by {
                assert(self.past@[k] == old_past[k]);
            }
            assert forall|k: int| 0 <= k < self.future@.len() implies snapshot_ok(#[trigger] self.future@[k], o, a) by {
                if k < old_future.len() {
                    assert(self.future@[k] == old_future[k]);
                }
            }
            if self.past@.len() == 0 {
                lemma_alike_trans(now, b.origins, self.start@, a);
            } else {
                assert(self.past@[0] == old_past[0]);
            }
            lemma_views(self.buffer.runs(), o, a);
            lemma_alike_content(now, b.origins, o, a);
        }
        Some(at)
    }
    /// Redo the last change undone, giving back the bytes as they were after
    /// it, and say where it happened. Typed bytes are added to the store
    /// again, so where they come from is alike what it was, not the same.
    #[verifier::spinoff_prover]
    #[verifier::rlimit(40)]
    pub fn redo(&mut self) -> (r: Option<u64>)
        requires
            old(self).wf(),
        ensures
            final(self).wf(),
            final(self).current().original() == old(self).current().original(),
            final(self).start() == old(self).start(),
            old(self).future().len() == 0 ==> r is None && final(self).current() == old(self).current()
                && final(self).past() == old(self).past() && final(self).future() == old(self).future(),
            old(self).future().len() > 0 ==> {
                let s = old(self).future().last();
                &&& r == Some(s.at)
                &&& final(self).current().document() == s.bytes
                &&& final(self).current().edited() == s.marks
                &&& alike(final(self).current().provenance(), s.origins, final(self).current().store())
                &&& final(self).future() == old(self).future().drop_last()
                &&& final(self).past() == old(self).past().push(snapshot(old(self).current(), s.at))
            },
    {
        if self.undone.len() == 0 {
            return None;
        }
        let ghost o = self.buffer.original();
        let ghost ol = o.len() as int;
        let ghost a = self.buffer.store();
        let ghost cur = self.buffer.provenance();
        let ghost old_done = self.done@;
        let ghost old_undone = self.undone@;
        let ghost old_past = self.past@;
        let ghost old_future = self.future@;
        let ghost f = self.future@.last();
        let ghost snap = snapshot(self.buffer, f.at);
        let ghost last = old_undone.len() - 1;
        proof {
            lemma_buffer_snapshot(self.buffer, f.at);
            lemma_lengths(self.buffer.runs(), o, a);
            lemma_in_range(self.buffer.runs(), ol, a.len() as int);
            assert(leads(old_undone[last], cur, old_future[last].origins, ol, a));
            assert(snapshot_ok(old_future[last], o, a));
            assert(old_future[last] == f);
        }
        let popped = self.undone.pop();
        let edit = match popped {
            Some(e) => e,
            None => {
                return None;
            },
        };
        proof {
            assert(edit == old_undone[last]);
            lemma_alike_sym(f.origins, f.origins, a);
        }
        self.future = Ghost(self.future@.drop_last());
        let at = match &edit {
            Edit::Inserted { at, bytes } => {
                self.buffer.insert(*at, bytes.as_slice());
                proof {
                    let n = bytes@.len() as int;
                    let a1 = self.buffer.store();
                    let more = bytes@;
                    let now = self.buffer.provenance();
                    let fo = f.origins;
                    let x = now.subrange(*at as int, *at + n);
                    let y = fo.subrange(*at as int, *at + n);
                    assert(now.take(*at as int) =~= cur.take(*at as int));
                    assert(now.skip(*at + n) =~= cur.skip(*at as int));
                    lemma_in_range_parts(cur, *at as int, *at as int, ol, a.len() as int, 0);
                    lemma_in_range_parts(fo, *at as int, *at + n, ol, a.len() as int, 0);
                    lemma_in_range_parts(fo, *at + n, *at + n, ol, a.len() as int, 0);
                    lemma_alike_sym(fo.take(*at as int), cur.take(*at as int), a);
                    lemma_alike_sym(fo.skip(*at + n), cur.skip(*at as int), a);
                    lemma_alike_grow(cur.take(*at as int), fo.take(*at as int), ol, a, more);
                    lemma_alike_grow(cur.skip(*at as int), fo.skip(*at + n), ol, a, more);
                    assert(a1 == a + more);
                    assert forall|i: int| 0 <= i < x.len() implies same_origin(#[trigger] x[i], y[i], a1) by {
                        assert(x[i] == (Source::Added, a.len() + i));
                        assert(y[i].0 == Source::Added && a[y[i].1] == bytes@[i]);
                        assert(0 <= y[i].1 < a.len());
                    }
                    lemma_alike_join(now.take(*at as int), fo.take(*at as int), x, y, a1);
                    lemma_alike_join(now.take(*at as int) + x, fo.take(*at as int) + y, now.skip(*at + n), fo.skip(*at + n), a1);
                    assert(now.take(*at as int) + x + now.skip(*at + n) =~= now);
                    assert(fo.take(*at as int) + y + fo.skip(*at + n) =~= fo);
                }
                *at
            },
            Edit::Deleted { at, removed } => {
                proof {
                    lemma_lengths(removed.runs(), o, a);
                }
                let count = removed.len();
                self.buffer.delete(*at, count);
                proof {
                    let r = origins(removed.runs());
                    let now = self.buffer.provenance();
                    assert(now == cur.take(*at as int) + cur.skip(*at + r.len()));
                    lemma_alike_sym(f.origins, now, a);
                    assert(a + Seq::<u8>::empty() =~= a);
                }
                *at
            },
            Edit::Overwrote { at, removed, after } => {
                proof {
                    lemma_lengths(removed.runs(), o, a);
                }
                let count = removed.len();
                self.buffer.delete(*at, count);
                let ghost mid = self.buffer.provenance();
                proof {
                    let k = count as int;
                    if k == 0 {
                        assert(cur.take(*at as int) + cur.skip(*at + k) =~= cur);
                    }
                    assert(mid == cur.take(*at as int) + cur.skip(*at + k));
                    lemma_lengths(self.buffer.runs(), o, a);
                }
                self.buffer.insert(*at, after.as_slice());
                proof {
                    let k = count as int;
                    let n = after@.len() as int;
                    let a1 = self.buffer.store();
                    let more = after@;
                    let now = self.buffer.provenance();
                    let fo = f.origins;
                    let x = now.subrange(*at as int, *at + n);
                    let y = fo.subrange(*at as int, *at + n);
                    assert(now.take(*at as int) =~= cur.take(*at as int));
                    assert(now.skip(*at + n) =~= cur.skip(*at + k));
                    lemma_in_range_parts(cur, *at as int, *at + k, ol, a.len() as int, 0);
                    lemma_in_range_parts(cur, *at + k, *at + k, ol, a.len() as int, 0);
                    lemma_in_range_parts(fo, *at as int, *at + n, ol, a.len() as int, 0);
                    lemma_in_range_parts(fo, *at + n, *at + n, ol, a.len() as int, 0);
                    lemma_alike_sym(fo.take(*at as int), cur.take(*at as int), a);
                    lemma_alike_sym(fo.skip(*at + n), cur.skip(*at + k), a);
                    lemma_alike_grow(cur.take(*at as int), fo.take(*at as int), ol, a, more);
                    lemma_alike_grow(cur.skip(*at + k), fo.skip(*at + n), ol, a, more);
                    assert(a1 == a + more);
                    assert forall|i: int| 0 <= i < x.len() implies same_origin(#[trigger] x[i], y[i], a1) by {
                        assert(x[i] == (Source::Added, a.len() + i));
                        assert(y[i].0 == Source::Added && a[y[i].1] == after@[i]);
                        assert(0 <= y[i].1 < a.len());
                    }
                    lemma_alike_join(now.take(*at as int), fo.take(*at as int), x, y, a1);
                    lemma_alike_join(now.take(*at as int) + x, fo.take(*at as int) + y, now.skip(*at + n), fo.skip(*at + n), a1);
                    assert(now.take(*at as int) + x + now.skip(*at + n) =~= now);
                    assert(fo.take(*at as int) + y + fo.skip(*at + n) =~= fo);
                }
                *at
            },
        };
        let ghost now = self.buffer.provenance();
        let ghost a1 = self.buffer.store();
        let ghost more = a1.skip(a.len() as int);
        proof {
            assert(a1 == a + more);
            assert(alike(now, f.origins, a1));
            assert(at == place(edit));
        }
        self.done.push(edit);
        self.past = Ghost(self.past@.push(snap));
        proof {
            lemma_in_range(self.buffer.runs(), ol, a1.len() as int);
            lemma_in_range_parts(cur, 0, 0, ol, a.len() as int, more.len() as int);
            lemma_in_range_parts(f.origins, 0, 0, ol, a.len() as int, more.len() as int);
            lemma_leads_grow(edit, cur, f.origins, ol, a, more);
            lemma_leads_after(edit, cur, f.origins, now, ol, a1);
            assert forall|k: int| 0 <= k < self.done@.len() implies leads(#[trigger] self.done@[k], self.past@[k].origins,
                if k + 1 < self.past@.len() { self.past@[k + 1].origins } else { now }, ol, a1) by {
                if k < old_done.len() {
                    assert(self.done@[k] == old_done[k]);
                    assert(self.past@[k] == old_past[k]);
                    assert(snapshot_ok(old_past[k], o, a));
                    if k + 1 < old_past.len() {
                        assert(self.past@[k + 1] == old_past[k + 1]);
                        assert(snapshot_ok(old_past[k + 1], o, a));
                        lemma_leads_grow(old_done[k], old_past[k].origins, old_past[k + 1].origins, ol, a, more);
                    } else {
                        lemma_leads_grow(old_done[k], old_past[k].origins, cur, ol, a, more);
                    }
                }
            }
            assert forall|k: int| 0 <= k < self.done@.len() implies self.past@[k].at == place(#[trigger] self.done@[k]) by {
                if k < old_done.len() {
                    assert(self.done@[k] == old_done[k]);
                    assert(old_past[k].at == place(old_done[k]));
                }
            }
            assert forall|k: int| 0 <= k < self.undone@.len() implies leads(#[trigger] self.undone@[k],
                if k + 1 < self.future@.len() { self.future@[k + 1].origins } else { now }, self.future@[k].origins, ol, a1) by {
                assert(self.undone@[k] == old_undone[k]);
                assert(self.future@[k] == old_future[k]);
                assert(snapshot_ok(old_future[k], o, a));
                assert(snapshot_ok(old_future[k + 1], o, a));
                lemma_leads_grow(old_undone[k], old_future[k + 1].origins, old_future[k].origins, ol, a, more);
                if k + 1 == self.future@.len() {
                    assert(old_future[k + 1] == f);
                    lemma_leads_before(old_undone[k], f.origins, now, old_future[k].origins, ol, a1);
                } else {
                    assert(self.future@[k + 1] == old_future[k + 1]);
                }
            }
            assert forall|k: int| 0 <= k < self.undone@.len() implies self.future@[k].at == place(#[trigger] self.undone@[k]) by {
                assert(self.undone@[k] == old_undone[k]);
                assert(old_future[k].at == place(old_undone[k]));
            }
            assert forall|k: int| 0 <= k < self.past@.len() implies snapshot_ok(#[trigger] self.past@[k], o, a1) by {
                if k < old_past.len() {
                    assert(self.past@[k] == old_past[k]);
                    lemma_snapshot_grow(old_past[k], o, a, more);
                } else {
                    lemma_snapshot_grow(snap, o, a, more);
                }
            }
            assert forall|k: int| 0 <= k < self.future@.len() implies snapshot_ok(#[trigger] self.future@[k], o, a1) by {
                assert(self.future@[k] == old_future[k]);
                lemma_snapshot_grow(old_future[k], o, a, more);
            }
            lemma_in_range_parts(self.start@, 0, 0, ol, a.len() as int, more.len() as int);
            if old_past.len() > 0 {
                assert(self.past@[0] == old_past[0]);
                assert(snapshot_ok(old_past[0], o, a));
                lemma_alike_grow(old_past[0].origins, self.start@, ol, a, more);
            } else {
                lemma_alike_grow(cur, self.start@, ol, a, more);
            }
            lemma_snapshot_grow(f, o, a, more);
            lemma_views(self.buffer.runs(), o, a1);
            lemma_alike_content(now, f.origins, o, a1);
        }
        Some(at)
    }
}

/// Undoing every change to a buffer that nobody had changed when the
/// history began leaves it unchanged: every byte from the original, in
/// order, none marked as added.
pub proof fn law_fully_undone_is_untouched<B: Bytes>(h: &History<B>)
    requires
        h.wf(),
        h.past().len() == 0,
        h.start() == untouched(h.current().original().len() as int),
    ensures
        h.current().provenance() == untouched(h.current().original().len() as int),
        h.current().document() == h.current().original(),
        h.current().edited() == Seq::new(h.current().original().len(), |i: int| false),
{
    let b = h.current();
    lemma_alike_untouched(b.provenance(), b.original().len() as int, b.store());
    crate::hexedit::buffer::lemma_untouched(b.runs(), b.original(), b.store());
}

/// Undoing a change gives back the bytes as they were before it, each
/// marked as it was: given a history, the history after a change (as
/// [`History::insert`], [`History::delete`] and [`History::overwrite`]
/// leave it) and the history after undoing that (as [`History::undo`]
/// leaves it).
pub proof fn law_undo_restores<B: Bytes>(before: &History<B>, changed: &History<B>, undone: &History<B>, at: u64)
    requires
        before.wf(),
        changed.past() == before.past().push(snapshot(before.current(), at)),
        undone.current().document() == changed.past().last().bytes,
        undone.current().edited() == changed.past().last().marks,
        undone.past() == changed.past().drop_last(),
    ensures
        undone.current().document() == before.current().document(),
        undone.current().edited() == before.current().edited(),
        undone.past() == before.past(),
{
    assert(changed.past().drop_last() =~= before.past());
}

/// Redoing an undone change gives back the bytes as they were after it,
/// each marked as it was: given a history, the history after undoing (as
/// [`History::undo`] leaves it) and the history after redoing (as
/// [`History::redo`] leaves it).
pub proof fn law_redo_restores<B: Bytes>(before: &History<B>, undone: &History<B>, redone: &History<B>)
    requires
        before.wf(),
        before.past().len() > 0,
        undone.future() == before.future().push(snapshot(before.current(), before.past().last().at)),
        redone.current().document() == undone.future().last().bytes,
        redone.current().edited() == undone.future().last().marks,
        redone.future() == undone.future().drop_last(),
    ensures
        redone.current().document() == before.current().document(),
        redone.current().edited() == before.current().edited(),
        redone.future() == before.future(),
{
    assert(undone.future().drop_last() =~= before.future());
}

} // verus!
