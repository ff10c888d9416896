//! The bytes being edited, and where each one came from.
//!
//! A piece table over the original bytes rather than a copy of them:
//! inserting one byte at the front of a large file does not copy the file,
//! and the original bytes are fetched only for what is read. A run either
//! points into the original or into the bytes this session added, so a byte
//! is modified exactly when it comes from the latter.

use vstd::prelude::*;

use crate::error::{Error, ErrorCode};
use crate::hexedit::find::{min_int, Bytes};

verus! {

/// Where a run of bytes lives.
#[derive(Debug, Clone, Copy, PartialEq, Eq, Structural)]
pub enum Source {
    /// The bytes as they were when the buffer was opened.
    Original,
    /// Bytes this session added.
    Added,
}

/// One run of consecutive bytes from one source.
#[derive(Debug, Clone, Copy, PartialEq, Eq, Structural)]
pub struct Piece {
    /// Where the run lives.
    pub source: Source,
    /// Offset within the source.
    pub start: u64,
    /// How many bytes.
    pub len: u64,
}

/// The bytes a piece stands for.
pub open spec fn piece_bytes(p: Piece, original: Seq<u8>, added: Seq<u8>) -> Seq<u8> {
    match p.source {
        Source::Original => original.subrange(p.start as int, p.start + p.len),
        Source::Added => added.subrange(p.start as int, p.start + p.len),
    }
}

/// Whether a piece stands for bytes that exist: not empty, and within its
/// source.
pub open spec fn piece_ok(p: Piece, original_len: int, added_len: int) -> bool {
    p.len > 0 && p.start + p.len <= match p.source {
        Source::Original => original_len,
        Source::Added => added_len,
    }
}

/// Whether `b` picks up in the same source exactly where `a` ends.
pub open spec fn continues(a: Piece, b: Piece) -> bool {
    a.source == b.source && a.start + a.len == b.start
}

/// Whether no run picks up where the one before it ends: each is as long
/// as it can be.
pub open spec fn separated(ps: Seq<Piece>) -> bool {
    forall|j: int| 0 <= j && j + 1 < ps.len() ==> !continues(#[trigger] ps[j], ps[j + 1])
}

/// The bytes a run of pieces stands for, in order.
pub open spec fn doc(ps: Seq<Piece>, original: Seq<u8>, added: Seq<u8>) -> Seq<u8>
    decreases ps.len(),
{
    if ps.len() == 0 {
        Seq::empty()
    } else {
        doc(ps.drop_last(), original, added) + piece_bytes(ps.last(), original, added)
    }
}

/// Whether each byte of a run of pieces was added in this session.
pub open spec fn marks(ps: Seq<Piece>) -> Seq<bool>
    decreases ps.len(),
{
    if ps.len() == 0 {
        Seq::empty()
    } else {
        marks(ps.drop_last()) + Seq::new(ps.last().len as nat, |i: int| ps.last().source == Source::Added)
    }
}

/// Where each byte of a piece comes from: its source, and its offset there.
pub open spec fn spans(p: Piece) -> Seq<(Source, int)> {
    Seq::new(p.len as nat, |i: int| (p.source, p.start + i))
}

/// Where each byte of a run of pieces comes from, in order.
pub open spec fn origins(ps: Seq<Piece>) -> Seq<(Source, int)>
    decreases ps.len(),
{
    if ps.len() == 0 {
        Seq::empty()
    } else {
        origins(ps.drop_last()) + spans(ps.last())
    }
}

/// The byte at an origin.
pub open spec fn fetch(x: (Source, int), original: Seq<u8>, added: Seq<u8>) -> u8 {
    match x.0 {
        Source::Original => original[x.1],
        Source::Added => added[x.1],
    }
}

/// The origins of the first `n` bytes of the original, in order: what a
/// buffer nobody has changed is made of.
pub open spec fn untouched(n: int) -> Seq<(Source, int)> {
    Seq::new(n as nat, |i: int| (Source::Original, i))
}

/// The origins of `n` bytes added at `start` of the added store.
pub open spec fn added_run(start: int, n: int) -> Seq<(Source, int)> {
    Seq::new(n as nat, |i: int| (Source::Added, start + i))
}

/// Whether two origins stand for the same byte in the same way: both from
/// the original at the same offset, or both added with the same value.
pub open spec fn same_origin(x: (Source, int), y: (Source, int), added: Seq<u8>) -> bool {
    &&& x.0 == y.0
    &&& x.0 == Source::Original ==> x.1 == y.1
    &&& x.0 == Source::Added ==> added[x.1] == added[y.1]
}

/// Whether two runs of origins stand for the same bytes in the same way.
/// Redoing an insert adds its bytes to the store again, so a redone
/// document is alike its first self rather than equal to it.
pub open spec fn alike(x: Seq<(Source, int)>, y: Seq<(Source, int)>, added: Seq<u8>) -> bool {
    &&& x.len() == y.len()
    &&& forall|i: int| 0 <= i < x.len() ==> same_origin(#[trigger] x[i], y[i], added)
}

/// Whether every origin points at a byte that exists.
pub open spec fn in_range(x: Seq<(Source, int)>, original_len: int, added_len: int) -> bool {
    forall|i: int| 0 <= i < x.len() ==> 0 <= (#[trigger] x[i]).1 < match x[i].0 {
        Source::Original => original_len,
        Source::Added => added_len,
    }
}

/// How many bytes a run of pieces stands for.
pub open spec fn total(ps: Seq<Piece>) -> int
    decreases ps.len(),
{
    if ps.len() == 0 {
        0
    } else {
        total(ps.drop_last()) + ps.last().len
    }
}

/// Whether every piece of a run stands for bytes that exist.
pub open spec fn all_ok(ps: Seq<Piece>, original_len: int, added_len: int) -> bool {
    forall|i: int| 0 <= i < ps.len() ==> piece_ok(#[trigger] ps[i], original_len, added_len)
}

/// Runs put end to end stand for their bytes end to end.
pub proof fn lemma_concat(a: Seq<Piece>, b: Seq<Piece>, original: Seq<u8>, added: Seq<u8>)
    ensures
        doc(a + b, original, added) == doc(a, original, added) + doc(b, original, added),
        marks(a + b) == marks(a) + marks(b),
        origins(a + b) == origins(a) + origins(b),
        total(a + b) == total(a) + total(b),
    decreases b.len(),
{
    if b.len() == 0 {
        assert(a + b =~= a);
        assert(doc(a, original, added) + doc(b, original, added) =~= doc(a, original, added));
        assert(marks(a) + marks(b) =~= marks(a));
        assert(origins(a) + origins(b) =~= origins(a));
    } else {
        lemma_concat(a, b.drop_last(), original, added);
        assert((a + b).drop_last() =~= a + b.drop_last());
        assert((a + b).last() == b.last());
        assert(doc(a + b, original, added) =~= doc(a, original, added) + doc(b, original, added));
        assert(marks(a + b) =~= marks(a) + marks(b));
        assert(origins(a + b) =~= origins(a) + origins(b));
    }
}

/// A run of pieces that exist stands for as many bytes as it says, and
/// has as many marks.
pub proof fn lemma_lengths(ps: Seq<Piece>, original: Seq<u8>, added: Seq<u8>)
    requires
        all_ok(ps, original.len() as int, added.len() as int),
    ensures
        doc(ps, original, added).len() == total(ps),
        marks(ps).len() == total(ps),
        origins(ps).len() == total(ps),
        total(ps) >= 0,
    decreases ps.len(),
{
    if ps.len() > 0 {
        assert forall|i: int| 0 <= i < ps.drop_last().len() implies piece_ok(#[trigger] ps.drop_last()[i], original.len() as int, added.len() as int) by {
            assert(ps.drop_last()[i] == ps[i]);
        }
        lemma_lengths(ps.drop_last(), original, added);
        assert(piece_ok(ps[ps.len() - 1], original.len() as int, added.len() as int));
    }
}

/// A piece cut in two stands for the same bytes as before.
pub proof fn lemma_cut(p: Piece, k: u64, original: Seq<u8>, added: Seq<u8>)
    requires
        0 < k < p.len,
        p.start + p.len <= u64::MAX,
        piece_ok(p, original.len() as int, added.len() as int),
    ensures
        piece_bytes(p, original, added) == piece_bytes(Piece { len: k, ..p }, original, added)
            + piece_bytes(Piece { start: (p.start + k) as u64, len: (p.len - k) as u64, ..p }, original, added),
        Seq::new(p.len as nat, |i: int| p.source == Source::Added) == Seq::new(k as nat, |i: int| p.source == Source::Added)
            + Seq::new((p.len - k) as nat, |i: int| p.source == Source::Added),
        spans(p) == spans(Piece { len: k, ..p }) + spans(Piece { start: (p.start + k) as u64, len: (p.len - k) as u64, ..p }),
{
    let left = Piece { len: k, ..p };
    let right = Piece { start: (p.start + k) as u64, len: (p.len - k) as u64, ..p };
    match p.source {
        Source::Original => {
            assert(original.subrange(p.start as int, p.start + p.len) =~= original.subrange(p.start as int, p.start + k)
                + original.subrange(p.start + k, p.start + p.len));
        },
        Source::Added => {
            assert(added.subrange(p.start as int, p.start + p.len) =~= added.subrange(p.start as int, p.start + k)
                + added.subrange(p.start + k, p.start + p.len));
        },
    }
    assert(Seq::new(p.len as nat, |i: int| p.source == Source::Added) =~= Seq::new(k as nat, |i: int| p.source == Source::Added)
        + Seq::new((p.len - k) as nat, |i: int| p.source == Source::Added));
    assert(spans(p) =~= spans(left) + spans(right));
}

/// A run with one more piece in it.
pub proof fn lemma_insert_piece(ps: Seq<Piece>, i: int, p: Piece, original: Seq<u8>, added: Seq<u8>)
    requires
        0 <= i <= ps.len(),
    ensures
        doc(ps.insert(i, p), original, added) == doc(ps.take(i), original, added) + piece_bytes(p, original, added)
            + doc(ps.skip(i), original, added),
        marks(ps.insert(i, p)) == marks(ps.take(i)) + Seq::new(p.len as nat, |j: int| p.source == Source::Added)
            + marks(ps.skip(i)),
        origins(ps.insert(i, p)) == origins(ps.take(i)) + spans(p) + origins(ps.skip(i)),
        total(ps.insert(i, p)) == total(ps.take(i)) + p.len + total(ps.skip(i)),
{
    assert(ps.insert(i, p) =~= ps.take(i) + seq![p] + ps.skip(i));
    lemma_concat(ps.take(i) + seq![p], ps.skip(i), original, added);
    lemma_concat(ps.take(i), seq![p], original, added);
    assert(seq![p].drop_last() =~= Seq::<Piece>::empty());
    assert(doc(Seq::<Piece>::empty(), original, added) =~= Seq::<u8>::empty());
    assert(marks(Seq::<Piece>::empty()) =~= Seq::<bool>::empty());
    assert(total(Seq::<Piece>::empty()) == 0);
    assert(total(seq![p]) == p.len);
    assert(doc(seq![p], original, added) =~= piece_bytes(p, original, added));
    assert(marks(seq![p]) =~= Seq::new(p.len as nat, |j: int| p.source == Source::Added));
    assert(origins(Seq::<Piece>::empty()) =~= Seq::<(Source, int)>::empty());
    assert(origins(seq![p]) =~= spans(p));
}

/// A run split at a piece boundary.
pub proof fn lemma_split(ps: Seq<Piece>, i: int, original: Seq<u8>, added: Seq<u8>)
    requires
        0 <= i <= ps.len(),
    ensures
        doc(ps, original, added) == doc(ps.take(i), original, added) + doc(ps.skip(i), original, added),
        marks(ps) == marks(ps.take(i)) + marks(ps.skip(i)),
        origins(ps) == origins(ps.take(i)) + origins(ps.skip(i)),
        total(ps) == total(ps.take(i)) + total(ps.skip(i)),
{
    assert(ps =~= ps.take(i) + ps.skip(i));
    lemma_concat(ps.take(i), ps.skip(i), original, added);
}

/// A run's total is never negative.
pub proof fn lemma_total_nonneg(ps: Seq<Piece>)
    ensures
        total(ps) >= 0,
    decreases ps.len(),
{
    if ps.len() > 0 {
        lemma_total_nonneg(ps.drop_last());
    }
}

/// Byte `j` of piece `i` is byte `total(ps.take(i)) + j` of the run.
pub proof fn lemma_piece_in_doc(ps: Seq<Piece>, i: int, j: int, original: Seq<u8>, added: Seq<u8>)
    requires
        0 <= i < ps.len(),
        0 <= j < ps[i].len,
        all_ok(ps, original.len() as int, added.len() as int),
    ensures
        doc(ps, original, added)[total(ps.take(i)) + j] == piece_bytes(ps[i], original, added)[j],
        marks(ps)[total(ps.take(i)) + j] == (ps[i].source == Source::Added),
        origins(ps)[total(ps.take(i)) + j] == (ps[i].source, ps[i].start + j),
        total(ps.take(i)) + ps[i].len <= total(ps),
{
    lemma_split(ps, i, original, added);
    let rest = ps.skip(i);
    assert(rest =~= seq![ps[i]] + ps.skip(i + 1));
    lemma_concat(seq![ps[i]], ps.skip(i + 1), original, added);
    assert(seq![ps[i]].drop_last() =~= Seq::<Piece>::empty());
    assert(doc(Seq::<Piece>::empty(), original, added) =~= Seq::<u8>::empty());
    assert(marks(Seq::<Piece>::empty()) =~= Seq::<bool>::empty());
    assert(doc(seq![ps[i]], original, added) =~= piece_bytes(ps[i], original, added));
    assert(marks(seq![ps[i]]) =~= Seq::new(ps[i].len as nat, |k: int| ps[i].source == Source::Added));
    assert(origins(Seq::<Piece>::empty()) =~= Seq::<(Source, int)>::empty());
    assert(origins(seq![ps[i]]) =~= spans(ps[i]));
    assert(total(Seq::<Piece>::empty()) == 0);
    assert(total(seq![ps[i]]) == ps[i].len);
    assert(all_ok(ps.take(i), original.len() as int, added.len() as int));
    lemma_lengths(ps.take(i), original, added);
    assert(piece_ok(ps[i], original.len() as int, added.len() as int));
    lemma_total_nonneg(ps.skip(i + 1));
}


/// Part of a piece stands for part of its bytes.
pub proof fn lemma_part(p: Piece, j: u64, k: u64, original: Seq<u8>, added: Seq<u8>)
    requires
        j + k <= p.len,
        k > 0,
        p.start + p.len <= u64::MAX,
        piece_ok(p, original.len() as int, added.len() as int),
    ensures
        piece_bytes(Piece { start: (p.start + j) as u64, len: k, ..p }, original, added)
            == piece_bytes(p, original, added).subrange(j as int, j + k),
        Seq::new(k as nat, |i: int| p.source == Source::Added)
            == Seq::new(p.len as nat, |i: int| p.source == Source::Added).subrange(j as int, j + k),
        spans(Piece { start: (p.start + j) as u64, len: k, ..p }) == spans(p).subrange(j as int, j + k),
        piece_ok(Piece { start: (p.start + j) as u64, len: k, ..p }, original.len() as int, added.len() as int),
{
    match p.source {
        Source::Original => {
            assert(original.subrange(p.start + j, p.start + j + k) =~= original.subrange(p.start as int, p.start + p.len).subrange(j as int, j + k));
        },
        Source::Added => {
            assert(added.subrange(p.start + j, p.start + j + k) =~= added.subrange(p.start as int, p.start + p.len).subrange(j as int, j + k));
        },
    }
    assert(Seq::new(k as nat, |i: int| p.source == Source::Added) =~= Seq::new(p.len as nat, |i: int| p.source == Source::Added).subrange(j as int, j + k));
    assert(spans(Piece { start: (p.start + j) as u64, len: k, ..p }) =~= spans(p).subrange(j as int, j + k));
}

/// Piece `i` of a run is the window of the run's bytes it covers.
pub proof fn lemma_window(ps: Seq<Piece>, i: int, original: Seq<u8>, added: Seq<u8>)
    requires
        0 <= i < ps.len(),
        all_ok(ps, original.len() as int, added.len() as int),
    ensures
        total(ps.take(i)) + ps[i].len <= total(ps),
        total(ps.take(i + 1)) == total(ps.take(i)) + ps[i].len,
        total(ps.take(i)) >= 0,
        doc(ps, original, added).subrange(total(ps.take(i)), total(ps.take(i)) + ps[i].len) == piece_bytes(ps[i], original, added),
        marks(ps).subrange(total(ps.take(i)), total(ps.take(i)) + ps[i].len) == Seq::new(ps[i].len as nat, |k: int| ps[i].source == Source::Added),
        origins(ps).subrange(total(ps.take(i)), total(ps.take(i)) + ps[i].len) == spans(ps[i]),
{
    let c = total(ps.take(i));
    lemma_total_nonneg(ps.take(i));
    assert(ps.take(i + 1).drop_last() =~= ps.take(i));
    assert(piece_ok(ps[i], original.len() as int, added.len() as int));
    lemma_lengths(ps, original, added);
    assert forall|j: int| 0 <= j < ps[i].len implies doc(ps, original, added)[c + j] == piece_bytes(ps[i], original, added)[j]
        && marks(ps)[c + j] == (ps[i].source == Source::Added) by {
        lemma_piece_in_doc(ps, i, j, original, added);
    }
    lemma_piece_in_doc(ps, i, 0, original, added);
    assert(doc(ps, original, added).subrange(c, c + ps[i].len) =~= piece_bytes(ps[i], original, added));
    let flags = Seq::new(ps[i].len as nat, |k: int| ps[i].source == Source::Added);
    assert forall|j: int| 0 <= j < ps[i].len implies #[trigger] marks(ps).subrange(c, c + ps[i].len)[j] == flags[j] by {
        lemma_piece_in_doc(ps, i, j, original, added);
    }
    assert(marks(ps).subrange(c, c + ps[i].len) =~= flags);
    assert forall|j: int| 0 <= j < ps[i].len implies #[trigger] origins(ps).subrange(c, c + ps[i].len)[j] == spans(ps[i])[j] by {
        lemma_piece_in_doc(ps, i, j, original, added);
    }
    assert(origins(ps).subrange(c, c + ps[i].len) =~= spans(ps[i]));
}

/// A run with one more piece at the end.
pub proof fn lemma_push(ps: Seq<Piece>, p: Piece, original: Seq<u8>, added: Seq<u8>)
    ensures
        doc(ps.push(p), original, added) == doc(ps, original, added) + piece_bytes(p, original, added),
        marks(ps.push(p)) == marks(ps) + Seq::new(p.len as nat, |k: int| p.source == Source::Added),
        origins(ps.push(p)) == origins(ps) + spans(p),
        total(ps.push(p)) == total(ps) + p.len,
{
    assert(ps.push(p).drop_last() =~= ps);
}


/// What cutting `[from, to)` out of `d` keeps and removes, one window
/// `[c, c2)` further on.
pub proof fn lemma_cut_step<A>(d: Seq<A>, c: int, c2: int, from: int, to: int, kd: Seq<A>, rd: Seq<A>)
    requires
        0 <= c <= c2 <= d.len(),
        0 <= from <= to <= d.len(),
        kd == d.subrange(0, min_int(c, from)) + d.subrange(to, if c > to { c } else { to }),
        rd == d.subrange(from, if c < from { from } else { min_int(c, to) }),
    ensures
        kd + (if c < from { d.subrange(c, min_int(c2, from)) } else { Seq::empty() }) + (if c2 > to {
            d.subrange(if c > to { c } else { to }, c2)
        } else {
            Seq::empty()
        }) == d.subrange(0, min_int(c2, from)) + d.subrange(to, if c2 > to { c2 } else { to }),
        rd + (if (if c > from { c } else { from }) < (if c2 < to { c2 } else { to }) {
            d.subrange(if c > from { c } else { from }, if c2 < to { c2 } else { to })
        } else {
            Seq::empty()
        }) == d.subrange(from, if c2 < from { from } else { min_int(c2, to) }),
{
    let left = if c < from { d.subrange(c, min_int(c2, from)) } else { Seq::empty() };
    let right = if c2 > to { d.subrange(if c > to { c } else { to }, c2) } else { Seq::empty() };
    assert(kd + left + right =~= d.subrange(0, min_int(c2, from)) + d.subrange(to, if c2 > to { c2 } else { to }));
    let lo = if c > from { c } else { from };
    let hi = if c2 < to { c2 } else { to };
    let mid = if lo < hi { d.subrange(lo, hi) } else { Seq::empty() };
    assert(rd + mid =~= d.subrange(from, if c2 < from { from } else { min_int(c2, to) }));
}


/// Runs over a store stand for the same bytes once more is added to it.
pub proof fn lemma_store_grows(ps: Seq<Piece>, original: Seq<u8>, added: Seq<u8>, more: Seq<u8>)
    requires
        all_ok(ps, original.len() as int, added.len() as int),
    ensures
        doc(ps, original, added + more) == doc(ps, original, added),
        all_ok(ps, original.len() as int, (added + more).len() as int),
    decreases ps.len(),
{
    if ps.len() > 0 {
        let rest = ps.drop_last();
        assert forall|i: int| 0 <= i < rest.len() implies piece_ok(#[trigger] rest[i], original.len() as int, added.len() as int) by {
            assert(rest[i] == ps[i]);
        }
        lemma_store_grows(rest, original, added, more);
        let p = ps.last();
        assert(piece_ok(ps[ps.len() - 1], original.len() as int, added.len() as int));
        if p.source == Source::Added {
            assert((added + more).subrange(p.start as int, p.start + p.len) =~= added.subrange(p.start as int, p.start + p.len));
        }
    }
}

/// The bytes of a run, and which of them were added, follow from where
/// each byte comes from.
pub proof fn lemma_views(ps: Seq<Piece>, original: Seq<u8>, added: Seq<u8>)
    requires
        all_ok(ps, original.len() as int, added.len() as int),
    ensures
        doc(ps, original, added) == origins(ps).map_values(|x: (Source, int)| fetch(x, original, added)),
        marks(ps) == origins(ps).map_values(|x: (Source, int)| x.0 == Source::Added),
    decreases ps.len(),
{
    if ps.len() > 0 {
        let rest = ps.drop_last();
        assert forall|i: int| 0 <= i < rest.len() implies piece_ok(#[trigger] rest[i], original.len() as int, added.len() as int) by {
            assert(rest[i] == ps[i]);
        }
        lemma_views(rest, original, added);
        lemma_lengths(rest, original, added);
        let p = ps.last();
        assert(piece_ok(ps[ps.len() - 1], original.len() as int, added.len() as int));
        assert(doc(ps, original, added) =~= origins(ps).map_values(|x: (Source, int)| fetch(x, original, added)));
        assert(marks(ps) =~= origins(ps).map_values(|x: (Source, int)| x.0 == Source::Added));
    } else {
        assert(doc(ps, original, added) =~= origins(ps).map_values(|x: (Source, int)| fetch(x, original, added)));
        assert(marks(ps) =~= origins(ps).map_values(|x: (Source, int)| x.0 == Source::Added));
    }
}

/// Runs made of the original bytes in order stand for the original, with
/// nothing marked as added.
pub proof fn lemma_untouched(ps: Seq<Piece>, original: Seq<u8>, added: Seq<u8>)
    requires
        all_ok(ps, original.len() as int, added.len() as int),
        origins(ps) == untouched(original.len() as int),
    ensures
        doc(ps, original, added) == original,
        marks(ps) == Seq::new(original.len(), |i: int| false),
{
    lemma_views(ps, original, added);
    assert(doc(ps, original, added) =~= original);
    assert(marks(ps) =~= Seq::new(original.len(), |i: int| false));
}

/// The origins of runs that exist point at bytes that exist.
pub proof fn lemma_in_range(ps: Seq<Piece>, original_len: int, added_len: int)
    requires
        all_ok(ps, original_len, added_len),
    ensures
        in_range(origins(ps), original_len, added_len),
    decreases ps.len(),
{
    if ps.len() > 0 {
        let rest = ps.drop_last();
        assert forall|i: int| 0 <= i < rest.len() implies piece_ok(#[trigger] rest[i], original_len, added_len) by {
            assert(rest[i] == ps[i]);
        }
        lemma_in_range(rest, original_len, added_len);
        assert(piece_ok(ps[ps.len() - 1], original_len, added_len));
        let x = origins(ps);
        let y = origins(rest);
        assert forall|i: int| 0 <= i < x.len() implies 0 <= (#[trigger] x[i]).1 < match x[i].0 {
            Source::Original => original_len,
            Source::Added => added_len,
        } by {
            if i < y.len() {
                assert(x[i] == y[i]);
            }
        }
    }
}

/// Runs alike one another stand for the same bytes, marked the same way.
pub proof fn lemma_alike_content(x: Seq<(Source, int)>, y: Seq<(Source, int)>, original: Seq<u8>, added: Seq<u8>)
    requires
        alike(x, y, added),
    ensures
        x.map_values(|o: (Source, int)| fetch(o, original, added)) == y.map_values(|o: (Source, int)| fetch(o, original, added)),
        x.map_values(|o: (Source, int)| o.0 == Source::Added) == y.map_values(|o: (Source, int)| o.0 == Source::Added),
{
    assert forall|i: int| 0 <= i < x.len() implies #[trigger] fetch(x[i], original, added) == fetch(y[i], original, added) by {
        assert(same_origin(x[i], y[i], added));
    }
    assert(x.map_values(|o: (Source, int)| fetch(o, original, added)) =~= y.map_values(|o: (Source, int)| fetch(o, original, added)));
    assert forall|i: int| 0 <= i < x.len() implies #[trigger] x[i].0 == y[i].0 by {
        assert(same_origin(x[i], y[i], added));
    }
    assert(x.map_values(|o: (Source, int)| o.0 == Source::Added) =~= y.map_values(|o: (Source, int)| o.0 == Source::Added));
}

/// Origins alike the untouched original are the untouched original.
pub proof fn lemma_alike_untouched(x: Seq<(Source, int)>, n: int, added: Seq<u8>)
    requires
        alike(x, untouched(n), added),
    ensures
        x == untouched(n),
{
    assert forall|i: int| 0 <= i < x.len() implies #[trigger] x[i] == untouched(n)[i] by {
        assert(same_origin(x[i], untouched(n)[i], added));
    }
    assert(x =~= untouched(n));
}

/// Two pieces that follow each other in one source are one piece.
pub proof fn lemma_join(p: Piece, q: Piece, original: Seq<u8>, added: Seq<u8>)
    requires
        p.source == q.source,
        p.start + p.len == q.start,
        piece_ok(p, original.len() as int, added.len() as int),
        piece_ok(q, original.len() as int, added.len() as int),
        p.len + q.len <= u64::MAX,
    ensures
        piece_bytes(Piece { len: (p.len + q.len) as u64, ..p }, original, added) == piece_bytes(p, original, added) + piece_bytes(q, original, added),
        Seq::new((p.len + q.len) as nat, |i: int| p.source == Source::Added) == Seq::new(p.len as nat, |i: int| p.source == Source::Added)
            + Seq::new(q.len as nat, |i: int| q.source == Source::Added),
        spans(Piece { len: (p.len + q.len) as u64, ..p }) == spans(p) + spans(q),
        piece_ok(Piece { len: (p.len + q.len) as u64, ..p }, original.len() as int, added.len() as int),
{
    match p.source {
        Source::Original => {
            assert(original.subrange(p.start as int, p.start + p.len + q.len) =~= original.subrange(p.start as int, p.start + p.len)
                + original.subrange(q.start as int, q.start + q.len));
        },
        Source::Added => {
            assert(added.subrange(p.start as int, p.start + p.len + q.len) =~= added.subrange(p.start as int, p.start + p.len)
                + added.subrange(q.start as int, q.start + q.len));
        },
    }
    assert(Seq::new((p.len + q.len) as nat, |i: int| p.source == Source::Added) =~= Seq::new(p.len as nat, |i: int| p.source == Source::Added)
        + Seq::new(q.len as nat, |i: int| q.source == Source::Added));
    assert(spans(Piece { len: (p.len + q.len) as u64, ..p }) =~= spans(p) + spans(q));
}

/// The values of a run of bytes.
pub open spec fn values(bs: Seq<Byte>) -> Seq<u8> {
    bs.map_values(|b: Byte| b.value)
}

/// Which of a run of bytes were added in this session.
pub open spec fn flags(bs: Seq<Byte>) -> Seq<bool> {
    bs.map_values(|b: Byte| b.modified)
}

/// Whether position `k` falls in one of the ranges, each an offset and a
/// length.
pub open spec fn covered(ranges: Seq<(u64, u64)>, k: int) -> bool {
    exists|i: int| 0 <= i < ranges.len() && (#[trigger] ranges[i]).0 <= k < ranges[i].0 + ranges[i].1
}

/// `x` held between `lo` and `hi`.
spec fn clamp(x: int, lo: int, hi: int) -> int {
    if x < lo {
        lo
    } else if x > hi {
        hi
    } else {
        x
    }
}

/// Append `src[from..to]` to `out`, each byte marked as `modified` says.
fn append_bytes(out: &mut Vec<Byte>, src: &Vec<u8>, from: usize, to: usize, modified: bool)
    requires
        from <= to <= src@.len(),
    ensures
        values(final(out)@) == values(old(out)@) + src@.subrange(from as int, to as int),
        flags(final(out)@) == flags(old(out)@) + Seq::new((to - from) as nat, |i: int| modified),
{
    let ghost start = out@;
    let mut k: usize = from;
    while k < to
        invariant
            from <= k <= to <= src@.len(),
            out@.len() == start.len() + (k - from),
            forall|i: int| 0 <= i < start.len() ==> out@[i] == start[i],
            forall|i: int| start.len() <= i < out@.len() ==> #[trigger] out@[i] == (Byte { value: src@[from + i - start.len()], modified }),
        decreases to - k,
    {
        out.push(Byte { value: src[k], modified });
        k += 1;
    }
    assert(values(out@) =~= values(start) + src@.subrange(from as int, to as int));
    assert(flags(out@) =~= flags(start) + Seq::new((to - from) as nat, |i: int| modified));
}

/// A file, or any store of bytes, open for editing.
pub struct Buffer<B> {
    source: B,
    original_len: u64,
    added: Vec<u8>,
    pieces: Vec<Piece>,
}

/// Runs of bytes taken out of a buffer, which can be put back.
#[derive(Debug, Clone, PartialEq, Eq)]
pub struct Removed {
    pieces: Vec<Piece>,
}

/// One byte as the editor shows it.
#[derive(Debug, Clone, Copy, PartialEq, Eq, Structural)]
pub struct Byte {
    /// Its value.
    pub value: u8,
    /// Whether it was typed in this session, as opposed to only moved.
    pub modified: bool,
}

impl Removed {
    /// The runs taken out.
    pub closed spec fn runs(&self) -> Seq<Piece> {
        self.pieces@
    }

    /// How many bytes were taken out.
    pub fn len(&self) -> (r: u64)
        requires
            total(self.runs()) <= u64::MAX,
        ensures
            r == total(self.runs()),
    {
        let mut sum: u64 = 0;
        let mut i: usize = 0;
        while i < self.pieces.len()
            invariant
                i <= self.runs().len(),
                sum == total(self.runs().take(i as int)),
                total(self.runs()) <= u64::MAX,
            decreases self.pieces.len() - i,
        {
            proof {
                assert(self.runs().take(i + 1).drop_last() =~= self.runs().take(i as int));
                lemma_split(self.runs(), i + 1, Seq::empty(), Seq::empty());
                lemma_total_nonneg(self.runs().skip(i + 1));
            }
            sum = sum + self.pieces[i].len;
            i += 1;
        }
        proof {
            assert(self.runs().take(i as int) =~= self.runs());
        }
        sum
    }

    /// Whether nothing was taken out.
    pub fn is_empty(&self) -> (r: bool)
        requires
            total(self.runs()) <= u64::MAX,
        ensures
            r == (total(self.runs()) == 0),
    {
        self.len() == 0
    }
}

impl<B: Bytes> Buffer<B> {
    /// The bytes as they were when the buffer was opened.
    pub closed spec fn original(&self) -> Seq<u8> {
        self.source.content()
    }

    /// Every byte this session has added, in the order added.
    pub closed spec fn store(&self) -> Seq<u8> {
        self.added@
    }

    /// The runs the document is made of.
    pub closed spec fn runs(&self) -> Seq<Piece> {
        self.pieces@
    }

    /// The length the original had.
    pub closed spec fn spec_original_len(&self) -> u64 {
        self.original_len
    }

    /// Whether the original can be read.
    pub closed spec fn source_readable(&self) -> bool {
        self.source.readable()
    }

    /// Whether every read of the original succeeds.
    pub closed spec fn source_infallible(&self) -> bool {
        self.source.infallible()
    }

    /// The document: the bytes the runs stand for, in order.
    pub open spec fn document(&self) -> Seq<u8> {
        doc(self.runs(), self.original(), self.store())
    }

    /// Which bytes of the document were added in this session.
    pub open spec fn edited(&self) -> Seq<bool> {
        marks(self.runs())
    }

    /// Where each byte of the document comes from.
    pub open spec fn provenance(&self) -> Seq<(Source, int)> {
        origins(self.runs())
    }

    /// Every run stands for bytes that exist, and the lengths fit.
    pub open spec fn wf(&self) -> bool {
        &&& self.source_readable()
        &&& self.spec_original_len() == self.original().len()
        &&& all_ok(self.runs(), self.original().len() as int, self.store().len() as int)
        &&& total(self.runs()) <= u64::MAX
        &&& self.store().len() <= u64::MAX
    }

    /// Whether `removed` stands for bytes this buffer still holds.
    pub open spec fn holds(&self, removed: &Removed) -> bool {
        all_ok(removed.runs(), self.original().len() as int, self.store().len() as int)
    }

    /// The bytes `removed` stands for.
    pub open spec fn removed_bytes(&self, removed: &Removed) -> Seq<u8> {
        doc(removed.runs(), self.original(), self.store())
    }

    /// The document, its marks and its provenance are equally long.
    pub proof fn lemma_sizes(&self)
        requires
            self.wf(),
        ensures
            self.edited().len() == self.document().len(),
            self.provenance().len() == self.document().len(),
            self.document().len() <= u64::MAX,
    {
        lemma_lengths(self.runs(), self.original(), self.store());
    }

    /// A buffer over `source`, unchanged.
    pub fn new(source: B) -> (r: Self)
        requires
            source.readable(),
        ensures
            r.wf(),
            r.original() == source.content(),
            r.document() == source.content(),
            r.edited() == Seq::new(source.content().len(), |i: int| false),
            r.provenance() == untouched(source.content().len() as int),
            r.store().len() == 0,
            r.source_infallible() == source.infallible(),
    {
        let n = source.len();
        let mut pieces: Vec<Piece> = Vec::new();
        if n > 0 {
            pieces.push(Piece { source: Source::Original, start: 0, len: n });
        }
        let r = Buffer { source, original_len: n, added: Vec::new(), pieces };
        proof {
            if n > 0 {
                let ps = r.runs();
                assert(ps.drop_last() =~= Seq::<Piece>::empty());
                assert(doc(Seq::<Piece>::empty(), r.original(), r.store()) =~= Seq::<u8>::empty());
                assert(marks(Seq::<Piece>::empty()) =~= Seq::<bool>::empty());
                assert(r.document() =~= r.original());
                assert(r.edited() =~= Seq::new(r.original().len(), |i: int| false));
                assert(origins(Seq::<Piece>::empty()) =~= Seq::<(Source, int)>::empty());
                assert(r.provenance() =~= untouched(n as int));
                assert(total(Seq::<Piece>::empty()) == 0);
                assert(total(ps) == n);
                assert(piece_ok(ps[0], r.original().len() as int, 0));
            } else {
                assert(r.document() =~= r.original());
                assert(r.edited() =~= Seq::new(r.original().len(), |i: int| false));
                assert(r.provenance() =~= untouched(n as int));
            }
        }
        r
    }

    /// How many bytes the document holds.
    pub fn len(&self) -> (r: u64)
        requires
            self.wf(),
        ensures
            r == self.document().len(),
    {
        let mut sum: u64 = 0;
        let mut i: usize = 0;
        while i < self.pieces.len()
            invariant
                i <= self.runs().len(),
                sum == total(self.runs().take(i as int)),
                total(self.runs()) <= u64::MAX,
            decreases self.pieces.len() - i,
        {
            proof {
                assert(self.runs().take(i + 1).drop_last() =~= self.runs().take(i as int));
                lemma_split(self.runs(), i + 1, Seq::empty(), Seq::empty());
                lemma_total_nonneg(self.runs().skip(i + 1));
            }
            sum = sum + self.pieces[i].len;
            i += 1;
        }
        proof {
            assert(self.runs().take(i as int) =~= self.runs());
            lemma_lengths(self.runs(), self.original(), self.store());
        }
        sum
    }

    /// Whether the document is empty.
    pub fn is_empty(&self) -> (r: bool)
        requires
            self.wf(),
        ensures
            r == (self.document().len() == 0),
    {
        self.len() == 0
    }

    /// How long the original was.
    pub fn original_len(&self) -> (r: u64)
        requires
            self.wf(),
        ensures
            r == self.original().len(),
    {
        self.original_len
    }

    /// Cut the runs so that one starts at `offset`, and say which.
    fn split_at(&mut self, offset: u64) -> (r: usize)
        requires
            old(self).wf(),
            offset <= total(old(self).runs()),
        ensures
            final(self).wf(),
            final(self).document() == old(self).document(),
            final(self).edited() == old(self).edited(),
            final(self).provenance() == old(self).provenance(),
            final(self).store() == old(self).store(),
            final(self).original() == old(self).original(),
            total(final(self).runs()) == total(old(self).runs()),
            r <= final(self).runs().len(),
            total(final(self).runs().take(r as int)) == offset,
    {
        let ghost o = self.original();
        let ghost a = self.store();
        let mut cursor: u64 = 0;
        let mut index: usize = 0;
        while index < self.pieces.len()
            invariant
                index <= self.runs().len(),
                self.runs() == old(self).runs(),
                self.source == old(self).source,
                self.added == old(self).added,
                self.original_len == old(self).original_len,
                cursor == total(self.runs().take(index as int)),
                cursor <= offset,
                offset <= total(self.runs()),
                old(self).wf(),
                o == old(self).original(),
                a == old(self).store(),
            decreases self.pieces.len() - index,
        {
            let piece = self.pieces[index];
            if cursor == offset {
                return index;
            }
            proof {
                assert(self.runs().take(index + 1).drop_last() =~= self.runs().take(index as int));
                lemma_split(self.runs(), index + 1, o, a);
                lemma_total_nonneg(self.runs().skip(index + 1));
            }
            let end = cursor + piece.len;
            if offset < end {
                let left = offset - cursor;
                let ghost ps = self.runs();
                let first = Piece { len: left, ..piece };
                let second = Piece { source: piece.source, start: piece.start + left, len: piece.len - left };
                proof {
                    assert(piece_ok(ps[index as int], o.len() as int, a.len() as int));
                    lemma_cut(piece, left, o, a);
                }
                self.pieces.set(index, first);
                self.pieces.insert(index + 1, second);
                proof {
                    let ns = self.runs();
                    assert(ns =~= ps.take(index as int) + seq![first, second] + ps.skip(index + 1));
                    assert(ps =~= ps.take(index as int) + seq![piece] + ps.skip(index + 1));
                    lemma_concat(ps.take(index as int) + seq![first, second], ps.skip(index + 1), o, a);
                    lemma_concat(ps.take(index as int), seq![first, second], o, a);
                    lemma_concat(ps.take(index as int) + seq![piece], ps.skip(index + 1), o, a);
                    lemma_concat(ps.take(index as int), seq![piece], o, a);
                    lemma_concat(seq![first], seq![second], o, a);
                    assert(seq![first] + seq![second] =~= seq![first, second]);
                    assert(seq![piece].drop_last() =~= Seq::<Piece>::empty());
                    assert(seq![first].drop_last() =~= Seq::<Piece>::empty());
                    assert(seq![second].drop_last() =~= Seq::<Piece>::empty());
                    assert(doc(Seq::<Piece>::empty(), o, a) =~= Seq::<u8>::empty());
                    assert(marks(Seq::<Piece>::empty()) =~= Seq::<bool>::empty());
                    assert(doc(seq![piece], o, a) =~= piece_bytes(piece, o, a));
                    assert(doc(seq![first], o, a) =~= piece_bytes(first, o, a));
                    assert(doc(seq![second], o, a) =~= piece_bytes(second, o, a));
                    assert(marks(seq![piece]) =~= Seq::new(piece.len as nat, |i: int| piece.source == Source::Added));
                    assert(marks(seq![first]) =~= Seq::new(first.len as nat, |i: int| first.source == Source::Added));
                    assert(marks(seq![second]) =~= Seq::new(second.len as nat, |i: int| second.source == Source::Added));
                    assert(origins(Seq::<Piece>::empty()) =~= Seq::<(Source, int)>::empty());
                    assert(origins(seq![piece]) =~= spans(piece));
                    assert(origins(seq![first]) =~= spans(first));
                    assert(origins(seq![second]) =~= spans(second));
                    assert(total(Seq::<Piece>::empty()) == 0);
                    assert(total(seq![piece]) == piece.len);
                    assert(total(seq![first]) == first.len);
                    assert(total(seq![second]) == second.len);
                    assert(ns.take(index + 1) =~= ps.take(index as int) + seq![first]);
                    lemma_concat(ps.take(index as int), seq![first], o, a);
                    assert forall|k: int| 0 <= k < ns.len() implies piece_ok(#[trigger] ns[k], o.len() as int, a.len() as int) by {
                        if k < index {
                            assert(ns[k] == ps[k]);
                        } else if k > index + 1 {
                            assert(ns[k] == ps[k - 1]);
                        }
                    }
                }
                return index + 1;
            }
            cursor = end;
            index += 1;
        }
        proof {
            assert(self.runs().take(index as int) =~= self.runs());
        }
        index
    }

    /// Take the bytes in `[from, to)` out of the runs, and hand back the
    /// runs that held them.
    #[verifier::spinoff_prover]
    #[verifier::rlimit(60)]
    fn cut(&mut self, from: u64, to: u64) -> (removed: Vec<Piece>)
        requires
            old(self).wf(),
            from <= to <= old(self).document().len(),
        ensures
            final(self).wf(),
            final(self).original() == old(self).original(),
            final(self).store() == old(self).store(),
            final(self).document() == old(self).document().take(from as int) + old(self).document().skip(to as int),
            final(self).edited() == old(self).edited().take(from as int) + old(self).edited().skip(to as int),
            doc(removed@, old(self).original(), old(self).store()) == old(self).document().subrange(from as int, to as int),
            marks(removed@) == old(self).edited().subrange(from as int, to as int),
            final(self).provenance() == old(self).provenance().take(from as int) + old(self).provenance().skip(to as int),
            origins(removed@) == old(self).provenance().subrange(from as int, to as int),
            all_ok(removed@, old(self).original().len() as int, old(self).store().len() as int),
    {
        let ghost o = self.original();
        let ghost a = self.store();
        let ghost ps = self.runs();
        let ghost d = self.document();
        let ghost m = self.edited();
        let ghost g = self.provenance();
        proof {
            lemma_lengths(ps, o, a);
        }
        let mut kept: Vec<Piece> = Vec::new();
        let mut removed: Vec<Piece> = Vec::new();
        let mut cursor: u64 = 0;
        let mut i: usize = 0;
        proof {
            assert(ps.take(0) =~= Seq::<Piece>::empty());
            assert(d.subrange(0, 0) + d.subrange(to as int, to as int) =~= Seq::<u8>::empty());
            assert(m.subrange(0, 0) + m.subrange(to as int, to as int) =~= Seq::<bool>::empty());
            assert(d.subrange(from as int, from as int) =~= Seq::<u8>::empty());
            assert(m.subrange(from as int, from as int) =~= Seq::<bool>::empty());
            assert(g.subrange(0, 0) + g.subrange(to as int, to as int) =~= Seq::<(Source, int)>::empty());
            assert(g.subrange(from as int, from as int) =~= Seq::<(Source, int)>::empty());
        }
        while i < self.pieces.len()
            invariant
                i <= ps.len(),
                self.runs() == ps,
                self.original() == o,
                self.store() == a,
                self.original_len == o.len(),
                all_ok(ps, o.len() as int, a.len() as int),
                total(ps) <= u64::MAX,
                a.len() <= u64::MAX,
                d == doc(ps, o, a),
                m == marks(ps),
                g == origins(ps),
                d.len() == total(ps),
                m.len() == total(ps),
                g.len() == total(ps),
                cursor == total(ps.take(i as int)),
                cursor <= total(ps),
                from <= to <= d.len(),
                doc(kept@, o, a) == d.subrange(0, min_int(cursor as int, from as int)) + d.subrange(to as int, if cursor > to { cursor as int } else { to as int }),
                marks(kept@) == m.subrange(0, min_int(cursor as int, from as int)) + m.subrange(to as int, if cursor > to { cursor as int } else { to as int }),
                doc(removed@, o, a) == d.subrange(from as int, if cursor < from { from as int } else { min_int(cursor as int, to as int) }),
                marks(removed@) == m.subrange(from as int, if cursor < from { from as int } else { min_int(cursor as int, to as int) }),
                origins(kept@) == g.subrange(0, min_int(cursor as int, from as int)) + g.subrange(to as int, if cursor > to { cursor as int } else { to as int }),
                origins(removed@) == g.subrange(from as int, if cursor < from { from as int } else { min_int(cursor as int, to as int) }),
                all_ok(kept@, o.len() as int, a.len() as int),
                all_ok(removed@, o.len() as int, a.len() as int),
                total(kept@) <= cursor,
            decreases self.pieces.len() - i,
        {
            let p = self.pieces[i];
            proof {
                lemma_window(ps, i as int, o, a);
                assert(p == ps[i as int]);
                assert(piece_ok(p, o.len() as int, a.len() as int));
            }
            let c = cursor;
            let c2 = cursor + p.len;
            let ghost w = piece_bytes(p, o, a);
            let ghost f = Seq::new(p.len as nat, |k: int| p.source == Source::Added);
            let ghost k0 = kept@;
            let ghost r0 = removed@;
            let ghost sp = spans(p);
            let ghost dl: Seq<u8> = Seq::empty();
            let ghost ml: Seq<bool> = Seq::empty();
            let ghost gl: Seq<(Source, int)> = Seq::empty();
            if c < from {
                let k = if c2 < from { p.len } else { from - c };
                let left = Piece { source: p.source, start: p.start, len: k };
                proof {
                    lemma_part(p, 0, k, o, a);
                    assert(left == Piece { start: (p.start + 0) as u64, len: k, ..p });
                    lemma_push(kept@, left, o, a);
                    assert(w.subrange(0, k as int) =~= d.subrange(c as int, c + k));
                    assert(f.subrange(0, k as int) =~= m.subrange(c as int, c + k));
                    assert(sp.subrange(0, k as int) =~= g.subrange(c as int, c + k));
                    dl = d.subrange(c as int, c + k);
                    ml = m.subrange(c as int, c + k);
                    gl = g.subrange(c as int, c + k);
                }
                kept.push(left);
            }
            let ghost k1 = kept@;
            let lo = if c > from { c } else { from };
            let hi = if c2 < to { c2 } else { to };
            let ghost dm: Seq<u8> = Seq::empty();
            let ghost mm: Seq<bool> = Seq::empty();
            let ghost gm: Seq<(Source, int)> = Seq::empty();
            if lo < hi {
                let mid = Piece { source: p.source, start: p.start + (lo - c), len: hi - lo };
                proof {
                    lemma_part(p, (lo - c) as u64, (hi - lo) as u64, o, a);
                    lemma_push(removed@, mid, o, a);
                    assert(w.subrange(lo - c, hi - c) =~= d.subrange(lo as int, hi as int));
                    assert(f.subrange(lo - c, hi - c) =~= m.subrange(lo as int, hi as int));
                    assert(sp.subrange(lo - c, hi - c) =~= g.subrange(lo as int, hi as int));
                    dm = d.subrange(lo as int, hi as int);
                    mm = m.subrange(lo as int, hi as int);
                    gm = g.subrange(lo as int, hi as int);
                }
                removed.push(mid);
            }
            let ghost dr: Seq<u8> = Seq::empty();
            let ghost mr: Seq<bool> = Seq::empty();
            let ghost gr: Seq<(Source, int)> = Seq::empty();
            if c2 > to {
                let s0 = if c > to { c } else { to };
                let right = Piece { source: p.source, start: p.start + (s0 - c), len: c2 - s0 };
                proof {
                    lemma_part(p, (s0 - c) as u64, (c2 - s0) as u64, o, a);
                    lemma_push(kept@, right, o, a);
                    assert(w.subrange(s0 - c, c2 - c) =~= d.subrange(s0 as int, c2 as int));
                    assert(f.subrange(s0 - c, c2 - c) =~= m.subrange(s0 as int, c2 as int));
                    assert(sp.subrange(s0 - c, c2 - c) =~= g.subrange(s0 as int, c2 as int));
                    dr = d.subrange(s0 as int, c2 as int);
                    mr = m.subrange(s0 as int, c2 as int);
                    gr = g.subrange(s0 as int, c2 as int);
                }
                kept.push(right);
            }
            proof {
                lemma_cut_step(d, c as int, c2 as int, from as int, to as int, doc(k0, o, a), doc(r0, o, a));
                lemma_cut_step(m, c as int, c2 as int, from as int, to as int, marks(k0), marks(r0));
                lemma_cut_step(g, c as int, c2 as int, from as int, to as int, origins(k0), origins(r0));
                assert(origins(kept@) == origins(k0) + gl + gr);
                assert(origins(removed@) == origins(r0) + gm);
                assert(doc(kept@, o, a) == doc(k0, o, a) + dl + dr);
                assert(marks(kept@) == marks(k0) + ml + mr);
                assert(doc(removed@, o, a) == doc(r0, o, a) + dm);
                assert(marks(removed@) == marks(r0) + mm);
                assert forall|j: int| 0 <= j < kept@.len() implies piece_ok(#[trigger] kept@[j], o.len() as int, a.len() as int) by {
                    if j < k0.len() {
                        assert(kept@[j] == k0[j]);
                    } else if j < k1.len() {
                        assert(kept@[j] == k1[j]);
                    }
                }
                assert forall|j: int| 0 <= j < removed@.len() implies piece_ok(#[trigger] removed@[j], o.len() as int, a.len() as int) by {
                    if j < r0.len() {
                        assert(removed@[j] == r0[j]);
                    }
                }
            }
            cursor = c2;
            i += 1;
        }
        proof {
            assert(ps.take(i as int) =~= ps);
            assert(d.subrange(0, from as int) =~= d.take(from as int));
            assert(d.subrange(to as int, d.len() as int) =~= d.skip(to as int));
            assert(m.subrange(0, from as int) =~= m.take(from as int));
            assert(m.subrange(to as int, m.len() as int) =~= m.skip(to as int));
            assert(g.subrange(0, from as int) =~= g.take(from as int));
            assert(g.subrange(to as int, g.len() as int) =~= g.skip(to as int));
            lemma_lengths(kept@, o, a);
        }
        self.pieces = kept;
        removed
    }


    /// Merge runs that follow each other in one source, so that an edit
    /// undone leaves the table as short as before.
    fn coalesce(&mut self)
        requires
            old(self).wf(),
        ensures
            final(self).wf(),
            final(self).original() == old(self).original(),
            final(self).store() == old(self).store(),
            final(self).document() == old(self).document(),
            final(self).edited() == old(self).edited(),
            final(self).provenance() == old(self).provenance(),
            separated(final(self).runs()),
            final(self).runs().len() <= old(self).runs().len(),
    {
        let ghost o = self.original();
        let ghost a = self.store();
        let ghost ps = self.runs();
        let mut merged: Vec<Piece> = Vec::new();
        let mut i: usize = 0;
        proof {
            assert(ps.take(0) =~= Seq::<Piece>::empty());
        }
        while i < self.pieces.len()
            invariant
                i <= ps.len(),
                self.runs() == ps,
                self.original() == o,
                self.store() == a,
                self.original_len == o.len(),
                all_ok(ps, o.len() as int, a.len() as int),
                total(ps) <= u64::MAX,
                a.len() <= u64::MAX,
                o.len() <= u64::MAX,
                doc(merged@, o, a) == doc(ps.take(i as int), o, a),
                marks(merged@) == marks(ps.take(i as int)),
                origins(merged@) == origins(ps.take(i as int)),
                total(merged@) == total(ps.take(i as int)),
                all_ok(merged@, o.len() as int, a.len() as int),
                separated(merged@),
                merged@.len() <= i,
            decreases self.pieces.len() - i,
        {
            let piece = self.pieces[i];
            let ghost before = merged@;
            proof {
                assert(ps.take(i + 1) =~= ps.take(i as int).push(piece));
                lemma_push(ps.take(i as int), piece, o, a);
                lemma_split(ps, i + 1, o, a);
                lemma_total_nonneg(ps.skip(i + 1));
                assert(piece_ok(ps[i as int], o.len() as int, a.len() as int));
            }
            let n = merged.len();
            if n > 0 && merged[n - 1].source == piece.source && merged[n - 1].start + merged[n - 1].len == piece.start {
                let last = merged[n - 1];
                proof {
                    assert(before =~= before.drop_last().push(last));
                    lemma_push(before.drop_last(), last, o, a);
                    lemma_total_nonneg(before.drop_last());
                    assert(piece_ok(before[n - 1], o.len() as int, a.len() as int));
                    lemma_join(last, piece, o, a);
                }
                let joined = Piece { source: last.source, start: last.start, len: last.len + piece.len };
                merged.set(n - 1, joined);
                proof {
                    assert(merged@ =~= before.drop_last().push(joined));
                    lemma_push(before.drop_last(), joined, o, a);
                    assert(joined == Piece { len: (last.len + piece.len) as u64, ..last });
                    assert forall|j: int| 0 <= j < merged@.len() implies piece_ok(#[trigger] merged@[j], o.len() as int, a.len() as int) by {
                        if j < n - 1 {
                            assert(merged@[j] == before[j]);
                        }
                    }
                    assert forall|j: int| 0 <= j && j + 1 < merged@.len() implies !continues(#[trigger] merged@[j], merged@[j + 1]) by {
                        assert(merged@[j] == before[j]);
                        if j + 1 < n - 1 {
                            assert(merged@[j + 1] == before[j + 1]);
                        } else {
                            assert(!continues(before[j], before[j + 1]));
                        }
                    }
                }
            } else {
                merged.push(piece);
                proof {
                    lemma_push(before, piece, o, a);
                    assert forall|j: int| 0 <= j < merged@.len() implies piece_ok(#[trigger] merged@[j], o.len() as int, a.len() as int) by {
                        if j < n {
                            assert(merged@[j] == before[j]);
                        }
                    }
                    assert forall|j: int| 0 <= j && j + 1 < merged@.len() implies !continues(#[trigger] merged@[j], merged@[j + 1]) by {
                        assert(merged@[j] == before[j]);
                        if j + 1 < n {
                            assert(merged@[j + 1] == before[j + 1]);
                        }
                    }
                }
            }
            i += 1;
        }
        proof {
            assert(ps.take(i as int) =~= ps);
        }
        self.pieces = merged;
    }

    /// Insert `bytes` at `offset`, or at the end when `offset` is past it.
    /// The inserted bytes are marked as added; those after them only move.
    pub fn insert(&mut self, offset: u64, bytes: &[u8])
        requires
            old(self).wf(),
            old(self).document().len() + bytes@.len() <= u64::MAX,
        ensures
            final(self).wf(),
            final(self).original() == old(self).original(),
            final(self).store() == old(self).store() + bytes@,
            ({
                let at = min_int(offset as int, old(self).document().len() as int);
                &&& final(self).document() == old(self).document().take(at) + bytes@ + old(self).document().skip(at)
                &&& final(self).edited() == old(self).edited().take(at) + Seq::new(bytes@.len(), |i: int| true)
                    + old(self).edited().skip(at)
                &&& final(self).provenance() == old(self).provenance().take(at)
                    + added_run(old(self).store().len() as int, bytes@.len() as int) + old(self).provenance().skip(at)
            }),
    {
        let ghost o = self.original();
        let ghost a = self.store();
        let ghost d = self.document();
        let ghost m = self.edited();
        let ghost g = self.provenance();
        let len = self.len();
        let at = if offset < len { offset } else { len };
        proof {
            lemma_lengths(self.runs(), o, a);
        }
        if bytes.len() == 0 {
            proof {
                assert(Seq::new(bytes@.len(), |i: int| true) =~= Seq::<bool>::empty());
                assert(a + bytes@ =~= a);
                assert(d.take(at as int) + bytes@ + d.skip(at as int) =~= d);
                assert(m.take(at as int) + Seq::new(bytes@.len(), |i: int| true) + m.skip(at as int) =~= m);
                assert(g.take(at as int) + added_run(a.len() as int, 0) + g.skip(at as int) =~= g);
            }
            return;
        }
        proof {
            lemma_lengths(self.runs(), o, a);
        }
        let index = self.split_at(at);
        let ghost ps0 = self.runs();
        let start = self.added.len() as u64;
        let mut k: usize = 0;
        while k < bytes.len()
            invariant
                k <= bytes@.len(),
                self.added@ == a + bytes@.take(k as int),
                start == a.len(),
                self.runs() == ps0,
                self.original() == o,
                self.source_readable(),
                self.original_len == o.len(),
            decreases bytes.len() - k,
        {
            self.added.push(bytes[k]);
            proof {
                assert(a + bytes@.take(k + 1) =~= (a + bytes@.take(k as int)).push(bytes@[k as int]));
            }
            k += 1;
        }
        proof {
            assert(bytes@.take(bytes@.len() as int) =~= bytes@);
            assert(self.added.len() == self.added@.len());
        }
        let ghost ps = self.runs();
        let piece = Piece { source: Source::Added, start, len: bytes.len() as u64 };
        proof {
            lemma_store_grows(ps, o, a, bytes@);
            lemma_split(ps, index as int, o, a + bytes@);
            lemma_lengths(ps.take(index as int), o, a + bytes@);
            assert(piece_bytes(piece, o, a + bytes@) =~= bytes@);
        }
        self.pieces.insert(index, piece);
        proof {
            lemma_insert_piece(ps, index as int, piece, o, a + bytes@);
            let x = doc(ps.take(index as int), o, a + bytes@);
            let y = doc(ps.skip(index as int), o, a + bytes@);
            assert(d == x + y);
            assert(x =~= d.take(at as int));
            assert(y =~= d.skip(at as int));
            let mx = marks(ps.take(index as int));
            let my = marks(ps.skip(index as int));
            assert(m == mx + my);
            assert(mx =~= m.take(at as int));
            assert(my =~= m.skip(at as int));
            assert(Seq::new(piece.len as nat, |j: int| piece.source == Source::Added) =~= Seq::new(bytes@.len(), |i: int| true));
            let gx = origins(ps.take(index as int));
            let gy = origins(ps.skip(index as int));
            assert(g == gx + gy);
            assert(gx =~= g.take(at as int));
            assert(gy =~= g.skip(at as int));
            assert(spans(piece) =~= added_run(a.len() as int, bytes@.len() as int));
            assert forall|j: int| 0 <= j < self.runs().len() implies piece_ok(#[trigger] self.runs()[j], o.len() as int, (a + bytes@).len() as int) by {
                if j < index {
                    assert(self.runs()[j] == ps[j]);
                } else if j > index {
                    assert(self.runs()[j] == ps[j - 1]);
                }
            }
        }
        self.coalesce();
    }

    /// Take `len` bytes out at `offset`, or as many as there are; nothing
    /// happens for none, or at or past the end.
    pub fn delete(&mut self, offset: u64, len: u64)
        requires
            old(self).wf(),
        ensures
            final(self).wf(),
            final(self).original() == old(self).original(),
            final(self).store() == old(self).store(),
            ({
                let n = old(self).document().len();
                if len == 0 || offset >= n {
                    &&& final(self).document() == old(self).document()
                    &&& final(self).edited() == old(self).edited()
                    &&& final(self).provenance() == old(self).provenance()
                } else {
                    let end = offset + min_int(len as int, n - offset);
                    &&& final(self).document() == old(self).document().take(offset as int) + old(self).document().skip(end)
                    &&& final(self).edited() == old(self).edited().take(offset as int) + old(self).edited().skip(end)
                    &&& final(self).provenance() == old(self).provenance().take(offset as int) + old(self).provenance().skip(end)
                }
            }),
    {
        let _ = self.take(offset, len);
    }

    /// Take `len` bytes out at `offset`, as [`Buffer::delete`] does, and
    /// hand back what was taken so it can be put back.
    pub fn take(&mut self, offset: u64, len: u64) -> (r: Removed)
        requires
            old(self).wf(),
        ensures
            final(self).wf(),
            final(self).original() == old(self).original(),
            final(self).store() == old(self).store(),
            final(self).holds(&r),
            ({
                let n = old(self).document().len();
                if len == 0 || offset >= n {
                    &&& final(self).document() == old(self).document()
                    &&& final(self).edited() == old(self).edited()
                    &&& final(self).provenance() == old(self).provenance()
                    &&& r.runs().len() == 0
                } else {
                    let end = offset + min_int(len as int, n - offset);
                    &&& final(self).document() == old(self).document().take(offset as int) + old(self).document().skip(end)
                    &&& final(self).edited() == old(self).edited().take(offset as int) + old(self).edited().skip(end)
                    &&& final(self).provenance() == old(self).provenance().take(offset as int) + old(self).provenance().skip(end)
                    &&& final(self).removed_bytes(&r) == old(self).document().subrange(offset as int, end)
                    &&& marks(r.runs()) == old(self).edited().subrange(offset as int, end)
                    &&& origins(r.runs()) == old(self).provenance().subrange(offset as int, end)
                }
            }),
    {
        let n = self.len();
        if len == 0 || offset >= n {
            return Removed { pieces: Vec::new() };
        }
        let len = if len < n - offset { len } else { n - offset };
        let removed = self.cut(offset, offset + len);
        self.coalesce();
        Removed { pieces: removed }
    }

    /// Put back what [`Buffer::take`] took, at `offset` or at the end when
    /// `offset` is past it.
    pub fn put(&mut self, offset: u64, removed: &Removed)
        requires
            old(self).wf(),
            old(self).holds(removed),
            old(self).document().len() + total(removed.runs()) <= u64::MAX,
        ensures
            final(self).wf(),
            final(self).original() == old(self).original(),
            final(self).store() == old(self).store(),
            ({
                let at = min_int(offset as int, old(self).document().len() as int);
                &&& final(self).document() == old(self).document().take(at) + old(self).removed_bytes(removed)
                    + old(self).document().skip(at)
                &&& final(self).edited() == old(self).edited().take(at) + marks(removed.runs()) + old(self).edited().skip(at)
                &&& final(self).provenance() == old(self).provenance().take(at) + origins(removed.runs())
                    + old(self).provenance().skip(at)
            }),
    {
        let ghost o = self.original();
        let ghost a = self.store();
        let ghost d = self.document();
        let ghost m = self.edited();
        let ghost g = self.provenance();
        let ghost rv = removed.runs();
        let len = self.len();
        let at = if offset < len { offset } else { len };
        proof {
            lemma_lengths(self.runs(), o, a);
        }
        let index = self.split_at(at);
        let ghost ps = self.runs();
        proof {
            lemma_split(ps, index as int, o, a);
            lemma_lengths(ps.take(index as int), o, a);
        }
        let mut k: usize = 0;
        while k < removed.pieces.len()
            invariant
                k <= rv.len(),
                rv == removed.runs(),
                index <= ps.len(),
                self.runs().len() == ps.len() + k,
                self.original_len == o.len(),
                self.runs() == ps.take(index as int) + rv.take(k as int) + ps.skip(index as int),
                self.original() == o,
                self.source_readable(),
                self.store() == a,
            decreases removed.pieces.len() - k,
        {
            let piece = removed.pieces[k];
            let current = self.pieces.len();
            proof {
                assert(index + k <= current);
            }
            self.pieces.insert(index + k, piece);
            proof {
                assert(ps.take(index as int) + rv.take(k + 1) + ps.skip(index as int) =~= (ps.take(index as int) + rv.take(k as int) + ps.skip(index as int)).insert(index + k, rv[k as int]));
            }
            k += 1;
        }
        proof {
            assert(rv.take(rv.len() as int) =~= rv);
            let ns = self.runs();
            lemma_concat(ps.take(index as int) + rv, ps.skip(index as int), o, a);
            lemma_concat(ps.take(index as int), rv, o, a);
            assert(doc(ps.take(index as int), o, a) =~= d.take(at as int));
            assert(doc(ps.skip(index as int), o, a) =~= d.skip(at as int));
            assert(marks(ps.take(index as int)) =~= m.take(at as int));
            assert(marks(ps.skip(index as int)) =~= m.skip(at as int));
            assert(origins(ps.take(index as int)) =~= g.take(at as int));
            assert(origins(ps.skip(index as int)) =~= g.skip(at as int));
            lemma_total_nonneg(rv);
            assert forall|j: int| 0 <= j < ns.len() implies piece_ok(#[trigger] ns[j], o.len() as int, a.len() as int) by {
                if j < index {
                    assert(ns[j] == ps[j]);
                } else if j < index + rv.len() {
                    assert(ns[j] == rv[j - index]);
                } else {
                    assert(ns[j] == ps[j - rv.len()]);
                }
            }
        }
        self.coalesce();
    }

    /// Write `bytes` over what is at `offset`, extending the document where
    /// they run past its end.
    pub fn overwrite(&mut self, offset: u64, bytes: &[u8])
        requires
            old(self).wf(),
            old(self).document().len() + bytes@.len() <= u64::MAX,
        ensures
            final(self).wf(),
            final(self).original() == old(self).original(),
            bytes@.len() > 0 ==> final(self).store() == old(self).store() + bytes@,
            ({
                let n = old(self).document().len() as int;
                let at = min_int(offset as int, n);
                let end = at + min_int(n - at, bytes@.len() as int);
                bytes@.len() > 0 ==> {
                    &&& final(self).document() == old(self).document().take(at) + bytes@ + old(self).document().skip(end)
                    &&& final(self).edited() == old(self).edited().take(at) + Seq::new(bytes@.len(), |i: int| true)
                        + old(self).edited().skip(end)
                    &&& final(self).provenance() == old(self).provenance().take(at)
                        + added_run(old(self).store().len() as int, bytes@.len() as int) + old(self).provenance().skip(end)
                }
            }),
            bytes@.len() == 0 ==> {
                &&& final(self).document() == old(self).document()
                &&& final(self).edited() == old(self).edited()
                &&& final(self).provenance() == old(self).provenance()
                &&& final(self).store() == old(self).store()
            },
    {
        if bytes.len() == 0 {
            return;
        }
        let ghost d = self.document();
        let ghost m = self.edited();
        let ghost g = self.provenance();
        proof {
            lemma_lengths(self.runs(), self.original(), self.store());
        }
        let n = self.len();
        let at = if offset < n { offset } else { n };
        let room = n - at;
        let overlap = if room < bytes.len() as u64 { room } else { bytes.len() as u64 };
        self.delete(at, overlap);
        let ghost d1 = self.document();
        let ghost m1 = self.edited();
        let ghost g1 = self.provenance();
        proof {
            lemma_lengths(self.runs(), self.original(), self.store());
            if overlap > 0 {
                assert(d1.len() == at + (n - at - overlap));
            } else {
                assert(d1 == d);
            }
        }
        self.insert(at, bytes);
        proof {
            if overlap > 0 {
                assert(d1.take(at as int) =~= d.take(at as int));
                assert(d1.skip(at as int) =~= d.skip(at + overlap));
                assert(m1.take(at as int) =~= m.take(at as int));
                assert(m1.skip(at as int) =~= m.skip(at + overlap));
                assert(g1.take(at as int) =~= g.take(at as int));
                assert(g1.skip(at as int) =~= g.skip(at + overlap));
            } else {
                assert(d.skip(at as int) =~= d.skip(at + overlap));
                assert(m.skip(at as int) =~= m.skip(at + overlap));
                assert(g.skip(at as int) =~= g.skip(at + overlap));
            }
        }
    }

    /// Read `len` bytes at `offset`, each with whether it was added in this
    /// session; short at the end of the document rather than an error.
    /// Reading changes nothing. Only reading the original can fail, and
    /// then its error comes back.
    #[verifier::spinoff_prover]
    #[verifier::rlimit(50)]
    pub fn read(&mut self, offset: u64, len: usize) -> (r: Result<Vec<Byte>, Error>)
        requires
            old(self).wf(),
        ensures
            final(self).wf(),
            final(self).original() == old(self).original(),
            final(self).store() == old(self).store(),
            final(self).document() == old(self).document(),
            final(self).edited() == old(self).edited(),
            final(self).provenance() == old(self).provenance(),
            final(self).source_infallible() == old(self).source_infallible(),
            len == 0 ==> r is Ok,
            old(self).source_infallible() ==> r is Ok,
            r matches Ok(v) ==> {
                let n = old(self).document().len() as int;
                let lo = min_int(offset as int, n);
                let hi = min_int(offset + len, n);
                &&& values(v@) == old(self).document().subrange(lo, hi)
                &&& flags(v@) == old(self).edited().subrange(lo, hi)
            },
    {
        let ghost o = self.original();
        let ghost a = self.store();
        let ghost ps = self.runs();
        let ghost d = self.document();
        let ghost m = self.edited();
        let ghost n = d.len() as int;
        let ghost lo = min_int(offset as int, n);
        let ghost hi = min_int(offset + len, n);
        let ghost never_fails = self.source.infallible();
        proof {
            lemma_lengths(ps, o, a);
        }
        let mut out: Vec<Byte> = Vec::new();
        if len == 0 {
            proof {
                assert(values(out@) =~= d.subrange(lo, hi));
                assert(flags(out@) =~= m.subrange(lo, hi));
            }
            return Ok(out);
        }
        let mut want: u64 = len as u64;
        let mut cursor: u64 = 0;
        let mut i: usize = 0;
        proof {
            assert(ps.take(0) =~= Seq::<Piece>::empty());
            assert(values(out@) =~= d.subrange(lo, lo));
            assert(flags(out@) =~= m.subrange(lo, lo));
        }
        while i < self.pieces.len() && want > 0
            invariant
                i <= ps.len(),
                o == old(self).original(),
                a == old(self).store(),
                ps == old(self).runs(),
                d == old(self).document(),
                m == old(self).edited(),
                self.runs() == ps,
                self.store() == a,
                self.original() == o,
                self.original_len == o.len(),
                self.source.readable(),
                self.source.infallible() == never_fails,
                never_fails == old(self).source.infallible(),
                all_ok(ps, o.len() as int, a.len() as int),
                total(ps) <= u64::MAX,
                a.len() <= u64::MAX,
                d == doc(ps, o, a),
                m == marks(ps),
                d.len() == total(ps),
                m.len() == total(ps),
                n == d.len(),
                lo == min_int(offset as int, n),
                hi == min_int(offset + len, n),
                cursor == total(ps.take(i as int)),
                cursor <= total(ps),
                want == offset + len - clamp(cursor as int, offset as int, offset + len),
                values(out@) == d.subrange(lo, clamp(cursor as int, lo, hi)),
                flags(out@) == m.subrange(lo, clamp(cursor as int, lo, hi)),
            decreases self.pieces.len() - i,
        {
            let p = self.pieces[i];
            proof {
                lemma_window(ps, i as int, o, a);
                assert(p == ps[i as int]);
                assert(piece_ok(p, o.len() as int, a.len() as int));
            }
            let end = cursor + p.len;
            if end > offset {
                let skip = if offset > cursor { offset - cursor } else { 0 };
                let room = p.len - skip;
                let take = if room < want { room } else { want };
                let ghost before = out@;
                proof {
                    assert(clamp(cursor as int, lo, hi) == cursor + skip);
                    assert(clamp(cursor as int, offset as int, offset + len) == cursor + skip);
                    assert(take <= len);
                    lemma_part(p, skip, take, o, a);
                    assert(piece_bytes(p, o, a).subrange(skip as int, skip + take) =~= d.subrange(cursor + skip, cursor + skip + take));
                    assert(Seq::new(p.len as nat, |k: int| p.source == Source::Added).subrange(skip as int, skip + take)
                        =~= m.subrange(cursor + skip, cursor + skip + take));
                }
                match p.source {
                    Source::Original => {
                        let fetched = self.source.read_at(p.start + skip, take as usize);
                        match fetched {
                            Ok(v) => {
                                proof {
                                    assert(v@ =~= o.subrange(p.start + skip, p.start + skip + take));
                                }
                                append_bytes(&mut out, &v, 0, v.len(), false);
                                proof {
                                    assert(v@.subrange(0, v@.len() as int) =~= v@);
                                }
                            },
                            Err(e) => {
                                proof {
                                    assert(self.added@ == a);
                                    assert(self.source.content() == o);
                                }
                                return Err(e);
                            },
                        }
                    },
                    Source::Added => {
                        proof {
                            assert(self.added.len() == self.added@.len());
                        }
                        append_bytes(&mut out, &self.added, (p.start + skip) as usize, (p.start + skip + take) as usize, true);
                    },
                }
                proof {
                    assert(d.subrange(lo, cursor + skip) + d.subrange(cursor + skip, cursor + skip + take)
                        =~= d.subrange(lo, cursor + skip + take));
                    assert(m.subrange(lo, cursor + skip) + m.subrange(cursor + skip, cursor + skip + take)
                        =~= m.subrange(lo, cursor + skip + take));
                    assert(clamp(end as int, lo, hi) == cursor + skip + take);
                    assert(clamp(end as int, offset as int, offset + len) == cursor + skip + take);
                }
                want = want - take;
            }
            cursor = end;
            i += 1;
        }
        proof {
            if i == ps.len() {
                assert(ps.take(i as int) =~= ps);
            }
            assert(clamp(cursor as int, lo, hi) == hi);
        }
        Ok(out)
    }

    /// Read `len` bytes at `offset`, values only; as [`Buffer::read`].
    pub fn read_bytes(&mut self, offset: u64, len: usize) -> (r: Result<Vec<u8>, Error>)
        requires
            old(self).wf(),
        ensures
            final(self).wf(),
            final(self).original() == old(self).original(),
            final(self).store() == old(self).store(),
            final(self).document() == old(self).document(),
            final(self).edited() == old(self).edited(),
            final(self).provenance() == old(self).provenance(),
            final(self).source_infallible() == old(self).source_infallible(),
            len == 0 ==> r is Ok,
            old(self).source_infallible() ==> r is Ok,
            r matches Ok(v) ==> {
                let n = old(self).document().len() as int;
                v@ == old(self).document().subrange(min_int(offset as int, n), min_int(offset + len, n))
            },
    {
        match self.read(offset, len) {
            Ok(bytes) => {
                let mut out: Vec<u8> = Vec::new();
                let mut k: usize = 0;
                while k < bytes.len()
                    invariant
                        k <= bytes@.len(),
                        out@ == values(bytes@).take(k as int),
                    decreases bytes.len() - k,
                {
                    out.push(bytes[k].value);
                    proof {
                        assert(values(bytes@).take(k + 1) =~= values(bytes@).take(k as int).push(bytes@[k as int].value));
                    }
                    k += 1;
                }
                proof {
                    assert(values(bytes@).take(k as int) =~= values(bytes@));
                }
                Ok(out)
            },
            Err(e) => Err(e),
        }
    }

    /// Whether anything differs from the original: whether the document is
    /// anything but the original's bytes in order, each from the original.
    /// Asked of the runs rather than kept as a flag, so a document edited
    /// and undone back is not modified.
    pub fn is_modified(&self) -> (r: bool)
        requires
            self.wf(),
        ensures
            r == (self.provenance() != untouched(self.original().len() as int)),
            !r ==> self.document() == self.original() && self.edited() == Seq::new(self.original().len(), |i: int| false),
    {
        let ghost o = self.original();
        let ghost a = self.store();
        let ghost ps = self.runs();
        proof {
            lemma_lengths(ps, o, a);
            assert(ps.take(0) =~= Seq::<Piece>::empty());
            assert(origins(Seq::<Piece>::empty()) =~= untouched(0));
        }
        let mut expected: u64 = 0;
        let mut i: usize = 0;
        while i < self.pieces.len()
            invariant
                i <= ps.len(),
                self.runs() == ps,
                self.original() == o,
                self.store() == a,
                self.original_len == o.len(),
                all_ok(ps, o.len() as int, a.len() as int),
                total(ps) <= u64::MAX,
                origins(ps).len() == total(ps),
                expected == total(ps.take(i as int)),
                origins(ps.take(i as int)) == untouched(expected as int),
            decreases self.pieces.len() - i,
        {
            let p = self.pieces[i];
            proof {
                lemma_window(ps, i as int, o, a);
                lemma_piece_in_doc(ps, i as int, 0, o, a);
                assert(p == ps[i as int]);
            }
            if p.source != Source::Original || p.start != expected {
                proof {
                    if expected < o.len() {
                        assert(origins(ps)[expected as int] != untouched(o.len() as int)[expected as int]);
                    } else {
                        assert(origins(ps).len() != untouched(o.len() as int).len());
                    }
                }
                return true;
            }
            proof {
                assert(ps.take(i + 1) =~= ps.take(i as int).push(p));
                lemma_push(ps.take(i as int), p, o, a);
                assert(untouched(expected as int) + spans(p) =~= untouched(expected + p.len));
            }
            expected = expected + p.len;
            i += 1;
        }
        proof {
            assert(ps.take(i as int) =~= ps);
            if expected == self.original_len {
                lemma_untouched(ps, o, a);
            }
        }
        expected != self.original_len
    }

    /// The stretches of the document added in this session, as an offset
    /// and a length each, in order. Stretches that touch are one.
    pub fn modified_ranges(&self) -> (r: Vec<(u64, u64)>)
        requires
            self.wf(),
        ensures
            forall|i: int| 0 <= i < r@.len() ==> r@[i].1 > 0 && r@[i].0 + r@[i].1 <= self.document().len(),
            forall|i: int, j: int| 0 <= i < j < r@.len() ==> r@[i].0 + r@[i].1 < r@[j].0,
            forall|k: int| 0 <= k < self.document().len() ==> (self.edited()[k] <==> covered(r@, k)),
    {
        let ghost o = self.original();
        let ghost a = self.store();
        let ghost ps = self.runs();
        let ghost m = self.edited();
        proof {
            lemma_lengths(ps, o, a);
            assert(ps.take(0) =~= Seq::<Piece>::empty());
        }
        let mut out: Vec<(u64, u64)> = Vec::new();
        let mut cursor: u64 = 0;
        let mut i: usize = 0;
        while i < self.pieces.len()
            invariant
                i <= ps.len(),
                self.runs() == ps,
                self.original() == o,
                self.store() == a,
                all_ok(ps, o.len() as int, a.len() as int),
                total(ps) <= u64::MAX,
                m == marks(ps),
                m.len() == total(ps),
                cursor == total(ps.take(i as int)),
                cursor <= total(ps),
                forall|j: int| 0 <= j < out@.len() ==> out@[j].1 > 0 && out@[j].0 + out@[j].1 <= cursor,
                forall|j: int, l: int| 0 <= j < l < out@.len() ==> out@[j].0 + out@[j].1 < out@[l].0,
                forall|k: int| 0 <= k < cursor ==> (m[k] <==> covered(out@, k)),
            decreases self.pieces.len() - i,
        {
            let p = self.pieces[i];
            proof {
                lemma_window(ps, i as int, o, a);
                assert(p == ps[i as int]);
                assert(piece_ok(p, o.len() as int, a.len() as int));
            }
            let ghost before = out@;
            let end = cursor + p.len;
            if p.source == Source::Added {
                let count = out.len();
                if count > 0 && out[count - 1].0 + out[count - 1].1 == cursor {
                    let last = out[count - 1];
                    out.set(count - 1, (last.0, last.1 + p.len));
                    proof {
                        assert forall|k: int| 0 <= k < end implies (m[k] <==> covered(out@, k)) by {
                            if k < cursor {
                                if covered(before, k) {
                                    let w = choose|w: int| 0 <= w < before.len() && (#[trigger] before[w]).0 <= k < before[w].0 + before[w].1;
                                    assert(out@[w].0 <= k < out@[w].0 + out@[w].1);
                                }
                                if covered(out@, k) {
                                    let w = choose|w: int| 0 <= w < out@.len() && (#[trigger] out@[w]).0 <= k < out@[w].0 + out@[w].1;
                                    assert(before[w].0 <= k < before[w].0 + before[w].1);
                                }
                            } else {
                                assert(m.subrange(cursor as int, end as int)[k - cursor] == m[k]);
                                assert(out@[count - 1].0 <= k < out@[count - 1].0 + out@[count - 1].1);
                            }
                        }
                    }
                } else {
                    out.push((cursor, p.len));
                    proof {
                        assert forall|k: int| 0 <= k < end implies (m[k] <==> covered(out@, k)) by {
                            if k < cursor {
                                if covered(before, k) {
                                    let w = choose|w: int| 0 <= w < before.len() && (#[trigger] before[w]).0 <= k < before[w].0 + before[w].1;
                                    assert(out@[w].0 <= k < out@[w].0 + out@[w].1);
                                }
                                if covered(out@, k) {
                                    let w = choose|w: int| 0 <= w < out@.len() && (#[trigger] out@[w]).0 <= k < out@[w].0 + out@[w].1;
                                    assert(w < before.len());
                                    assert(before[w].0 <= k < before[w].0 + before[w].1);
                                }
                            } else {
                                assert(m.subrange(cursor as int, end as int)[k - cursor] == m[k]);
                                assert(out@[count as int].0 <= k < out@[count as int].0 + out@[count as int].1);
                            }
                        }
                    }
                }
            } else {
                proof {
                    assert forall|k: int| 0 <= k < end implies (m[k] <==> covered(out@, k)) by {
                        if k >= cursor {
                            assert(m.subrange(cursor as int, end as int)[k - cursor] == m[k]);
                            if covered(out@, k) {
                                let w = choose|w: int| 0 <= w < out@.len() && (#[trigger] out@[w]).0 <= k < out@[w].0 + out@[w].1;
                            }
                        }
                    }
                }
            }
            cursor = end;
            i += 1;
        }
        proof {
            assert(ps.take(i as int) =~= ps);
        }
        out
    }
}

/// A search runs over a buffer's document, edits and all.
impl<B: Bytes> Bytes for Buffer<B> {
    open spec fn content(&self) -> Seq<u8> {
        self.document()
    }

    open spec fn readable(&self) -> bool {
        self.wf()
    }

    open spec fn infallible(&self) -> bool {
        self.source_infallible()
    }

    fn len(&self) -> (r: u64) {
        Buffer::len(self)
    }

    fn read_at(&mut self, offset: u64, len: usize) -> (r: Result<Vec<u8>, Error>) {
        self.read_bytes(offset, len)
    }
}

} // verus!