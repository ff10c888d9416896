//! One store open for editing: where the cursor is, what is selected, what
//! is bookmarked, and which typing mode is on.
//!
//! The rules about that state live here: a selection that follows the
//! cursor, a cursor that cannot end up past the end of a document that just
//! got shorter, a half-typed byte that waits for its second digit.

use vstd::prelude::*;

use crate::error::Error;
use crate::hexedit::buffer::{covered, untouched, Buffer};
use crate::hexedit::find::{min_int, Bytes};
use crate::hexedit::history::History;
use crate::text::{digit_value, to_digit};

verus! {

/// What typing does.
#[derive(Debug, Clone, Copy, PartialEq, Eq, Structural)]
pub enum Mode {
    /// Typing changes nothing.
    ReadOnly,
    /// A typed byte replaces the one under the cursor; the length stays.
    Overwrite,
    /// A typed byte is pushed in and everything after it moves along.
    Insert,
}

impl Default for Mode {
    /// Read-only, so a stray keystroke cannot change anything.
    fn default() -> (r: Self)
        ensures
            r == Mode::ReadOnly,
    {
        Mode::ReadOnly
    }
}

/// The catalogue key of a mode's indicator.
pub open spec fn mode_label(m: Mode) -> Seq<char> {
    match m {
        Mode::ReadOnly => "hex.mode.readonly"@,
        Mode::Overwrite => "hex.mode.overwrite"@,
        Mode::Insert => "hex.mode.insert"@,
    }
}

impl Mode {
    /// The catalogue key of the mode indicator.
    pub fn label_key(self) -> (r: &'static str)
        ensures
            r@ == mode_label(self),
    {
        match self {
            Mode::ReadOnly => "hex.mode.readonly",
            Mode::Overwrite => "hex.mode.overwrite",
            Mode::Insert => "hex.mode.insert",
        }
    }

    /// Whether typing changes the document in this mode.
    pub fn edits(self) -> (r: bool)
        ensures
            r == (self != Mode::ReadOnly),
    {
        !matches!(self, Mode::ReadOnly)
    }
}

/// Which of the two columns the cursor is in.
#[derive(Debug, Clone, Copy, PartialEq, Eq, Structural)]
pub enum Column {
    /// The hex digits: two keystrokes make a byte.
    Hex,
    /// The text: one keystroke makes a byte.
    Text,
}

impl Default for Column {
    /// The hex digits.
    fn default() -> (r: Self)
        ensures
            r == Column::Hex,
    {
        Column::Hex
    }
}

/// A range of bytes, held as the two ends the user moved, so it can be
/// dragged backwards.
#[derive(Debug, Clone, Copy, PartialEq, Eq, Structural)]
pub struct Selection {
    /// Where the selection was started.
    pub anchor: u64,
    /// Where it is being dragged to; may be before the anchor.
    pub cursor: u64,
}

impl Selection {
    /// The first byte in the range.
    pub open spec fn first(self) -> u64 {
        if self.anchor < self.cursor {
            self.anchor
        } else {
            self.cursor
        }
    }

    /// One past the last byte.
    pub open spec fn last(self) -> u64 {
        if self.anchor < self.cursor {
            self.cursor
        } else {
            self.anchor
        }
    }

    /// The first byte in the range.
    pub fn start(self) -> (r: u64)
        ensures
            r == self.first(),
    {
        if self.anchor < self.cursor {
            self.anchor
        } else {
            self.cursor
        }
    }

    /// One past the last byte.
    pub fn end(self) -> (r: u64)
        ensures
            r == self.last(),
    {
        if self.anchor < self.cursor {
            self.cursor
        } else {
            self.anchor
        }
    }

    /// How many bytes are in it.
    pub fn len(self) -> (r: u64)
        ensures
            r == self.last() - self.first(),
    {
        self.end() - self.start()
    }

    /// Whether it covers nothing.
    pub fn is_empty(self) -> (r: bool)
        ensures
            r == (self.anchor == self.cursor),
    {
        self.len() == 0
    }
}

/// A remembered offset.
#[derive(Debug, Clone, PartialEq, Eq)]
pub struct Bookmark {
    /// The offset remembered.
    pub offset: u64,
    /// What it was called.
    pub label: String,
}

/// How many bytes a run of ranges covers, each an offset and a length.
pub open spec fn range_total(ranges: Seq<(u64, u64)>) -> int
    decreases ranges.len(),
{
    if ranges.len() == 0 {
        0
    } else {
        range_total(ranges.drop_last()) + ranges.last().1
    }
}

/// Ranges in order, apart, and all ending by `bound` cover no more than
/// `bound` bytes.
pub proof fn lemma_range_total(ranges: Seq<(u64, u64)>, bound: int)
    requires
        bound >= 0,
        forall|i: int| 0 <= i < ranges.len() ==> ranges[i].0 + ranges[i].1 <= bound,
        forall|i: int, j: int| 0 <= i < j < ranges.len() ==> ranges[i].0 + ranges[i].1 < ranges[j].0,
    ensures
        range_total(ranges) <= bound,
    decreases ranges.len(),
{
    if ranges.len() > 0 {
        let rest = ranges.drop_last();
        let l = ranges.last();
        assert forall|i: int| 0 <= i < rest.len() implies rest[i].0 + rest[i].1 <= l.0 by {
            assert(rest[i] == ranges[i]);
            assert(ranges[i].0 + ranges[i].1 < ranges[ranges.len() - 1].0);
        }
        assert forall|i: int, j: int| 0 <= i < j < rest.len() implies rest[i].0 + rest[i].1 < rest[j].0 by {
            assert(rest[i] == ranges[i] && rest[j] == ranges[j]);
        }
        lemma_range_total(rest, l.0 as int);
        assert(ranges[ranges.len() - 1].0 + ranges[ranges.len() - 1].1 <= bound);
    }
}

/// What is about to be written.
#[derive(Debug, Clone, PartialEq, Eq)]
pub struct Summary {
    /// Where the changed bytes are, touching runs merged.
    pub ranges: Vec<(u64, u64)>,
    /// How many changes were made and not undone.
    pub edits: usize,
    /// How long the document was when it was opened.
    pub original_len: u64,
    /// How long it is now.
    pub new_len: u64,
}

impl Summary {
    /// How many bytes were changed.
    pub fn changed_bytes(&self) -> (r: u64)
        requires
            range_total(self.ranges@) <= u64::MAX,
        ensures
            r == range_total(self.ranges@),
    {
        let mut sum: u64 = 0;
        let mut i: usize = 0;
        while i < self.ranges.len()
            invariant
                i <= self.ranges@.len(),
                sum == range_total(self.ranges@.take(i as int)),
                range_total(self.ranges@) <= u64::MAX,
            decreases self.ranges.len() - i,
        {
            proof {
                assert(self.ranges@.take(i + 1).drop_last() =~= self.ranges@.take(i as int));
                lemma_range_total_prefix(self.ranges@, i + 1);
            }
            sum = sum + self.ranges[i].1;
            i += 1;
        }
        proof {
            assert(self.ranges@.take(i as int) =~= self.ranges@);
        }
        sum
    }

    /// Whether the length changed.
    pub fn resized(&self) -> (r: bool)
        ensures
            r == (self.original_len != self.new_len),
    {
        self.original_len != self.new_len
    }
}

/// The ranges of a prefix cover no more than all of them.
proof fn lemma_range_total_prefix(ranges: Seq<(u64, u64)>, k: int)
    requires
        0 <= k <= ranges.len(),
    ensures
        range_total(ranges.take(k)) <= range_total(ranges),
        range_total(ranges.take(k)) >= 0,
    decreases ranges.len(),
{
    if k < ranges.len() {
        assert(ranges.drop_last().take(k) =~= ranges.take(k));
        lemma_range_total_prefix(ranges.drop_last(), k);
    } else {
        assert(ranges.take(k) =~= ranges);
        lemma_range_total_nonneg(ranges);
    }
}

proof fn lemma_range_total_nonneg(ranges: Seq<(u64, u64)>)
    ensures
        range_total(ranges) >= 0,
    decreases ranges.len(),
{
    if ranges.len() > 0 {
        lemma_range_total_nonneg(ranges.drop_last());
    }
}

/// The selection a drag from `anchor` to `cursor` makes: none when nothing
/// is being dragged or nothing is covered.
pub open spec fn selection_of(anchor: Option<u64>, cursor: u64) -> Option<Selection> {
    match anchor {
        None => None,
        Some(a) => if a == cursor {
            None
        } else {
            Some(Selection { anchor: a, cursor })
        },
    }
}

/// `d` with up to `len` items at `from` taken out, as deleting does it.
pub open spec fn cut_out<A>(d: Seq<A>, from: int, len: int) -> Seq<A> {
    if len == 0 || from >= d.len() {
        d
    } else {
        d.take(from) + d.skip(from + min_int(len, d.len() - from))
    }
}

/// `d` with `bytes` put in at `at`, over what is there when `over`, as
/// typing does it.
pub open spec fn typed<A>(d: Seq<A>, at: int, bytes: Seq<A>, over: bool) -> Seq<A> {
    if over {
        d.take(at) + bytes + d.skip(at + min_int(d.len() - at, bytes.len() as int))
    } else {
        d.take(at) + bytes + d.skip(at)
    }
}

/// Each bookmark held inside a document of `len` bytes.
pub open spec fn clamped(marks: Seq<Bookmark>, len: int) -> Seq<Bookmark> {
    marks.map_values(|b: Bookmark| Bookmark { offset: min_int(b.offset as int, len) as u64, label: b.label })
}

/// Whether bookmarks are in file order.
pub open spec fn in_order(marks: Seq<Bookmark>) -> bool {
    forall|i: int, j: int| 0 <= i < j < marks.len() ==> marks[i].offset <= marks[j].offset
}

/// How many bytes reading `len` asks for: all of them when that fits a
/// `usize`, else none.
pub open spec fn asked(len: u64) -> int {
    if len <= usize::MAX {
        len as int
    } else {
        0
    }
}

/// A store open for editing.
pub struct Session<B> {
    history: History<B>,
    cursor: u64,
    anchor: Option<u64>,
    column: Column,
    mode: Mode,
    pending_nibble: Option<u8>,
    bookmarks: Vec<Bookmark>,
}

impl<B: Bytes> Session<B> {
    /// Everything done to the document.
    pub closed spec fn changes(&self) -> History<B> {
        self.history
    }

    /// Where the cursor is.
    pub closed spec fn cursor_at(&self) -> u64 {
        self.cursor
    }

    /// Where a selection being dragged was started.
    pub closed spec fn anchor_at(&self) -> Option<u64> {
        self.anchor
    }

    /// Which column the cursor is in.
    pub closed spec fn column_now(&self) -> Column {
        self.column
    }

    /// What typing does.
    pub closed spec fn mode_now(&self) -> Mode {
        self.mode
    }

    /// Half a byte typed in the hex column, waiting for its second digit.
    pub closed spec fn nibble(&self) -> Option<u8> {
        self.pending_nibble
    }

    /// The bookmarks.
    pub closed spec fn bookmark_list(&self) -> Seq<Bookmark> {
        self.bookmarks@
    }

    /// The document as it is now.
    pub open spec fn document(&self) -> Seq<u8> {
        self.changes().current().document()
    }

    /// Which bytes of the document were added in this session.
    pub open spec fn edited(&self) -> Seq<bool> {
        self.changes().current().edited()
    }

    /// The history is whole, the cursor is inside the document, the
    /// bookmarks are in file order, and a waiting half byte is a digit.
    pub open spec fn wf(&self) -> bool {
        &&& self.changes().wf()
        &&& self.cursor_at() <= self.document().len()
        &&& in_order(self.bookmark_list())
        &&& (self.nibble() matches Some(h) ==> h < 16)
    }

    /// Whether the two sessions differ at most in the history.
    pub closed spec fn same_place(&self, other: &Self) -> bool {
        &&& self.cursor == other.cursor
        &&& self.anchor == other.anchor
        &&& self.column == other.column
        &&& self.mode == other.mode
        &&& self.pending_nibble == other.pending_nibble
        &&& self.bookmarks@ == other.bookmarks@
    }

    /// The document once a selection, if any, is taken out.
    pub open spec fn cleared_document(&self) -> Seq<u8> {
        match selection_of(self.anchor_at(), self.cursor_at()) {
            None => self.document(),
            Some(s) => cut_out(self.document(), s.first() as int, s.last() - s.first()),
        }
    }

    /// Which bytes are marked as added once a selection, if any, is taken
    /// out.
    pub open spec fn cleared_marks(&self) -> Seq<bool> {
        match selection_of(self.anchor_at(), self.cursor_at()) {
            None => self.edited(),
            Some(s) => cut_out(self.edited(), s.first() as int, s.last() - s.first()),
        }
    }

    /// Where the cursor is once a selection, if any, is taken out.
    pub open spec fn cleared_cursor(&self) -> u64 {
        match selection_of(self.anchor_at(), self.cursor_at()) {
            None => self.cursor_at(),
            Some(s) => s.first(),
        }
    }

    /// Whether taking the selection out changes the document.
    pub open spec fn clears(&self) -> bool {
        match selection_of(self.anchor_at(), self.cursor_at()) {
            None => false,
            Some(s) => s.first() < self.document().len(),
        }
    }

    /// The document once `bytes` are typed in an editing mode: a selection
    /// is taken out, then the bytes go in at the cursor.
    pub open spec fn written_document(&self, bytes: Seq<u8>) -> Seq<u8> {
        typed(self.cleared_document(), self.cleared_cursor() as int, bytes, self.mode_now() == Mode::Overwrite)
    }

    /// Which bytes are marked as added once `n` bytes are typed in an
    /// editing mode.
    pub open spec fn written_marks(&self, n: nat) -> Seq<bool> {
        typed(self.cleared_marks(), self.cleared_cursor() as int, Seq::new(n, |i: int| true), self.mode_now() == Mode::Overwrite)
    }

    /// Whether typing `bytes` into `old`, in an editing mode, made `new` of
    /// it.
    pub open spec fn typed_into(old: &Self, new: &Self, bytes: Seq<u8>) -> bool {
        &&& new.document() == old.written_document(bytes)
        &&& new.edited() == old.written_marks(bytes.len())
        &&& new.cursor_at() == old.cleared_cursor() + bytes.len()
        &&& new.anchor_at() == if selection_of(old.anchor_at(), old.cursor_at()) is Some { None } else { old.anchor_at() }
        &&& new.nibble() is None
        &&& new.bookmark_list() == clamped(old.bookmark_list(), new.document().len() as int)
        &&& new.column_now() == old.column_now()
        &&& new.mode_now() == old.mode_now()
        &&& new.changes().current().original() == old.changes().current().original()
        &&& new.changes().past().len() == old.changes().past().len() + (if old.clears() { 1int } else { 0int }) + 1
    }

    /// Open a store for editing: read-only, cursor at the start, in the hex
    /// column, nothing selected, nothing bookmarked.
    pub fn open(source: B) -> (r: Self)
        requires
            source.readable(),
        ensures
            r.wf(),
            r.document() == source.content(),
            r.changes().current().original() == source.content(),
            r.changes().current().provenance() == untouched(source.content().len() as int),
            r.changes().past().len() == 0,
            r.changes().future().len() == 0,
            r.changes().start() == untouched(source.content().len() as int),
            r.cursor_at() == 0,
            r.anchor_at() is None,
            r.column_now() == Column::Hex,
            r.mode_now() == Mode::ReadOnly,
            r.nibble() is None,
            r.bookmark_list().len() == 0,
            r.source_infallible() == source.infallible(),
    {
        Session {
            history: History::new(Buffer::new(source)),
            cursor: 0,
            anchor: None,
            column: Column::Hex,
            mode: Mode::ReadOnly,
            pending_nibble: None,
            bookmarks: Vec::new(),
        }
    }

    /// Whether every read of the file the session edits succeeds.
    pub closed spec fn source_infallible(&self) -> bool {
        self.changes().current().source_infallible()
    }

    /// The buffer, for reading rows. What is done through it is not
    /// recorded.
    pub fn buffer_mut(&mut self) -> (r: &mut Buffer<B>)
        ensures
            *r == old(self).changes().current(),
            final(self).changes().current() == *final(r),
            final(self).changes().same_record(&old(self).changes()),
            final(self).same_place(old(self)),
    {
        self.history.buffer_mut()
    }

    /// Reading through [`Session::buffer_mut`], which changes nothing the
    /// buffer is made of, keeps the session whole.
    pub proof fn lemma_reading_keeps(before: &Self, after: &Self)
        requires
            before.wf(),
            after.same_place(before),
            after.changes().same_record(&before.changes()),
            after.changes().current().wf(),
            after.changes().current().original() == before.changes().current().original(),
            after.changes().current().store() == before.changes().current().store(),
            after.changes().current().provenance() == before.changes().current().provenance(),
        ensures
            after.wf(),
            after.document() == before.document(),
    {
        History::lemma_reading_keeps(&before.changes(), &after.changes());
        crate::hexedit::buffer::lemma_views(after.changes().current().runs(), after.changes().current().original(), after.changes().current().store());
        crate::hexedit::buffer::lemma_views(before.changes().current().runs(), before.changes().current().original(), before.changes().current().store());
    }

    /// How long the document is.
    pub fn len(&self) -> (r: u64)
        requires
            self.wf(),
        ensures
            r == self.document().len(),
    {
        self.history.buffer().len()
    }

    /// Whether the document is empty.
    pub fn is_empty(&self) -> (r: bool)
        requires
            self.wf(),
        ensures
            r == (self.document().len() == 0),
    {
        self.len() == 0
    }

    /// Whether anything differs from the original.
    pub fn is_modified(&self) -> (r: bool)
        requires
            self.wf(),
        ensures
            r == (self.changes().current().provenance() != untouched(self.changes().current().original().len() as int)),
    {
        self.history.buffer().is_modified()
    }

    /// Where the cursor is.
    pub fn cursor(&self) -> (r: u64)
        ensures
            r == self.cursor_at(),
    {
        self.cursor
    }

    /// Which column it is in.
    pub fn column(&self) -> (r: Column)
        ensures
            r == self.column_now(),
    {
        self.column
    }

    /// What typing does.
    pub fn mode(&self) -> (r: Mode)
        ensures
            r == self.mode_now(),
    {
        self.mode
    }

    /// Whether half a byte is waiting for its second digit.
    pub fn has_pending_nibble(&self) -> (r: bool)
        ensures
            r == (self.nibble() is Some),
    {
        self.pending_nibble.is_some()
    }

    /// The selection, if anything is selected.
    pub fn selection(&self) -> (r: Option<Selection>)
        ensures
            r == selection_of(self.anchor_at(), self.cursor_at()),
    {
        match self.anchor {
            None => None,
            Some(anchor) => {
                let selection = Selection { anchor, cursor: self.cursor };
                if selection.is_empty() {
                    None
                } else {
                    Some(selection)
                }
            },
        }
    }

    /// Switch what typing does, dropping a half-typed byte.
    pub fn set_mode(&mut self, mode: Mode)
        requires
            old(self).wf(),
        ensures
            final(self).wf(),
            final(self).mode_now() == mode,
            final(self).nibble() is None,
            final(self).changes() == old(self).changes(),
            final(self).cursor_at() == old(self).cursor_at(),
            final(self).anchor_at() == old(self).anchor_at(),
            final(self).column_now() == old(self).column_now(),
            final(self).bookmark_list() == old(self).bookmark_list(),
    {
        self.mode = mode;
        self.pending_nibble = None;
    }

    /// Switch which column the cursor is in, dropping a half-typed byte.
    pub fn set_column(&mut self, column: Column)
        requires
            old(self).wf(),
        ensures
            final(self).wf(),
            final(self).column_now() == column,
            final(self).nibble() is None,
            final(self).changes() == old(self).changes(),
            final(self).cursor_at() == old(self).cursor_at(),
            final(self).anchor_at() == old(self).anchor_at(),
            final(self).mode_now() == old(self).mode_now(),
            final(self).bookmark_list() == old(self).bookmark_list(),
    {
        self.column = column;
        self.pending_nibble = None;
    }

    /// Move the cursor, held inside the document, dragging a selection with
    /// it when `extend` says so.
    pub fn move_to(&mut self, offset: u64, extend: bool)
        requires
            old(self).wf(),
        ensures
            final(self).wf(),
            final(self).cursor_at() == min_int(offset as int, old(self).document().len() as int),
            final(self).anchor_at() == if extend {
                match old(self).anchor_at() {
                    None => Some(old(self).cursor_at()),
                    Some(a) => Some(a),
                }
            } else {
                None
            },
            final(self).nibble() is None,
            final(self).changes() == old(self).changes(),
            final(self).column_now() == old(self).column_now(),
            final(self).mode_now() == old(self).mode_now(),
            final(self).bookmark_list() == old(self).bookmark_list(),
    {
        if extend {
            if self.anchor.is_none() {
                self.anchor = Some(self.cursor);
            }
        } else {
            self.anchor = None;
        }
        let len = self.len();
        self.cursor = if offset < len { offset } else { len };
        self.pending_nibble = None;
    }

    /// Select everything.
    pub fn select_all(&mut self)
        requires
            old(self).wf(),
        ensures
            final(self).wf(),
            final(self).anchor_at() == Some(0u64),
            final(self).cursor_at() == old(self).document().len(),
            final(self).nibble() is None,
            final(self).changes() == old(self).changes(),
            final(self).column_now() == old(self).column_now(),
            final(self).mode_now() == old(self).mode_now(),
            final(self).bookmark_list() == old(self).bookmark_list(),
    {
        self.anchor = Some(0);
        self.cursor = self.len();
        self.pending_nibble = None;
    }

    /// Whether undo would do anything.
    pub fn can_undo(&self) -> (r: bool)
        requires
            self.wf(),
        ensures
            r == (self.changes().past().len() > 0),
    {
        self.history.can_undo()
    }

    /// Whether redo would do anything.
    pub fn can_redo(&self) -> (r: bool)
        requires
            self.wf(),
        ensures
            r == (self.changes().future().len() > 0),
    {
        self.history.can_redo()
    }
    /// Undo, moving the cursor to where the change was.
    pub fn undo(&mut self)
        requires
            old(self).wf(),
        ensures
            final(self).wf(),
            final(self).changes().current().original() == old(self).changes().current().original(),
            final(self).column_now() == old(self).column_now(),
            final(self).mode_now() == old(self).mode_now(),
            final(self).bookmark_list() == old(self).bookmark_list(),
            old(self).changes().past().len() == 0 ==> {
                &&& final(self).changes().current() == old(self).changes().current()
                &&& final(self).changes().past() == old(self).changes().past()
                &&& final(self).changes().future() == old(self).changes().future()
                &&& final(self).same_place(old(self))
            },
            old(self).changes().past().len() > 0 ==> {
                let s = old(self).changes().past().last();
                &&& final(self).document() == s.bytes
                &&& final(self).edited() == s.marks
                &&& final(self).changes().past() == old(self).changes().past().drop_last()
                &&& final(self).cursor_at() == min_int(s.at as int, s.bytes.len() as int)
                &&& final(self).anchor_at() is None
                &&& final(self).nibble() is None
            },
    {
        match self.history.undo() {
            Some(at) => {
                self.anchor = None;
                let len = self.history.buffer().len();
                self.cursor = if at < len { at } else { len };
                self.pending_nibble = None;
            },
            None => {},
        }
    }

    /// Redo, moving the cursor to where the change was.
    pub fn redo(&mut self)
        requires
            old(self).wf(),
        ensures
            final(self).wf(),
            final(self).changes().current().original() == old(self).changes().current().original(),
            final(self).column_now() == old(self).column_now(),
            final(self).mode_now() == old(self).mode_now(),
            final(self).bookmark_list() == old(self).bookmark_list(),
            old(self).changes().future().len() == 0 ==> {
                &&& final(self).changes().current() == old(self).changes().current()
                &&& final(self).changes().past() == old(self).changes().past()
                &&& final(self).changes().future() == old(self).changes().future()
                &&& final(self).same_place(old(self))
            },
            old(self).changes().future().len() > 0 ==> {
                let s = old(self).changes().future().last();
                &&& final(self).document() == s.bytes
                &&& final(self).edited() == s.marks
                &&& final(self).changes().future() == old(self).changes().future().drop_last()
                &&& final(self).cursor_at() == min_int(s.at as int, s.bytes.len() as int)
                &&& final(self).anchor_at() is None
                &&& final(self).nibble() is None
            },
    {
        match self.history.redo() {
            Some(at) => {
                self.anchor = None;
                let len = self.history.buffer().len();
                self.cursor = if at < len { at } else { len };
                self.pending_nibble = None;
            },
            None => {},
        }
    }

    /// Hold every bookmark inside the document.
    fn clamp_bookmarks(&mut self)
        requires
            old(self).changes().wf(),
            in_order(old(self).bookmark_list()),
        ensures
            final(self).bookmark_list() == clamped(old(self).bookmark_list(), old(self).document().len() as int),
            in_order(final(self).bookmark_list()),
            final(self).changes() == old(self).changes(),
            final(self).cursor_at() == old(self).cursor_at(),
            final(self).anchor_at() == old(self).anchor_at(),
            final(self).column_now() == old(self).column_now(),
            final(self).mode_now() == old(self).mode_now(),
            final(self).nibble() == old(self).nibble(),
    {
        let len = self.history.buffer().len();
        let ghost start = self.bookmarks@;
        let mut k: usize = 0;
        while k < self.bookmarks.len()
            invariant
                k <= self.bookmarks@.len(),
                self.bookmarks@.len() == start.len(),
                len == old(self).document().len(),
                self.history == old(self).history,
                self.cursor == old(self).cursor,
                self.anchor == old(self).anchor,
                self.column == old(self).column,
                self.mode == old(self).mode,
                self.pending_nibble == old(self).pending_nibble,
                start == old(self).bookmarks@,
                in_order(start),
                forall|i: int| 0 <= i < k ==> #[trigger] self.bookmarks@[i] == (Bookmark {
                    offset: min_int(start[i].offset as int, len as int) as u64,
                    label: start[i].label,
                }),
                forall|i: int| k <= i < start.len() ==> #[trigger] self.bookmarks@[i] == start[i],
            decreases start.len() - k,
        {
            let offset = self.bookmarks[k].offset;
            let label = self.bookmarks[k].label.clone();
            let held = if offset < len { offset } else { len };
            self.bookmarks.set(k, Bookmark { offset: held, label });
            k += 1;
        }
        proof {
            assert(self.bookmarks@ =~= clamped(start, len as int));
            assert forall|i: int, j: int| 0 <= i < j < self.bookmarks@.len() implies self.bookmarks@[i].offset <= self.bookmarks@[j].offset by {
                assert(start[i].offset <= start[j].offset);
            }
        }
    }
    /// Put bytes in at the cursor, replacing the selection if there is one:
    /// the selection is taken out first, then the bytes go in as the mode
    /// says, and the cursor steps past them. Read-only means the file is not
    /// changed by typing at all: nothing happens, selection or not.
    pub fn write(&mut self, bytes: &[u8]) -> (r: Result<(), Error>)
        requires
            old(self).wf(),
            old(self).document().len() + bytes@.len() <= u64::MAX,
        ensures
            r is Ok,
            final(self).wf(),
            bytes@.len() == 0 || old(self).mode_now() == Mode::ReadOnly ==> *final(self) == *old(self),
            bytes@.len() > 0 && old(self).mode_now() != Mode::ReadOnly ==> Self::typed_into(old(self), final(self), bytes@),
    {
        if bytes.len() == 0 || !self.mode.edits() {
            return Ok(());
        }
        let ghost d = self.document();
        let ghost m = self.edited();
        let ghost depth = self.history.past().len();
        proof {
            self.history.current().lemma_sizes();
        }
        match self.selection() {
            Some(selection) => {
                let start = selection.start();
                let len = selection.len();
                self.history.delete(start, len)?;
                self.cursor = start;
                self.anchor = None;
            },
            None => {},
        }
        let ghost d1 = self.document();
        proof {
            assert(d1 == old(self).cleared_document());
            assert(self.edited() == old(self).cleared_marks());
            assert(self.cursor == old(self).cleared_cursor());
            assert(self.cursor <= d1.len());
            assert(self.history.past().len() == depth + if old(self).clears() { 1int } else { 0int });
        }
        if self.mode == Mode::Overwrite {
            self.history.overwrite(self.cursor, bytes)?;
        } else {
            self.history.insert(self.cursor, bytes);
        }
        proof {
            assert(self.document().len() >= self.cursor + bytes@.len());
        }
        self.cursor = self.cursor + bytes.len() as u64;
        self.pending_nibble = None;
        self.clamp_bookmarks();
        Ok(())
    }

    /// Type one hex digit into the hex column. The first of two is held;
    /// the second makes a byte with it and writes it. Says whether the
    /// keystroke was used.
    pub fn type_hex_digit(&mut self, digit: char) -> (r: Result<bool, Error>)
        requires
            old(self).wf(),
            old(self).document().len() + 1 <= u64::MAX,
        ensures
            final(self).wf(),
            ({
                let used = old(self).mode_now() != Mode::ReadOnly && old(self).column_now() == Column::Hex
                    && digit_value(digit, 16) is Some;
                &&& r == Ok::<bool, Error>(used)
                &&& !used ==> *final(self) == *old(self)
                &&& used && old(self).nibble() is None ==> {
                    &&& final(self).nibble() == Some(digit_value(digit, 16)->0 as u8)
                    &&& final(self).changes() == old(self).changes()
                    &&& final(self).cursor_at() == old(self).cursor_at()
                    &&& final(self).anchor_at() == old(self).anchor_at()
                    &&& final(self).column_now() == old(self).column_now()
                    &&& final(self).mode_now() == old(self).mode_now()
                    &&& final(self).bookmark_list() == old(self).bookmark_list()
                }
                &&& used && old(self).nibble() is Some ==> Self::typed_into(
                    old(self),
                    final(self),
                    seq![(old(self).nibble()->0 * 16 + digit_value(digit, 16)->0) as u8],
                )
            }),
    {
        if !self.mode.edits() || self.column != Column::Hex {
            return Ok(false);
        }
        let value = match to_digit(digit, 16) {
            Some(v) => v as u8,
            None => {
                return Ok(false);
            },
        };
        match self.pending_nibble {
            None => {
                self.pending_nibble = Some(value);
            },
            Some(high) => {
                self.pending_nibble = None;
                let byte = high * 16 + value;
                let one = vec![byte];
                let ghost typing = *self;
                proof {
                    assert(one@ =~= seq![byte]);
                }
                self.write(one.as_slice())?;
            },
        }
        Ok(true)
    }

    /// Type one byte into the text column. Says whether the keystroke was
    /// used.
    pub fn type_byte(&mut self, byte: u8) -> (r: Result<bool, Error>)
        requires
            old(self).wf(),
            old(self).document().len() + 1 <= u64::MAX,
        ensures
            final(self).wf(),
            ({
                let used = old(self).mode_now() != Mode::ReadOnly && old(self).column_now() == Column::Text;
                &&& r == Ok::<bool, Error>(used)
                &&& !used ==> *final(self) == *old(self)
                &&& used ==> Self::typed_into(old(self), final(self), seq![byte])
            }),
    {
        if !self.mode.edits() || self.column != Column::Text {
            return Ok(false);
        }
        let one = vec![byte];
        proof {
            assert(one@ =~= seq![byte]);
        }
        self.write(one.as_slice())?;
        Ok(true)
    }

    /// Delete the selection, or the byte at the cursor.
    pub fn delete_forward(&mut self) -> (r: Result<(), Error>)
        requires
            old(self).wf(),
        ensures
            r is Ok,
            final(self).wf(),
            old(self).mode_now() == Mode::ReadOnly ==> *final(self) == *old(self),
            old(self).mode_now() != Mode::ReadOnly ==> {
                let sel = selection_of(old(self).anchor_at(), old(self).cursor_at());
                &&& final(self).document() == match sel {
                    Some(s) => cut_out(old(self).document(), s.first() as int, s.last() - s.first()),
                    None => cut_out(old(self).document(), old(self).cursor_at() as int, 1),
                }
                &&& final(self).edited() == match sel {
                    Some(s) => cut_out(old(self).edited(), s.first() as int, s.last() - s.first()),
                    None => cut_out(old(self).edited(), old(self).cursor_at() as int, 1),
                }
                &&& final(self).cursor_at() == match sel {
                    Some(s) => s.first(),
                    None => old(self).cursor_at(),
                }
                &&& final(self).anchor_at() == if sel is Some { None } else { old(self).anchor_at() }
                &&& final(self).nibble() is None
                &&& final(self).bookmark_list() == clamped(old(self).bookmark_list(), final(self).document().len() as int)
                &&& final(self).column_now() == old(self).column_now()
                &&& final(self).mode_now() == old(self).mode_now()
                &&& final(self).changes().current().original() == old(self).changes().current().original()
            },
    {
        if !self.mode.edits() {
            return Ok(());
        }
        proof {
            self.history.current().lemma_sizes();
        }
        match self.selection() {
            Some(selection) => {
                let start = selection.start();
                let len = selection.len();
                self.history.delete(start, len)?;
                self.cursor = start;
                self.anchor = None;
            },
            None => {
                self.history.delete(self.cursor, 1)?;
            },
        }
        self.pending_nibble = None;
        self.clamp_bookmarks();
        Ok(())
    }

    /// Delete the selection, or the byte before the cursor; at the start,
    /// with nothing selected, nothing happens.
    pub fn delete_backward(&mut self) -> (r: Result<(), Error>)
        requires
            old(self).wf(),
        ensures
            r is Ok,
            final(self).wf(),
            ({
                let sel = selection_of(old(self).anchor_at(), old(self).cursor_at());
                if old(self).mode_now() == Mode::ReadOnly || (sel is None && old(self).cursor_at() == 0) {
                    *final(self) == *old(self)
                } else if sel is Some {
                    let s = sel->0;
                    &&& final(self).document() == cut_out(old(self).document(), s.first() as int, s.last() - s.first())
                    &&& final(self).edited() == cut_out(old(self).edited(), s.first() as int, s.last() - s.first())
                    &&& final(self).cursor_at() == s.first()
                    &&& final(self).anchor_at() is None
                    &&& final(self).nibble() is None
                    &&& final(self).bookmark_list() == clamped(old(self).bookmark_list(), final(self).document().len() as int)
                    &&& final(self).column_now() == old(self).column_now()
                    &&& final(self).mode_now() == old(self).mode_now()
                } else {
                    let c = old(self).cursor_at() - 1;
                    &&& final(self).document() == cut_out(old(self).document(), c, 1)
                    &&& final(self).edited() == cut_out(old(self).edited(), c, 1)
                    &&& final(self).cursor_at() == c
                    &&& final(self).anchor_at() == old(self).anchor_at()
                    &&& final(self).nibble() is None
                    &&& final(self).bookmark_list() == clamped(old(self).bookmark_list(), final(self).document().len() as int)
                    &&& final(self).column_now() == old(self).column_now()
                    &&& final(self).mode_now() == old(self).mode_now()
                }
            }),
    {
        if !self.mode.edits() {
            return Ok(());
        }
        if self.selection().is_some() {
            return self.delete_forward();
        }
        if self.cursor == 0 {
            return Ok(());
        }
        proof {
            self.history.current().lemma_sizes();
        }
        self.cursor = self.cursor - 1;
        self.history.delete(self.cursor, 1)?;
        self.pending_nibble = None;
        self.clamp_bookmarks();
        Ok(())
    }
    /// The bytes selected, or the byte under the cursor.
    pub fn selected_bytes(&mut self) -> (r: Result<Vec<u8>, Error>)
        requires
            old(self).wf(),
        ensures
            final(self).wf(),
            final(self).document() == old(self).document(),
            final(self).same_place(old(self)),
            final(self).changes().same_record(&old(self).changes()),
            final(self).changes().current().provenance() == old(self).changes().current().provenance(),
            r matches Ok(v) ==> {
                let d = old(self).document();
                let (at, len) = match selection_of(old(self).anchor_at(), old(self).cursor_at()) {
                    Some(s) => (s.first() as int, s.last() - s.first()),
                    None => (old(self).cursor_at() as int, if old(self).cursor_at() < d.len() { 1int } else { 0int }),
                };
                let want = asked(len as u64);
                v@ == d.subrange(min_int(at, d.len() as int), min_int(at + want, d.len() as int))
            },
    {
        let n = self.len();
        let (at, len) = match self.selection() {
            Some(s) => (s.start(), s.len()),
            None => (self.cursor, if self.cursor < n { 1 } else { 0 }),
        };
        let count: usize = if len <= usize::MAX as u64 { len as usize } else { 0 };
        let ghost before = *self;
        let r = self.buffer_mut().read_bytes(at, count);
        proof {
            Self::lemma_reading_keeps(&before, self);
        }
        r
    }

    /// Remember `offset`, held inside the document, under `label`. An
    /// offset already remembered is renamed rather than remembered twice.
    pub fn add_bookmark(&mut self, offset: u64, label: &str)
        requires
            old(self).wf(),
        ensures
            final(self).wf(),
            final(self).changes() == old(self).changes(),
            final(self).cursor_at() == old(self).cursor_at(),
            final(self).anchor_at() == old(self).anchor_at(),
            final(self).column_now() == old(self).column_now(),
            final(self).mode_now() == old(self).mode_now(),
            final(self).nibble() == old(self).nibble(),
            ({
                let b = old(self).bookmark_list();
                let off = min_int(offset as int, old(self).document().len() as int);
                let after = final(self).bookmark_list();
                if exists|i: int| 0 <= i < b.len() && (#[trigger] b[i]).offset == off {
                    exists|i: int| {
                        &&& 0 <= i < b.len()
                        &&& (#[trigger] b[i]).offset == off
                        &&& forall|j: int| 0 <= j < i ==> b[j].offset != off
                        &&& after == b.update(i, Bookmark { offset: off as u64, label: after[i].label })
                        &&& after[i].label@ == label@
                    }
                } else {
                    exists|p: int| {
                        &&& 0 <= p <= b.len()
                        &&& forall|j: int| 0 <= j < p ==> (#[trigger] b[j]).offset < off
                        &&& forall|j: int| p <= j < b.len() ==> (#[trigger] b[j]).offset > off
                        &&& after == b.insert(p, Bookmark { offset: off as u64, label: after[p].label })
                        &&& after[p].label@ == label@
                    }
                }
            }),
    {
        let len = self.len();
        let ghost old_offset = offset;
        let offset = if offset < len { offset } else { len };
        let ghost b = self.bookmarks@;
        let ghost off = min_int(old_offset as int, old(self).document().len() as int);
        let mut i: usize = 0;
        while i < self.bookmarks.len() && self.bookmarks[i].offset != offset
            invariant
                i <= b.len(),
                self.bookmarks@ == b,
                forall|j: int| 0 <= j < i ==> (#[trigger] b[j]).offset != offset,
            decreases b.len() - i,
        {
            i += 1;
        }
        if i < self.bookmarks.len() {
            self.bookmarks.set(i, Bookmark { offset, label: label.to_owned() });
            proof {
                let after = self.bookmarks@;
                assert forall|x: int, y: int| 0 <= x < y < after.len() implies after[x].offset <= after[y].offset by {
                    assert(b[x].offset <= b[y].offset);
                }
                assert(b[i as int].offset == off);
                assert(after == b.update(i as int, Bookmark { offset: off as u64, label: after[i as int].label }));
                assert(after[i as int].label@ == label@);
                assert(exists|k: int| 0 <= k < b.len() && (#[trigger] b[k]).offset == off);
                assert(exists|k: int| {
                    &&& 0 <= k < b.len()
                    &&& (#[trigger] b[k]).offset == off
                    &&& forall|j: int| 0 <= j < k ==> b[j].offset != off
                    &&& after == b.update(k, Bookmark { offset: off as u64, label: after[k].label })
                    &&& after[k].label@ == label@
                }) by {
                    assert(b[i as int].offset == off);
                }
            }
        } else {
            let mut p: usize = 0;
            while p < self.bookmarks.len() && self.bookmarks[p].offset < offset
                invariant
                    p <= b.len(),
                    self.bookmarks@ == b,
                    forall|j: int| 0 <= j < p ==> (#[trigger] b[j]).offset < offset,
                decreases b.len() - p,
            {
                p += 1;
            }
            self.bookmarks.insert(p, Bookmark { offset, label: label.to_owned() });
            proof {
                let after = self.bookmarks@;
                assert forall|j: int| p <= j < b.len() implies (#[trigger] b[j]).offset > offset by {
                    if p < b.len() {
                        assert(b[p as int].offset >= offset);
                        assert(b[p as int].offset != offset);
                        assert(b[p as int].offset <= b[j].offset);
                    }
                }
                assert(after == b.insert(p as int, Bookmark { offset, label: after[p as int].label }));
                assert forall|x: int, y: int| 0 <= x < y < after.len() implies after[x].offset <= after[y].offset by {
                    if y < p {
                        assert(b[x].offset <= b[y].offset);
                    } else if x > p {
                        assert(b[x - 1].offset <= b[y - 1].offset);
                    } else if x == p {
                        assert(b[y - 1].offset > offset);
                    } else if y == p {
                        assert(b[x].offset < offset);
                    } else {
                        assert(b[x].offset < offset);
                        assert(b[y - 1].offset > offset);
                    }
                }
                assert(!(exists|k: int| 0 <= k < b.len() && (#[trigger] b[k]).offset == off));
                assert(after[p as int].label@ == label@);
                assert({
                    &&& 0 <= p <= b.len()
                    &&& forall|j: int| 0 <= j < p ==> (#[trigger] b[j]).offset < off
                    &&& forall|j: int| p <= j < b.len() ==> (#[trigger] b[j]).offset > off
                    &&& after == b.insert(p as int, Bookmark { offset: off as u64, label: after[p as int].label })
                    &&& after[p as int].label@ == label@
                });
            }
        }
    }

    /// Forget every bookmark at `offset`.
    pub fn remove_bookmark(&mut self, offset: u64)
        requires
            old(self).wf(),
        ensures
            final(self).wf(),
            final(self).bookmark_list() == old(self).bookmark_list().filter(|b: Bookmark| b.offset != offset),
            final(self).changes() == old(self).changes(),
            final(self).cursor_at() == old(self).cursor_at(),
            final(self).anchor_at() == old(self).anchor_at(),
            final(self).column_now() == old(self).column_now(),
            final(self).mode_now() == old(self).mode_now(),
            final(self).nibble() == old(self).nibble(),
    {
        let ghost b = self.bookmarks@;
        let ghost keep = |x: Bookmark| x.offset != offset;
        let mut kept: Vec<Bookmark> = Vec::new();
        let mut i: usize = 0;
        while i < self.bookmarks.len()
            invariant
                i <= b.len(),
                self.bookmarks@ == b,
                in_order(b),
                keep == (|x: Bookmark| x.offset != offset),
                kept@ == b.take(i as int).filter(keep),
                in_order(kept@),
                forall|k: int, j: int| 0 <= k < kept@.len() && i <= j < b.len() ==> (#[trigger] kept@[k]).offset <= (#[trigger] b[j]).offset,
            decreases b.len() - i,
        {
            let here = self.bookmarks[i].offset;
            proof {
                reveal(Seq::filter);
                assert(b.take(i + 1).drop_last() =~= b.take(i as int));
                assert(b.take(i + 1).last() == b[i as int]);
            }
            if here != offset {
                let label = self.bookmarks[i].label.clone();
                kept.push(Bookmark { offset: here, label });
                proof {
                    assert(kept@.last() == b[i as int]);
                    assert(kept@ =~= b.take(i + 1).filter(keep));
                    assert forall|x: int, y: int| 0 <= x < y < kept@.len() implies kept@[x].offset <= kept@[y].offset by {
                        if y == kept@.len() - 1 {
                            assert(kept@[x].offset <= b[i as int].offset);
                        }
                    }
                    assert forall|k: int, j: int| 0 <= k < kept@.len() && i + 1 <= j < b.len() implies (#[trigger] kept@[k]).offset <= (#[trigger] b[j]).offset by {
                        assert(b[i as int].offset <= b[j].offset);
                    }
                }
            } else {
                proof {
                    assert(kept@ =~= b.take(i + 1).filter(keep));
                }
            }
            i += 1;
        }
        proof {
            assert(b.take(i as int) =~= b);
        }
        self.bookmarks = kept;
    }

    /// Every bookmark, in file order.
    pub fn bookmarks(&self) -> (r: &[Bookmark])
        ensures
            r@ == self.bookmark_list(),
    {
        self.bookmarks.as_slice()
    }

    /// What would be written: the changed stretches, how many changes, and
    /// the length before and after.
    pub fn summary(&self) -> (r: Summary)
        requires
            self.wf(),
        ensures
            forall|i: int| 0 <= i < r.ranges@.len() ==> r.ranges@[i].1 > 0 && r.ranges@[i].0 + r.ranges@[i].1 <= self.document().len(),
            forall|i: int, j: int| 0 <= i < j < r.ranges@.len() ==> r.ranges@[i].0 + r.ranges@[i].1 < r.ranges@[j].0,
            forall|k: int| 0 <= k < self.document().len() ==> (self.edited()[k] <==> covered(r.ranges@, k)),
            range_total(r.ranges@) <= r.new_len,
            r.edits == self.changes().past().len(),
            r.original_len == self.changes().current().original().len(),
            r.new_len == self.document().len(),
    {
        let ranges = self.history.buffer().modified_ranges();
        let r = Summary {
            ranges,
            edits: self.history.depth(),
            original_len: self.history.buffer().original_len(),
            new_len: self.history.buffer().len(),
        };
        proof {
            lemma_range_total(r.ranges@, r.new_len as int);
        }
        r
    }
}

/// A search runs over the session's document without copying it.
impl<B: Bytes> Bytes for Session<B> {
    open spec fn content(&self) -> Seq<u8> {
        self.document()
    }

    open spec fn readable(&self) -> bool {
        self.wf()
    }

    open spec fn infallible(&self) -> bool {
        self.source_infallible()
    }

    fn len(&self) -> (r: u64) {
        self.history.buffer().len()
    }

    fn read_at(&mut self, offset: u64, len: usize) -> (r: Result<Vec<u8>, Error>) {
        let ghost before = *self;
        let r = self.buffer_mut().read_bytes(offset, len);
        proof {
            Self::lemma_reading_keeps(&before, self);
        }
        r
    }
}

} // verus!
