//! Comparing two folders, name by name.
//!
//! What a name's two sides amount to, and how the rows read: the verdict for
//! one name, the rule for when two modification times count as the same,
//! and the counts the window shows. Listing the folders is the caller's.

use vstd::prelude::*;

use crate::error::{Error, ErrorCode};
use crate::location::Location;
use crate::ordered::{compare_str, seq_lt, Order, TextMap};
use crate::text::{push_char, push_str};

verus! {

broadcast use vstd::seq_lib::group_to_multiset_ensures;

/// How far apart two modification times may be and still count as equal,
/// in nanoseconds: two seconds, because FAT keeps two-second granularity
/// and a copied file routinely lands a second either side of its source.
pub const TIME_SLACK_NANOS: i128 = 2_000_000_000;

/// How deep a recursive comparison walks.
pub const MAX_DEPTH: usize = 64;

/// How many rows a comparison produces before it gives up and says so.
pub const MAX_ROWS: usize = 200_000;

/// What a comparison found about one name.
#[derive(Debug, Clone, Copy, PartialEq, Eq, Structural)]
pub enum Difference {
    /// Present on the left only.
    OnlyLeft,
    /// Present on the right only.
    OnlyRight,
    /// On both sides, and not the same.
    Differs,
    /// On both sides, and the same.
    Same,
}

/// The stable name of a verdict.
pub open spec fn difference_id(d: Difference) -> Seq<char> {
    match d {
        Difference::OnlyLeft => "only_left"@,
        Difference::OnlyRight => "only_right"@,
        Difference::Differs => "differs"@,
        Difference::Same => "same"@,
    }
}

impl Difference {
    /// Whether this is a difference at all.
    pub fn is_difference(self) -> (r: bool)
        ensures
            r == (self != Difference::Same),
    {
        !matches!(self, Difference::Same)
    }

    /// A stable name, for the interface to look up.
    pub fn id(self) -> (r: &'static str)
        ensures
            r@ == difference_id(self),
    {
        match self {
            Difference::OnlyLeft => "only_left",
            Difference::OnlyRight => "only_right",
            Difference::Differs => "differs",
            Difference::Same => "same",
        }
    }
}

/// One side's facts about a name.
#[derive(Debug, Clone, Copy, PartialEq, Eq, Structural)]
pub struct Side {
    /// Size in bytes; `None` for a folder, or when the provider did not say.
    pub size: Option<u64>,
    /// Modification time in nanoseconds from the Unix epoch, if known.
    pub modified: Option<i128>,
    /// Whether this is a folder.
    pub is_directory: bool,
}

/// One row of a comparison.
#[derive(Debug, Clone, PartialEq, Eq)]
pub struct Row {
    /// The path relative to both roots, `/`-separated.
    pub relative: String,
    /// What was found.
    pub difference: Difference,
    /// The left side, if it has this name.
    pub left: Option<Side>,
    /// The right side, if it has this name.
    pub right: Option<Side>,
}

impl Row {
    /// Whether either side is a folder.
    pub fn is_directory(&self) -> (r: bool)
        ensures
            r == ((self.left matches Some(s) && s.is_directory) || (self.right matches Some(s)
                && s.is_directory)),
    {
        let l = match self.left {
            Some(s) => s.is_directory,
            None => false,
        };
        let r = match self.right {
            Some(s) => s.is_directory,
            None => false,
        };
        l || r
    }
}

/// How far a comparison has got.
#[derive(Debug, Clone, Copy, Default, PartialEq, Eq, Structural)]
pub struct Progress {
    /// Folders read so far, both sides counted together.
    pub folders: u64,
    /// Rows produced so far.
    pub rows: u64,
    /// Of those, how many are an actual difference.
    pub differences: u64,
}

/// What a comparison produced.
#[derive(Debug, Clone, Default, PartialEq, Eq)]
pub struct Comparison {
    /// The rows, sorted by relative path.
    pub rows: Vec<Row>,
    /// Whether the row bound cut the walk short.
    pub truncated: bool,
}

/// How many of `rows` are a difference.
pub open spec fn differences_in(rows: Seq<Row>) -> int
    decreases rows.len(),
{
    if rows.len() == 0 {
        0
    } else {
        differences_in(rows.drop_last()) + if rows.last().difference != Difference::Same {
            1int
        } else {
            0
        }
    }
}

impl Comparison {
    /// How many rows are an actual difference.
    pub fn difference_count(&self) -> (r: usize)
        ensures
            r == differences_in(self.rows@),
    {
        let mut n: usize = 0;
        let mut i: usize = 0;
        while i < self.rows.len()
            invariant
                i <= self.rows@.len(),
                n == differences_in(self.rows@.take(i as int)),
                n <= i,
            decreases self.rows.len() - i,
        {
            proof {
                assert(self.rows@.take(i + 1).drop_last() =~= self.rows@.take(i as int));
            }
            if self.rows[i].difference.is_difference() {
                n = n + 1;
            }
            i += 1;
        }
        proof {
            assert(self.rows@.take(self.rows@.len() as int) =~= self.rows@);
        }
        n
    }
}

/// Whether two modification times count as equal: both unknown (which is
/// no evidence of a difference), or both known and at most the slack apart.
pub open spec fn same_time_spec(left: Option<i128>, right: Option<i128>) -> bool {
    match (left, right) {
        (Some(l), Some(r)) => -TIME_SLACK_NANOS <= l - r <= TIME_SLACK_NANOS,
        (None, None) => true,
        _ => false,
    }
}

/// Whether two modification times count as equal.
pub fn same_time(left: Option<i128>, right: Option<i128>) -> (r: bool)
    ensures
        r == same_time_spec(left, right),
{
    match (left, right) {
        (Some(l), Some(r)) => {
            if l >= r {
                match l.checked_sub(r) {
                    Some(gap) => gap <= TIME_SLACK_NANOS,
                    None => false,
                }
            } else {
                match r.checked_sub(l) {
                    Some(gap) => gap <= TIME_SLACK_NANOS,
                    None => false,
                }
            }
        },
        (None, None) => true,
        _ => false,
    }
}

/// The verdict for one name, given what each side has: only one side; a
/// folder against a file differs; two folders are the same name (what is
/// inside is the walk's answer, not this row's); two files are the same
/// when their sizes match and their times count as equal.
pub open spec fn verdict_spec(left: Option<Side>, right: Option<Side>) -> Difference {
    match (left, right) {
        (Some(l), Some(r)) => if l.is_directory != r.is_directory {
            Difference::Differs
        } else if l.is_directory {
            Difference::Same
        } else if l.size != r.size {
            Difference::Differs
        } else if same_time_spec(l.modified, r.modified) {
            Difference::Same
        } else {
            Difference::Differs
        },
        (Some(_), None) => Difference::OnlyLeft,
        _ => Difference::OnlyRight,
    }
}

/// The verdict for one name, given what each side has.
pub fn verdict(left: Option<Side>, right: Option<Side>) -> (r: Difference)
    ensures
        r == verdict_spec(left, right),
{
    match (left, right) {
        (Some(l), Some(r)) => {
            if l.is_directory != r.is_directory {
                Difference::Differs
            } else if l.is_directory {
                Difference::Same
            } else if l.size != r.size {
                Difference::Differs
            } else if same_time(l.modified, r.modified) {
                Difference::Same
            } else {
                Difference::Differs
            }
        },
        (Some(_), None) => Difference::OnlyLeft,
        _ => Difference::OnlyRight,
    }
}

/// The error to report when a side cannot be listed.
pub fn unreadable(location: &Location) -> (r: Error)
    ensures
        r.spec_code() == ErrorCode::Io,
        r.spec_context() == "cannot list "@ + crate::location::display_of(location@),
{
    let mut s = String::new();
    push_str(&mut s, "cannot list ");
    let shown = location.display_text();
    push_str(&mut s, shown.as_str());
    Error::with_context(ErrorCode::Io, s)
}

/// A verdict seen from the other side: only-left and only-right trade
/// places, and same and differs stay.
pub open spec fn mirrored(d: Difference) -> Difference {
    match d {
        Difference::OnlyLeft => Difference::OnlyRight,
        Difference::OnlyRight => Difference::OnlyLeft,
        d => d,
    }
}

/// Comparing right against left says what comparing left against right
/// says, seen from the other side.
pub proof fn law_verdict_is_symmetric(left: Option<Side>, right: Option<Side>)
    requires
        left is Some || right is Some,
    ensures
        verdict_spec(right, left) == mirrored(verdict_spec(left, right)),
{
}

/// One entry of a folder listing, as comparing needs it.
#[derive(Debug, Clone, PartialEq, Eq)]
pub struct Listed {
    /// The name it is shown under.
    pub name: String,
    /// Its facts.
    pub side: Side,
    /// Whether it is a folder the walk may go into: not a link, not a
    /// package.
    pub walkable: bool,
    /// The caller's handle for where it is, so it can be listed.
    pub key: u64,
}

/// Where `name` last occurs in a listing.
pub open spec fn last_index(list: Seq<Listed>, name: Seq<char>) -> Option<int>
    decreases list.len(),
{
    if list.len() == 0 {
        None
    } else if list.last().name@ == name {
        Some(list.len() - 1)
    } else {
        last_index(list.drop_last(), name)
    }
}

/// An index held as an integer.
pub open spec fn index_of(o: Option<usize>) -> Option<int> {
    match o {
        Some(i) => Some(i as int),
        None => None,
    }
}

/// Whether `m` pairs up the names of two listings: every name on either
/// side once, in order, with where it last occurs on each side.
pub open spec fn pairs_names(m: TextMap<String, (Option<usize>, Option<usize>)>, left: Seq<Listed>, right: Seq<Listed>) -> bool {
    &&& m.wf()
    &&& forall|k: Seq<char>| m.has(k) <==> (last_index(left, k) is Some || last_index(right, k) is Some)
    &&& forall|k: Seq<char>| #[trigger] m.has(k) ==> index_of(m.value_of(k).0) == last_index(left, k)
        && index_of(m.value_of(k).1) == last_index(right, k)
}

/// A name's last place in a listing is inside it.
pub proof fn lemma_last_index(list: Seq<Listed>, name: Seq<char>)
    ensures
        last_index(list, name) matches Some(i) ==> 0 <= i < list.len() && list[i].name@ == name,
    decreases list.len(),
{
    if list.len() > 0 && list.last().name@ != name {
        lemma_last_index(list.drop_last(), name);
    }
}

/// Pair up the names of two listings. A name listed twice on one side
/// counts once, as its last entry.
pub fn pair_up(left: &Vec<Listed>, right: &Vec<Listed>) -> (r: TextMap<String, (Option<usize>, Option<usize>)>)
    ensures
        pairs_names(r, left@, right@),
{
    let mut names: TextMap<String, (Option<usize>, Option<usize>)> = TextMap::new();
    let mut i: usize = 0;
    while i < left.len()
        invariant
            i <= left@.len(),
            names.wf(),
            forall|k: Seq<char>| names.has(k) <==> last_index(left@.take(i as int), k) is Some,
            forall|k: Seq<char>| #[trigger] names.has(k) ==> index_of(names.value_of(k).0) == last_index(left@.take(i as int), k)
                && names.value_of(k).1 is None,
        decreases left.len() - i,
    {
        let name = left[i].name.clone();
        proof {
            assert(left@.take(i + 1).drop_last() =~= left@.take(i as int));
        }
        names.insert(name, (Some(i), None));
        i += 1;
    }
    proof {
        assert(left@.take(i as int) =~= left@);
        assert(right@.take(0).len() == 0);
    }
    let mut j: usize = 0;
    while j < right.len()
        invariant
            j <= right@.len(),
            names.wf(),
            forall|k: Seq<char>| names.has(k) <==> (last_index(left@, k) is Some || last_index(right@.take(j as int), k) is Some),
            forall|k: Seq<char>| #[trigger] names.has(k) ==> index_of(names.value_of(k).0) == last_index(left@, k)
                && index_of(names.value_of(k).1) == last_index(right@.take(j as int), k),
        decreases right.len() - j,
    {
        let name = right[j].name.clone();
        let before = match names.get(name.as_str()) {
            Some(v) => v.0,
            None => None,
        };
        proof {
            assert(right@.take(j + 1).drop_last() =~= right@.take(j as int));
        }
        names.insert(name, (before, Some(j)));
        j += 1;
    }
    proof {
        assert(right@.take(j as int) =~= right@);
    }
    names
}

/// A paired name: the name, and where it last occurs on each side.
pub open spec fn entry_view(e: (String, (Option<usize>, Option<usize>))) -> (Seq<char>, Option<usize>, Option<usize>) {
    (e.0@, e.1.0, e.1.1)
}

/// The facts at a place in a listing.
pub open spec fn side_at(list: Seq<Listed>, i: Option<usize>) -> Option<Side> {
    match i {
        Some(i) => Some(list[i as int].side),
        None => None,
    }
}

/// The path of `name` under `prefix`: the name alone at the top.
pub open spec fn relative_of(prefix: Seq<char>, name: Seq<char>) -> Seq<char> {
    if prefix.len() == 0 {
        name
    } else {
        prefix + seq!['/'] + name
    }
}

/// A row as plain values.
pub open spec fn row_view(r: Row) -> (Seq<char>, Difference, Option<Side>, Option<Side>) {
    (r.relative@, r.difference, r.left, r.right)
}

/// The row for a paired name under `prefix`.
pub open spec fn row_for(prefix: Seq<char>, e: (Seq<char>, Option<usize>, Option<usize>), left: Seq<Listed>, right: Seq<Listed>) -> (Seq<char>, Difference, Option<Side>, Option<Side>) {
    let l = side_at(left, e.1);
    let r = side_at(right, e.2);
    (relative_of(prefix, e.0), verdict_spec(l, r), l, r)
}

/// Whether the walk goes into a paired name: only when comparing all the
/// way down, not yet at the depth bound, and both sides have a folder of
/// that name that may be walked into. A folder on one side only is one row
/// saying so.
pub open spec fn descends(e: (Seq<char>, Option<usize>, Option<usize>), left: Seq<Listed>, right: Seq<Listed>, depth: int, recursive: bool) -> bool {
    &&& recursive
    &&& depth + 1 < MAX_DEPTH
    &&& e.1 is Some
    &&& e.2 is Some
    &&& left[e.1->0 as int].walkable
    &&& right[e.2->0 as int].walkable
}

/// The folders a run of paired names leads into: each one's path, and the
/// handles to list on each side.
pub open spec fn children_of(prefix: Seq<char>, es: Seq<(Seq<char>, Option<usize>, Option<usize>)>, left: Seq<Listed>, right: Seq<Listed>, depth: int, recursive: bool) -> Seq<(Seq<char>, u64, u64)>
    decreases es.len(),
{
    if es.len() == 0 {
        Seq::empty()
    } else {
        let e = es.last();
        children_of(prefix, es.drop_last(), left, right, depth, recursive) + if descends(e, left, right, depth, recursive) {
            seq![(relative_of(prefix, e.0), left[e.1->0 as int].key, right[e.2->0 as int].key)]
        } else {
            Seq::empty()
        }
    }
}

/// Whether every place named is inside its listing.
pub open spec fn places_ok(es: Seq<(Seq<char>, Option<usize>, Option<usize>)>, left_len: int, right_len: int) -> bool {
    forall|i: int| 0 <= i < es.len() ==> (#[trigger] es[i].1 matches Some(a) ==> a < left_len) && (es[i].2 matches Some(b) ==> b < right_len)
}

/// What comparing one folder produced.
pub struct Folded {
    /// Its rows, in name order.
    pub rows: Vec<Row>,
    /// The folders to go into next: path, and the handles to list.
    pub children: Vec<(String, u64, u64)>,
    /// Whether the room ran out before the names did.
    pub truncated: bool,
    /// How many of the rows are a difference.
    pub differences: u64,
}

/// A child as plain values.
pub open spec fn child_view(c: (String, u64, u64)) -> (Seq<char>, u64, u64) {
    (c.0@, c.1, c.2)
}

/// The rows of one folder whose names are paired up in `es`, as many as
/// there is `room` for, and the folders to go into from them.
pub fn folder_rows(prefix: &str, es: &[(String, (Option<usize>, Option<usize>))], left: &Vec<Listed>, right: &Vec<Listed>, depth: usize, recursive: bool, room: usize) -> (r: Folded)
    requires
        places_ok(es@.map_values(|e: (String, (Option<usize>, Option<usize>))| entry_view(e)), left@.len() as int, right@.len() as int),
    ensures
        ({
            let ev = es@.map_values(|e: (String, (Option<usize>, Option<usize>))| entry_view(e));
            let k = if room < es@.len() { room as int } else { es@.len() as int };
            &&& r.rows@.map_values(|row: Row| row_view(row)) == ev.take(k).map_values(
                |e: (Seq<char>, Option<usize>, Option<usize>)| row_for(prefix@, e, left@, right@),
            )
            &&& r.children@.map_values(|c: (String, u64, u64)| child_view(c)) == children_of(prefix@, ev.take(k), left@, right@, depth as int, recursive)
            &&& r.truncated == (es@.len() > room)
            &&& r.differences == differences_in(r.rows@)
            &&& r.rows@.len() == k
        }),
{
    let ghost ev = es@.map_values(|e: (String, (Option<usize>, Option<usize>))| entry_view(e));
    let ghost rf = |e: (Seq<char>, Option<usize>, Option<usize>)| row_for(prefix@, e, left@, right@);
    let mut rows: Vec<Row> = Vec::new();
    let mut children: Vec<(String, u64, u64)> = Vec::new();
    let mut differences: u64 = 0;
    let mut i: usize = 0;
    while i < es.len() && i < room
        invariant
            i <= es@.len(),
            i <= room,
            ev == es@.map_values(|e: (String, (Option<usize>, Option<usize>))| entry_view(e)),
            rf == (|e: (Seq<char>, Option<usize>, Option<usize>)| row_for(prefix@, e, left@, right@)),
            places_ok(ev, left@.len() as int, right@.len() as int),
            rows@.map_values(|row: Row| row_view(row)) == ev.take(i as int).map_values(rf),
            children@.map_values(|c: (String, u64, u64)| child_view(c)) == children_of(prefix@, ev.take(i as int), left@, right@, depth as int, recursive),
            differences == differences_in(rows@),
            differences <= i,
            rows@.len() == i,
        decreases es.len() - i,
    {
        let name = &es[i].0;
        let (li, ri) = es[i].1;
        proof {
            assert(ev[i as int] == entry_view(es@[i as int]));
            assert(ev.take(i + 1).drop_last() =~= ev.take(i as int));
            assert(ev.take(i + 1).last() == ev[i as int]);
            assert(ev[i as int].1 == li && ev[i as int].2 == ri);
            assert(li matches Some(a) ==> a < left@.len());
            assert(ri matches Some(b) ==> b < right@.len());
        }
        let mut relative = String::new();
        if !prefix.is_empty() {
            push_str(&mut relative, prefix);
            push_char(&mut relative, '/');
        }
        push_str(&mut relative, name.as_str());
        let left_side = match li {
            Some(a) => Some(left[a].side),
            None => None,
        };
        let right_side = match ri {
            Some(b) => Some(right[b].side),
            None => None,
        };
        let difference = verdict(left_side, right_side);
        let ghost rows_before = rows@;
        let ghost children_before = children@;
        if difference.is_difference() {
            differences = differences + 1;
        }
        let walk_in = recursive && depth < MAX_DEPTH - 1 && match (li, ri) {
            (Some(a), Some(b)) => left[a].walkable && right[b].walkable,
            _ => false,
        };
        if walk_in {
            let (a, b) = match (li, ri) {
                (Some(a), Some(b)) => (a, b),
                _ => (0, 0),
            };
            let mut path = String::new();
            push_str(&mut path, relative.as_str());
            children.push((path, left[a].key, right[b].key));
        }
        rows.push(Row { relative, difference, left: left_side, right: right_side });
        proof {
            assert(relative_of(prefix@, name@) == rows@.last().relative@) by {
                if prefix@.len() == 0 {
                    assert(Seq::<char>::empty() + name@ =~= name@);
                }
            }
            assert(rows@.drop_last() =~= rows_before);
            assert(side_at(left@, li) == left_side);
            assert(side_at(right@, ri) == right_side);
            assert(row_view(rows@.last()) == rf(ev[i as int]));
            assert forall|j: int| 0 <= j < i implies #[trigger] row_view(rows@[j]) == ev.take(i + 1).map_values(rf)[j] by {
                assert(rows@[j] == rows_before[j]);
                assert(rows_before.map_values(|row: Row| row_view(row))[j] == ev.take(i as int).map_values(rf)[j]);
            }
            assert(rows@.map_values(|row: Row| row_view(row)) =~= ev.take(i + 1).map_values(rf));
            assert(children@.map_values(|c: (String, u64, u64)| child_view(c)) =~= children_of(prefix@, ev.take(i + 1), left@, right@, depth as int, recursive));
        }
        i += 1;
    }
    proof {
        let k = if room < es@.len() { room as int } else { es@.len() as int };
        assert(i == k);
    }
    Folded { rows, children, truncated: es.len() > room, differences }
}

/// Whether rows are in order of their paths.
pub open spec fn in_path_order(rows: Seq<Row>) -> bool {
    forall|i: int, j: int| 0 <= i < j < rows.len() ==> !seq_lt(#[trigger] rows[j].relative@, #[trigger] rows[i].relative@)
}

/// Rows in order of their paths, so the two sides read down the page
/// together.
pub fn sort_rows(rows: Vec<Row>) -> (r: Vec<Row>)
    ensures
        in_path_order(r@),
        r@.to_multiset() == rows@.to_multiset(),
{
    let ghost target = rows@.to_multiset();
    let mut reversed: Vec<Row> = Vec::new();
    let mut source = rows;
    proof {
        assert(reversed@.to_multiset().add(source@.to_multiset()) =~= target);
    }
    while source.len() > 0
        invariant
            reversed@.to_multiset().add(source@.to_multiset()) == target,
        decreases source.len(),
    {
        let ghost before = source@;
        let item = source.pop().unwrap();
        proof {
            assert(before =~= source@.push(item));
            assert(before.to_multiset() =~= source@.to_multiset().insert(item));
            assert(reversed@.push(item).to_multiset() =~= reversed@.to_multiset().insert(item));
        }
        reversed.push(item);
    }
    let mut out: Vec<Row> = Vec::new();
    proof {
        assert(source@.to_multiset() =~= vstd::multiset::Multiset::empty());
        assert(out@.to_multiset().add(reversed@.to_multiset()) =~= target);
    }
    while reversed.len() > 0
        invariant
            in_path_order(out@),
            out@.to_multiset().add(reversed@.to_multiset()) == target,
        decreases reversed.len(),
    {
        let ghost before = reversed@;
        let item = reversed.pop().unwrap();
        proof {
            assert(before =~= reversed@.push(item));
            assert(before.to_multiset() =~= reversed@.to_multiset().insert(item));
        }
        let ghost ov = out@;
        let mut pos: usize = 0;
        while pos < out.len()
            invariant
                pos <= out@.len(),
                ov == out@,
                forall|j: int| 0 <= j < pos ==> !seq_lt(item.relative@, #[trigger] ov[j].relative@),
            ensures
                pos <= out@.len(),
                forall|j: int| 0 <= j < pos ==> !seq_lt(item.relative@, #[trigger] ov[j].relative@),
                pos == out@.len() || seq_lt(item.relative@, ov[pos as int].relative@),
            decreases out.len() - pos,
        {
            match compare_str(item.relative.as_str(), out[pos].relative.as_str()) {
                Order::Less => {
                    break;
                },
                _ => {},
            }
            pos += 1;
        }
        out.insert(pos, item);
        proof {
            let nv = out@;
            assert(nv =~= ov.insert(pos as int, item));
            assert forall|i: int, j: int| 0 <= i < j < nv.len() implies !seq_lt(#[trigger] nv[j].relative@, #[trigger] nv[i].relative@) by {
                if j < pos {
                    assert(nv[i] == ov[i] && nv[j] == ov[j]);
                } else if i > pos {
                    assert(nv[i] == ov[i - 1] && nv[j] == ov[j - 1]);
                } else if j == pos {
                    assert(nv[i] == ov[i]);
                    crate::ordered::lemma_lt_total(item.relative@, ov[i].relative@);
                } else if i == pos {
                    assert(nv[j] == ov[j - 1]);
                    if seq_lt(ov[j - 1].relative@, item.relative@) {
                        if j - 1 == pos {
                            crate::ordered::lemma_lt_total(ov[j - 1].relative@, item.relative@);
                        } else {
                            assert(!seq_lt(ov[j - 1].relative@, ov[pos as int].relative@));
                            crate::ordered::lemma_lt_transitive(ov[j - 1].relative@, item.relative@, ov[pos as int].relative@);
                        }
                    }
                } else {
                    assert(nv[i] == ov[i] && nv[j] == ov[j - 1]);
                }
            }
            assert(nv.remove(pos as int) =~= ov);
            assert(nv.to_multiset() =~= ov.to_multiset().insert(item)) by {
                assert(nv.remove(pos as int).to_multiset() =~= nv.to_multiset().remove(nv[pos as int]));
                assert(nv.contains(item));
            }
            assert(nv.to_multiset().add(reversed@.to_multiset()) =~= target);
        }
    }
    proof {
        assert(reversed@.to_multiset() =~= vstd::multiset::Multiset::empty());
        assert(out@.to_multiset() =~= target);
    }
    out
}

/// A pair of folders waiting to be compared.
pub struct Pending {
    /// Their path relative to both roots.
    pub relative: String,
    /// The left folder's listing.
    pub left: Vec<Listed>,
    /// The right folder's listing.
    pub right: Vec<Listed>,
    /// How far below the roots they are.
    pub depth: usize,
}

/// A pending pair as plain values.
pub open spec fn pending_view(p: Pending) -> (Seq<char>, Seq<Listed>, Seq<Listed>, usize) {
    (p.relative@, p.left@, p.right@, p.depth)
}

/// What the caller is to do next in a comparison.
pub enum Next {
    /// List both of these, each pair in turn, and hand each pair of
    /// listings (or that one could not be read) to [`Walk::add_children`];
    /// then report [`Walk::progress`].
    List(Vec<(u64, u64)>),
    /// Nothing more: take the result with [`Walk::finish`].
    Finished,
}

/// A comparison of two folder trees in progress, folder by folder, in the
/// order they were found. Listing is the caller's: this decides what to
/// list, what each name's row says, and when to stop.
pub struct Walk {
    recursive: bool,
    pending: Vec<Pending>,
    head: usize,
    rows: Vec<Row>,
    truncated: bool,
    folders: u64,
    differences: u64,
    children: Vec<(String, u64, u64)>,
    next_child: usize,
    depth: usize,
    done: bool,
}

impl Walk {
    /// The folder pairs still to compare, the next first.
    pub closed spec fn queue(&self) -> Seq<(Seq<char>, Seq<Listed>, Seq<Listed>, usize)> {
        self.pending@.skip(self.head as int).map_values(|p: Pending| pending_view(p))
    }

    /// The rows so far, in the order they were found.
    pub closed spec fn rows_so_far(&self) -> Seq<Row> {
        self.rows@
    }

    /// Whether the comparison is over.
    pub closed spec fn is_over(&self) -> bool {
        self.done
    }

    /// Whether the row bound cut it short.
    pub closed spec fn cut_short(&self) -> bool {
        self.truncated
    }

    /// Folders read so far, both sides counted.
    pub closed spec fn folders_read(&self) -> u64 {
        self.folders
    }

    /// The folder pairs still to be listed from the folder last compared.
    pub closed spec fn to_list(&self) -> Seq<(Seq<char>, u64, u64)> {
        self.children@.skip(self.next_child as int).map_values(|c: (String, u64, u64)| child_view(c))
    }

    /// How deep the folder last compared is.
    pub closed spec fn depth_now(&self) -> usize {
        self.depth
    }

    /// Whether it goes all the way down.
    pub closed spec fn goes_down(&self) -> bool {
        self.recursive
    }

    /// The counts are those of the rows, and stay inside their types.
    pub closed spec fn wf(&self) -> bool {
        &&& self.head <= self.pending@.len()
        &&& self.next_child <= self.children@.len()
        &&& self.rows@.len() <= MAX_ROWS
        &&& self.differences == differences_in(self.rows@)
        &&& self.folders == 2 * self.pending@.len()
        &&& self.pending@.len() + (self.children@.len() - self.next_child) <= self.rows@.len() + 1
        &&& forall|i: int| 0 <= i < self.pending@.len() ==> (#[trigger] self.pending@[i]).depth < MAX_DEPTH
        &&& self.depth < MAX_DEPTH
        &&& self.next_child < self.children@.len() ==> self.depth + 1 < MAX_DEPTH
    }

    /// Start comparing two folders whose listings are in hand.
    pub fn new(left_root: Vec<Listed>, right_root: Vec<Listed>, recursive: bool) -> (r: Self)
        ensures
            r.wf(),
            r.queue() == seq![(Seq::<char>::empty(), left_root@, right_root@, 0usize)],
            r.rows_so_far().len() == 0,
            !r.is_over(),
            !r.cut_short(),
            r.folders_read() == 2,
            r.to_list().len() == 0,
            r.goes_down() == recursive,
    {
        let mut pending: Vec<Pending> = Vec::new();
        pending.push(Pending { relative: String::new(), left: left_root, right: right_root, depth: 0 });
        let r = Walk {
            recursive,
            pending,
            head: 0,
            rows: Vec::new(),
            truncated: false,
            folders: 2,
            differences: 0,
            children: Vec::new(),
            next_child: 0,
            depth: 0,
            done: false,
        };
        proof {
            assert(r.pending@.skip(0) =~= r.pending@);
            assert(r.queue() =~= seq![(Seq::<char>::empty(), left_root@, right_root@, 0usize)]);
            assert(r.to_list() =~= Seq::<(Seq<char>, u64, u64)>::empty());
        }
        r
    }

    /// Whether the row bound cut the comparison short.
    pub fn is_truncated(&self) -> (r: bool)
        ensures
            r == self.cut_short(),
    {
        self.truncated
    }

    /// How far the comparison has got.
    pub fn progress(&self) -> (r: Progress)
        requires
            self.wf(),
        ensures
            r.folders == self.folders_read(),
            r.rows == self.rows_so_far().len(),
            r.differences == differences_in(self.rows_so_far()),
    {
        Progress { folders: self.folders, rows: self.rows.len() as u64, differences: self.differences }
    }

    /// Compare the next folder pair: its rows are added, as many as the row
    /// bound leaves room for, and the folder pairs to go into from it are
    /// handed back to be listed. Nothing is compared once the comparison
    /// is over, cut short, out of folders, or `cancelled`.
    pub fn next_folder(&mut self, cancelled: bool) -> (r: Next)
        requires
            old(self).wf(),
        ensures
            final(self).wf(),
            final(self).goes_down() == old(self).goes_down(),
            final(self).rows_so_far().len() <= MAX_ROWS,
            if old(self).is_over() || old(self).cut_short() || old(self).queue().len() == 0 || cancelled {
                &&& r is Finished
                &&& final(self).is_over()
                &&& final(self).rows_so_far() == old(self).rows_so_far()
                &&& final(self).cut_short() == old(self).cut_short()
            } else {
                let f = old(self).queue()[0];
                exists|m: TextMap<String, (Option<usize>, Option<usize>)>| {
                    let ev = m.entries().map_values(|e: (String, (Option<usize>, Option<usize>))| entry_view(e));
                    let room = MAX_ROWS - old(self).rows_so_far().len();
                    let k = if room < ev.len() { room } else { ev.len() as int };
                    &&& #[trigger] pairs_names(m, f.1, f.2)
                    &&& final(self).rows_so_far().map_values(|row: Row| row_view(row)) == old(self).rows_so_far().map_values(
                        |row: Row| row_view(row),
                    ) + ev.take(k).map_values(|e: (Seq<char>, Option<usize>, Option<usize>)| row_for(f.0, e, f.1, f.2))
                    &&& final(self).cut_short() == (ev.len() > room)
                    &&& final(self).queue() == old(self).queue().drop_first()
                    &&& final(self).folders_read() == old(self).folders_read()
                    &&& if final(self).cut_short() {
                        &&& r is Finished
                        &&& final(self).is_over()
                    } else {
                        &&& !final(self).is_over()
                        &&& final(self).to_list() == children_of(f.0, ev, f.1, f.2, f.3 as int, old(self).goes_down())
                        &&& final(self).depth_now() == f.3
                        &&& r matches Next::List(keys) && keys@ == final(self).to_list().map_values(|c: (Seq<char>, u64, u64)| (c.1, c.2))
                    }
                }
            },
    {
        if self.done || self.truncated || self.head >= self.pending.len() || cancelled {
            self.done = true;
            return Next::Finished;
        }
        let ghost q = self.queue();
        let ghost old_rows = self.rows@;
        let at = self.head;
        proof {
            assert(self.pending@.skip(at as int)[0] == self.pending@[at as int]);
            assert(q[0] == pending_view(self.pending@[at as int]));
        }
        let names = pair_up(&self.pending[at].left, &self.pending[at].right);
        let room = MAX_ROWS - self.rows.len();
        let ghost ev = names.entries().map_values(|e: (String, (Option<usize>, Option<usize>))| entry_view(e));
        proof {
            let f = q[0];
            assert forall|i: int| 0 <= i < ev.len() implies (#[trigger] ev[i].1 matches Some(a) ==> a < f.1.len()) && (ev[i].2 matches Some(b) ==> b < f.2.len()) by {
                names.lemma_value_at(i);
                let k = names.keys()[i];
                assert(names.keys()[i] == ev[i].0);
                lemma_last_index(f.1, k);
                lemma_last_index(f.2, k);
            }
        }
        let folded = folder_rows(
            self.pending[at].relative.as_str(),
            names.as_slice(),
            &self.pending[at].left,
            &self.pending[at].right,
            self.pending[at].depth,
            self.recursive,
            room,
        );
        let depth = self.pending[at].depth;
        self.head = at + 1;
        let Folded { rows, children, truncated, differences } = folded;
        let mut more = rows;
        let ghost added = more@;
        self.rows.append(&mut more);
        proof {
            assert(self.rows@ == old_rows + added);
            lemma_differences_add(old_rows, added);
            lemma_differences_add(Seq::empty(), old_rows);
            assert(Seq::<Row>::empty() + old_rows =~= old_rows);
        }
        self.differences = self.differences + differences;
        proof {
            assert(self.pending@.skip(self.head as int) =~= self.pending@.skip(at as int).drop_first());
            assert(self.queue() =~= q.drop_first());
            assert(self.rows@.map_values(|row: Row| row_view(row)) =~= old_rows.map_values(|row: Row| row_view(row)) + added.map_values(|row: Row| row_view(row)));
        }
        if truncated {
            self.truncated = true;
            self.done = true;
            self.children = Vec::new();
            self.next_child = 0;
            proof {
                assert(names.entries().len() == ev.len());
            }
            return Next::Finished;
        }
        self.depth = depth;
        self.next_child = 0;
        let mut keys: Vec<(u64, u64)> = Vec::new();
        let mut i: usize = 0;
        while i < children.len()
            invariant
                i <= children@.len(),
                keys@ == children@.take(i as int).map_values(|c: (String, u64, u64)| (c.1, c.2)),
            decreases children.len() - i,
        {
            keys.push((children[i].1, children[i].2));
            proof {
                assert(children@.take(i + 1) =~= children@.take(i as int).push(children@[i as int]));
            }
            i += 1;
        }
        proof {
            assert(children@.take(i as int) =~= children@);
            assert(ev.take(ev.len() as int) =~= ev);
            lemma_children_fewer(q[0].0, ev, q[0].1, q[0].2, depth as int, self.recursive);
        }
        self.children = children;
        proof {
            assert(self.children@.skip(0) =~= self.children@);
            assert(self.to_list() =~= children_of(q[0].0, ev, q[0].1, q[0].2, depth as int, self.recursive));
            assert(keys@ =~= self.to_list().map_values(|c: (Seq<char>, u64, u64)| (c.1, c.2)));
            if self.children@.len() > 0 {
                lemma_children_deep(q[0].0, ev, q[0].1, q[0].2, depth as int, self.recursive);
            }
            assert(pairs_names(names, q[0].1, q[0].2));
        }
        Next::List(keys)
    }

    /// Hand over the listings of the next folder pair to go into, or that
    /// one of them could not be read, which leaves that pair out and the
    /// rest of the comparison going.
    pub fn add_children(&mut self, listing: Option<(Vec<Listed>, Vec<Listed>)>)
        requires
            old(self).wf(),
            old(self).to_list().len() > 0,
        ensures
            final(self).wf(),
            final(self).goes_down() == old(self).goes_down(),
            final(self).to_list() == old(self).to_list().drop_first(),
            final(self).rows_so_far() == old(self).rows_so_far(),
            final(self).is_over() == old(self).is_over(),
            final(self).cut_short() == old(self).cut_short(),
            final(self).depth_now() == old(self).depth_now(),
            match listing {
                Some((l, r)) => {
                    &&& final(self).queue() == old(self).queue().push((old(self).to_list()[0].0, l@, r@, (old(self).depth_now() + 1) as usize))
                    &&& final(self).folders_read() == old(self).folders_read() + 2
                },
                None => {
                    &&& final(self).queue() == old(self).queue()
                    &&& final(self).folders_read() == old(self).folders_read()
                },
            },
    {
        let k = self.next_child;
        let ghost old_pending = self.pending@;
        proof {
            assert(self.children@.skip(k as int).len() > 0);
            assert(self.children.len() == self.children@.len());
            assert(self.children@.skip(k as int)[0] == self.children@[k as int]);
        }
        let mut relative = String::new();
        push_str(&mut relative, self.children[k].0.as_str());
        self.next_child = k + 1;
        match listing {
            Some((left, right)) => {
                self.pending.push(Pending { relative, left, right, depth: self.depth + 1 });
                self.folders = self.folders + 2;
                proof {
                    assert(self.pending@.skip(self.head as int) =~= old_pending.skip(self.head as int).push(self.pending@.last()));
                }
            },
            None => {},
        }
        proof {
            assert(self.children@.skip(self.next_child as int) =~= self.children@.skip(k as int).drop_first());
            assert forall|i: int| 0 <= i < self.pending@.len() implies (#[trigger] self.pending@[i]).depth < MAX_DEPTH by {
                if i < old_pending.len() {
                    assert(self.pending@[i] == old_pending[i]);
                }
            }
        }
    }

    /// The result: the rows in order of their paths, and whether the row
    /// bound cut the comparison short.
    pub fn finish(self) -> (r: Comparison)
        requires
            self.wf(),
        ensures
            r.truncated == self.cut_short(),
            in_path_order(r.rows@),
            r.rows@.to_multiset() == self.rows_so_far().to_multiset(),
            r.rows@.len() <= MAX_ROWS,
    {
        let rows = sort_rows(self.rows);
        proof {
            assert(rows@.len() == rows@.to_multiset().len());
            assert(self.rows@.len() == self.rows@.to_multiset().len());
        }
        Comparison { rows, truncated: self.truncated }
    }
}

/// The differences of rows end to end add up.
proof fn lemma_differences_add(a: Seq<Row>, b: Seq<Row>)
    ensures
        differences_in(a + b) == differences_in(a) + differences_in(b),
        differences_in(b) <= b.len(),
        differences_in(b) >= 0,
    decreases b.len(),
{
    if b.len() == 0 {
        assert(a + b =~= a);
    } else {
        assert((a + b).drop_last() =~= a + b.drop_last());
        lemma_differences_add(a, b.drop_last());
    }
}

/// No more folders to go into than names.
proof fn lemma_children_fewer(prefix: Seq<char>, es: Seq<(Seq<char>, Option<usize>, Option<usize>)>, left: Seq<Listed>, right: Seq<Listed>, depth: int, recursive: bool)
    ensures
        children_of(prefix, es, left, right, depth, recursive).len() <= es.len(),
    decreases es.len(),
{
    if es.len() > 0 {
        lemma_children_fewer(prefix, es.drop_last(), left, right, depth, recursive);
    }
}

/// Folders to go into come only from above the depth bound.
proof fn lemma_children_deep(prefix: Seq<char>, es: Seq<(Seq<char>, Option<usize>, Option<usize>)>, left: Seq<Listed>, right: Seq<Listed>, depth: int, recursive: bool)
    requires
        children_of(prefix, es, left, right, depth, recursive).len() > 0,
    ensures
        depth + 1 < MAX_DEPTH,
    decreases es.len(),
{
    if es.len() > 0 && !descends(es.last(), left, right, depth, recursive) {
        lemma_children_deep(prefix, es.drop_last(), left, right, depth, recursive);
    }
}

} // verus!
