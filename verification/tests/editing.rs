use filework::hexedit::find::{find_forward, Kind, Needle};
use filework::hexedit::{Buffer, Column, History, Mode, Session};

fn buffer(contents: &[u8]) -> Buffer<Vec<u8>> {
    Buffer::new(contents.to_vec())
}

fn all(b: &mut Buffer<Vec<u8>>) -> Vec<u8> {
    let len = usize::try_from(b.len()).unwrap();
    b.read_bytes(0, len).unwrap()
}

fn history(contents: &[u8]) -> History<Vec<u8>> {
    History::new(buffer(contents))
}

fn all_of(h: &mut History<Vec<u8>>) -> Vec<u8> {
    all(h.buffer_mut())
}

fn session(contents: &[u8]) -> Session<Vec<u8>> {
    Session::open(contents.to_vec())
}

fn text(s: &mut Session<Vec<u8>>) -> Vec<u8> {
    all(s.buffer_mut())
}

#[test]
fn an_untouched_buffer_reads_back_the_file_and_is_not_modified() {
    let mut b = buffer(b"hello world");
    assert_eq!(all(&mut b), b"hello world");
    assert_eq!(b.len(), 11);
    assert!(!b.is_modified());
    assert!(b.modified_ranges().is_empty());
}

#[test]
fn reading_past_the_end_stops_rather_than_failing() {
    let mut b = buffer(b"abc");
    assert_eq!(b.read_bytes(1, 99).unwrap(), b"bc");
    assert_eq!(b.read_bytes(3, 4).unwrap(), b"");
}

#[test]
fn overwrite_replaces_in_place_and_marks_only_those_bytes() {
    let mut b = buffer(b"hello world");
    b.overwrite(6, b"WORLD");
    assert_eq!(all(&mut b), b"hello WORLD");
    assert_eq!(b.len(), 11, "overwrite changed the length");
    assert_eq!(b.modified_ranges(), vec![(6, 5)]);

    let read = b.read(0, 11).unwrap();
    assert!(read[..6].iter().all(|x| !x.modified));
    assert!(read[6..].iter().all(|x| x.modified));
}

#[test]
fn insert_moves_the_tail_along_without_marking_it() {
    let mut b = buffer(b"hello");
    b.insert(0, b">> ");
    assert_eq!(all(&mut b), b">> hello");
    assert_eq!(b.modified_ranges(), vec![(0, 3)]);
    let read = b.read(0, 8).unwrap();
    assert!(
        read[3..].iter().all(|x| !x.modified),
        "bytes that only moved were reported as changed"
    );
}

#[test]
fn delete_pulls_the_tail_back() {
    let mut b = buffer(b"hello world");
    b.delete(5, 6);
    assert_eq!(all(&mut b), b"hello");
    assert!(b.is_modified());
    assert!(
        b.modified_ranges().is_empty(),
        "nothing was added, so nothing should be coloured as added"
    );
}

#[test]
fn deleting_more_than_is_there_stops_at_the_end() {
    let mut b = buffer(b"abc");
    b.delete(1, 999);
    assert_eq!(all(&mut b), b"a");
}

#[test]
fn overwriting_at_the_very_end_extends_rather_than_doing_nothing() {
    let mut b = buffer(b"ab");
    b.overwrite(2, b"cd");
    assert_eq!(all(&mut b), b"abcd");
}

#[test]
fn edits_compose_in_any_order_and_the_bytes_stay_right() {
    let mut b = buffer(b"0123456789");
    b.insert(5, b"---");
    b.overwrite(0, b"X");
    b.delete(9, 2);
    // 0123456789 -> 01234---56789 -> X1234---56789 -> X1234---589
    assert_eq!(all(&mut b), b"X1234---589");
}

#[test]
fn an_empty_file_can_be_typed_into() {
    let mut b = buffer(b"");
    assert!(b.is_empty());
    b.insert(0, b"new");
    assert_eq!(all(&mut b), b"new");
    assert!(b.is_modified());
}

#[test]
fn a_taken_stretch_put_back_reads_as_never_edited() {
    let mut b = buffer(b"0123456789");
    let removed = b.take(2, 5);
    assert_eq!(removed.len(), 5);
    assert!(!removed.is_empty());
    assert_eq!(all(&mut b), b"01789");
    b.put(2, &removed);
    assert_eq!(all(&mut b), b"0123456789");
    assert!(!b.is_modified());
    assert!(b.modified_ranges().is_empty());
}

#[test]
fn taking_nothing_hands_back_nothing() {
    let mut b = buffer(b"abc");
    assert!(b.take(1, 0).is_empty());
    assert!(b.take(3, 2).is_empty());
    assert_eq!(all(&mut b), b"abc");
    assert!(!b.is_modified());
}

#[test]
fn separate_changes_are_separate_ranges_and_touching_ones_merge() {
    let mut b = buffer(b"0123456789");
    b.overwrite(1, b"A");
    b.overwrite(2, b"B");
    b.overwrite(7, b"C");
    assert_eq!(b.modified_ranges(), vec![(1, 2), (7, 1)]);
    assert_eq!(b.original_len(), 10);
}

#[test]
fn a_search_sees_the_buffer_as_edited() {
    let mut b = buffer(b"..........");
    b.overwrite(4, &[0xde, 0xad]);
    let needle = Needle::compile("DE AD", Kind::Hex).unwrap();
    assert_eq!(find_forward(&mut b, &needle, 0).unwrap(), Some(4));
}

#[test]
fn undo_puts_back_each_kind_of_edit() {
    let mut h = history(b"hello world");

    h.overwrite(0, b"HELLO").unwrap();
    assert_eq!(all_of(&mut h), b"HELLO world");
    h.undo();
    assert_eq!(all_of(&mut h), b"hello world");

    h.insert(5, b",");
    assert_eq!(all_of(&mut h), b"hello, world");
    h.undo();
    assert_eq!(all_of(&mut h), b"hello world");

    h.delete(5, 6).unwrap();
    assert_eq!(all_of(&mut h), b"hello");
    h.undo();
    assert_eq!(all_of(&mut h), b"hello world");

    assert!(!h.can_undo());
    assert!(!h.buffer().is_modified(), "undone all the way is unmodified");
}

#[test]
fn redo_replays_each_kind_of_edit() {
    let mut h = history(b"hello world");

    h.insert(0, b">>");
    h.overwrite(2, b"HELLO").unwrap();
    h.delete(7, 6).unwrap();
    let after_all = all_of(&mut h);

    h.undo();
    h.undo();
    h.undo();
    assert_eq!(all_of(&mut h), b"hello world");
    assert!(h.can_redo());

    h.redo();
    h.redo();
    h.redo();
    assert_eq!(all_of(&mut h), after_all, "redo did not land where undo left");
    assert!(!h.can_redo());
}

#[test]
fn a_long_run_of_edits_undoes_all_the_way_back_and_redoes_all_the_way_out() {
    let mut h = history(b"0123456789");
    for i in 0..20u8 {
        if i % 3 == 0 {
            h.insert(u64::from(i) % 5, &[b'a' + i]);
        } else if i % 3 == 1 {
            h.overwrite(u64::from(i) % 7, &[b'A' + i]).unwrap();
        } else {
            h.delete(u64::from(i) % 4, 1).unwrap();
        }
    }
    let end = all_of(&mut h);
    assert_eq!(h.depth(), 20);

    while h.can_undo() {
        h.undo();
    }
    assert_eq!(all_of(&mut h), b"0123456789");
    assert!(!h.buffer().is_modified());

    while h.can_redo() {
        h.redo();
    }
    assert_eq!(all_of(&mut h), end);
}

#[test]
fn undoing_gives_the_bytes_back_their_provenance_not_just_their_values() {
    let mut h = history(b"hello world");
    h.overwrite(0, b"HELLO").unwrap();
    h.undo();

    let read = h.buffer_mut().read(0, 11).unwrap();
    assert_eq!(
        read.iter().map(|b| b.value).collect::<Vec<_>>(),
        b"hello world".to_vec()
    );
    assert!(
        read.iter().all(|b| !b.modified),
        "bytes that were put back still read as edited"
    );
    assert!(!h.buffer().is_modified());
    assert!(h.buffer().modified_ranges().is_empty());
}

#[test]
fn a_deleted_stretch_comes_back_unedited_too() {
    let mut h = history(b"0123456789");
    h.delete(3, 4).unwrap();
    h.undo();
    let read = h.buffer_mut().read(0, 10).unwrap();
    assert!(read.iter().all(|b| !b.modified));
    assert!(!h.buffer().is_modified());
}

#[test]
fn editing_after_an_undo_abandons_the_redo_branch() {
    let mut h = history(b"abc");
    h.overwrite(0, b"X").unwrap();
    h.undo();
    assert!(h.can_redo());
    h.overwrite(1, b"Y").unwrap();
    assert!(
        !h.can_redo(),
        "redo would replay against bytes it was not recorded against"
    );
    assert_eq!(all_of(&mut h), b"aYc");
}

#[test]
fn undoing_an_overwrite_that_extended_the_file_shortens_it_again() {
    let mut h = history(b"ab");
    h.overwrite(1, b"XYZ").unwrap();
    assert_eq!(all_of(&mut h), b"aXYZ");
    h.undo();
    assert_eq!(all_of(&mut h), b"ab", "the extension was left behind");
    h.redo();
    assert_eq!(all_of(&mut h), b"aXYZ");
}

#[test]
fn undo_reports_where_it_happened_so_the_cursor_can_follow() {
    let mut h = history(b"0123456789");
    h.overwrite(4, b"X").unwrap();
    assert_eq!(h.undo(), Some(4));
    assert_eq!(h.redo(), Some(4));
    assert_eq!(h.undo(), Some(4));
    assert_eq!(h.undo(), None);
}

#[test]
fn an_undone_then_redone_insert_is_still_marked_as_added() {
    let mut h = history(b"abc");
    h.insert(1, b"XY");
    h.undo();
    h.redo();
    let read = h.buffer_mut().read(0, 5).unwrap();
    let marks: Vec<bool> = read.iter().map(|b| b.modified).collect();
    assert_eq!(marks, vec![false, true, true, false, false]);
    assert_eq!(h.buffer().modified_ranges(), vec![(1, 2)]);
}

#[test]
fn a_file_opens_read_only_so_a_stray_key_cannot_change_it() {
    let mut s = session(b"hello");
    assert_eq!(s.mode(), Mode::ReadOnly);
    assert!(!s.type_hex_digit('4').unwrap());
    s.set_column(Column::Text);
    assert!(!s.type_byte(b'X').unwrap());
    s.delete_forward().unwrap();
    assert_eq!(text(&mut s), b"hello");
    assert!(!s.is_modified());
}

#[test]
fn two_hex_digits_make_one_byte_and_the_first_alone_changes_nothing() {
    let mut s = session(b"\x00\x00");
    s.set_mode(Mode::Overwrite);

    assert!(s.type_hex_digit('4').unwrap());
    assert!(s.has_pending_nibble());
    assert_eq!(text(&mut s), b"\x00\x00", "half a byte was written");
    assert_eq!(s.cursor(), 0);

    assert!(s.type_hex_digit('1').unwrap());
    assert!(!s.has_pending_nibble());
    assert_eq!(text(&mut s), b"\x41\x00");
    assert_eq!(s.cursor(), 1, "the cursor did not step on to the next byte");
}

#[test]
fn the_text_column_takes_one_keystroke_per_byte() {
    let mut s = session(b"aaaa");
    s.set_mode(Mode::Overwrite);
    s.set_column(Column::Text);
    s.type_byte(b'X').unwrap();
    s.type_byte(b'Y').unwrap();
    assert_eq!(text(&mut s), b"XYaa");
    assert_eq!(s.cursor(), 2);
}

#[test]
fn overwrite_keeps_the_length_and_insert_grows_it() {
    let mut s = session(b"abcd");
    s.set_mode(Mode::Overwrite);
    s.write(b"XY").unwrap();
    assert_eq!(text(&mut s), b"XYcd");
    assert_eq!(s.len(), 4);

    s.move_to(0, false);
    s.set_mode(Mode::Insert);
    s.write(b"ZZ").unwrap();
    assert_eq!(text(&mut s), b"ZZXYcd");
    assert_eq!(s.len(), 6);
}

#[test]
fn switching_mode_drops_a_half_typed_byte() {
    let mut s = session(b"\x00");
    s.set_mode(Mode::Overwrite);
    s.type_hex_digit('f').unwrap();
    assert!(s.has_pending_nibble());
    s.set_mode(Mode::Insert);
    assert!(!s.has_pending_nibble(), "half a byte survived a mode change");
    assert_eq!(text(&mut s), b"\x00");
}

#[test]
fn a_selection_knows_its_range_whichever_way_it_was_dragged() {
    let mut s = session(b"0123456789");
    s.move_to(7, false);
    s.move_to(2, true);
    let selection = s.selection().unwrap();
    assert_eq!((selection.start(), selection.end()), (2, 7));
    assert_eq!(selection.len(), 5);
}

#[test]
fn typing_over_a_selection_replaces_it() {
    let mut s = session(b"0123456789");
    s.set_mode(Mode::Insert);
    s.move_to(2, false);
    s.move_to(5, true);
    s.write(b"--").unwrap();
    assert_eq!(text(&mut s), b"01--56789");
    assert!(s.selection().is_none());
    assert_eq!(s.cursor(), 4);
}

#[test]
fn backspace_and_delete_do_the_two_different_things() {
    let mut s = session(b"abcdef");
    s.set_mode(Mode::Insert);
    s.move_to(3, false);
    s.delete_forward().unwrap();
    assert_eq!(text(&mut s), b"abcef");
    s.delete_backward().unwrap();
    assert_eq!(text(&mut s), b"abef");
    assert_eq!(s.cursor(), 2);
}

#[test]
fn backspace_at_the_start_does_nothing_rather_than_wrapping() {
    let mut s = session(b"abc");
    s.set_mode(Mode::Insert);
    s.move_to(0, false);
    s.delete_backward().unwrap();
    assert_eq!(text(&mut s), b"abc");
    assert_eq!(s.cursor(), 0);
}

#[test]
fn the_cursor_cannot_be_moved_past_the_end() {
    let mut s = session(b"abc");
    s.move_to(999, false);
    assert_eq!(s.cursor(), 3);
}

#[test]
fn undo_and_redo_move_the_cursor_to_the_change() {
    let mut s = session(b"abcdef");
    s.set_mode(Mode::Overwrite);
    s.move_to(4, false);
    s.write(b"Z").unwrap();
    assert_eq!(text(&mut s), b"abcdZf");

    s.undo();
    assert_eq!(text(&mut s), b"abcdef");
    assert_eq!(s.cursor(), 4);
    assert!(!s.is_modified());

    s.redo();
    assert_eq!(text(&mut s), b"abcdZf");
    assert_eq!(s.cursor(), 4);
}

#[test]
fn a_bookmark_is_one_entry_per_offset_and_stays_inside_the_file() {
    let mut s = session(b"0123456789");
    s.add_bookmark(8, "header");
    s.add_bookmark(2, "magic");
    s.add_bookmark(8, "trailer");
    assert_eq!(s.bookmarks().len(), 2, "one offset made two entries");
    assert_eq!(s.bookmarks()[0].offset, 2, "not in file order");
    assert_eq!(s.bookmarks()[1].label, "trailer");

    s.set_mode(Mode::Insert);
    s.move_to(0, false);
    s.move_to(10, true);
    s.delete_forward().unwrap();
    assert!(
        s.bookmarks().iter().all(|b| b.offset <= s.len()),
        "a bookmark points past the end of the file"
    );
}

#[test]
fn the_summary_says_what_changed_and_whether_the_file_resized() {
    let mut s = session(b"0123456789");
    s.set_mode(Mode::Overwrite);
    s.move_to(1, false);
    s.write(b"XY").unwrap();
    s.move_to(6, false);
    s.write(b"Z").unwrap();

    let summary = s.summary();
    assert_eq!(summary.changed_bytes(), 3);
    assert_eq!(summary.ranges, vec![(1, 2), (6, 1)]);
    assert_eq!(summary.edits, 2);
    assert!(!summary.resized());

    s.set_mode(Mode::Insert);
    s.write(b"!!").unwrap();
    assert!(s.summary().resized());
    assert_eq!(s.summary().new_len, 12);
}

#[test]
fn a_search_runs_over_the_session_without_copying_the_file() {
    let mut s = session(b"....PK\x03\x04....");
    let needle = Needle::compile("50 4B 03 04", Kind::Hex).unwrap();
    assert_eq!(find_forward(&mut s, &needle, 0).unwrap(), Some(4));
}

#[test]
fn a_search_sees_edits_that_have_not_been_saved_yet() {
    let mut s = session(b"..........");
    s.set_mode(Mode::Overwrite);
    s.move_to(3, false);
    s.write(&[0xde, 0xad]).unwrap();
    let needle = Needle::compile("DE AD", Kind::Hex).unwrap();
    assert_eq!(
        find_forward(&mut s, &needle, 0).unwrap(),
        Some(3),
        "the search read the file instead of the buffer"
    );
}

#[test]
fn removing_a_bookmark_forgets_only_that_offset() {
    let mut s = session(b"0123456789");
    s.add_bookmark(3, "a");
    s.add_bookmark(7, "b");
    s.add_bookmark(99, "end");
    assert_eq!(s.bookmarks()[2].offset, 10);
    s.remove_bookmark(3);
    let offsets: Vec<u64> = s.bookmarks().iter().map(|b| b.offset).collect();
    assert_eq!(offsets, vec![7, 10]);
}

#[test]
fn selected_bytes_are_the_selection_or_the_byte_under_the_cursor() {
    let mut s = session(b"0123456789");
    s.move_to(4, false);
    assert_eq!(s.selected_bytes().unwrap(), b"4");
    s.move_to(7, true);
    assert_eq!(s.selected_bytes().unwrap(), b"456");
    s.select_all();
    assert_eq!(s.selected_bytes().unwrap(), b"0123456789");
    s.move_to(10, false);
    assert_eq!(s.selected_bytes().unwrap(), b"");
}

#[test]
fn a_mode_names_its_indicator_and_says_whether_it_edits() {
    assert_eq!(Mode::ReadOnly.label_key(), "hex.mode.readonly");
    assert_eq!(Mode::Overwrite.label_key(), "hex.mode.overwrite");
    assert_eq!(Mode::Insert.label_key(), "hex.mode.insert");
    assert!(!Mode::ReadOnly.edits());
    assert!(Mode::Overwrite.edits() && Mode::Insert.edits());
    assert_eq!(Mode::default(), Mode::ReadOnly);
    assert_eq!(Column::default(), Column::Hex);
}

#[test]
fn writing_in_read_only_mode_takes_out_a_selection_and_types_nothing() {
    let mut s = session(b"abcdef");
    s.move_to(1, false);
    s.move_to(3, true);
    s.write(b"ZZ").unwrap();
    assert_eq!(text(&mut s), b"adef");
    assert_eq!(s.cursor(), 1);
}

#[test]
fn a_non_hex_key_in_the_hex_column_is_not_used() {
    let mut s = session(b"\x00");
    s.set_mode(Mode::Overwrite);
    assert!(!s.type_hex_digit('g').unwrap());
    assert!(!s.has_pending_nibble());
    assert!(s.type_hex_digit('A').unwrap());
    assert!(s.type_hex_digit('b').unwrap());
    assert_eq!(text(&mut s), b"\xab");
}

#[test]
fn typing_over_a_selection_in_read_only_mode_changes_nothing() {
    let mut s = session(b"hello");
    s.select_all();
    s.write(b"XY").unwrap();
    assert_eq!(text(&mut s), b"hello");
    assert!(!s.is_modified());
    assert!(s.selection().is_some());
    assert!(!s.can_undo());
}
