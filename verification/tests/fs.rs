use filework::error::ErrorCode;
use filework::fs::connect::{decide, key_field, Endpoint, UnknownHostPolicy};
use filework::fs::compare::{same_time, unreadable, verdict, Comparison, Difference, Row, Side};
use filework::location::Location;
use filework::fs::folder_size::{FolderSize, SizeCache, FRESH_FOR_NANOS, MAX_CACHED, MAX_DEPTH};
use filework::fs::usage::{group_of, UsageTally};
use filework::fs::{
    compression_of, entry_line, escapes, host_pattern, inner_name, is_tar_header, safe_destination, verify,
    Compression, Extracted, Extraction, HostKeyVerdict, MemberPlan, MAX_MEMBER_BYTES, MAX_TOTAL_BYTES,
};

const KEY: &str = "AAAAC3NzaC1lZDI1NTE5AAAAIExample";

#[test]
fn a_recorded_host_with_the_same_key_is_known() {
    let file = format!("example.com ssh-ed25519 {KEY}\n");
    assert_eq!(verify(&file, "example.com", 22, KEY), HostKeyVerdict::Known);
}

#[test]
fn a_recorded_host_with_a_different_key_is_a_refusal_not_a_question() {
    let file = format!("example.com ssh-ed25519 {KEY}\n");
    let verdict = verify(&file, "example.com", 22, "AAAAsomethingelse");
    assert!(
        matches!(verdict, HostKeyVerdict::Changed { .. }),
        "a changed key must come back as Changed"
    );
}

#[test]
fn a_non_default_port_is_matched_the_way_openssh_writes_it() {
    let file = format!("[example.com]:2222 ssh-ed25519 {KEY}\n");
    assert_eq!(verify(&file, "example.com", 2222, KEY), HostKeyVerdict::Known);
    assert!(matches!(verify(&file, "example.com", 22, KEY), HostKeyVerdict::Unknown { .. }));
}

#[test]
fn one_line_may_list_several_names() {
    let file = format!("example.com,203.0.113.7 ssh-ed25519 {KEY}\n");
    assert_eq!(verify(&file, "203.0.113.7", 22, KEY), HostKeyVerdict::Known);
}

#[test]
fn a_hashed_entry_is_reported_unknown_rather_than_guessed_at() {
    let file = format!("|1|abc=|def= ssh-ed25519 {KEY}\n");
    assert!(matches!(verify(&file, "example.com", 22, KEY), HostKeyVerdict::Unknown { .. }));
}

#[test]
fn an_unknown_host_reports_the_fingerprint_to_show_the_user() {
    let verdict = verify("", "example.com", 22, KEY);
    assert_eq!(verdict, HostKeyVerdict::Unknown { fingerprint: KEY.to_string() });
}

#[test]
fn the_line_written_back_is_the_one_openssh_would_match() {
    assert_eq!(
        entry_line("example.com", 2222, "ssh-ed25519", KEY),
        format!("[example.com]:2222 ssh-ed25519 {KEY}\n")
    );
}

#[test]
fn an_accepted_host_is_known_the_next_time() {
    for port in [22u16, 2222] {
        let file = entry_line("host.example", port, "ssh-ed25519", KEY);
        assert_eq!(verify(&file, "host.example", port, KEY), HostKeyVerdict::Known);
    }
}

#[test]
fn the_first_entry_for_a_host_decides_and_comments_are_skipped() {
    let file = format!(
        "# example.com ssh-ed25519 commented\n\n  other.org ssh-rsa AAAAother\nexample.com ssh-ed25519 {KEY}\nexample.com ssh-ed25519 AAAAlater\n"
    );
    assert_eq!(verify(&file, "example.com", 22, KEY), HostKeyVerdict::Known);
    let changed = verify(&file, "example.com", 22, "AAAAnew");
    assert_eq!(
        changed,
        HostKeyVerdict::Changed { expected: KEY.to_string(), offered: "AAAAnew".to_string() }
    );
    assert_eq!(changed.to_string(), format!("host key changed: expected {KEY}, offered AAAAnew"));
}

#[test]
fn a_line_without_a_key_is_not_an_entry() {
    assert!(matches!(
        verify("example.com ssh-ed25519\n", "example.com", 22, KEY),
        HostKeyVerdict::Unknown { .. }
    ));
}

#[test]
fn the_pattern_is_bare_on_the_default_port() {
    assert_eq!(host_pattern("example.com", 22), "example.com");
    assert_eq!(host_pattern("example.com", 8022), "[example.com]:8022");
}

#[test]
fn a_member_name_that_climbs_out_is_refused() {
    for name in ["../escaped.txt", "../../further.txt", "a/../../sideways.txt", "..\\windows-style.txt", "a\\..\\..\\escaped.txt", "", ".", "./"] {
        assert_eq!(safe_destination("/tmp/into", name), None, "{name:?}");
    }
}

#[test]
fn a_member_name_lands_beneath_the_destination() {
    assert_eq!(safe_destination("/tmp/into", "ok.txt").as_deref(), Some("/tmp/into/ok.txt"));
    assert_eq!(
        safe_destination("/tmp/into", "deep//inner/./file.txt").as_deref(),
        Some("/tmp/into/deep/inner/file.txt")
    );
    assert_eq!(safe_destination("/tmp/into/", "/absolute.txt").as_deref(), Some("/tmp/into/absolute.txt"));
    assert_eq!(safe_destination("/tmp/into", "a\\b.txt").as_deref(), Some("/tmp/into/a/b.txt"));
}

#[test]
fn a_name_that_means_to_leave_is_flagged() {
    assert!(escapes("/tmp/x"));
    assert!(escapes("a/../b"));
    assert!(escapes("C:/Windows"));
    assert!(escapes("\\server\\share"));
    assert!(!escapes("a/b.txt"));
    assert!(!escapes("a..b"));
}

fn wanted(names: &[&str]) -> Vec<String> {
    names.iter().map(|n| n.to_string()).collect()
}

#[test]
fn zip_members_are_decided_in_order_and_counted() {
    let mut run = Extraction::new();
    assert_eq!(
        run.consider_zip("/d", "x.txt", &wanted(&["y.txt"]), true, false, false, 10).unwrap(),
        MemberPlan::Skip
    );
    assert_eq!(run.consider_zip("/d", "../x", &[], true, false, false, 10).unwrap(), MemberPlan::Refuse);
    assert_eq!(run.consider_zip("/d", "x", &[], false, false, false, 10).unwrap(), MemberPlan::Refuse);
    assert_eq!(
        run.consider_zip("/d", "dir/", &[], true, true, false, 0).unwrap(),
        MemberPlan::Folder("/d/dir".to_string())
    );
    assert_eq!(run.consider_zip("/d", "link", &[], true, false, true, 0).unwrap(), MemberPlan::Refuse);
    let err = run.consider_zip("/d", "huge", &[], true, false, false, MAX_MEMBER_BYTES + 1).unwrap_err();
    assert_eq!(err.code(), ErrorCode::LimitExceeded);
    assert_eq!(
        run.consider_zip("/d", "a/b.txt", &wanted(&["a/b.txt"]), true, false, false, 7).unwrap(),
        MemberPlan::File("/d/a/b.txt".to_string())
    );
    run.take_bytes(7, false).unwrap();
    run.finish_member();
    let done = run.done();
    assert_eq!(done, Extracted { files: 1, folders: 1, bytes: 7, refused: 3 });
}

#[test]
fn an_archive_that_expands_past_the_bound_is_stopped() {
    let mut run = Extraction::new();
    run.take_bytes(MAX_TOTAL_BYTES, false).unwrap();
    assert_eq!(run.take_bytes(1, false).unwrap_err().code(), ErrorCode::LimitExceeded);
    let mut run = Extraction::new();
    run.take_bytes(MAX_MEMBER_BYTES, true).unwrap();
    assert!(run.take_bytes(1, true).is_err(), "one member past its own bound");
    run.finish_member();
    run.begin_member();
    assert!(run.take_bytes(1, true).is_ok(), "the next member starts from nothing");
}

#[test]
fn tar_members_are_decided_in_order_and_counted() {
    let mut run = Extraction::new();
    assert_eq!(run.consider_tar("/d", "", &[], false, false, true), MemberPlan::Skip);
    assert_eq!(run.consider_tar("/d", "/tmp/x", &[], false, false, true), MemberPlan::Refuse);
    assert_eq!(run.consider_tar("/d", "l", &[], true, false, false), MemberPlan::Refuse);
    assert_eq!(run.consider_tar("/d", "fifo", &[], false, false, false), MemberPlan::Refuse);
    assert_eq!(run.consider_tar("/d", "sub", &[], false, true, false), MemberPlan::Folder("/d/sub".to_string()));
    assert_eq!(run.consider_tar("/d", "sub/f", &[], false, false, true), MemberPlan::File("/d/sub/f".to_string()));
    assert_eq!(run.consider_single("/d", "C:evil"), MemberPlan::Refuse);
    assert_eq!(run.consider_single("/d", "notes.txt"), MemberPlan::File("/d/notes.txt".to_string()));
    assert_eq!(run.done().refused, 4);
    assert_eq!(run.done().folders, 1);
}

#[test]
fn a_stream_says_how_it_is_compressed() {
    assert_eq!(compression_of(&[0x1f, 0x8b, 8, 0, 0, 0]), Some(Compression::Gzip));
    assert_eq!(compression_of(b"BZh91A"), Some(Compression::Bzip2));
    assert_eq!(compression_of(&[0xfd, b'7', b'z', b'X', b'Z', 0x00]), Some(Compression::Xz));
    assert_eq!(compression_of(b"ustar"), None);
    assert_eq!(compression_of(&[0x1f]), None);
}

#[test]
fn a_tar_header_carries_ustar() {
    let mut header = vec![0_u8; 512];
    assert!(!is_tar_header(&header));
    header[257..262].copy_from_slice(b"ustar");
    assert!(is_tar_header(&header));
    assert!(!is_tar_header(&header[..261]));
}

#[test]
fn the_file_inside_a_bare_compressed_stream_is_named_after_it() {
    assert_eq!(inner_name("notes.txt.gz"), "notes.txt");
    assert_eq!(inner_name("dump.bz2"), "dump");
    assert_eq!(inner_name("a.tgz"), "a");
    assert_eq!(inner_name("mystery"), "mystery.out");
}

#[test]
fn only_plain_and_gzip_tars_are_written() {
    assert!(Compression::Uncompressed.can_write());
    assert!(Compression::Gzip.can_write());
    assert!(!Compression::Bzip2.can_write());
    assert!(!Compression::Xz.can_write());
    assert_eq!(Compression::Gzip.extension(), "tar.gz");
    assert_eq!(Compression::Uncompressed.extension(), "tar");
}

#[test]
fn every_group_has_a_key_and_unknown_extensions_fall_through() {
    assert_eq!(group_of("mp4"), "usage.kind.video");
    assert_eq!(group_of("MP4-not-lowercased"), "usage.kind.other");
    assert_eq!(group_of("wibble"), "usage.kind.other");
    assert_eq!(group_of(""), "usage.kind.none");
}

#[test]
fn a_shared_extension_belongs_to_the_first_group_that_lists_it() {
    assert_eq!(group_of("ts"), "usage.kind.video");
    assert_eq!(group_of("woff2"), "usage.kind.font");
    assert_eq!(group_of("key"), "usage.kind.document");
}

#[test]
fn each_child_carries_everything_beneath_it_and_files_at_the_root_are_rows() {
    let mut tally = UsageTally::new();
    assert!(tally.enter_directory(None, "/r/small", "small", 0));
    tally.add_file(Some("/r/small"), "a", "/r/small/a", 10);
    assert!(tally.enter_directory(None, "/r/big", "big", 0));
    tally.add_file(Some("/r/big"), "b.MP4", "/r/big/b.MP4", 100);
    assert!(tally.enter_directory(Some("/r/big"), "/r/big/deeper", "deeper", 1));
    tally.add_file(Some("/r/big"), "c.mp4", "/r/big/deeper/c.mp4", 200);
    tally.add_file(None, "loose.txt", "/r/loose.txt", 50);
    let usage = tally.finish();
    assert_eq!(usage.bytes, 360);
    assert_eq!(usage.files, 4);
    assert_eq!(usage.folder_count, 3);
    assert_eq!(usage.loose_bytes, 50);
    assert!(!usage.partial);
    let names: Vec<&str> = usage.folders.iter().map(|f| f.name.as_str()).collect();
    assert_eq!(names, vec!["big", "loose.txt", "small"]);
    assert_eq!(usage.folders[0].bytes, 300);
    assert_eq!(usage.folders[0].files, 2);
    assert!(usage.folders[0].is_directory);
    assert!(!usage.folders[1].is_directory);
    assert_eq!(usage.kinds[0].extension, "mp4");
    assert_eq!(usage.kinds[0].group_key, "usage.kind.video");
    assert_eq!(usage.kinds[0].bytes, 300);
    assert_eq!(usage.kinds[0].files, 2);
}

#[test]
fn the_walk_stops_at_the_depth_bound_and_says_so() {
    let mut tally = UsageTally::new();
    assert!(tally.enter_directory(Some("/r/a"), "/r/a/b", "b", 63));
    assert!(!tally.enter_directory(Some("/r/a"), "/r/a/b/c", "c", 64));
    let usage = tally.finish();
    assert!(usage.partial);
    assert_eq!(usage.folder_count, 2);
}

#[test]
fn a_long_tail_of_kinds_is_gathered_into_one_row_that_still_adds_up() {
    let mut tally = UsageTally::new();
    for i in 0..25u64 {
        tally.add_file(None, &format!("f.x{i}"), &format!("/r/f.x{i}"), 100 + i);
    }
    let mut progress_seen = tally.progress("/r");
    assert_eq!(progress_seen.files, 25);
    progress_seen.directory.push('!');
    let usage = tally.finish();
    assert_eq!(usage.kinds.len(), 21);
    let shown: u64 = usage.kinds.iter().map(|k| k.bytes).sum();
    assert_eq!(shown, usage.bytes);
    let rest = usage.kinds.last().unwrap();
    assert_eq!(rest.group_key, "usage.kind.rest");
    assert_eq!(rest.extension, "");
    assert_eq!(rest.files, 5);
    assert_eq!(usage.kinds[0].extension, "x24");
}

#[test]
fn ties_in_size_are_broken_by_name_so_the_order_is_stable() {
    let mut tally = UsageTally::new();
    tally.add_file(None, "b", "/r/b", 5);
    tally.add_file(None, "a", "/r/a", 5);
    tally.add_file(None, ".hidden", "/r/.hidden", 1);
    tally.mark_partial();
    let usage = tally.finish();
    let names: Vec<&str> = usage.folders.iter().map(|f| f.name.as_str()).collect();
    assert_eq!(names, vec!["a", "b", ".hidden"]);
    assert!(usage.partial);
    assert!(usage.kinds.iter().any(|k| k.extension.is_empty() && k.group_key == "usage.kind.none" && k.files == 3));
}

#[test]
fn the_cache_is_bounded() {
    let mut cache = SizeCache::new();
    for i in 0..(MAX_CACHED + 8) {
        cache.insert(format!("/nowhere/{i}"), FolderSize::empty(), 0, None);
    }
    assert!(cache.len() <= MAX_CACHED);
}

#[test]
fn the_cache_returns_what_was_measured_until_the_folder_changes_or_it_ages() {
    let size = FolderSize { bytes: 42, files: 1, folders: 0, partial: false };
    let mut cache = SizeCache::new();
    assert!(cache.is_empty());
    cache.insert("/r".to_string(), size, 1_000, Some(7));
    assert_eq!(cache.get("/r", 1_000, Some(7)), Some(size));
    assert_eq!(cache.get("/r", 1_000 + FRESH_FOR_NANOS, Some(7)), Some(size));
    assert_eq!(cache.get("/r", 1_001 + FRESH_FOR_NANOS, Some(7)), None, "too old to trust");
    assert_eq!(cache.get("/r", 2_000, Some(8)), None, "the folder changed directly");
    assert_eq!(cache.get("/r", 2_000, None), None, "the folder is gone");
    assert_eq!(cache.get("/other", 1_000, Some(7)), None);
    cache.invalidate("/r");
    assert_eq!(cache.get("/r", 1_000, Some(7)), None);
    cache.insert("/a".to_string(), size, 0, None);
    cache.clear();
    assert_eq!(cache.len(), 0);
}

#[test]
fn a_measurement_counts_files_and_stops_at_the_depth_bound() {
    let mut size = FolderSize::empty();
    size.add_file(100);
    assert!(size.enter_folder(0));
    size.add_file(250);
    assert!(!size.enter_folder(MAX_DEPTH));
    assert_eq!(size, FolderSize { bytes: 350, files: 2, folders: 2, partial: true });
    let mut cancelled = FolderSize::empty();
    cancelled.mark_partial();
    assert!(cancelled.partial, "a total that stopped early must say so");
}

fn file(size: u64, secs: i128) -> Option<Side> {
    Some(Side { size: Some(size), modified: Some(secs * 1_000_000_000), is_directory: false })
}

fn folder() -> Option<Side> {
    Some(Side { size: None, modified: None, is_directory: true })
}

#[test]
fn a_verdict_follows_the_rule_for_each_pair_of_sides() {
    assert_eq!(verdict(file(1, 0), None), Difference::OnlyLeft);
    assert_eq!(verdict(None, file(1, 0)), Difference::OnlyRight);
    assert_eq!(verdict(folder(), file(1, 0)), Difference::Differs);
    assert_eq!(verdict(folder(), folder()), Difference::Same);
    assert_eq!(verdict(file(1, 0), file(2, 0)), Difference::Differs);
    assert_eq!(verdict(file(1, 100), file(1, 102)), Difference::Same, "FAT keeps two-second times");
    assert_eq!(verdict(file(1, 100), file(1, 103)), Difference::Differs);
    let unknown = Some(Side { size: Some(1), modified: None, is_directory: false });
    assert_eq!(verdict(unknown, unknown), Difference::Same, "two unknown times are no evidence");
    assert_eq!(verdict(unknown, file(1, 0)), Difference::Differs);
}

#[test]
fn times_at_the_ends_of_the_range_do_not_overflow() {
    assert!(!same_time(Some(i128::MAX), Some(i128::MIN)));
    assert!(same_time(Some(i128::MAX), Some(i128::MAX - 1)));
    assert!(same_time(None, None));
    assert!(!same_time(None, Some(0)));
}

#[test]
fn differences_are_counted_and_named() {
    let row = |d: Difference| Row { relative: "x".to_string(), difference: d, left: folder(), right: None };
    let comparison = Comparison {
        rows: vec![row(Difference::Same), row(Difference::OnlyLeft), row(Difference::Differs)],
        truncated: false,
    };
    assert_eq!(comparison.difference_count(), 2);
    assert!(comparison.rows[0].is_directory());
    assert_eq!(Difference::OnlyRight.id(), "only_right");
    assert!(!Difference::Same.is_difference());
    let err = unreadable(&Location::local("/left"));
    assert_eq!(err.code(), ErrorCode::Io);
    assert_eq!(err.context(), "cannot list /left");
}

#[test]
fn a_remote_location_names_its_endpoint() {
    let e = Endpoint::of(&Location::remote("host.example", 2222, "jason", "/srv")).unwrap();
    assert_eq!(e, Endpoint { host: "host.example".to_string(), port: 2222, user: "jason".to_string() });
    assert_eq!(Endpoint::of(&Location::local("/tmp")), None);
}

#[test]
fn a_changed_key_is_refused_whatever_the_user_chose() {
    let changed = HostKeyVerdict::Changed { expected: "a".to_string(), offered: "b".to_string() };
    assert_eq!(decide(&changed, UnknownHostPolicy::AcceptAndRemember), (false, false));
    let unknown = HostKeyVerdict::Unknown { fingerprint: "b".to_string() };
    assert_eq!(decide(&unknown, UnknownHostPolicy::Refuse), (false, false));
    assert_eq!(decide(&unknown, UnknownHostPolicy::AcceptAndRemember), (true, true));
    assert_eq!(decide(&HostKeyVerdict::Known, UnknownHostPolicy::Refuse), (true, false));
}

#[test]
fn the_key_field_is_the_middle_of_the_openssh_line() {
    assert_eq!(key_field("ssh-ed25519 AAAAC3Nza me@host"), "AAAAC3Nza");
    assert_eq!(key_field("  ssh-rsa   AAAAB3  "), "AAAAB3");
    assert_eq!(key_field("lonely"), "");
}

#[test]
fn iso_members_are_decided_like_any_other_archive() {
    let mut run = Extraction::new();
    assert_eq!(run.consider_iso("/d", "X.TXT", &wanted(&["Y.TXT"]), false, false, 10).unwrap(), MemberPlan::Skip);
    assert_eq!(run.consider_iso("/d", "OK.TXT", &[], true, false, 10).unwrap(), MemberPlan::Refuse);
    assert_eq!(run.consider_iso("/d", "../UP.TXT", &[], false, false, 10).unwrap(), MemberPlan::Refuse);
    assert_eq!(run.consider_iso("/d", "DOCS", &[], false, true, 0).unwrap(), MemberPlan::Folder("/d/DOCS".to_string()));
    assert_eq!(
        run.consider_iso("/d", "DOCS/A.TXT", &[], false, false, 3).unwrap(),
        MemberPlan::File("/d/DOCS/A.TXT".to_string())
    );
    let err = run.consider_iso("/d", "BIG.BIN", &[], false, false, MAX_MEMBER_BYTES + 1).unwrap_err();
    assert_eq!(err.code(), ErrorCode::LimitExceeded);
    assert_eq!(run.done().refused, 2);
    assert_eq!(run.done().folders, 1);
}
