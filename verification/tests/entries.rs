use std::time::{Duration, SystemTime};

use filework::error::ErrorCode;
use filework::file::{FileEntry, FileKind, RawName, Timestamps};
use filework::fs::connect::{to_entry, RemoteEntry};
use filework::fs::local::{classify, EntryFacts, LocalProvider};
use filework::location::Location;

fn entry(name: &str, kind: FileKind) -> FileEntry {
    FileEntry::new(
        Location::local(&format!("/tmp/{name}")),
        RawName::new(name),
        kind,
    )
}

fn file_facts(len: u64) -> EntryFacts {
    EntryFacts {
        is_symlink: false,
        is_dir: false,
        is_file: true,
        len,
        readonly: false,
        timestamps: Timestamps::default(),
    }
}

fn dir_facts() -> EntryFacts {
    EntryFacts {
        is_symlink: false,
        is_dir: true,
        is_file: false,
        len: 4096,
        readonly: false,
        timestamps: Timestamps::default(),
    }
}

fn found(name: &str, facts: EntryFacts) -> FileEntry {
    LocalProvider::entry_from(&format!("/tmp/x/{name}"), RawName::new(name), Some(facts))
}

#[test]
fn raw_name_and_display_name_are_separate_fields() {
    let e = FileEntry::new(
        Location::local("/tmp/\u{4e2d}\u{6587}.txt"),
        RawName::new("\u{4e2d}\u{6587}.txt"),
        FileKind::File,
    );
    assert_eq!(e.raw_name().as_os_str(), "\u{4e2d}\u{6587}.txt".as_bytes());
    assert_eq!(e.display_name(), "\u{4e2d}\u{6587}.txt");
    assert!(!e.raw_name().is_lossy_as_utf8());
}

#[test]
fn extension_hint_ignores_dotfiles_and_trailing_dots() {
    assert_eq!(
        entry("a.TXT", FileKind::File).extension_hint().as_deref(),
        Some("txt")
    );
    assert_eq!(entry(".gitignore", FileKind::File).extension_hint(), None);
    assert_eq!(
        entry("archive.tar.gz", FileKind::File)
            .extension_hint()
            .as_deref(),
        Some("gz")
    );
    assert_eq!(entry("trailing.", FileKind::File).extension_hint(), None);
    assert_eq!(entry("noext", FileKind::File).extension_hint(), None);
}

#[test]
fn optional_metadata_is_absent_rather_than_faked() {
    let e = entry("a.txt", FileKind::File);
    assert_eq!(e.size(), None, "unknown size must be None, not 0");
    assert_eq!(e.timestamps().modified, None);
    assert_eq!(e.content_type(), None);
}

#[test]
fn a_non_utf8_name_survives_intact_and_still_displays() {
    let raw_bytes = vec![b'b', b'a', b'd', 0xFF, b'.', b't', b'x', b't'];

    let entry = FileEntry::new(
        Location::local("/tmp/x"),
        RawName::from_bytes(raw_bytes.clone()),
        FileKind::File,
    );

    assert_eq!(
        entry.raw_name().as_os_str(),
        raw_bytes.as_slice(),
        "raw bytes preserved"
    );
    assert!(entry.raw_name().is_lossy_as_utf8());
    assert_eq!(
        entry.raw_name().to_str(),
        None,
        "must not pretend it is UTF-8"
    );

    let shown = entry.display_name();
    assert!(
        shown.contains('\u{FFFD}'),
        "display form replaces the invalid byte"
    );
    assert_ne!(
        shown.as_bytes(),
        raw_bytes.as_slice(),
        "display form is not the raw name"
    );
}

#[test]
fn a_name_that_is_not_text_has_no_extension_hint() {
    let e = FileEntry::new(
        Location::local("/tmp/x"),
        RawName::from_bytes(vec![0xFF, b'.', b'z', b'i', b'p']),
        FileKind::File,
    );
    assert_eq!(e.extension_hint(), None);
}

#[test]
fn builders_set_one_field_each() {
    let when = SystemTime::UNIX_EPOCH + Duration::from_secs(1_000_000);
    let e = entry("a.txt", FileKind::File)
        .with_size(42)
        .with_content_type("text/plain")
        .with_timestamps(Timestamps {
            modified: Some(when),
            ..Timestamps::default()
        });
    assert_eq!(e.size(), Some(42));
    assert_eq!(e.content_type(), Some("text/plain"));
    assert_eq!(e.timestamps().modified, Some(when));
    assert_eq!(e.timestamps().created, None);
    assert_eq!(e.kind(), FileKind::File);
    assert_eq!(e.location(), &Location::local("/tmp/a.txt"));
    assert!(!e.attributes().hidden);
    assert!(!e.permissions().writable);
}

#[test]
fn classifies_kinds_and_reports_size_only_for_files() {
    assert_eq!(found("notes.txt", file_facts(5)).kind(), FileKind::File);
    assert_eq!(found("notes.txt", file_facts(5)).size(), Some(5));
    assert_eq!(found("folder", dir_facts()).kind(), FileKind::Directory);
    assert_eq!(
        found("folder", dir_facts()).size(),
        None,
        "a directory has no meaningful size"
    );
    assert_eq!(found("bundle.zip", file_facts(1)).kind(), FileKind::Archive);
    assert!(found("bundle.zip", file_facts(1)).kind().is_untrusted_container());
    assert_eq!(
        found("Thing.app", dir_facts()).kind(),
        FileKind::ApplicationBundle
    );
    assert!(!found("Thing.app", dir_facts()).kind().is_navigable_by_default());
}

#[test]
fn a_dot_prefixed_name_is_hidden() {
    assert!(found(".profile", file_facts(0)).attributes().hidden);
    assert!(!found("visible", file_facts(0)).attributes().hidden);
}

#[test]
fn a_non_local_location_is_unsupported_not_empty() {
    let provider = LocalProvider::new();
    let error = provider
        .target(&Location::virtual_location("search", "1"))
        .unwrap_err();
    assert_eq!(error.code(), ErrorCode::Unsupported);
    assert_eq!(provider.target(&Location::local("/tmp")).unwrap(), "/tmp");
    assert!(provider.handles(&Location::local("/tmp")));
    assert!(!provider.handles(&Location::virtual_location("search", "1")));
}

#[test]
fn links_packages_devices_and_the_unreadable_are_told_apart() {
    let link = EntryFacts { is_symlink: true, ..file_facts(3) };
    assert_eq!(classify(&RawName::new("to.zip"), Some(link)), FileKind::Symlink);
    assert_eq!(
        classify(&RawName::new("Sheet.NUMBERS"), Some(dir_facts())),
        FileKind::Package
    );
    let device = EntryFacts { is_file: false, ..file_facts(0) };
    assert_eq!(classify(&RawName::new("tty0"), Some(device)), FileKind::Device);
    assert_eq!(classify(&RawName::new("gone"), None), FileKind::Unknown);
    assert_eq!(classify(&RawName::new("DISK.ISO"), Some(file_facts(9))), FileKind::Archive);
    assert_eq!(classify(&RawName::new(".zip"), Some(file_facts(9))), FileKind::File);
}

#[test]
fn an_unreadable_entry_reports_nothing_it_does_not_know() {
    let e = LocalProvider::entry_from("/tmp/x/gone", RawName::new("gone"), None);
    assert_eq!(e.kind(), FileKind::Unknown);
    assert_eq!(e.size(), None);
    assert!(!e.permissions().readable);
}

#[test]
fn a_read_only_entry_is_not_writable() {
    let facts = EntryFacts { readonly: true, ..file_facts(1) };
    let e = found("locked.txt", facts);
    assert!(e.attributes().read_only);
    assert!(!e.permissions().writable);
    assert!(e.permissions().readable);
    assert!(!e.permissions().executable);
}

fn row(name: &str, dir: bool) -> RemoteEntry {
    RemoteEntry {
        name: name.to_string(),
        is_dir: dir,
        is_symlink: false,
        size: 12,
        modified: Some(1_700_000_000),
        permissions: Some(0o644),
    }
}

#[test]
fn a_row_becomes_an_entry_under_the_folder_it_came_from() {
    let here = Location::remote("host", 22, "jt", "/srv/data");
    let entry = to_entry(&here, &row("report.pdf", false));
    assert_eq!(
        entry.location(),
        &Location::remote("host", 22, "jt", "/srv/data/report.pdf")
    );
    assert_eq!(entry.kind(), FileKind::File);
    assert_eq!(entry.size(), Some(12));
}

#[test]
fn the_remote_root_does_not_produce_a_double_slash() {
    let root = Location::remote("host", 22, "jt", "/");
    let entry = to_entry(&root, &row("etc", true));
    assert_eq!(entry.location(), &Location::remote("host", 22, "jt", "/etc"));
}

#[test]
fn a_symlink_stays_a_symlink_even_when_it_points_at_a_directory() {
    let here = Location::remote("host", 22, "jt", "/srv");
    let mut link = row("current", true);
    link.is_symlink = true;
    assert_eq!(to_entry(&here, &link).kind(), FileKind::Symlink);
}

#[test]
fn a_row_carries_the_owner_rights_and_the_time_the_server_gave() {
    let here = Location::remote("host", 22, "jt", "/srv");
    let entry = to_entry(&here, &row("notes.txt", false));
    assert!(entry.permissions().readable);
    assert!(entry.permissions().writable);
    assert!(!entry.permissions().executable);
    assert_eq!(
        entry.timestamps().modified,
        Some(SystemTime::UNIX_EPOCH + Duration::from_secs(1_700_000_000))
    );
    let mut bare = row("x", false);
    bare.modified = None;
    bare.permissions = None;
    let plain = to_entry(&here, &bare);
    assert_eq!(plain.timestamps().modified, None);
    assert!(!plain.permissions().readable);
    let odd = to_entry(&Location::local("/tmp"), &row("y", false));
    assert_eq!(odd.location(), &Location::remote("", 22, "", "/y"));
}
