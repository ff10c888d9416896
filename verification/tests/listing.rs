use filework::error::ErrorCode;
use filework::fs::tarball::check_expanded;
use filework::fs::MAX_MEMBER_BYTES;
use filework::fs::{bare_listing, listing, TarEntry, MAX_ENTRIES};

fn member(name: &str, size: u64, is_directory: bool) -> (String, u64, bool) {
    (name.to_string(), size, is_directory)
}

#[test]
fn a_listing_shows_each_named_member_in_order() {
    let rows = listing(vec![
        member("src/", 0, true),
        member("src/one.txt", 5, false),
        member("", 9, false),
        member("src/two.txt", 6, false),
    ]);
    assert_eq!(
        rows,
        vec![
            TarEntry { name: "src/".to_string(), size: 0, is_directory: true, unsafe_name: false },
            TarEntry { name: "src/one.txt".to_string(), size: 5, is_directory: false, unsafe_name: false },
            TarEntry { name: "src/two.txt".to_string(), size: 6, is_directory: false, unsafe_name: false },
        ]
    );
}

#[test]
fn a_listing_marks_names_that_would_escape() {
    let rows = listing(vec![
        member("../../escaped.txt", 1, false),
        member("/tmp/absolute.txt", 1, false),
        member("C:\\Windows\\owned.txt", 1, false),
        member("fine/..name.txt", 1, false),
    ]);
    let marks: Vec<bool> = rows.iter().map(|r| r.unsafe_name).collect();
    assert_eq!(marks, vec![true, true, true, false]);
}

#[test]
fn a_listing_stops_at_its_limit() {
    let mut members = Vec::new();
    for i in 0..MAX_ENTRIES + 5 {
        members.push(member(&format!("f{i}"), 1, false));
    }
    let rows = listing(members);
    assert_eq!(rows.len(), MAX_ENTRIES);
    assert_eq!(rows[MAX_ENTRIES - 1].name, format!("f{}", MAX_ENTRIES - 1));
}

#[test]
fn an_empty_tar_lists_nothing() {
    assert!(listing(Vec::new()).is_empty());
}

#[test]
fn a_bare_stream_lists_the_one_file_inside() {
    assert_eq!(
        bare_listing("notes.txt.gz"),
        vec![TarEntry { name: "notes.txt".to_string(), size: 0, is_directory: false, unsafe_name: false }]
    );
    assert_eq!(bare_listing("blob")[0].name, "blob.out");
}

#[test]
fn an_xz_stream_that_expands_too_far_is_refused() {
    assert!(check_expanded(MAX_MEMBER_BYTES).is_ok());
    assert!(check_expanded(0).is_ok());
    assert_eq!(check_expanded(MAX_MEMBER_BYTES + 1).unwrap_err().code(), ErrorCode::LimitExceeded);
}
