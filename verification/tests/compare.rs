use std::collections::HashMap;

use filework::fs::compare::{Comparison, Listed, Next, Side, Walk};

/// Listings built by hand, so the tests need no disk.
struct Fake {
    listings: HashMap<String, Vec<Listed>>,
    places: Vec<String>,
}

impl Fake {
    fn new() -> Self {
        Self { listings: HashMap::new(), places: Vec::new() }
    }

    fn handle(&mut self, path: String) -> u64 {
        self.places.push(path);
        (self.places.len() - 1) as u64
    }

    fn dir(mut self, at: &str, names: &[&str]) -> Self {
        let mut entries = Vec::new();
        for name in names {
            let key = self.handle(format!("{at}/{name}"));
            entries.push(Listed {
                name: name.to_string(),
                side: Side { size: None, modified: None, is_directory: true },
                walkable: true,
                key,
            });
        }
        self.listings.insert(at.to_string(), entries);
        self
    }

    fn files(mut self, at: &str, files: &[(&str, u64, u64)]) -> Self {
        let mut entries = Vec::new();
        for (name, size, secs) in files {
            let key = self.handle(format!("{at}/{name}"));
            entries.push(Listed {
                name: name.to_string(),
                side: Side {
                    size: Some(*size),
                    modified: Some(i128::from(*secs) * 1_000_000_000),
                    is_directory: false,
                },
                walkable: false,
                key,
            });
        }
        self.listings.insert(at.to_string(), entries);
        self
    }

    fn links(mut self, at: &str, name: &str) -> Self {
        let key = self.handle(format!("{at}/{name}"));
        self.listings.insert(
            at.to_string(),
            vec![Listed {
                name: name.to_string(),
                side: Side { size: None, modified: None, is_directory: false },
                walkable: false,
                key,
            }],
        );
        self
    }

    fn list(&self, path: &str) -> Option<Vec<Listed>> {
        self.listings.get(path).cloned()
    }

    fn list_key(&self, key: u64) -> Option<Vec<Listed>> {
        self.list(&self.places[key as usize])
    }
}

/// Compare two roots the way a caller drives the walk: list the roots,
/// then list what each folder asks for.
fn compare(fake: &Fake, left: &str, right: &str, recursive: bool, cancelled: bool) -> Option<Comparison> {
    let left_root = fake.list(left)?;
    let right_root = fake.list(right)?;
    let mut walk = Walk::new(left_root, right_root, recursive);
    let mut reports = 0;
    loop {
        match walk.next_folder(cancelled) {
            Next::Finished => break,
            Next::List(pairs) => {
                for (a, b) in pairs {
                    let listing = match (fake.list_key(a), fake.list_key(b)) {
                        (Some(x), Some(y)) => Some((x, y)),
                        _ => None,
                    };
                    walk.add_children(listing);
                }
                let progress = walk.progress();
                assert!(progress.rows >= progress.differences);
                reports += 1;
            },
        }
    }
    assert!(reports > 0 || cancelled);
    Some(walk.finish())
}

fn run(fake: &Fake, recursive: bool) -> Comparison {
    compare(fake, "/left", "/right", recursive, false).expect("both roots are listable")
}

fn verdicts(comparison: &Comparison) -> Vec<(String, &'static str)> {
    comparison.rows.iter().map(|row| (row.relative.clone(), row.difference.id())).collect()
}

#[test]
fn a_name_on_one_side_only_says_which_side() {
    let fake = Fake::new().files("/left", &[("here.txt", 1, 100)]).files("/right", &[("there.txt", 1, 100)]);
    assert_eq!(
        verdicts(&run(&fake, false)),
        vec![("here.txt".to_string(), "only_left"), ("there.txt".to_string(), "only_right")]
    );
}

#[test]
fn files_matching_in_size_and_time_are_the_same() {
    let fake = Fake::new().files("/left", &[("a.txt", 10, 100)]).files("/right", &[("a.txt", 10, 100)]);
    assert_eq!(verdicts(&run(&fake, false)), vec![("a.txt".to_string(), "same")]);
}

#[test]
fn a_different_size_is_a_difference() {
    let fake = Fake::new().files("/left", &[("a.txt", 10, 100)]).files("/right", &[("a.txt", 11, 100)]);
    assert_eq!(verdicts(&run(&fake, false)), vec![("a.txt".to_string(), "differs")]);
}

#[test]
fn a_time_within_the_slack_is_still_the_same() {
    let fake = Fake::new().files("/left", &[("a.txt", 10, 100)]).files("/right", &[("a.txt", 10, 102)]);
    assert_eq!(verdicts(&run(&fake, false)), vec![("a.txt".to_string(), "same")]);

    let wider = Fake::new().files("/left", &[("a.txt", 10, 100)]).files("/right", &[("a.txt", 10, 103)]);
    assert_eq!(verdicts(&run(&wider, false)), vec![("a.txt".to_string(), "differs")]);
}

#[test]
fn the_time_comparison_does_not_depend_on_the_order() {
    let newer_on_the_right = Fake::new().files("/left", &[("a.txt", 10, 100)]).files("/right", &[("a.txt", 10, 110)]);
    let newer_on_the_left = Fake::new().files("/left", &[("a.txt", 10, 110)]).files("/right", &[("a.txt", 10, 100)]);
    assert_eq!(verdicts(&run(&newer_on_the_right, false)), verdicts(&run(&newer_on_the_left, false)));
}

#[test]
fn a_folder_against_a_file_of_the_same_name_differs() {
    let fake = Fake::new().dir("/left", &["thing"]).files("/right", &[("thing", 10, 100)]);
    assert_eq!(verdicts(&run(&fake, false)), vec![("thing".to_string(), "differs")]);
}

#[test]
fn a_shallow_comparison_does_not_look_inside_folders() {
    let fake = Fake::new()
        .dir("/left", &["sub"])
        .dir("/right", &["sub"])
        .files("/left/sub", &[("deep.txt", 1, 100)])
        .files("/right/sub", &[("deep.txt", 2, 100)]);
    assert_eq!(verdicts(&run(&fake, false)), vec![("sub".to_string(), "same")]);
}

#[test]
fn a_recursive_comparison_reports_the_path_below() {
    let fake = Fake::new()
        .dir("/left", &["sub"])
        .dir("/right", &["sub"])
        .files("/left/sub", &[("deep.txt", 1, 100)])
        .files("/right/sub", &[("deep.txt", 2, 100)]);
    assert_eq!(
        verdicts(&run(&fake, true)),
        vec![("sub".to_string(), "same"), ("sub/deep.txt".to_string(), "differs")]
    );
}

#[test]
fn a_folder_on_one_side_only_is_not_walked() {
    let fake = Fake::new()
        .dir("/left", &["sub"])
        .files("/right", &[])
        .files("/left/sub", &[("a.txt", 1, 100), ("b.txt", 1, 100)]);
    assert_eq!(verdicts(&run(&fake, true)), vec![("sub".to_string(), "only_left")]);
}

#[test]
fn an_unreadable_subfolder_stops_that_subtree_only() {
    let fake = Fake::new()
        .dir("/left", &["locked", "open"])
        .dir("/right", &["locked", "open"])
        .files("/left/open", &[("a.txt", 1, 100)])
        .files("/right/open", &[("a.txt", 2, 100)]);
    assert_eq!(
        verdicts(&run(&fake, true)),
        vec![
            ("locked".to_string(), "same"),
            ("open".to_string(), "same"),
            ("open/a.txt".to_string(), "differs"),
        ]
    );
}

#[test]
fn an_unreadable_root_is_an_error() {
    let fake = Fake::new().files("/left", &[("a.txt", 1, 100)]);
    assert!(compare(&fake, "/left", "/right", false, false).is_none());
}

#[test]
fn a_symlink_is_not_walked_into() {
    let fake = Fake::new()
        .links("/left", "loop")
        .links("/right", "loop")
        .files("/left/loop", &[("inside.txt", 1, 100)])
        .files("/right/loop", &[("inside.txt", 2, 100)]);
    assert_eq!(verdicts(&run(&fake, true)), vec![("loop".to_string(), "same")]);
}

#[test]
fn cancelling_stops_the_walk() {
    let fake = Fake::new().files("/left", &[("a.txt", 1, 100)]).files("/right", &[("a.txt", 2, 100)]);
    let comparison = compare(&fake, "/left", "/right", false, true).expect("the roots were listed");
    assert!(comparison.rows.is_empty());
}

#[test]
fn the_difference_count_ignores_matches() {
    let fake = Fake::new()
        .files("/left", &[("same.txt", 1, 100), ("other.txt", 1, 100)])
        .files("/right", &[("same.txt", 1, 100)]);
    let comparison = run(&fake, false);
    assert_eq!(comparison.rows.len(), 2);
    assert_eq!(comparison.difference_count(), 1);
}

#[test]
fn rows_come_out_in_path_order_across_folders() {
    let fake = Fake::new()
        .dir("/left", &["b", "a"])
        .dir("/right", &["a", "b"])
        .files("/left/a", &[("z.txt", 1, 1)])
        .files("/right/a", &[("z.txt", 1, 1)])
        .files("/left/b", &[("y.txt", 1, 1)])
        .files("/right/b", &[("y.txt", 1, 1)]);
    let rows: Vec<String> = run(&fake, true).rows.iter().map(|r| r.relative.clone()).collect();
    assert_eq!(rows, vec!["a", "a/z.txt", "b", "b/y.txt"]);
}

#[test]
fn a_name_listed_twice_counts_once_as_its_last_entry() {
    let fake = Fake::new()
        .files("/left", &[("a.txt", 1, 100), ("a.txt", 2, 100)])
        .files("/right", &[("a.txt", 2, 100)]);
    assert_eq!(verdicts(&run(&fake, false)), vec![("a.txt".to_string(), "same")]);
}
