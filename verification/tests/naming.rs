use filework::naming::{copy_names, MAX_COPY_NUMBER};

fn first(name: &str, count: usize) -> Vec<String> {
    copy_names(name).into_iter().take(count).collect()
}

#[test]
fn a_copy_is_numbered_in_brackets_from_one() {
    assert_eq!(
        first("report.txt", 3),
        ["report (1).txt", "report (2).txt", "report (3).txt"]
    );
}

#[test]
fn a_name_with_no_extension_keeps_none() {
    assert_eq!(first("Makefile", 2), ["Makefile (1)", "Makefile (2)"]);
    assert_eq!(first("Photos", 1), ["Photos (1)"]);
}

#[test]
fn a_leading_dot_is_part_of_the_name_not_an_extension() {
    assert_eq!(first(".bashrc", 1), [".bashrc (1)"]);
}

#[test]
fn a_numbered_copy_carries_on_counting_instead_of_nesting() {
    assert_eq!(
        first("report (1).txt", 2),
        ["report (2).txt", "report (3).txt"]
    );
    assert_eq!(first("report (41).txt", 1), ["report (42).txt"]);
}

#[test]
fn brackets_that_are_not_a_copy_number_are_left_alone() {
    assert_eq!(first("draft (final).txt", 1), ["draft (final) (1).txt"]);
    assert_eq!(first("(1).txt", 1), ["(1) (1).txt"], "a bare number is a name");
    assert_eq!(first("v(2).txt", 1), ["v(2) (1).txt"], "no space before the bracket");
}

#[test]
fn the_last_extension_is_the_extension() {
    assert_eq!(first("archive.tar.gz", 1), ["archive.tar (1).gz"]);
}

#[test]
fn the_candidates_end_rather_than_running_forever() {
    assert_eq!(copy_names("a.txt").len(), MAX_COPY_NUMBER as usize);
    let last = copy_names("a (998).txt");
    assert_eq!(last, ["a (999).txt"]);
    assert_eq!(first("a (999).txt", 1), ["a (999) (1).txt"], "the last number still has a copy");
}

#[test]
fn four_digit_numbers_are_part_of_the_name() {
    assert_eq!(first("a (1000).txt", 1), ["a (1000) (1).txt"]);
}

#[test]
fn an_empty_name_before_the_number_is_kept_whole() {
    assert_eq!(first(" (3).txt", 1), [" (3) (1).txt"]);
}

#[test]
fn a_name_ending_in_a_dot_has_an_empty_extension() {
    assert_eq!(first("notes.", 1), ["notes (1)."]);
}
