use filework::pathinput::{expand, expand_values, variables, MAX_INPUT};

fn home() -> String {
    "/Users/someone".to_string()
}

fn here() -> String {
    "/Users/someone/Projects".to_string()
}

fn env(name: &str) -> Option<String> {
    match name {
        "HOME" => Some("/Users/someone".to_string()),
        "WORK" => Some("/Volumes/Work".to_string()),
        "EMPTY" => Some(String::new()),
        _ => None,
    }
}

fn expanded(input: &str) -> Option<String> {
    expand(input, &home(), &here(), &env)
}

fn path(p: &str) -> Option<String> {
    Some(p.to_string())
}

#[test]
fn a_bare_tilde_is_the_home_directory() {
    assert_eq!(expanded("~"), Some(home()), "typing ~ must not give a folder named ~");
}

#[test]
fn a_tilde_prefix_joins_onto_home() {
    assert_eq!(expanded("~/Documents"), path("/Users/someone/Documents"));
}

#[test]
fn a_tilde_in_the_middle_is_an_ordinary_character() {
    assert_eq!(expanded("/tmp/a~b"), path("/tmp/a~b"), "a file may legitimately be called a~b");
}

#[test]
fn another_users_home_is_not_guessed() {
    assert_eq!(expanded("~other/Documents"), path("/Users/someone/Projects/~other/Documents"));
}

#[test]
fn environment_variables_expand_in_every_spelling() {
    assert_eq!(expanded("$WORK"), path("/Volumes/Work"));
    assert_eq!(expanded("${WORK}"), path("/Volumes/Work"));
    assert_eq!(expanded("%WORK%"), path("/Volumes/Work"));
    assert_eq!(expanded("$WORK/sub"), path("/Volumes/Work/sub"));
}

#[test]
fn an_unset_variable_expands_to_nothing_rather_than_to_its_own_name() {
    assert_eq!(expanded("$NOPE/x"), path("/x"));
    assert_eq!(expanded("$NOPE"), None, "nothing left to navigate to");
}

#[test]
fn a_relative_path_is_relative_to_the_current_folder() {
    assert_eq!(expanded("sub"), path("/Users/someone/Projects/sub"));
    assert_eq!(expanded("./sub"), path("/Users/someone/Projects/sub"));
    assert_eq!(expanded(".."), path("/Users/someone"));
    assert_eq!(expanded("../Music"), path("/Users/someone/Music"));
}

#[test]
fn climbing_past_the_root_stops_there() {
    assert_eq!(expanded("/../../.."), path("/"));
}

#[test]
fn nothing_is_globbed_or_executed() {
    assert_eq!(expanded("/tmp/*"), path("/tmp/*"));
    assert_eq!(expanded("/tmp/$(whoami)"), path("/tmp/$(whoami)"));
    assert_eq!(expanded("/tmp/a;rm -rf b"), path("/tmp/a;rm -rf b"));
}

#[test]
fn whitespace_is_trimmed_and_empty_input_is_refused() {
    assert_eq!(expanded("  ~  "), Some(home()));
    assert_eq!(expanded(""), None);
    assert_eq!(expanded("   "), None);
}

#[test]
fn an_absurdly_long_input_is_refused_rather_than_expanded() {
    let long = "a".repeat(MAX_INPUT + 1);
    assert_eq!(expanded(&long), None);
}

#[test]
fn a_variable_whose_value_contains_a_variable_is_not_re_expanded() {
    let recursive = |name: &str| match name {
        "LOOP" => Some("$LOOP".to_string()),
        _ => None,
    };
    assert_eq!(expand("$LOOP", &home(), &here(), &recursive), path("/Users/someone/Projects/$LOOP"));
}

#[test]
fn the_variables_named_are_listed_in_order() {
    assert_eq!(variables(" $A/${B}/%C%/$/%d-e%/${open "), vec!["A".to_string(), "B".to_string(), "C".to_string()]);
    assert_eq!(
        expand_values("$A/${B}", "/h", "/c", &[Some("/x".to_string()), None]),
        path("/x")
    );
}

#[test]
fn the_length_bound_counts_bytes_not_characters() {
    let wide = "\u{4e2d}".repeat(MAX_INPUT / 3 + 1);
    assert_eq!(expanded(&wide), None);
    let fits = "\u{4e2d}".repeat(MAX_INPUT / 3);
    assert!(expanded(&fits).is_some());
}

#[test]
fn a_backslash_after_the_tilde_also_means_home() {
    assert_eq!(expanded("~\\Desktop"), path("/Users/someone/Desktop"));
    assert_eq!(expanded("$EMPTY~"), Some(home()));
}
