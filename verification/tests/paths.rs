use include_graph::name_filter::{InvalidPattern, NameFilter};
use include_graph::path_utils::{
    convert_to_absolute_path, filename_matches_regex, is_hidden, name_matches_regex, normalize_path_separators,
    select_candidate,
};

fn strings(list: &[&str]) -> Vec<String> {
    list.iter().map(|s| s.to_string()).collect()
}

#[test]
fn hidden_names_begin_with_a_dot() {
    assert!(is_hidden(".git"));
    assert!(is_hidden("."));
    assert!(!is_hidden("a.cpp"));
    assert!(!is_hidden(""));
}

#[test]
fn normalize_rebuilds_the_path_segment_by_segment() {
    let sep = std::path::MAIN_SEPARATOR;
    assert_eq!(normalize_path_separators("a/b/c.h"), format!("a{}b{}c.h", sep, sep));
    assert_eq!(normalize_path_separators("vector"), "vector");
    assert_eq!(normalize_path_separators(""), "");
    assert_eq!(normalize_path_separators("a//b"), format!("a{}b", sep));
    assert_eq!(normalize_path_separators("a/"), format!("a{}", sep));
    assert_eq!(normalize_path_separators("/usr/x.h"), format!("usr{}x.h", sep));
    assert_eq!(normalize_path_separators("a\\b\\c.h"), format!("a{}b{}c.h", sep, sep));
    assert_eq!(normalize_path_separators("a\\b/c.h"), format!("a{}b{}c.h", sep, sep));
}

#[test]
fn first_present_candidate_is_selected() {
    let candidates = strings(&["local/a.h", "one/a.h", "two/a.h"]);
    assert_eq!(select_candidate(&candidates, &vec![false, true, true]), Some("one/a.h".to_string()));
    assert_eq!(select_candidate(&candidates, &vec![true, true, true]), Some("local/a.h".to_string()));
    assert_eq!(select_candidate(&candidates, &vec![false, false, true]), Some("two/a.h".to_string()));
    assert_eq!(select_candidate(&candidates, &vec![false, false, false]), None);
    assert_eq!(select_candidate(&candidates, &vec![false, false]), None);
    assert_eq!(select_candidate(&candidates, &vec![]), None);
    assert_eq!(select_candidate(&vec![], &vec![true]), None);
}

#[test]
fn local_directory_is_searched_first() {
    let found = convert_to_absolute_path("bin", "/usr", &strings(&["/usr/.", "/"]));
    assert_eq!(found, Some("/usr/bin".to_string()));
}

#[test]
fn search_paths_are_tried_in_order() {
    let found = convert_to_absolute_path("bin", "/no/such/directory", &strings(&["/no/other", "/usr/.", "/usr"]));
    assert_eq!(found, Some("/usr/./bin".to_string()));
}

#[test]
fn nothing_is_found_where_no_candidate_exists() {
    assert_eq!(convert_to_absolute_path("no_such_file.h", "/no/such/directory", &strings(&["/no/other"])), None);
    assert_eq!(convert_to_absolute_path("no_such_file.h", "/usr", &vec![]), None);
}

#[test]
fn invalid_pattern_is_refused() {
    assert!(NameFilter::new("foo(bar").is_err());
    assert_eq!(NameFilter::new("[").err(), Some(InvalidPattern { pattern: "[".to_string() }));
    assert!(NameFilter::new("test_|noisyFile").is_ok());
    assert_eq!(NameFilter::new("a+b").ok().unwrap().as_str(), "a+b");
}

#[test]
fn filter_matches_anywhere_in_the_text() {
    let filter = NameFilter::new("test_|noisyFile").ok().unwrap();
    assert!(filter.matches("my_test_1.cpp"));
    assert!(filter.matches("noisyFile"));
    assert!(!filter.matches("quiet.cpp"));
}

#[test]
fn missing_filter_matches_nothing() {
    assert!(!name_matches_regex(&None, "anything"));
    assert!(!filename_matches_regex(&None, "dir/anything"));
}

#[test]
fn name_is_matched_as_spelled() {
    let filter = Some(NameFilter::new("^gen/").ok().unwrap());
    assert!(name_matches_regex(&filter, "gen/a.h"));
    assert!(!name_matches_regex(&filter, "src/gen/a.h"));
    assert!(!filename_matches_regex(&filter, "gen/a.h"));
}

#[test]
fn only_the_file_name_of_a_path_is_matched() {
    let filter = Some(NameFilter::new("^test_").ok().unwrap());
    assert!(filename_matches_regex(&filter, "dir/test_1.cpp"));
    assert!(!filename_matches_regex(&filter, "test_dir/main.cpp"));
    let empty = Some(NameFilter::new("^$").ok().unwrap());
    assert!(filename_matches_regex(&empty, "dir/.."));
    assert!(!filename_matches_regex(&empty, "dir/a"));
}
