//! Properties the splitter keeps, checked on concrete credits.

use lib::artist::{all_keys_repeated, credited, push_distinct, split_credit, Artists, push_name};

fn strings(v: &[&str]) -> Vec<String> {
    v.iter().map(|s| s.to_string()).collect()
}

#[test]
fn no_artist_is_named_twice() {
    assert_eq!(split_credit("Drake;drake;DRAKE ft. Drake"), ["Drake"]);
    assert_eq!(split_credit("A • B • A"), ["A", "B"]);
}

#[test]
fn names_come_out_trimmed_and_non_empty() {
    assert_eq!(split_credit(" A ;  ; B \u{3000}"), ["A", "B"]);
    assert_eq!(split_credit("A ft. B,, C,"), ["A", "B", "C"]);
}

#[test]
fn every_offered_artist_is_kept() {
    assert_eq!(split_credit("A ft B ft C ft D"), ["A", "B", "C", "D"]);
    assert_eq!(split_credit("A ft. B and C & D"), ["A", "B", "C", "D"]);
}

#[test]
fn a_plain_name_passes_through_trimmed() {
    assert_eq!(split_credit("  Simon & Garfunkel  "), ["Simon & Garfunkel"]);
}

#[test]
fn a_blank_credit_names_nobody() {
    assert_eq!(split_credit(" \t\u{3000} "), Vec::<String>::new());
}

#[test]
fn markers_at_the_edges() {
    assert_eq!(split_credit("A feat."), ["A"]);
    assert_eq!(split_credit("A feat"), ["A"]);
    assert_eq!(split_credit("A feat.B"), ["A", "B"]);
    assert_eq!(split_credit("A featB"), ["A featB"]);
    assert_eq!(split_credit("A FeAtUrInG B"), ["A", "B"]);
    assert_eq!(split_credit("X feat. A, An B"), ["X", "A, An B"]);
    assert_eq!(split_credit("X feat. Y, the Z, W"), ["X", "Y, the Z", "W"]);
}

#[test]
fn collaboration_sides_carry_their_own_guests() {
    assert_eq!(split_credit("A ft. B x C ft. D"), ["A", "B", "C", "D"]);
}

#[test]
fn credited_with_one_value_is_split_credit_of_it() {
    let value = "A$AP Rocky feat. Drake";
    assert_eq!(credited("whatever", &strings(&[value])), split_credit(value));
}

#[test]
fn credited_falls_back_to_the_display_string_when_values_name_nobody() {
    assert_eq!(credited("A ft. B", &[]), split_credit("A ft. B"));
    assert_eq!(credited("A ft. B", &strings(&["  ", ";"])), ["A", "B"]);
    assert_eq!(credited("Daft Punk;Pharrell", &[]), ["Daft Punk;Pharrell"]);
}

#[test]
fn credited_merges_values_without_repeats() {
    assert_eq!(
        credited("x", &strings(&["A feat. B", "b; C"])),
        ["A", "B", "C"]
    );
}

#[test]
fn push_distinct_adds_only_new_keys() {
    let mut names = strings(&["Drake"]);
    let mut keys = strings(&["drake"]);
    push_distinct(&mut names, &mut keys, "DRAKE".to_string(), "drake".to_string());
    assert_eq!(names, ["Drake"]);
    assert_eq!(keys, ["drake"]);
    push_distinct(&mut names, &mut keys, "Future".to_string(), "future".to_string());
    assert_eq!(names, ["Drake", "Future"]);
    assert_eq!(keys, ["drake", "future"]);
}

#[test]
fn all_keys_repeated_checks_every_head_key() {
    let head = strings(&["a", "b"]);
    assert!(all_keys_repeated(&head, &strings(&["x", "b", "a"])));
    assert!(!all_keys_repeated(&head, &strings(&["a", "x"])));
    assert!(all_keys_repeated(&strings(&[]), &strings(&[])));
}

#[test]
fn push_name_lowercases_for_comparison() {
    let mut out = Artists::new();
    push_name("  Zoë ", &mut out);
    push_name("ZOË", &mut out);
    push_name("Ben", &mut out);
    assert_eq!(out.into_names(), ["Zoë", "Ben"]);
}

#[test]
fn the_first_spelling_is_kept() {
    assert_eq!(split_credit("drake feat. Drake"), ["drake"]);
    assert_eq!(split_credit("MIA x M.I.A. x mia"), ["MIA", "M.I.A."]);
}

#[test]
fn a_hard_delimiter_joins_two_credits() {
    let left = split_credit("A feat. B");
    assert_eq!(left, ["A", "B"]);
    assert_eq!(split_credit("A feat. B;C x a"), ["A", "B", "C"]);
    assert_eq!(split_credit("A feat. B、C x a"), ["A", "B", "C"]);
}

#[test]
fn values_that_name_somebody_ignore_the_display_string() {
    let values = strings(&["Gorillaz", "Del The Funky Homosapien"]);
    assert_eq!(credited("one", &values), credited("something else entirely", &values));
    assert_eq!(credited("one", &values), ["Gorillaz", "Del The Funky Homosapien"]);
}
