//! Scenarios for splitting joined artist credits.

use lib::artist::{credited, split_credit};

#[test]
fn plain_names_pass_through() {
    assert_eq!(split_credit("A$AP Rocky"), ["A$AP Rocky"]);
    assert_eq!(split_credit("  Reol  "), ["Reol"]);
    assert_eq!(split_credit(""), Vec::<String>::new());
}

#[test]
fn featuring_markers_split() {
    assert_eq!(split_credit("A$AP Rocky feat. Drake"), ["A$AP Rocky", "Drake"]);
    assert_eq!(split_credit("A$AP Rocky Feat. Drake"), ["A$AP Rocky", "Drake"]);
    assert_eq!(split_credit("A$AP Rocky FEAT Drake"), ["A$AP Rocky", "Drake"]);
    assert_eq!(split_credit("A$AP Rocky ft. Drake"), ["A$AP Rocky", "Drake"]);
    assert_eq!(split_credit("A$AP Rocky ft Drake"), ["A$AP Rocky", "Drake"]);
    assert_eq!(split_credit("A$AP Rocky featuring Drake"), ["A$AP Rocky", "Drake"]);
}

#[test]
fn featuring_marker_without_trailing_space_splits() {
    assert_eq!(split_credit("かいりきベア feat.缶缶"), ["かいりきベア", "缶缶"]);
}

#[test]
fn guest_list_splits_on_comma_and_ampersand() {
    assert_eq!(
        split_credit("Kanye West feat. Jay-Z, Rihanna & Bon Iver"),
        ["Kanye West", "Jay-Z", "Rihanna", "Bon Iver"]
    );
    assert_eq!(
        split_credit("Calvin Harris ft. Dua Lipa and Young Thug"),
        ["Calvin Harris", "Dua Lipa", "Young Thug"]
    );
}

#[test]
fn guest_list_keeps_a_trailing_article_with_its_name() {
    assert_eq!(
        split_credit("Kali Uchis feat. Tyler, The Creator"),
        ["Kali Uchis", "Tyler, The Creator"]
    );
}

#[test]
fn collaboration_markers_split() {
    assert_eq!(split_credit("Chris Brown x Tyga"), ["Chris Brown", "Tyga"]);
    assert_eq!(split_credit("Metallica vs. Slayer"), ["Metallica", "Slayer"]);
    assert_eq!(split_credit("Metallica vs Slayer"), ["Metallica", "Slayer"]);
}

#[test]
fn hard_delimiters_split() {
    assert_eq!(
        split_credit("Daft Punk;Pharrell Williams"),
        ["Daft Punk", "Pharrell Williams"]
    );
    assert_eq!(split_credit("初音ミク、鏡音リン"), ["初音ミク", "鏡音リン"]);
}

// The names a split must never shatter. Each is a single real artist whose
// name contains a character or word that looks like a join.
#[test]
fn real_names_are_never_split() {
    for name in [
        "&ME",
        "Simon & Garfunkel",
        "AC/DC",
        "Tyler, The Creator",
        "Earth, Wind & Fire",
        "Florence + the Machine",
        "Jay-Z",
        "Blink-182",
        "Malcolm X",
        "Taylor Swift.",
        "MYTH & ROID",
        "Emerson, Lake & Palmer",
        "Sleeping With Sirens",
        "Nothing But Thieves",
        "Crosby, Stills & Nash",
        "塞壬唱片-MSR",
    ] {
        assert_eq!(split_credit(name), [name], "must not split {name:?}");
    }
}

#[test]
fn a_real_name_still_splits_off_its_features() {
    assert_eq!(
        split_credit("Earth, Wind & Fire feat. The Emotions"),
        ["Earth, Wind & Fire", "The Emotions"]
    );
    assert_eq!(split_credit("Jay-Z ft. Alicia Keys"), ["Jay-Z", "Alicia Keys"]);
}

// The shapes below are taken verbatim from a real library.
#[test]
fn space_padded_bullets_split() {
    assert_eq!(
        split_credit("A$AP Rocky • Rakim Mayers"),
        ["A$AP Rocky", "Rakim Mayers"]
    );
    assert_eq!(
        split_credit(
            "A$AP Rocky • Bones • Frans Mernick • Hector Delgado • Rakim Mayers • \
             Elmo O'Connor"
        ),
        [
            "A$AP Rocky",
            "Bones",
            "Frans Mernick",
            "Hector Delgado",
            "Rakim Mayers",
            "Elmo O'Connor"
        ]
    );
    assert_eq!(
        split_credit("A$AP Rocky • Joe Fox • Rakim Mayers • Brian Burton • Ben Nichols"),
        [
            "A$AP Rocky",
            "Joe Fox",
            "Rakim Mayers",
            "Brian Burton",
            "Ben Nichols"
        ]
    );
}

/// "<credit> • <every contributor>" keeps only the credit: the tail repeats
/// the credit's own artists and then adds the songwriters and producers.
#[test]
fn a_credit_followed_by_its_contributor_list_keeps_only_the_credit() {
    assert_eq!(
        split_credit(
            "A$AP Rocky feat. Joe Fox x Future x M.I.A. • A$AP Rocky • Joe Fox • Future • \
             M.I.A. • Rakim Mayers • Rameses Magnus-George • Axel Morgan • Ricci Rierra • \
             Nayvadius Wilburn"
        ),
        ["A$AP Rocky", "Joe Fox", "Future", "M.I.A."]
    );
}

/// Without that repetition there is no evidence of a personnel dump, so the
/// list is taken at face value.
#[test]
fn a_bulleted_list_that_repeats_nothing_is_split_in_full() {
    assert_eq!(
        split_credit("Above & Beyond • Zoë Johnston"),
        ["Above & Beyond", "Zoë Johnston"]
    );
}

#[test]
fn bullets_inside_a_name_are_left_alone() {
    // Unpadded, these characters are part of the name itself.
    for name in ["マイケル・ジャクソン", "Col·lectiu", "A•B"] {
        assert_eq!(split_credit(name), [name], "must not split {name:?}");
    }
}

#[test]
fn other_bullet_shapes_split() {
    assert_eq!(
        split_credit("Ayumi Hamasaki ・ Tetsuya Komuro"),
        ["Ayumi Hamasaki", "Tetsuya Komuro"]
    );
    assert_eq!(split_credit("Nujabes · Shing02"), ["Nujabes", "Shing02"]);
}

#[test]
fn duplicates_collapse_case_insensitively() {
    assert_eq!(split_credit("Drake feat. drake"), ["Drake"]);
    assert_eq!(split_credit("Drake;Drake ft. Future"), ["Drake", "Future"]);
}

#[test]
fn credited_prefers_structured_values() {
    let structured = ["A$AP Rocky".to_string(), "Drake".to_string()];
    assert_eq!(
        credited("A$AP Rocky feat. Drake", &structured),
        ["A$AP Rocky", "Drake"]
    );
}

#[test]
fn credited_splits_a_joined_structured_value() {
    let structured = ["A$AP Rocky feat. Drake".to_string()];
    assert_eq!(credited("whatever", &structured), ["A$AP Rocky", "Drake"]);
}

#[test]
fn credited_falls_back_to_the_display_string() {
    assert_eq!(
        credited("A$AP Rocky feat. Drake", &[]),
        ["A$AP Rocky", "Drake"]
    );
    assert_eq!(credited("", &[]), Vec::<String>::new());
}
