//! The character-level helpers the splitter is built from.

use lib::markers::{
    bullet_segments, collab_marker_list, comma_segments_exec, feature_marker_list,
    find_marker_exec, guest_names_exec, opens_continuation_exec, split_commas, split_hard,
};
use lib::text::{
    chars_of, eq_ignore_ascii_case_at, is_whitespace, split_pattern_exec, to_ascii_lower,
    trim_str,
};

#[test]
fn whitespace_is_unicode_white_space() {
    for c in [' ', '\t', '\n', '\u{b}', '\u{c}', '\r', '\u{85}', '\u{a0}', '\u{1680}', '\u{2000}',
        '\u{200a}', '\u{2028}', '\u{2029}', '\u{202f}', '\u{205f}', '\u{3000}']
    {
        assert!(is_whitespace(c), "{c:?}");
        assert_eq!(is_whitespace(c), c.is_whitespace());
    }
    for c in ['a', ',', '•', '\u{200b}', '\u{feff}', '、'] {
        assert!(!is_whitespace(c), "{c:?}");
        assert_eq!(is_whitespace(c), c.is_whitespace());
    }
}

#[test]
fn trim_matches_str_trim() {
    for s in ["  Reol  ", "\u{3000}初音ミク\u{3000}", "", "   ", "a b", "\tx\n"] {
        assert_eq!(trim_str(s), s.trim());
    }
}

#[test]
fn chars_of_keeps_every_character() {
    assert_eq!(chars_of("Zoë・x"), vec!['Z', 'o', 'ë', '・', 'x']);
}

#[test]
fn ascii_case_folding_touches_only_ascii_capitals() {
    assert_eq!(to_ascii_lower('F'), 'f');
    assert_eq!(to_ascii_lower('f'), 'f');
    assert_eq!(to_ascii_lower('É'), 'É');
    let text = chars_of("A FeAt. B");
    assert!(eq_ignore_ascii_case_at(&text, 2, &chars_of("feat.")));
    assert!(!eq_ignore_ascii_case_at(&text, 1, &chars_of("feat.")));
    assert!(!eq_ignore_ascii_case_at(&text, 6, &chars_of("feat.")));
}

#[test]
fn pattern_split_takes_leftmost_non_overlapping_matches() {
    assert_eq!(split_pattern_exec("a and and b", " and "), vec!["a", "and b"]);
    assert_eq!(split_pattern_exec("a & b & ", " & "), vec!["a", "b", ""]);
    assert_eq!(split_pattern_exec("plain", " & "), vec!["plain"]);
    for s in ["x and y and z", " and ", "and"] {
        assert_eq!(split_pattern_exec(s, " and "), s.split(" and ").collect::<Vec<_>>());
    }
}

#[test]
fn hard_delimiters_and_commas_split_like_str_split() {
    assert_eq!(split_hard("a;b；c、d"), vec!["a", "b", "c", "d"]);
    assert_eq!(split_hard(";"), vec!["", ""]);
    assert_eq!(split_commas("a,,b,"), vec!["a", "", "b", ""]);
}

#[test]
fn only_padded_bullets_make_segments() {
    assert_eq!(bullet_segments("A • B"), Some(vec!["A ", " B"]));
    assert_eq!(bullet_segments("A•B"), None);
    assert_eq!(bullet_segments("A •B"), None);
    assert_eq!(bullet_segments("• A"), None);
    assert_eq!(bullet_segments("A • • B"), Some(vec!["A ", " ", " B"]));
}

#[test]
fn markers_need_a_space_before() {
    let feats = feature_marker_list();
    let collabs = collab_marker_list();
    assert_eq!(find_marker_exec(&chars_of("Taylor Swift."), &feats, false), None);
    assert_eq!(find_marker_exec(&chars_of("A ft. B"), &feats, false), Some((2, 5)));
    assert_eq!(find_marker_exec(&chars_of("A featuring B"), &feats, false), Some((2, 11)));
    assert_eq!(find_marker_exec(&chars_of("Malcolm X"), &collabs, true), None);
    assert_eq!(find_marker_exec(&chars_of("Chris Brown x Tyga"), &collabs, true), Some((12, 13)));
    assert_eq!(find_marker_exec(&chars_of("A feat.B"), &feats, false), Some((2, 7)));
    assert_eq!(find_marker_exec(&chars_of("A featB"), &feats, false), None);
}

#[test]
fn continuation_words_are_matched_in_any_case() {
    assert!(opens_continuation_exec("The Creator"));
    assert!(opens_continuation_exec("  an Orchestra"));
    assert!(opens_continuation_exec("A"));
    assert!(!opens_continuation_exec("Theo"));
    assert!(!opens_continuation_exec(""));
}

#[test]
fn comma_segments_keep_articles_with_their_name() {
    assert_eq!(comma_segments_exec("Tyler, The Creator"), vec!["Tyler, The Creator"]);
    assert_eq!(comma_segments_exec(" B,, C, "), vec!["B", "C"]);
    assert_eq!(comma_segments_exec("The Roots, A Band"), vec!["The Roots, A Band"]);
}

#[test]
fn guest_names_split_on_comma_ampersand_and_and() {
    assert_eq!(
        guest_names_exec("Jay-Z, Rihanna & Bon Iver and Kid"),
        vec!["Jay-Z", "Rihanna", "Bon Iver", "Kid"]
    );
}

#[test]
fn whitespace_and_case_folding_agree_with_char_on_every_char() {
    for c in char::MIN..=char::MAX {
        assert_eq!(is_whitespace(c), c.is_whitespace(), "{c:?}");
        assert_eq!(to_ascii_lower(c), c.to_ascii_lowercase(), "{c:?}");
    }
}
