use fuzzyd::scorer::match_and_score;

#[test]
fn empty_needle_scores_zero() {
    assert_eq!(match_and_score("anything", ""), Some(0));
    assert_eq!(match_and_score("", ""), Some(0));
    assert_eq!(match_and_score("Visual Studio Code", ""), Some(0));
}

#[test]
fn non_subsequence_has_no_score() {
    assert_eq!(match_and_score("foo", "xyz"), None);
    assert_eq!(match_and_score("", "a"), None);
    assert_eq!(match_and_score("abc", "acb"), None);
    // the needle is taken as given: an uppercase needle never matches the
    // lowercased haystack
    assert_eq!(match_and_score("Foo", "F"), None);
}

#[test]
fn subsequence_always_scores() {
    assert!(match_and_score("hello world", "hw").is_some());
    assert!(match_and_score("hello", "hello").is_some());
    assert!(match_and_score("h-e-l-l-o", "hello").is_some());
}

#[test]
fn haystack_is_case_folded() {
    // relies on the lowercasing wrapper doing real work
    assert!(match_and_score("ABC", "abc").is_some());
    assert!(match_and_score("ReadMe", "readme").is_some());
}

#[test]
fn prefix_beats_non_prefix() {
    let a = match_and_score("app", "a").unwrap();
    let b = match_and_score("bapp", "a").unwrap();
    assert!(a > b);
}

#[test]
fn contiguous_beats_scattered() {
    let tight = match_and_score("abcdef", "abc").unwrap();
    let loose = match_and_score("axbxcx", "abc").unwrap();
    assert_eq!(tight, 139);
    assert_eq!(loose, 15);
    assert!(tight > loose);
}

#[test]
fn acronym_scores_competitively() {
    let acro = match_and_score("Visual Studio Code", "vsc").unwrap();
    let scattered = match_and_score("Visual Studio Code", "iso").unwrap();
    assert!(acro > scattered);
}

#[test]
fn word_boundary_bonus_follows_grapheme_split() {
    // relies on the grapheme wrapper doing real work: "b" after a hyphen
    // earns the word bonus, "b" after a plain letter does not
    let bounded = match_and_score("x-b", "b").unwrap();
    let plain = match_and_score("xxb", "b").unwrap();
    assert_eq!(bounded, 36);
    assert_eq!(plain, 16);
    assert!(bounded > plain);
}

#[test]
fn camel_case_and_separator_bonuses() {
    // 16 match + 2 camel boundary, judged on the unlowercased text
    assert_eq!(match_and_score("aB", "b"), Some(18));
    // 16 match + 3 after a slash, + 1 after a dot; neither is a word boundary
    assert_eq!(match_and_score("a/b", "b"), Some(19));
    assert_eq!(match_and_score("a.b", "b"), Some(17));
    // a plain letter before the match earns nothing
    assert_eq!(match_and_score("ab", "b"), Some(16));
}

#[test]
fn first_character_match_earns_the_top_bonus() {
    // 16 match + 20 word start + 50 first char + 80 acronym
    assert_eq!(match_and_score("a", "a"), Some(166));
}
