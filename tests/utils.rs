use spell_check::{capitalize_first_letter, capitalize_with, filter_alphabet, keep_flagged};

#[test]
fn test_filter_alphabet() {
    assert_eq!(filter_alphabet("hello"), "hello");
    assert_eq!(filter_alphabet("hello!"), "hello");
    assert_eq!(filter_alphabet("hello123"), "hello");
    assert_eq!(filter_alphabet("hello!@#123"), "hello");
}

#[test]
fn test_capitalize_first_lette() {
    assert_eq!(capitalize_first_letter("hello"), "Hello");
    assert_eq!(capitalize_first_letter("Hello"), "Hello");
    assert_eq!(capitalize_first_letter("hELLO"), "HELLO");
}

#[test]
fn capitalize_handles_empty_and_multi_char_mappings() {
    assert_eq!(capitalize_first_letter(""), "");
    assert_eq!(capitalize_first_letter("ßa"), "SSa");
    assert_eq!(capitalize_first_letter("élan"), "Élan");
}

#[test]
fn filter_alphabet_keeps_unicode_letters() {
    assert_eq!(filter_alphabet(""), "");
    assert_eq!(filter_alphabet("12!?"), "");
    assert_eq!(filter_alphabet("naïve, café!"), "naïvecafé");
}

#[test]
fn capitalize_with_replaces_the_first_character() {
    assert_eq!(capitalize_with("X", "hello"), "Xello");
    assert_eq!(capitalize_with("SS", "ßa"), "SSa");
    assert_eq!(capitalize_with("X", ""), "");
}

#[test]
fn keep_flagged_keeps_marked_characters() {
    assert_eq!(keep_flagged("abc", &vec![true, false, true]), "ac");
    assert_eq!(keep_flagged("héé", &vec![false, true, true]), "éé");
    assert_eq!(keep_flagged("", &vec![]), "");
}
