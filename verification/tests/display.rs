use rbonsai::display::{base_origin, exit_requested, message_box_size, message_lines, wrap_words, KeyCheck};

fn strings(words: &[&str]) -> Vec<String> {
    words.iter().map(|w| w.to_string()).collect()
}

#[test]
fn short_message_takes_one_line() {
    assert_eq!(message_box_size("hello", 80), (6, 0));
}

#[test]
fn long_message_takes_a_quarter_width() {
    let message = "a".repeat(30);
    assert_eq!(message_box_size(&message, 80), (20, 1));
    let message = "b".repeat(17);
    assert_eq!(message_box_size(&message, 80), (18, 0));
}

#[test]
fn box_counts_characters_not_bytes() {
    assert_eq!(message_box_size("ééé", 80), (4, 0));
}

#[test]
fn wrap_keeps_words_in_order() {
    let lines = wrap_words(&strings(&["hello", "big", "world"]), 10);
    assert_eq!(lines, strings(&["hello big ", "world "]));
}

#[test]
fn overlong_first_word_leaves_an_empty_first_line() {
    let lines = wrap_words(&strings(&["enormous", "x"]), 4);
    assert_eq!(lines, strings(&["", "enormous ", "x "]));
}

#[test]
fn wrap_of_no_words_is_one_empty_line() {
    assert_eq!(wrap_words(&Vec::new(), 10), strings(&[""]));
}

#[test]
fn wrap_measures_bytes() {
    // "éé" is 4 bytes: 4 + 4 > 7 closes the first line
    let lines = wrap_words(&strings(&["éé", "éé"]), 7);
    assert_eq!(lines, strings(&["éé ", "éé "]));
}

#[test]
fn message_lines_split_on_whitespace() {
    let lines = message_lines("  hello big\tworld \n", 10).unwrap();
    assert_eq!(lines, strings(&["hello big ", "world "]));
}

#[test]
fn pot_origins() {
    assert_eq!(base_origin(1, 80, 24), Some((25, 24)));
    assert_eq!(base_origin(2, 80, 24), Some((33, 21)));
    assert_eq!(base_origin(0, 80, 24), None);
    assert_eq!(base_origin(3, 5, 1), None);
}

#[test]
fn key_checks() {
    assert!(exit_requested(KeyCheck::PollFailed));
    assert!(!exit_requested(KeyCheck::NoEvent));
    assert!(exit_requested(KeyCheck::ReadFailed));
    assert!(exit_requested(KeyCheck::KeyPressed));
    assert!(!exit_requested(KeyCheck::OtherEvent));
}

#[test]
fn message_words_split_on_unicode_white_space_only() {
    let lines = message_lines("a\u{a0}b\u{3000}c\u{200b}d", 20).unwrap();
    assert_eq!(lines, strings(&["a b c\u{200b}d "]));
}
