use wordle_solver::word::{get_wordmask, Word, WordError, WORD_SIZE};

#[test]
fn word_size_is_five() {
    assert_eq!(WORD_SIZE, 5);
}

#[test]
fn from_str_keeps_text_and_letters() {
    let word = Word::from_str("crane").unwrap();
    assert_eq!(word.as_str(), "crane");
    assert_eq!(word.letter(0), b'c');
    assert_eq!(word.letter(1), b'r');
    assert_eq!(word.letter(2), b'a');
    assert_eq!(word.letter(3), b'n');
    assert_eq!(word.letter(4), b'e');
}

#[test]
fn from_str_rejects_short_text() {
    assert_eq!(Word::from_str("cran").err(), Some(WordError::InputLengthMismatch));
}

#[test]
fn from_str_rejects_long_text() {
    assert_eq!(Word::from_str("cranes").err(), Some(WordError::InputLengthMismatch));
}

#[test]
fn from_str_rejects_empty_text() {
    assert_eq!(Word::from_str("").err(), Some(WordError::InputLengthMismatch));
}

#[test]
fn from_str_counts_bytes_not_characters() {
    // Five characters, six bytes.
    assert_eq!(Word::from_str("cran\u{e9}").err(), Some(WordError::InputLengthMismatch));
}

#[test]
fn from_str_rejects_upper_case() {
    assert_eq!(Word::from_str("Crane").err(), Some(WordError::UnsupportedLetter));
}

#[test]
fn from_str_rejects_digits_and_marks() {
    assert_eq!(Word::from_str("cr4ne").err(), Some(WordError::UnsupportedLetter));
    assert_eq!(Word::from_str("cran{").err(), Some(WordError::UnsupportedLetter));
    assert_eq!(Word::from_str("`rane").err(), Some(WordError::UnsupportedLetter));
}

#[test]
fn from_str_rejects_five_bytes_of_wider_characters() {
    // Three characters, five bytes.
    assert_eq!(Word::from_str("a\u{e9}\u{e9}").err(), Some(WordError::UnsupportedLetter));
}

#[test]
fn from_str_takes_the_ends_of_the_alphabet() {
    assert!(Word::from_str("aaaaa").is_ok());
    assert!(Word::from_str("zzzzz").is_ok());
    assert!(Word::from_str("azaza").is_ok());
}

#[test]
fn wordmask_sets_one_bit_per_letter() {
    assert_eq!(get_wordmask("abc"), 58720256);
    assert_eq!(get_wordmask("a"), 1 << 25);
    assert_eq!(get_wordmask("z"), 1);
    assert_eq!(get_wordmask(""), 0);
}

#[test]
fn wordmask_forgets_how_often_a_letter_occurs() {
    assert_eq!(get_wordmask("aaaaa"), 33554432);
    assert_eq!(get_wordmask("zzzzz"), 1);
    assert_eq!(get_wordmask("aab"), get_wordmask("abb"));
}

#[test]
fn wordmask_of_the_whole_alphabet() {
    assert_eq!(get_wordmask("abcdefghijklmnopqrstuvwxyz"), 67108863);
}

#[test]
fn letters_present_is_the_wordmask_of_the_text() {
    let word = Word::from_str("crane").unwrap();
    assert_eq!(word.letters_present(), 44044544);
    assert_eq!(word.letters_present(), get_wordmask("crane"));
}

#[test]
fn clone_keeps_the_word() {
    let word = Word::from_str("slate").unwrap();
    let copy = word.clone();
    assert_eq!(copy.as_str(), "slate");
    assert_eq!(copy.letters_present(), word.letters_present());
    for i in 0..WORD_SIZE {
        assert_eq!(copy.letter(i), word.letter(i));
    }
}
