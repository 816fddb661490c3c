use wordle_solver::response::{green, tiles, wins, yellow, Tile, FIELD_SPAN, FULL_FIELD, RESPONSE_SPAN};
use wordle_solver::word::Word;

fn word(text: &str) -> Word {
    Word::from_str(text).unwrap()
}

#[test]
fn crane_against_plate_is_green_at_a_and_e() {
    let response = word("crane").compare(&word("plate"));
    assert_eq!(response, ((1 << 2) | (1 << 0)) << 5);
    assert_eq!(response, 160);
    assert_eq!(green(response), 0b00101);
    assert_eq!(yellow(response), 0);
}

#[test]
fn no_shared_letter_gives_zero() {
    assert_eq!(word("abcde").compare(&word("fghij")), 0);
    assert_eq!(word("plate").compare(&word("fjord")), 0);
}

#[test]
fn every_word_wins_against_itself() {
    for text in ["crane", "slate", "aaaaa", "zzzzz", "eerie"] {
        let response = word(text).compare(&word(text));
        assert_eq!(response, 992);
        assert!(wins(response));
    }
}

#[test]
fn letters_elsewhere_are_yellow() {
    let response = word("crane").compare(&word("nacre"));
    assert_eq!(response, 62);
    assert_eq!(green(response), 0b00001);
    assert_eq!(yellow(response), 0b11110);
}

#[test]
fn a_full_rotation_is_all_yellow() {
    let response = word("abcde").compare(&word("eabcd"));
    assert_eq!(response, 31);
    assert_eq!(green(response), 0);
    assert_eq!(yellow(response), FULL_FIELD);
    assert!(!wins(response));
}

#[test]
fn repeated_letters_are_yellow_each_time() {
    // The secret has one `e`; both unmatched `e` of the guess are marked.
    assert_eq!(word("eerie").compare(&word("crane")), 60);
}

#[test]
fn compare_depends_on_which_word_is_the_guess() {
    assert_eq!(word("eerie").compare(&word("crane")), 60);
    assert_eq!(word("crane").compare(&word("eerie")), 40);
}

#[test]
fn responses_stay_below_the_span() {
    let texts = ["crane", "slate", "plate", "grate", "eerie", "aaaaa"];
    for a in texts {
        for b in texts {
            assert!(word(a).compare(&word(b)) < RESPONSE_SPAN);
        }
    }
}

#[test]
fn spans_are_powers_of_two() {
    assert_eq!(FIELD_SPAN, 1 << 5);
    assert_eq!(RESPONSE_SPAN, 1 << 10);
    assert_eq!(FULL_FIELD, (1 << 5) - 1);
}

#[test]
fn fields_split_a_code() {
    assert_eq!(green(0b10101_01010), 0b10101);
    assert_eq!(yellow(0b10101_01010), 0b01010);
    assert_eq!(yellow(0b00000_10000), 0b10000);
    assert_eq!(green(1023), 31);
    assert_eq!(yellow(1023), 31);
}

#[test]
fn only_a_full_green_field_wins() {
    assert!(wins(992));
    assert!(wins(1023));
    assert!(!wins(991));
    assert!(!wins(31));
    assert!(!wins(0));
    assert!(!wins(960));
}

#[test]
fn tiles_follow_the_positions_of_the_guess() {
    let response = word("crane").compare(&word("plate"));
    assert_eq!(
        tiles(response),
        vec![Tile::Absent, Tile::Absent, Tile::Green, Tile::Absent, Tile::Green]
    );
}

#[test]
fn tiles_show_yellow_at_the_first_position() {
    let response = word("crane").compare(&word("nacre"));
    assert_eq!(
        tiles(response),
        vec![Tile::Yellow, Tile::Yellow, Tile::Yellow, Tile::Yellow, Tile::Green]
    );
}

#[test]
fn tiles_of_the_extreme_codes() {
    assert_eq!(tiles(0), vec![Tile::Absent; 5]);
    assert_eq!(tiles(992), vec![Tile::Green; 5]);
    assert_eq!(tiles(31), vec![Tile::Yellow; 5]);
}

#[test]
fn green_hides_yellow_on_the_same_position() {
    assert_eq!(
        tiles(0b10000_11000),
        vec![Tile::Green, Tile::Yellow, Tile::Absent, Tile::Absent, Tile::Absent]
    );
}
