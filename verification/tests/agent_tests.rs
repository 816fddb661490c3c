use wordle_solver::agent::{AverseAgent, GroupStats, SplinterAgent, WordleAgent, MAX_CANDIDATES};
use wordle_solver::tally::tally_responses;
use wordle_solver::word::Word;

fn words(texts: &[&str]) -> Vec<Word> {
    texts.iter().map(|text| Word::from_str(text).unwrap()).collect()
}

fn splinter() -> SplinterAgent {
    SplinterAgent { first_guess: None }
}

const FOUR: [&str; 4] = ["crane", "slate", "plate", "grate"];

const TEN: [&str; 10] =
    ["crane", "slate", "plate", "grate", "brick", "jumpy", "fjord", "glyph", "waltz", "vixen"];

const MIXED: [&str; 8] =
    ["ehdbe", "gcegg", "hfhcf", "aeadd", "hfbhh", "hfbfh", "bfhhb", "acdga"];

const CROWDED: [&str; 7] = ["bcaaa", "acaaa", "bcaaa", "ccaaa", "acaaa", "acaaa", "ccaaa"];

#[test]
fn tally_counts_each_code() {
    let list = words(&FOUR);
    let tally = tally_responses(&list[0], &list);
    assert_eq!(tally.len(), 1024);
    for (code, count) in tally.iter().enumerate() {
        let expected = match code {
            160 => 2,
            416 => 1,
            992 => 1,
            _ => 0,
        };
        assert_eq!(*count, expected);
    }
}

#[test]
fn tally_of_no_words_is_empty() {
    let guess = Word::from_str("crane").unwrap();
    assert!(tally_responses(&guess, &[]).iter().all(|count| *count == 0));
}

#[test]
fn splinter_scores_count_distinct_codes() {
    let list = words(&FOUR);
    let scores: Vec<u32> = list.iter().map(|word| splinter().score_word(word, &list)).collect();
    assert_eq!(scores, [3, 4, 4, 3]);
}

#[test]
fn splinter_scores_of_ten_words() {
    let list = words(&TEN);
    let scores: Vec<u32> = list.iter().map(|word| splinter().score_word(word, &list)).collect();
    assert_eq!(scores, [8, 8, 9, 9, 6, 5, 4, 7, 6, 5]);
}

#[test]
fn splinter_score_against_no_words_is_zero() {
    let guess = Word::from_str("crane").unwrap();
    assert_eq!(splinter().score_word(&guess, &[]), 0);
}

#[test]
fn splinter_takes_the_first_of_the_best() {
    assert_eq!(splinter().select_move(&words(&FOUR)).as_str(), "slate");
    assert_eq!(splinter().select_move(&words(&TEN)).as_str(), "plate");
    assert_eq!(splinter().select_move(&words(&MIXED)).as_str(), "ehdbe");
}

#[test]
fn splinter_takes_the_only_word() {
    assert_eq!(splinter().select_move(&words(&["crane"])).as_str(), "crane");
}

#[test]
fn splinter_ignores_its_opening_guess_when_it_scores() {
    let agent = SplinterAgent { first_guess: Some(Word::from_str("grate").unwrap()) };
    assert_eq!(agent.select_move(&words(&FOUR)).as_str(), "slate");
}

#[test]
fn splinter_best_score_survives_reordering() {
    let list = words(&TEN);
    let reordered = words(&[
        "vixen", "waltz", "glyph", "fjord", "jumpy", "brick", "grate", "plate", "slate", "crane",
    ]);
    let first = splinter().select_move(&list);
    let second = splinter().select_move(&reordered);
    assert_eq!(first.as_str(), "plate");
    assert_eq!(second.as_str(), "grate");
    assert_eq!(splinter().score_word(&first, &list), 9);
    assert_eq!(splinter().score_word(&second, &reordered), 9);
    assert_eq!(splinter().score_word(&second, &list), 9);
}

#[test]
fn averse_statistics_of_four_words() {
    let list = words(&FOUR);
    let stats: Vec<GroupStats> =
        list.iter().map(|word| AverseAgent.score_word(word, &list)).collect();
    assert_eq!(
        stats,
        [
            GroupStats { unique: 3, total: 4, worst: 2 },
            GroupStats { unique: 4, total: 4, worst: 1 },
            GroupStats { unique: 4, total: 4, worst: 1 },
            GroupStats { unique: 3, total: 4, worst: 2 },
        ]
    );
}

#[test]
fn averse_statistics_of_ten_words() {
    let list = words(&TEN);
    let stats: Vec<(u32, usize, usize)> = list
        .iter()
        .map(|word| AverseAgent.score_word(word, &list))
        .map(|stats| (stats.unique, stats.total, stats.worst))
        .collect();
    assert_eq!(
        stats,
        [
            (8, 10, 2),
            (8, 10, 3),
            (9, 10, 2),
            (9, 10, 2),
            (6, 10, 5),
            (5, 10, 6),
            (4, 10, 5),
            (7, 10, 4),
            (6, 10, 4),
            (5, 10, 4)
        ]
    );
}

#[test]
fn averse_statistics_against_no_words() {
    let guess = Word::from_str("crane").unwrap();
    assert_eq!(AverseAgent.score_word(&guess, &[]), GroupStats { unique: 0, total: 0, worst: 0 });
}

#[test]
fn composite_numerator_is_exact() {
    let numerators: Vec<i128> = [(6, 3), (5, 3), (6, 2), (5, 4)]
        .iter()
        .map(|&(unique, worst)| {
            AverseAgent::composite_numerator(GroupStats { unique, total: 8, worst }, 6, 4)
        })
        .collect();
    assert_eq!(numerators, [1064, 660, 1136, 600]);
}

#[test]
fn composite_numerator_can_be_negative() {
    let crowded = GroupStats { unique: 2, total: 7, worst: 5 };
    let spread = GroupStats { unique: 2, total: 7, worst: 4 };
    assert_eq!(AverseAgent::composite_numerator(crowded, 2, 5), -15);
    assert_eq!(AverseAgent::composite_numerator(spread, 2, 5), -7);
}

#[test]
fn composite_numerator_at_the_limits() {
    let stats = GroupStats { unique: 1, total: MAX_CANDIDATES, worst: MAX_CANDIDATES };
    let cap = MAX_CANDIDATES as i128;
    assert_eq!(
        AverseAgent::composite_numerator(stats, 1024, MAX_CANDIDATES),
        10 * cap - 5 * cap * cap - 2 * cap * 1024
    );
    let wide = GroupStats { unique: 1024, total: MAX_CANDIDATES, worst: 1 };
    assert_eq!(
        AverseAgent::composite_numerator(wide, 1024, MAX_CANDIDATES),
        10 * 1024 * 1024 * cap - 5 * cap * cap - 2 * 1024 * 1024
    );
}

#[test]
fn score_exceeds_compares_fractions() {
    // 1136 / 6 against 1064 / 6.
    assert!(AverseAgent::score_exceeds(1136, 6, 1064, 6));
    assert!(!AverseAgent::score_exceeds(1064, 6, 1136, 6));
    assert!(!AverseAgent::score_exceeds(1064, 6, 1064, 6));
    // 660 / 5 = 132 against 1064 / 6 = 177.33.
    assert!(!AverseAgent::score_exceeds(660, 5, 1064, 6));
    assert!(AverseAgent::score_exceeds(1064, 6, 660, 5));
    // 3 / 2 against 4 / 3.
    assert!(AverseAgent::score_exceeds(3, 2, 4, 3));
    // -7 / 2 against -15 / 2, and against zero.
    assert!(AverseAgent::score_exceeds(-7, 2, -15, 2));
    assert!(!AverseAgent::score_exceeds(-7, 2, 0, 1));
    assert!(AverseAgent::score_exceeds(1, 1024, 0, 1));
}

#[test]
fn averse_takes_the_first_of_the_best() {
    assert_eq!(AverseAgent.select_move(&words(&FOUR)).as_str(), "slate");
    assert_eq!(AverseAgent.select_move(&words(&TEN)).as_str(), "plate");
}

#[test]
fn averse_weighs_the_largest_group() {
    // Six words split the list into six groups; `hfhcf` leaves the smallest
    // largest group.
    let list = words(&MIXED);
    assert_eq!(AverseAgent.select_move(&list).as_str(), "hfhcf");
    assert_eq!(splinter().select_move(&list).as_str(), "ehdbe");
}

#[test]
fn averse_falls_back_to_the_first_word() {
    // Every composite score is negative, and the second word has the
    // greatest: the first word is chosen all the same.
    assert_eq!(AverseAgent.select_move(&words(&CROWDED)).as_str(), "bcaaa");
    assert_eq!(AverseAgent.select_move(&words(&["aaaaa", "aaaaa"])).as_str(), "aaaaa");
}

#[test]
fn averse_takes_the_only_word() {
    assert_eq!(AverseAgent.select_move(&words(&["crane"])).as_str(), "crane");
}

#[test]
fn select_move_leaves_the_list_as_it_was() {
    let list = words(&TEN);
    let _ = splinter().select_move(&list);
    let _ = AverseAgent.select_move(&list);
    let texts: Vec<&str> = list.iter().map(|word| word.as_str()).collect();
    assert_eq!(texts, TEN);
}
