use wordle_solver::eliminate::eliminate;
use wordle_solver::word::Word;

fn words(texts: &[&str]) -> Vec<Word> {
    texts.iter().map(|text| Word::from_str(text).unwrap()).collect()
}

fn texts(words: &[Word]) -> Vec<String> {
    words.iter().map(|word| word.as_str().to_string()).collect()
}

#[test]
fn eliminate_keeps_the_words_that_agree() {
    let candidates = words(&["crane", "slate", "plate", "grate"]);
    let guess = Word::from_str("crane").unwrap();
    let kept = eliminate(&guess, 160, &candidates);
    assert_eq!(texts(&kept), ["slate", "plate"]);
}

#[test]
fn eliminate_keeps_the_order_and_the_repeats() {
    let candidates = words(&["plate", "grate", "slate", "plate", "crane", "slate"]);
    let guess = Word::from_str("crane").unwrap();
    let kept = eliminate(&guess, 160, &candidates);
    assert_eq!(texts(&kept), ["plate", "slate", "plate", "slate"]);
}

#[test]
fn eliminate_leaves_the_list_as_it_was() {
    let candidates = words(&["crane", "slate", "plate", "grate"]);
    let guess = Word::from_str("crane").unwrap();
    let _ = eliminate(&guess, 160, &candidates);
    assert_eq!(texts(&candidates), ["crane", "slate", "plate", "grate"]);
}

#[test]
fn the_secret_survives_its_own_feedback() {
    let list = ["crane", "slate", "plate", "grate", "brick", "fjord"];
    let candidates = words(&list);
    for guess in &candidates {
        for secret in &candidates {
            let kept = eliminate(guess, guess.compare(secret), &candidates);
            assert!(kept.iter().any(|word| word.as_str() == secret.as_str()));
        }
    }
}

#[test]
fn eliminate_twice_is_eliminate_once() {
    let candidates = words(&["crane", "slate", "plate", "grate", "brick", "fjord"]);
    for guess in &candidates {
        for secret in &candidates {
            let response = guess.compare(secret);
            let once = eliminate(guess, response, &candidates);
            let twice = eliminate(guess, response, &once);
            assert_eq!(texts(&twice), texts(&once));
        }
    }
}

#[test]
fn eliminate_can_leave_nothing() {
    let candidates = words(&["crane", "slate"]);
    let guess = Word::from_str("crane").unwrap();
    assert!(eliminate(&guess, 1023, &candidates).is_empty());
}

#[test]
fn eliminate_of_nothing_is_nothing() {
    let guess = Word::from_str("crane").unwrap();
    assert!(eliminate(&guess, 0, &[]).is_empty());
}

#[test]
fn a_winning_code_keeps_only_the_guess() {
    let candidates = words(&["crane", "slate", "crane"]);
    let guess = Word::from_str("crane").unwrap();
    assert_eq!(texts(&eliminate(&guess, 992, &candidates)), ["crane", "crane"]);
}

#[test]
fn the_guess_need_not_be_a_candidate() {
    let candidates = words(&["brick", "fjord", "crane"]);
    let guess = Word::from_str("plate").unwrap();
    assert_eq!(texts(&eliminate(&guess, 0, &candidates)), ["brick", "fjord"]);
}
