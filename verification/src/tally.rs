//! The histogram of feedback codes that one guess receives against every
//! candidate, and the statistics that the strategies read from it.
use crate::eliminate::{agrees, survivors};
use crate::response::{lemma_response_fields, response_code, RESPONSE_SPAN};
use crate::word::Word;
use vstd::prelude::*;

verus! {

/// The number of candidates against which the guess receives the feedback
/// `code`: the size of the group that an elimination with that feedback
/// would leave.
pub open spec fn group_size(guess: Seq<u8>, candidates: Seq<Word>, code: nat) -> nat {
    survivors(guess, code, candidates).len()
}

/// The feedback codes below `bound` that the guess receives against at least
/// one candidate.
pub open spec fn seen_below(guess: Seq<u8>, candidates: Seq<Word>, bound: nat) -> Set<nat> {
    Set::new(|code: nat| code < bound && group_size(guess, candidates, code) > 0)
}

/// The feedback codes that the guess receives against at least one candidate.
pub open spec fn responses_seen(guess: Seq<u8>, candidates: Seq<Word>) -> Set<nat> {
    Set::new(|code: nat| group_size(guess, candidates, code) > 0)
}

/// The number of distinct feedback codes that the guess receives against the
/// candidates.
pub open spec fn unique_responses(guess: Seq<u8>, candidates: Seq<Word>) -> nat {
    responses_seen(guess, candidates).len()
}

/// The sizes of the groups of the codes below `bound`, added up.
pub open spec fn groups_total(guess: Seq<u8>, candidates: Seq<Word>, bound: nat) -> nat
    decreases bound,
{
    if bound == 0 {
        0
    } else {
        groups_total(guess, candidates, (bound - 1) as nat) + group_size(
            guess,
            candidates,
            (bound - 1) as nat,
        )
    }
}

/// The size of the largest group among the codes below `bound`.
pub open spec fn largest_group(guess: Seq<u8>, candidates: Seq<Word>, bound: nat) -> nat
    decreases bound,
{
    if bound == 0 {
        0
    } else {
        let before = largest_group(guess, candidates, (bound - 1) as nat);
        let here = group_size(guess, candidates, (bound - 1) as nat);
        if here > before {
            here
        } else {
            before
        }
    }
}

/// The size of the largest group of candidates that share one feedback code.
pub open spec fn worst_group(guess: Seq<u8>, candidates: Seq<Word>) -> nat {
    largest_group(guess, candidates, RESPONSE_SPAN as nat)
}

/// One more candidate enlarges by one the group of the code it gives, and
/// leaves every other group as it was.
pub proof fn lemma_group_push(guess: Seq<u8>, candidates: Seq<Word>, word: Word, code: nat)
    ensures
        group_size(guess, candidates.push(word), code) == group_size(guess, candidates, code) + (
        if response_code(guess, word@) == code {
            1nat
        } else {
            0nat
        }),
{
    candidates.lemma_filter_push(word, agrees(guess, code));
}

/// A group is not empty exactly when some candidate gives its code, and
/// such a code is below `RESPONSE_SPAN`.
pub proof fn lemma_group_seen(guess: Seq<u8>, candidates: Seq<Word>, code: nat)
    ensures
        group_size(guess, candidates, code) > 0 <==> exists|i: int|
            0 <= i < candidates.len() && response_code(guess, #[trigger] candidates[i]@) == code,
        group_size(guess, candidates, code) > 0 ==> code < RESPONSE_SPAN,
        group_size(guess, candidates, code) <= candidates.len(),
{
    let test = agrees(guess, code);
    let kept = candidates.filter(test);
    candidates.lemma_filter_len(test);
    if kept.len() > 0 {
        candidates.lemma_filter_pred(test, 0);
        assert(kept.contains(kept[0]));
        candidates.lemma_filter_contains_rev(test, kept[0]);
        let i = choose|i: int| 0 <= i < candidates.len() && candidates[i] == kept[0];
        assert(response_code(guess, candidates[i]@) == code);
        lemma_response_fields(guess, candidates[i]@);
    }
    if exists|i: int|
        0 <= i < candidates.len() && response_code(guess, #[trigger] candidates[i]@) == code {
        let i = choose|i: int|
            0 <= i < candidates.len() && response_code(guess, #[trigger] candidates[i]@) == code;
        candidates.lemma_filter_contains(test, i);
    }
}

/// The codes seen below a bound are finitely many, at most `bound`, and one
/// more when the next code is seen.
pub proof fn lemma_seen_below(guess: Seq<u8>, candidates: Seq<Word>, bound: nat)
    ensures
        seen_below(guess, candidates, bound).finite(),
        seen_below(guess, candidates, bound).len() <= bound,
        bound > 0 ==> seen_below(guess, candidates, bound).len() == seen_below(
            guess,
            candidates,
            (bound - 1) as nat,
        ).len() + (if group_size(guess, candidates, (bound - 1) as nat) > 0 {
            1nat
        } else {
            0nat
        }),
    decreases bound,
{
    if bound == 0 {
        assert(seen_below(guess, candidates, bound) =~= Set::<nat>::empty());
    } else {
        let last = (bound - 1) as nat;
        let before = seen_below(guess, candidates, last);
        lemma_seen_below(guess, candidates, last);
        if group_size(guess, candidates, last) > 0 {
            assert(seen_below(guess, candidates, bound) =~= before.insert(last));
        } else {
            assert(seen_below(guess, candidates, bound) =~= before);
        }
    }
}

/// Every code that is seen lies below `RESPONSE_SPAN`.
pub proof fn lemma_responses_seen(guess: Seq<u8>, candidates: Seq<Word>)
    ensures
        responses_seen(guess, candidates) == seen_below(guess, candidates, RESPONSE_SPAN as nat),
        responses_seen(guess, candidates).finite(),
        unique_responses(guess, candidates) <= RESPONSE_SPAN,
{
    assert forall|code: nat| group_size(guess, candidates, code) > 0 implies code
        < RESPONSE_SPAN by {
        lemma_group_seen(guess, candidates, code);
    }
    assert(responses_seen(guess, candidates) =~= seen_below(
        guess,
        candidates,
        RESPONSE_SPAN as nat,
    ));
    lemma_seen_below(guess, candidates, RESPONSE_SPAN as nat);
}

proof fn lemma_groups_total_push(guess: Seq<u8>, candidates: Seq<Word>, word: Word, bound: nat)
    ensures
        groups_total(guess, candidates.push(word), bound) == groups_total(
            guess,
            candidates,
            bound,
        ) + (if response_code(guess, word@) < bound {
            1nat
        } else {
            0nat
        }),
    decreases bound,
{
    if bound > 0 {
        lemma_groups_total_push(guess, candidates, word, (bound - 1) as nat);
        lemma_group_push(guess, candidates, word, (bound - 1) as nat);
    }
}

/// The groups of all codes together hold every candidate once.
pub proof fn lemma_groups_total(guess: Seq<u8>, candidates: Seq<Word>)
    ensures
        groups_total(guess, candidates, RESPONSE_SPAN as nat) == candidates.len(),
    decreases candidates.len(),
{
    if candidates.len() == 0 {
        lemma_groups_total_empty(guess, candidates, RESPONSE_SPAN as nat);
    } else {
        let front = candidates.drop_last();
        let last = candidates.last();
        lemma_groups_total(guess, front);
        lemma_groups_total_push(guess, front, last, RESPONSE_SPAN as nat);
        lemma_response_fields(guess, last@);
        assert(front.push(last) =~= candidates);
    }
}

proof fn lemma_groups_total_empty(guess: Seq<u8>, candidates: Seq<Word>, bound: nat)
    requires
        candidates.len() == 0,
    ensures
        groups_total(guess, candidates, bound) == 0,
    decreases bound,
{
    if bound > 0 {
        lemma_groups_total_empty(guess, candidates, (bound - 1) as nat);
        lemma_group_seen(guess, candidates, (bound - 1) as nat);
    }
}

/// The largest group below a bound is at least as large as each group below
/// it, and is the size of one of them.
pub proof fn lemma_largest_group(guess: Seq<u8>, candidates: Seq<Word>, bound: nat)
    ensures
        forall|code: nat|
            code < bound ==> #[trigger] group_size(guess, candidates, code) <= largest_group(
                guess,
                candidates,
                bound,
            ),
        bound > 0 ==> exists|code: nat|
            code < bound && #[trigger] group_size(guess, candidates, code) == largest_group(
                guess,
                candidates,
                bound,
            ),
        largest_group(guess, candidates, bound) <= candidates.len(),
    decreases bound,
{
    if bound > 0 {
        let last = (bound - 1) as nat;
        lemma_largest_group(guess, candidates, last);
        lemma_group_seen(guess, candidates, last);
        let top = largest_group(guess, candidates, bound);
        if group_size(guess, candidates, last) == top {
            assert(last < bound && group_size(guess, candidates, last) == top);
        } else {
            let code = choose|code: nat|
                code < last && #[trigger] group_size(guess, candidates, code) == largest_group(
                    guess,
                    candidates,
                    last,
                );
            assert(code < bound && group_size(guess, candidates, code) == top);
        }
    }
}

/// Counts, for each feedback code, the candidates against which `test_word`
/// receives it. The result is indexed by the code.
pub fn tally_responses(test_word: &Word, wordlist: &[Word]) -> (responses: [usize;
    RESPONSE_SPAN])
    ensures
        forall|code: int|
            0 <= code < RESPONSE_SPAN ==> #[trigger] responses@[code] == group_size(
                test_word@,
                wordlist@,
                code as nat,
            ),
{
    let mut responses: [usize; RESPONSE_SPAN] = [0; RESPONSE_SPAN];
    proof {
        assert(wordlist@.take(0) =~= Seq::<Word>::empty());
        assert forall|code: int| 0 <= code < RESPONSE_SPAN implies #[trigger] responses@[code]
            == group_size(test_word@, wordlist@.take(0), code as nat) by {
            lemma_group_seen(test_word@, wordlist@.take(0), code as nat);
        }
    }
    let mut i: usize = 0;
    while i < wordlist.len()
        invariant
            i <= wordlist.len(),
            forall|code: int|
                0 <= code < RESPONSE_SPAN ==> #[trigger] responses@[code] == group_size(
                    test_word@,
                    wordlist@.take(i as int),
                    code as nat,
                ),
        decreases wordlist.len() - i,
    {
        let word = &wordlist[i];
        let response = test_word.compare(word);
        proof {
            lemma_group_seen(test_word@, wordlist@.take(i as int), response as nat);
        }
        let ghost before = responses@;
        responses[response] = responses[response] + 1;
        proof {
            assert(wordlist@.take(i + 1) =~= wordlist@.take(i as int).push(*word));
            assert forall|code: int| 0 <= code < RESPONSE_SPAN implies #[trigger] responses@[code]
                == group_size(test_word@, wordlist@.take(i + 1), code as nat) by {
                lemma_group_push(test_word@, wordlist@.take(i as int), *word, code as nat);
                assert(before[code] == group_size(
                    test_word@,
                    wordlist@.take(i as int),
                    code as nat,
                ));
            }
        }
        i += 1;
    }
    proof {
        assert(wordlist@.take(i as int) =~= wordlist@);
    }
    responses
}

} // verus!
