//! Narrowing the candidate list to the words that agree with the feedback
//! observed for a guess.
use crate::response::{response_code, WordleResponse};
use crate::word::Word;
use vstd::prelude::*;

verus! {

/// The test that a candidate passes when, taken as the secret, it gives the
/// guess the feedback that was observed.
pub open spec fn agrees(guess: Seq<u8>, observed: nat) -> spec_fn(Word) -> bool {
    |candidate: Word| response_code(guess, candidate@) == observed
}

/// The candidates that agree with the feedback observed for a guess, in the
/// order in which they stood.
pub open spec fn survivors(guess: Seq<u8>, observed: nat, candidates: Seq<Word>) -> Seq<Word> {
    candidates.filter(agrees(guess, observed))
}

/// Keeps, in their order, the words of `wordlist` against which `guess`
/// receives the feedback `response`. The list itself is left as it was.
pub fn eliminate(guess: &Word, response: WordleResponse, wordlist: &[Word]) -> (new_wordlist: Vec<
    Word,
>)
    ensures
        new_wordlist@ == survivors(guess@, response as nat, wordlist@),
        new_wordlist@.len() <= wordlist@.len(),
{
    let mut new_wordlist: Vec<Word> = Vec::new();
    let ghost test = agrees(guess@, response as nat);
    proof {
        reveal(Seq::filter);
        assert(wordlist@.take(0) =~= Seq::<Word>::empty());
    }
    let mut i: usize = 0;
    while i < wordlist.len()
        invariant
            i <= wordlist.len(),
            test == agrees(guess@, response as nat),
            new_wordlist@ == wordlist@.take(i as int).filter(test),
        decreases wordlist.len() - i,
    {
        let word = &wordlist[i];
        proof {
            assert(wordlist@.take(i + 1) =~= wordlist@.take(i as int).push(*word));
            wordlist@.take(i as int).lemma_filter_push(*word, test);
        }
        if guess.compare(word) == response {
            new_wordlist.push(word.clone());
        }
        i += 1;
    }
    proof {
        assert(wordlist@.take(i as int) =~= wordlist@);
        wordlist@.lemma_filter_len(test);
    }
    new_wordlist
}

/// A list all of whose words pass a test is left whole by the filter.
proof fn lemma_filter_all<A>(items: Seq<A>, test: spec_fn(A) -> bool)
    requires
        forall|i: int| 0 <= i < items.len() ==> test(#[trigger] items[i]),
    ensures
        items.filter(test) == items,
    decreases items.len(),
{
    reveal(Seq::filter);
    if items.len() > 0 {
        let front = items.drop_last();
        assert(forall|i: int| 0 <= i < front.len() ==> front[i] == items[i]);
        lemma_filter_all(front, test);
        assert(front.push(items.last()) =~= items);
    }
}

/// The secret is never eliminated by its own feedback: a candidate survives
/// the elimination that follows the feedback it gives the guess.
pub proof fn law_secret_survives(guess: Word, secret: Word, candidates: Seq<Word>)
    requires
        candidates.contains(secret),
    ensures
        survivors(guess@, response_code(guess@, secret@), candidates).contains(secret),
{
    let i = choose|i: int| 0 <= i < candidates.len() && candidates[i] == secret;
    candidates.lemma_filter_contains(agrees(guess@, response_code(guess@, secret@)), i);
}

/// Elimination changes nothing when it is repeated with the same guess and
/// feedback on what the first elimination left.
pub proof fn law_eliminate_idempotent(guess: Word, observed: nat, candidates: Seq<Word>)
    ensures
        survivors(guess@, observed, survivors(guess@, observed, candidates)) == survivors(
            guess@,
            observed,
            candidates,
        ),
{
    let test = agrees(guess@, observed);
    let kept = candidates.filter(test);
    assert forall|i: int| 0 <= i < kept.len() implies test(#[trigger] kept[i]) by {
        candidates.lemma_filter_pred(test, i);
    }
    lemma_filter_all(kept, test);
}

/// Every survivor was a candidate, and every survivor agrees with the
/// feedback observed.
pub proof fn law_survivors_agree(guess: Word, observed: nat, candidates: Seq<Word>, i: int)
    requires
        0 <= i < survivors(guess@, observed, candidates).len(),
    ensures
        candidates.contains(survivors(guess@, observed, candidates)[i]),
        response_code(guess@, survivors(guess@, observed, candidates)[i]@) == observed,
{
    let test = agrees(guess@, observed);
    let kept = candidates.filter(test);
    candidates.lemma_filter_pred(test, i);
    assert(kept.contains(kept[i]));
    candidates.lemma_filter_contains_rev(test, kept[i]);
}

} // verus!
