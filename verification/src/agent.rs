//! The strategies that choose the next guess from the candidates that are
//! left.
use crate::parallel::par_map;
use crate::response::{response_code, RESPONSE_SPAN};
use crate::select::{all_proper, highest, leader, lemma_highest, lemma_pick, pick, Ratio};
use crate::tally::{
    group_size, groups_total, largest_group, lemma_group_seen, lemma_groups_total,
    lemma_largest_group, lemma_responses_seen, lemma_seen_below, responses_seen, seen_below,
    tally_responses, unique_responses, worst_group,
};
use crate::word::Word;
use vstd::prelude::*;

verus! {

/// Chooses the word that splits the candidates into the most groups of
/// equal feedback.
pub struct SplinterAgent {
    /// A fixed opening guess, where one was computed beforehand.
    pub first_guess: Option<Word>,
}

/// Chooses like `SplinterAgent`, but also counts against a word the average
/// and the largest size of the groups it leaves.
pub struct AverseAgent;

/// What one guess would leave of the candidates.
#[derive(Clone, Copy, Debug, PartialEq, Eq, Structural)]
pub struct GroupStats {
    /// Number of groups: the distinct feedback codes the guess can receive.
    pub unique: u32,
    /// Number of candidates in all groups together.
    pub total: usize,
    /// Number of candidates in the largest group.
    pub worst: usize,
}

impl GroupStats {
    /// Whether these are the statistics of `guess` against `candidates`.
    pub open spec fn describes(self, guess: Seq<u8>, candidates: Seq<Word>) -> bool {
        &&& self.unique == unique_responses(guess, candidates)
        &&& self.total == candidates.len()
        &&& self.worst == worst_group(guess, candidates)
    }
}

impl SplinterAgent {
    /// The number of distinct feedback codes that `test_word` receives
    /// against the words of `wordlist`.
    pub fn score_word(&self, test_word: &Word, wordlist: &[Word]) -> (unique: u32)
        ensures
            unique == unique_responses(test_word@, wordlist@),
    {
        let responses = tally_responses(test_word, wordlist);
        let mut unique: u32 = 0;
        let mut code: usize = 0;
        proof {
            lemma_seen_below(test_word@, wordlist@, 0);
        }
        while code < RESPONSE_SPAN
            invariant
                code <= RESPONSE_SPAN,
                unique == seen_below(test_word@, wordlist@, code as nat).len(),
                unique <= code,
                forall|c: int|
                    0 <= c < RESPONSE_SPAN ==> #[trigger] responses@[c] == group_size(
                        test_word@,
                        wordlist@,
                        c as nat,
                    ),
            decreases RESPONSE_SPAN - code,
        {
            proof {
                lemma_seen_below(test_word@, wordlist@, (code + 1) as nat);
            }
            if responses[code] != 0 {
                unique += 1;
            }
            code += 1;
        }
        proof {
            lemma_responses_seen(test_word@, wordlist@);
        }
        unique
    }
}

impl AverseAgent {
    /// The number of groups that `test_word` splits `wordlist` into, the
    /// number of words in them, and the size of the largest.
    pub fn score_word(&self, test_word: &Word, wordlist: &[Word]) -> (stats: GroupStats)
        ensures
            stats.describes(test_word@, wordlist@),
    {
        let responses = tally_responses(test_word, wordlist);
        let words: usize = wordlist.len();
        let mut unique: u32 = 0;
        let mut sum: usize = 0;
        let mut worst: usize = 0;
        let mut code: usize = 0;
        proof {
            lemma_seen_below(test_word@, wordlist@, 0);
            lemma_groups_total(test_word@, wordlist@);
        }
        while code < RESPONSE_SPAN
            invariant
                code <= RESPONSE_SPAN,
                unique == seen_below(test_word@, wordlist@, code as nat).len(),
                unique <= code,
                sum == groups_total(test_word@, wordlist@, code as nat),
                worst == largest_group(test_word@, wordlist@, code as nat),
                groups_total(test_word@, wordlist@, RESPONSE_SPAN as nat) == words,
                forall|c: int|
                    0 <= c < RESPONSE_SPAN ==> #[trigger] responses@[c] == group_size(
                        test_word@,
                        wordlist@,
                        c as nat,
                    ),
            decreases RESPONSE_SPAN - code,
        {
            proof {
                lemma_seen_below(test_word@, wordlist@, (code + 1) as nat);
                lemma_groups_total_grows(
                    test_word@,
                    wordlist@,
                    (code + 1) as nat,
                    RESPONSE_SPAN as nat,
                );
            }
            let response_tally = responses[code];
            assert(sum + response_tally == groups_total(
                test_word@,
                wordlist@,
                (code + 1) as nat,
            ));
            sum += response_tally;
            if response_tally != 0 {
                unique += 1;
            }
            if response_tally > worst {
                worst = response_tally;
            }
            code += 1;
        }
        proof {
            lemma_responses_seen(test_word@, wordlist@);
        }
        GroupStats { unique, total: sum, worst }
    }
}

proof fn lemma_groups_total_grows(guess: Seq<u8>, candidates: Seq<Word>, low: nat, high: nat)
    requires
        low <= high,
    ensures
        groups_total(guess, candidates, low) <= groups_total(guess, candidates, high),
    decreases high,
{
    if low < high {
        lemma_groups_total_grows(guess, candidates, low, (high - 1) as nat);
    }
}

/// The largest number of candidates that `AverseAgent` scores: with more,
/// its scores would not fit the integers it computes them in.
pub const MAX_CANDIDATES: usize = 0xFFFF_FFFF;

/// A strategy that chooses the next guess among the candidates.
pub trait WordleAgent {
    /// The largest number of candidates that the strategy takes.
    spec fn capacity(&self) -> nat;

    /// The position of the word that the strategy chooses.
    spec fn choice(&self, wordlist: Seq<Word>) -> int;

    /// Chooses the next guess among the words of `wordlist`, which must not
    /// be empty.
    fn select_move(&self, wordlist: &[Word]) -> (guess: Word)
        requires
            0 < wordlist@.len() <= self.capacity(),
        ensures
            0 <= self.choice(wordlist@) < wordlist@.len(),
            guess == wordlist@[self.choice(wordlist@)],
    ;
}

/// The score that `SplinterAgent` gives each candidate: the number of
/// distinct feedback codes that it receives against all candidates.
pub open spec fn splinter_scores(wordlist: Seq<Word>) -> Seq<Ratio> {
    Seq::new(
        wordlist.len(),
        |i: int| Ratio { num: unique_responses(wordlist[i]@, wordlist) as int, den: 1 },
    )
}

impl WordleAgent for SplinterAgent {
    open spec fn capacity(&self) -> nat {
        usize::MAX as nat
    }

    /// The first candidate among those with the greatest score.
    open spec fn choice(&self, wordlist: Seq<Word>) -> int {
        pick(splinter_scores(wordlist))
    }

    fn select_move(&self, wordlist: &[Word]) -> (guess: Word) {
        let score = |test_word: &Word| -> (unique: u32)
            ensures
                unique == unique_responses(test_word@, wordlist@),
            { self.score_word(test_word, wordlist) };
        let scores: Vec<u32> = par_map(wordlist, score);
        let ghost rated = splinter_scores(wordlist@);
        let mut max_score: u32 = 0;
        let mut best_word = &wordlist[0];
        let mut i: usize = 0;
        while i < scores.len()
            invariant
                i <= scores@.len(),
                scores@.len() == wordlist@.len(),
                rated == splinter_scores(wordlist@),
                forall|j: int| 0 <= j < scores@.len() ==> #[trigger] scores@[j] == rated[j].num,
                match leader(rated, i as nat) {
                    None => max_score == 0 && *best_word == wordlist@[0],
                    Some(k) => 0 <= k < i && max_score == rated[k].num && *best_word
                        == wordlist@[k],
                },
            decreases scores@.len() - i,
        {
            proof {
                if let Some(k) = leader(rated, i as nat) {
                    lemma_whole_scores(rated[i as int], rated[k]);
                }
            }
            if scores[i] > max_score {
                best_word = &wordlist[i];
                max_score = scores[i];
            }
            i += 1;
        }
        best_word.clone()
    }
}

/// The number of groups that each candidate splits the candidates into.
pub open spec fn unique_counts(wordlist: Seq<Word>) -> Seq<int> {
    Seq::new(wordlist.len(), |i: int| unique_responses(wordlist[i]@, wordlist) as int)
}

/// The size of the largest group that each candidate leaves.
pub open spec fn worst_counts(wordlist: Seq<Word>) -> Seq<int> {
    Seq::new(wordlist.len(), |i: int| worst_group(wordlist[i]@, wordlist) as int)
}

/// The numerator of the composite score over the denominator
/// `10 * max_unique * max_worst * unique`.
pub open spec fn composite_numerator(
    unique: int,
    total: int,
    worst: int,
    max_unique: int,
    max_worst: int,
) -> int {
    10 * (unique * unique * max_worst) - 5 * (total * max_worst) - 2 * (worst * max_unique
        * unique)
}

/// The composite score of a candidate with `unique` groups of `total` words,
/// the largest of `worst` words:
/// `unique / max_unique - (total / unique) / max_unique / 2 - worst / max_worst / 5`,
/// as one exact fraction. The average group size `total / unique` is set
/// against `max_unique`, as the number of groups is.
pub open spec fn composite_score(
    unique: int,
    total: int,
    worst: int,
    max_unique: int,
    max_worst: int,
) -> Ratio {
    Ratio {
        num: composite_numerator(unique, total, worst, max_unique, max_worst),
        den: 10 * (max_unique * max_worst * unique),
    }
}

/// The composite score that `AverseAgent` gives each candidate.
pub open spec fn averse_scores(wordlist: Seq<Word>) -> Seq<Ratio> {
    Seq::new(
        wordlist.len(),
        |i: int|
            composite_score(
                unique_counts(wordlist)[i],
                wordlist.len() as int,
                worst_counts(wordlist)[i],
                highest(unique_counts(wordlist), wordlist.len()),
                highest(worst_counts(wordlist), wordlist.len()),
            ),
    )
}

/// No score of the size that `AverseAgent` computes leaves this range.
pub const NUMERATOR_BOUND: i128 = 0x40_0000_0000_0000_0000;

/// Against a list that is not empty, every candidate receives at least one
/// feedback code, and its largest group holds at least one word.
pub proof fn lemma_groups_exist(guess: Seq<u8>, candidates: Seq<Word>)
    requires
        candidates.len() > 0,
    ensures
        1 <= unique_responses(guess, candidates) <= RESPONSE_SPAN,
        1 <= worst_group(guess, candidates) <= candidates.len(),
{
    let code = response_code(guess, candidates[0]@);
    lemma_group_seen(guess, candidates, code);
    lemma_responses_seen(guess, candidates);
    assert(responses_seen(guess, candidates).contains(code));
    lemma_largest_group(guess, candidates, RESPONSE_SPAN as nat);
}

/// The composite scores of a list that is not empty are proper fractions.
pub proof fn lemma_averse_scores_proper(wordlist: Seq<Word>)
    requires
        wordlist.len() > 0,
    ensures
        all_proper(averse_scores(wordlist)),
        1 <= highest(unique_counts(wordlist), wordlist.len()) <= RESPONSE_SPAN,
        1 <= highest(worst_counts(wordlist), wordlist.len()) <= wordlist.len(),
{
    let uniques = unique_counts(wordlist);
    let worsts = worst_counts(wordlist);
    let max_unique = highest(uniques, wordlist.len());
    let max_worst = highest(worsts, wordlist.len());
    lemma_highest(uniques, wordlist.len());
    lemma_highest(worsts, wordlist.len());
    assert forall|i: int| 0 <= i < wordlist.len() implies 1 <= #[trigger] uniques[i]
        <= RESPONSE_SPAN by {
        lemma_groups_exist(wordlist[i]@, wordlist);
    }
    assert forall|i: int| 0 <= i < wordlist.len() implies 1 <= #[trigger] worsts[i]
        <= wordlist.len() by {
        lemma_groups_exist(wordlist[i]@, wordlist);
    }
    assert(1 <= uniques[0] <= max_unique);
    assert(1 <= worsts[0] <= max_worst);
    let scores = averse_scores(wordlist);
    assert forall|i: int| 0 <= i < scores.len() implies (#[trigger] scores[i]).proper() by {
        let unique = uniques[i];
        assert(10 * (max_unique * max_worst * unique) > 0) by (nonlinear_arith)
            requires
                max_unique >= 1,
                max_worst >= 1,
                unique >= 1,
        ;
    }
}

/// Two fractions over denominators with a common positive factor compare as
/// they do without it.
proof fn lemma_exceeds_scaled(a: int, x: int, b: int, y: int, factor: int)
    requires
        factor > 0,
    ensures
        (Ratio { num: a, den: 10 * (factor * x) }).exceeds(Ratio { num: b, den: 10 * (factor * y) })
            <==> a * y > b * x,
{
    assert(a * (10 * (factor * y)) == (10 * factor) * (a * y)) by (nonlinear_arith);
    assert(b * (10 * (factor * x)) == (10 * factor) * (b * x)) by (nonlinear_arith);
    assert(((10 * factor) * (a * y) > (10 * factor) * (b * x)) <==> a * y > b * x)
        by (nonlinear_arith)
        requires
            factor > 0,
    ;
}

impl AverseAgent {
    /// The numerator of the composite score of a candidate with the
    /// statistics `stats`.
    pub fn composite_numerator(stats: GroupStats, max_unique: u32, max_worst: usize) -> (num: i128)
        requires
            stats.unique <= RESPONSE_SPAN,
            max_unique <= RESPONSE_SPAN,
            stats.total <= MAX_CANDIDATES,
            stats.worst <= MAX_CANDIDATES,
            max_worst <= MAX_CANDIDATES,
        ensures
            num == composite_numerator(
                stats.unique as int,
                stats.total as int,
                stats.worst as int,
                max_unique as int,
                max_worst as int,
            ),
            -NUMERATOR_BOUND <= num <= NUMERATOR_BOUND,
    {
        let unique = stats.unique as i128;
        let total = stats.total as i128;
        let worst = stats.worst as i128;
        let top_unique = max_unique as i128;
        let top_worst = max_worst as i128;
        assert(0 <= unique * unique <= 1024 * 1024) by (nonlinear_arith)
            requires
                0 <= unique <= 1024,
        ;
        let squared = unique * unique;
        assert(0 <= squared * top_worst <= 1048576 * 0xFFFF_FFFF) by (nonlinear_arith)
            requires
                0 <= squared <= 1048576,
                0 <= top_worst <= 0xFFFF_FFFF,
        ;
        assert(0 <= total * top_worst <= 0xFFFF_FFFF * 0xFFFF_FFFF) by (nonlinear_arith)
            requires
                0 <= total <= 0xFFFF_FFFF,
                0 <= top_worst <= 0xFFFF_FFFF,
        ;
        assert(0 <= worst * top_unique <= 0xFFFF_FFFF * 1024) by (nonlinear_arith)
            requires
                0 <= worst <= 0xFFFF_FFFF,
                0 <= top_unique <= 1024,
        ;
        let spread = worst * top_unique;
        assert(0 <= spread * unique <= 0xFFFF_FFFF * 1024 * 1024) by (nonlinear_arith)
            requires
                0 <= spread <= 0xFFFF_FFFF * 1024,
                0 <= unique <= 1024,
        ;
        10 * (squared * top_worst) - 5 * (total * top_worst) - 2 * (spread * unique)
    }

    /// Whether the score with numerator `num` of a candidate with `unique`
    /// groups is strictly greater than the score with numerator `other_num`
    /// of a candidate with `other_unique` groups.
    pub fn score_exceeds(num: i128, unique: u32, other_num: i128, other_unique: u32) -> (greater:
        bool)
        requires
            -NUMERATOR_BOUND <= num <= NUMERATOR_BOUND,
            -NUMERATOR_BOUND <= other_num <= NUMERATOR_BOUND,
            unique <= RESPONSE_SPAN,
            other_unique <= RESPONSE_SPAN,
        ensures
            greater == (num * other_unique > other_num * unique),
    {
        let groups = unique as i128;
        let other_groups = other_unique as i128;
        assert(-NUMERATOR_BOUND * 1024 <= num * other_groups <= NUMERATOR_BOUND * 1024)
            by (nonlinear_arith)
            requires
                -NUMERATOR_BOUND <= num <= NUMERATOR_BOUND,
                0 <= other_groups <= 1024,
        ;
        assert(-NUMERATOR_BOUND * 1024 <= other_num * groups <= NUMERATOR_BOUND * 1024)
            by (nonlinear_arith)
            requires
                -NUMERATOR_BOUND <= other_num <= NUMERATOR_BOUND,
                0 <= groups <= 1024,
        ;
        num * other_groups > other_num * groups
    }
}

impl WordleAgent for AverseAgent {
    open spec fn capacity(&self) -> nat {
        MAX_CANDIDATES as nat
    }

    /// The first candidate among those with the greatest composite score,
    /// or the first candidate where no composite score is positive.
    open spec fn choice(&self, wordlist: Seq<Word>) -> int {
        pick(averse_scores(wordlist))
    }

    fn select_move(&self, wordlist: &[Word]) -> (guess: Word) {
        let score = |test_word: &Word| -> (stats: GroupStats)
            ensures
                stats.describes(test_word@, wordlist@),
            { self.score_word(test_word, wordlist) };
        let scores: Vec<GroupStats> = par_map(wordlist, score);
        let ghost uniques = unique_counts(wordlist@);
        let ghost worsts = worst_counts(wordlist@);
        let ghost rated = averse_scores(wordlist@);
        proof {
            lemma_averse_scores_proper(wordlist@);
            assert forall|j: int| 0 <= j < wordlist@.len() implies 1 <= #[trigger] uniques[j]
                <= RESPONSE_SPAN by {
                lemma_groups_exist(wordlist@[j]@, wordlist@);
            }
            assert forall|j: int| 0 <= j < wordlist@.len() implies 1 <= #[trigger] worsts[j]
                <= wordlist@.len() by {
                lemma_groups_exist(wordlist@[j]@, wordlist@);
            }
        }
        let mut max_u: u32 = 0;
        let mut max_w: usize = 0;
        let mut i: usize = 0;
        while i < scores.len()
            invariant
                i <= scores@.len(),
                scores@.len() == wordlist@.len(),
                uniques == unique_counts(wordlist@),
                worsts == worst_counts(wordlist@),
                forall|j: int|
                    0 <= j < scores@.len() ==> (#[trigger] scores@[j]).describes(
                        wordlist@[j]@,
                        wordlist@,
                    ),
                max_u == highest(uniques, i as nat),
                max_w == highest(worsts, i as nat),
            decreases scores@.len() - i,
        {
            let stats = scores[i];
            assert(stats.unique == uniques[i as int]);
            assert(stats.worst == worsts[i as int]);
            if stats.unique > max_u {
                max_u = stats.unique;
            }
            if stats.worst > max_w {
                max_w = stats.worst;
            }
            i += 1;
        }
        let mut max_num: i128 = 0;
        let mut max_groups: u32 = 1;
        let mut best_word = &wordlist[0];
        let mut i: usize = 0;
        while i < scores.len()
            invariant
                i <= scores@.len(),
                scores@.len() == wordlist@.len(),
                0 < wordlist@.len() <= MAX_CANDIDATES,
                uniques == unique_counts(wordlist@),
                worsts == worst_counts(wordlist@),
                rated == averse_scores(wordlist@),
                forall|j: int|
                    0 <= j < scores@.len() ==> (#[trigger] scores@[j]).describes(
                        wordlist@[j]@,
                        wordlist@,
                    ),
                forall|j: int| 0 <= j < wordlist@.len() ==> 1 <= #[trigger] uniques[j] <= RESPONSE_SPAN,
                forall|j: int| 0 <= j < wordlist@.len() ==> 1 <= #[trigger] worsts[j] <= wordlist@.len(),
                max_u == highest(uniques, wordlist@.len()),
                max_w == highest(worsts, wordlist@.len()),
                1 <= max_u <= RESPONSE_SPAN,
                1 <= max_w <= wordlist@.len(),
                -NUMERATOR_BOUND <= max_num <= NUMERATOR_BOUND,
                max_groups <= RESPONSE_SPAN,
                match leader(rated, i as nat) {
                    None => max_num == 0 && max_groups == 1 && *best_word == wordlist@[0],
                    Some(k) => {
                        &&& 0 <= k < i
                        &&& max_num == rated[k].num
                        &&& max_groups == uniques[k]
                        &&& *best_word == wordlist@[k]
                    },
                },
            decreases scores@.len() - i,
        {
            let stats = scores[i];
            assert(stats.unique == uniques[i as int]);
            assert(stats.worst == worsts[i as int]);
            let num = Self::composite_numerator(stats, max_u, max_w);
            proof {
                assert(num == rated[i as int].num);
                let factor = max_u * max_w;
                assert(factor > 0) by (nonlinear_arith)
                    requires
                        factor == max_u * max_w,
                        max_u >= 1,
                        max_w >= 1,
                ;
                if let Some(k) = leader(rated, i as nat) {
                    lemma_exceeds_scaled(
                        num as int,
                        uniques[i as int],
                        rated[k].num,
                        uniques[k],
                        factor as int,
                    );
                }
            }
            if Self::score_exceeds(num, stats.unique, max_num, max_groups) {
                best_word = &wordlist[i];
                max_num = num;
                max_groups = stats.unique;
            }
            i += 1;
        }
        best_word.clone()
    }
}

/// The score of the word that `SplinterAgent` chooses.
pub open spec fn splinter_best_score(wordlist: Seq<Word>) -> nat {
    unique_responses(wordlist[pick(splinter_scores(wordlist))]@, wordlist)
}

/// Scores over the denominator one compare as their numerators do.
proof fn lemma_whole_scores(a: Ratio, b: Ratio)
    requires
        a.den == 1,
        b.den == 1,
    ensures
        a.exceeds(b) <==> a.num > b.num,
{
    assert(a.num * 1 == a.num && b.num * 1 == b.num);
}

/// `SplinterAgent` chooses the first candidate among those with the greatest
/// score: no candidate has more groups, and every candidate before it has
/// fewer.
pub proof fn law_splinter_choice(wordlist: Seq<Word>)
    requires
        wordlist.len() > 0,
    ensures
        0 <= pick(splinter_scores(wordlist)) < wordlist.len(),
        forall|j: int|
            0 <= j < wordlist.len() ==> unique_responses(#[trigger] wordlist[j]@, wordlist)
                <= splinter_best_score(wordlist),
        forall|j: int|
            0 <= j < pick(splinter_scores(wordlist)) ==> unique_responses(
                #[trigger] wordlist[j]@,
                wordlist,
            ) < splinter_best_score(wordlist),
{
    let scores = splinter_scores(wordlist);
    lemma_groups_exist(wordlist[0]@, wordlist);
    assert(scores[0].positive());
    lemma_pick(scores);
    let k = pick(scores);
    assert forall|j: int| 0 <= j < wordlist.len() implies unique_responses(
        #[trigger] wordlist[j]@,
        wordlist,
    ) <= splinter_best_score(wordlist) by {
        assert(!scores[j].exceeds(scores[k]));
        lemma_whole_scores(scores[j], scores[k]);
    }
    assert forall|j: int| 0 <= j < k implies unique_responses(#[trigger] wordlist[j]@, wordlist)
        < splinter_best_score(wordlist) by {
        assert(scores[k].exceeds(scores[j]));
        lemma_whole_scores(scores[k], scores[j]);
    }
}

/// Two lists with the same words, in whatever order, have the same members.
proof fn lemma_same_members(first: Seq<Word>, second: Seq<Word>, word: Word)
    requires
        first.to_multiset() == second.to_multiset(),
        first.contains(word),
    ensures
        second.contains(word),
{
    first.to_multiset_ensures();
    second.to_multiset_ensures();
    assert(first.to_multiset().count(word) > 0);
    assert(second.to_multiset().count(word) > 0);
}

/// The order of the candidates plays no part in the score of a guess.
pub proof fn lemma_unique_responses_permutation(
    guess: Seq<u8>,
    first: Seq<Word>,
    second: Seq<Word>,
)
    requires
        first.to_multiset() == second.to_multiset(),
    ensures
        unique_responses(guess, first) == unique_responses(guess, second),
{
    first.to_multiset_ensures();
    second.to_multiset_ensures();
    assert forall|code: nat|
        group_size(guess, first, code) > 0 <==> group_size(guess, second, code) > 0 by {
        lemma_group_seen(guess, first, code);
        lemma_group_seen(guess, second, code);
        if group_size(guess, first, code) > 0 {
            let i = choose|i: int|
                0 <= i < first.len() && response_code(guess, #[trigger] first[i]@) == code;
            assert(first.contains(first[i]));
            lemma_same_members(first, second, first[i]);
            let j = choose|j: int| 0 <= j < second.len() && second[j] == first[i];
            assert(response_code(guess, second[j]@) == code);
        }
        if group_size(guess, second, code) > 0 {
            let i = choose|i: int|
                0 <= i < second.len() && response_code(guess, #[trigger] second[i]@) == code;
            assert(second.contains(second[i]));
            lemma_same_members(second, first, second[i]);
            let j = choose|j: int| 0 <= j < first.len() && first[j] == second[i];
            assert(response_code(guess, first[j]@) == code);
        }
    }
    assert(responses_seen(guess, first) =~= responses_seen(guess, second));
}

proof fn lemma_splinter_best_bounded(first: Seq<Word>, second: Seq<Word>)
    requires
        first.len() > 0,
        first.to_multiset() == second.to_multiset(),
    ensures
        second.len() > 0,
        splinter_best_score(second) <= splinter_best_score(first),
{
    first.to_multiset_ensures();
    second.to_multiset_ensures();
    law_splinter_choice(second);
    law_splinter_choice(first);
    let winner = second[pick(splinter_scores(second))];
    assert(second.contains(winner));
    lemma_same_members(second, first, winner);
    let j = choose|j: int| 0 <= j < first.len() && first[j] == winner;
    lemma_unique_responses_permutation(winner@, first, second);
    assert(unique_responses(first[j]@, first) <= splinter_best_score(first));
}

/// The score with which `SplinterAgent` chooses does not depend on the order
/// of the candidates, and the word chosen from a reordered list has that
/// score in the list as it stood: the choice can move only among the
/// candidates that share the greatest score.
pub proof fn law_splinter_score_permutation(first: Seq<Word>, second: Seq<Word>)
    requires
        first.len() > 0,
        first.to_multiset() == second.to_multiset(),
    ensures
        splinter_best_score(first) == splinter_best_score(second),
        unique_responses(second[pick(splinter_scores(second))]@, first) == splinter_best_score(
            first,
        ),
{
    lemma_splinter_best_bounded(first, second);
    lemma_splinter_best_bounded(second, first);
    lemma_unique_responses_permutation(second[pick(splinter_scores(second))]@, first, second);
}

/// `AverseAgent` chooses the first candidate among those with the greatest
/// composite score, where some composite score is positive, and the first
/// candidate where none is.
pub proof fn law_averse_choice(wordlist: Seq<Word>)
    requires
        wordlist.len() > 0,
    ensures
        all_proper(averse_scores(wordlist)),
        0 <= pick(averse_scores(wordlist)) < wordlist.len(),
        (forall|j: int|
            0 <= j < wordlist.len() ==> !(#[trigger] averse_scores(wordlist)[j]).positive())
            ==> pick(averse_scores(wordlist)) == 0,
        (exists|j: int|
            0 <= j < wordlist.len() && (#[trigger] averse_scores(wordlist)[j]).positive()) ==> {
            let scores = averse_scores(wordlist);
            &&& scores[pick(scores)].positive()
            &&& forall|j: int|
                0 <= j < wordlist.len() ==> !(#[trigger] scores[j]).exceeds(scores[pick(scores)])
            &&& forall|j: int|
                0 <= j < pick(scores) ==> scores[pick(scores)].exceeds(#[trigger] scores[j])
        },
{
    lemma_averse_scores_proper(wordlist);
    lemma_pick(averse_scores(wordlist));
}

} // verus!
