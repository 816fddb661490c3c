//! Scoring every candidate on the worker threads of rayon.
use crate::word::Word;
use rayon::iter::{IntoParallelRefIterator, ParallelIterator};
use vstd::prelude::*;

verus! {

/// Applies `score` to every word of `wordlist` on rayon's thread pool and
/// collects the results in the order of the words.
///
/// The body is `par_iter().map(score).collect()` of rayon, and its contract
/// is taken on trust. It claims what rayon does with a slice collected into
/// a `Vec`: the result has one entry for each word, and the entry at
/// position `i` is what `score` returned for the word at position `i`.
#[verifier::external_body]
pub(crate) fn par_map<T: Send, F: Fn(&Word) -> T + Sync + Send>(wordlist: &[Word], score: F) -> (out:
    Vec<T>)
    requires
        forall|i: int| 0 <= i < wordlist@.len() ==> call_requires(score, (&#[trigger] wordlist@[i],)),
    ensures
        out@.len() == wordlist@.len(),
        forall|i: int|
            0 <= i < wordlist@.len() ==> call_ensures(score, (&wordlist@[i],), #[trigger] out@[i]),
{
    wordlist.par_iter().map(score).collect()
}

} // verus!
