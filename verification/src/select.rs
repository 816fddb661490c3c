//! Choosing by a running maximum: scores are read in order, and a score takes
//! the lead only when it is strictly greater than the greatest before it.
use vstd::prelude::*;

verus! {

/// A score as a fraction of two integers. The denominator of a proper score
/// is positive.
pub ghost struct Ratio {
    pub num: int,
    pub den: int,
}

impl Ratio {
    /// Whether the denominator is positive.
    pub open spec fn proper(self) -> bool {
        self.den > 0
    }

    /// Whether the score is greater than zero.
    pub open spec fn positive(self) -> bool {
        self.num > 0
    }

    /// Whether this score is strictly greater than `other`.
    pub open spec fn exceeds(self, other: Ratio) -> bool {
        self.num * other.den > other.num * self.den
    }
}

/// Whether every score of a sequence is proper.
pub open spec fn all_proper(scores: Seq<Ratio>) -> bool {
    forall|i: int| 0 <= i < scores.len() ==> (#[trigger] scores[i]).proper()
}

/// The position that holds the running maximum after the first `upto`
/// scores were read. The maximum starts at zero, so nothing holds it until a
/// positive score was read.
pub open spec fn leader(scores: Seq<Ratio>, upto: nat) -> Option<int>
    decreases upto,
{
    if upto == 0 {
        None
    } else {
        let before = leader(scores, (upto - 1) as nat);
        let next = scores[upto - 1];
        let leads = match before {
            None => next.positive(),
            Some(k) => next.exceeds(scores[k]),
        };
        if leads {
            Some(upto - 1)
        } else {
            before
        }
    }
}

/// The position chosen: the one that holds the maximum at the end, or the
/// first position where no score was positive.
pub open spec fn pick(scores: Seq<Ratio>) -> int {
    match leader(scores, scores.len()) {
        Some(k) => k,
        None => 0,
    }
}

/// A score that is not exceeded by a second one, which a third one exceeds,
/// is exceeded by the third.
pub proof fn lemma_exceeds_chain(low: Ratio, mid: Ratio, high: Ratio)
    requires
        low.proper(),
        mid.proper(),
        high.proper(),
        !low.exceeds(mid),
        high.exceeds(mid),
    ensures
        high.exceeds(low),
{
    let (a, b) = (low.num, low.den);
    let (c, d) = (mid.num, mid.den);
    let (e, f) = (high.num, high.den);
    assert((a * d) * f <= (c * b) * f) by (nonlinear_arith)
        requires
            a * d <= c * b,
            f > 0,
    ;
    assert((e * d) * b > (c * f) * b) by (nonlinear_arith)
        requires
            e * d > c * f,
            b > 0,
    ;
    assert((a * d) * f == (a * f) * d && (c * b) * f == (c * f) * b && (e * d) * b == (e * b) * d)
        by (nonlinear_arith);
    assert(e * b > a * f) by (nonlinear_arith)
        requires
            (e * b) * d > (a * f) * d,
            d > 0,
    ;
}

/// A positive score exceeds one that is not positive.
pub proof fn lemma_positive_exceeds(low: Ratio, high: Ratio)
    requires
        low.proper(),
        high.proper(),
        !low.positive(),
        high.positive(),
    ensures
        high.exceeds(low),
{
    assert(high.num * low.den > 0 && low.num * high.den <= 0) by (nonlinear_arith)
        requires
            high.num > 0,
            low.den > 0,
            low.num <= 0,
            high.den > 0,
    ;
}

/// What the running maximum means. Where nothing holds it, no score read so
/// far is positive. Where position `k` holds it, the score there is positive,
/// no score read so far exceeds it, and it exceeds every score before it.
pub proof fn lemma_leader(scores: Seq<Ratio>, upto: nat)
    requires
        upto <= scores.len(),
        all_proper(scores),
    ensures
        match leader(scores, upto) {
            None => forall|j: int| 0 <= j < upto ==> !(#[trigger] scores[j]).positive(),
            Some(k) => {
                &&& 0 <= k < upto
                &&& scores[k].positive()
                &&& forall|j: int| 0 <= j < upto ==> !(#[trigger] scores[j]).exceeds(scores[k])
                &&& forall|j: int| 0 <= j < k ==> scores[k].exceeds(#[trigger] scores[j])
            },
        },
    decreases upto,
{
    if upto > 0 {
        let last = upto - 1;
        let next = scores[last];
        lemma_leader(scores, last as nat);
        match leader(scores, last as nat) {
            None => {
                if next.positive() {
                    assert forall|j: int| 0 <= j < last implies next.exceeds(
                        #[trigger] scores[j],
                    ) by {
                        lemma_positive_exceeds(scores[j], next);
                    }
                }
            },
            Some(k) => {
                if next.exceeds(scores[k]) {
                    assert forall|j: int| 0 <= j < last implies next.exceeds(
                        #[trigger] scores[j],
                    ) by {
                        lemma_exceeds_chain(scores[j], scores[k], next);
                    }
                    assert(next.positive()) by {
                        lemma_exceeds_positive(scores[k], next);
                    }
                }
            },
        }
    }
}

/// A score that exceeds a positive one is positive.
pub proof fn lemma_exceeds_positive(low: Ratio, high: Ratio)
    requires
        low.proper(),
        high.proper(),
        low.positive(),
        high.exceeds(low),
    ensures
        high.positive(),
{
    assert(high.num > 0) by (nonlinear_arith)
        requires
            high.num * low.den > low.num * high.den,
            low.num > 0,
            low.den > 0,
            high.den > 0,
    ;
}

/// The position chosen lies in the sequence. Where some score is positive,
/// it is the first position whose score no other exceeds; where none is, it
/// is the first position.
pub proof fn lemma_pick(scores: Seq<Ratio>)
    requires
        scores.len() > 0,
        all_proper(scores),
    ensures
        0 <= pick(scores) < scores.len(),
        (forall|j: int| 0 <= j < scores.len() ==> !(#[trigger] scores[j]).positive()) ==> pick(
            scores,
        ) == 0,
        (exists|j: int| 0 <= j < scores.len() && (#[trigger] scores[j]).positive()) ==> {
            &&& scores[pick(scores)].positive()
            &&& forall|j: int|
                0 <= j < scores.len() ==> !(#[trigger] scores[j]).exceeds(scores[pick(scores)])
            &&& forall|j: int|
                0 <= j < pick(scores) ==> scores[pick(scores)].exceeds(#[trigger] scores[j])
        },
{
    lemma_leader(scores, scores.len());
    if forall|j: int| 0 <= j < scores.len() ==> !(#[trigger] scores[j]).positive() {
        if let Some(k) = leader(scores, scores.len()) {
            assert(scores[k].positive());
        }
    }
}

/// The greatest of the first `upto` values, or zero where none of them is
/// positive.
pub open spec fn highest(values: Seq<int>, upto: nat) -> int
    decreases upto,
{
    if upto == 0 {
        0
    } else {
        let before = highest(values, (upto - 1) as nat);
        if values[upto - 1] > before {
            values[upto - 1]
        } else {
            before
        }
    }
}

/// The greatest value is at least zero and at least each value read; where
/// it is positive, it is one of them.
pub proof fn lemma_highest(values: Seq<int>, upto: nat)
    requires
        upto <= values.len(),
    ensures
        highest(values, upto) >= 0,
        forall|j: int| 0 <= j < upto ==> #[trigger] values[j] <= highest(values, upto),
        highest(values, upto) > 0 ==> exists|j: int|
            0 <= j < upto && #[trigger] values[j] == highest(values, upto),
    decreases upto,
{
    if upto > 0 {
        lemma_highest(values, (upto - 1) as nat);
        let top = highest(values, upto);
        if top > 0 {
            if values[upto - 1] == top {
                assert(0 <= upto - 1 < upto && values[upto - 1] == top);
            } else {
                let j = choose|j: int|
                    0 <= j < upto - 1 && #[trigger] values[j] == highest(
                        values,
                        (upto - 1) as nat,
                    );
                assert(0 <= j < upto && values[j] == top);
            }
        }
    }
}

} // verus!
