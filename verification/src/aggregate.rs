//! Combining the outcomes of all partitions into one verdict.

use crate::runner::{VerificationResult, VerificationResultView};
use vstd::prelude::*;

verus! {

/// The views of a sequence of outcomes.
pub open spec fn result_views(results: Seq<VerificationResult>) -> Seq<VerificationResultView> {
    Seq::new(results.len(), |i: int| results[i]@)
}

/// Whether every outcome is a success.
pub open spec fn all_verified(results: Seq<VerificationResultView>) -> bool {
    forall|i: int| 0 <= i < results.len() ==> (#[trigger] results[i]).verified
}

/// The verdict over all partitions: success if and only if every partition
/// verified.
///
/// Every outcome is looked at, wherever the first failure stands, so that
/// the time taken does not tell which partition failed.
pub fn aggregate(results: &Vec<VerificationResult>) -> (verdict: bool)
    ensures
        verdict == all_verified(result_views(results@)),
{
    let mut verdict = true;
    let mut i: usize = 0;
    while i < results.len()
        invariant
            i <= results@.len(),
            verdict == forall|j: int| 0 <= j < i ==> (#[trigger] result_views(results@)[j]).verified,
        decreases results@.len() - i,
    {
        let ok = results[i].verified;
        assert(ok == result_views(results@)[i as int].verified);
        if !ok {
            verdict = false;
        }
        i += 1;
    }
    verdict
}

/// One failed partition makes the verdict a failure.
pub proof fn lemma_one_failure_fails(results: Seq<VerificationResultView>, i: int)
    requires
        0 <= i < results.len(),
        !results[i].verified,
    ensures
        !all_verified(results),
{
}

/// The verdict does not depend on the order of the outcomes: two sequences
/// that hold the same outcomes, each as often, have the same verdict.
pub proof fn lemma_verdict_ignores_order(
    a: Seq<VerificationResultView>,
    b: Seq<VerificationResultView>,
)
    requires
        a.to_multiset() == b.to_multiset(),
    ensures
        all_verified(a) == all_verified(b),
{
    lemma_failure_carries_over(a, b);
    lemma_failure_carries_over(b, a);
}

proof fn lemma_failure_carries_over(a: Seq<VerificationResultView>, b: Seq<VerificationResultView>)
    requires
        a.to_multiset() == b.to_multiset(),
    ensures
        all_verified(a) ==> all_verified(b),
{
    a.to_multiset_ensures();
    b.to_multiset_ensures();
    if all_verified(a) {
        assert forall|j: int| 0 <= j < b.len() implies (#[trigger] b[j]).verified by {
            assert(b.contains(b[j]));
            assert(b.to_multiset().count(b[j]) > 0);
            assert(a.contains(b[j]));
            let i = choose|i: int| 0 <= i < a.len() && a[i] == b[j];
            assert(a[i].verified);
        }
    }
}

} // verus!
