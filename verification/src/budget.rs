//! The escalation schedule of timeout budgets: the doubling sequence
//! 1, 2, 4, 8, ... seconds, optionally truncated below a final cutoff,
//! with the cutoff itself appended as the last budget.

use vstd::prelude::*;
use vstd::arithmetic::power2::*;

verus! {

/// How many doublings the open-ended schedule contains. 2^31 seconds is
/// over 68 years, so the sequence is effectively unbounded for any real
/// workload.
pub const NUM_DOUBLINGS: usize = 32;

/// What it means for `budgets` to be the escalation schedule for
/// `final_cutoff_seconds`: without a cutoff, exactly the first
/// `NUM_DOUBLINGS` powers of two; with a cutoff `c`, every power of two
/// below `c` (in order), and then `c` itself exactly once at the end.
pub open spec fn is_budget_sequence(budgets: Seq<u64>, final_cutoff_seconds: Option<u64>) -> bool {
    match final_cutoff_seconds {
        None => {
            &&& budgets.len() == NUM_DOUBLINGS
            &&& forall|i: int| 0 <= i < budgets.len() ==> budgets[i] == pow2(i as nat)
        },
        Some(c) => {
            &&& budgets.len() >= 1
            &&& budgets.len() <= NUM_DOUBLINGS + 1
            &&& budgets.last() == c
            &&& forall|i: int|
                0 <= i < budgets.len() - 1 ==> budgets[i] == pow2(i as nat) && budgets[i] < c
            &&& budgets.len() - 1 < NUM_DOUBLINGS ==> pow2((budgets.len() - 1) as nat) >= c
        },
    }
}

/// A sequence is strictly increasing.
pub open spec fn strictly_increasing(s: Seq<u64>) -> bool {
    forall|i: int, j: int| 0 <= i < j < s.len() ==> s[i] < s[j]
}

/// Every escalation schedule is strictly increasing: the kept powers of two
/// grow strictly, and an appended cutoff exceeds every power kept below it.
pub proof fn lemma_budget_sequence_strictly_increasing(
    budgets: Seq<u64>,
    final_cutoff_seconds: Option<u64>,
)
    requires
        is_budget_sequence(budgets, final_cutoff_seconds),
    ensures
        strictly_increasing(budgets),
{
    assert forall|i: int, j: int| 0 <= i < j < budgets.len() implies budgets[i] < budgets[j] by {
        if j < budgets.len() - 1 || final_cutoff_seconds is None {
            lemma_pow2_strictly_increases(i as nat, j as nat);
        }
    }
}

/// Produces the escalation schedule: powers of two while they stay below
/// the cutoff, then the cutoff itself; all `NUM_DOUBLINGS` powers when no
/// cutoff is given.
pub fn budget_sequence(final_cutoff_seconds: Option<u64>) -> (budgets: Vec<u64>)
    requires
        final_cutoff_seconds is Some ==> final_cutoff_seconds->0 >= 1,
    ensures
        is_budget_sequence(budgets@, final_cutoff_seconds),
        strictly_increasing(budgets@),
        forall|i: int| 0 <= i < budgets@.len() ==> budgets@[i] >= 1,
{
    let mut budgets: Vec<u64> = Vec::new();
    let mut p: u64 = 1;
    let mut i: usize = 0;
    proof {
        lemma2_to64();
    }
    while i < NUM_DOUBLINGS
        invariant_except_break
            i <= NUM_DOUBLINGS,
            p == pow2(i as nat),
            pow2(NUM_DOUBLINGS as nat) == 0x1_0000_0000,
            budgets@.len() == i,
            forall|k: int| 0 <= k < i ==> budgets@[k] == pow2(k as nat),
            forall|k: int|
                0 <= k < i ==> (final_cutoff_seconds is Some ==> budgets@[k]
                    < final_cutoff_seconds->0),
        ensures
            budgets@.len() <= NUM_DOUBLINGS,
            forall|k: int| 0 <= k < budgets@.len() ==> budgets@[k] == pow2(k as nat),
            forall|k: int|
                0 <= k < budgets@.len() ==> (final_cutoff_seconds is Some ==> budgets@[k]
                    < final_cutoff_seconds->0),
            final_cutoff_seconds is None ==> budgets@.len() == NUM_DOUBLINGS,
            budgets@.len() < NUM_DOUBLINGS ==> final_cutoff_seconds is Some && pow2(
                budgets@.len() as nat,
            ) >= final_cutoff_seconds->0,
        decreases NUM_DOUBLINGS - i,
    {
        if let Some(c) = final_cutoff_seconds {
            if p >= c {
                break ;
            }
        }
        budgets.push(p);
        proof {
            lemma_pow2_strictly_increases(i as nat, NUM_DOUBLINGS as nat);
            lemma_pow2_unfold((i + 1) as nat);
        }
        p = p * 2;
        i = i + 1;
    }
    if let Some(c) = final_cutoff_seconds {
        budgets.push(c);
    }
    proof {
        lemma_budget_sequence_strictly_increasing(budgets@, final_cutoff_seconds);
        assert forall|k: int| 0 <= k < budgets@.len() implies budgets@[k] >= 1 by {
            if k < budgets@.len() - 1 || final_cutoff_seconds is None {
                lemma_pow2_pos(k as nat);
            }
        }
    }
    budgets
}

} // verus!
