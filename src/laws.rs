//! Laws that relate the ways of computing solutions.
use vstd::prelude::*;

use crate::cf::{fundamental_solution, lemma_fundamental_solution};
use crate::ring::{follows_recurrence, lemma_powers_increase, lemma_recurrence_is_power, ring_pow};
use crate::sequence::PellSolutionIterator;
use crate::utils::valid_discriminant;

verus! {

/// The three ways of reaching the k-th solution agree: binary
/// exponentiation (`pell_solution_k`, which yields the k-th power of the
/// fundamental solution), the k-th element of a batch built by the
/// recurrence (`pell_solutions`), and what a fresh sequence hands out after
/// k − 1 calls of `next`.
pub proof fn lemma_methods_agree(
    d: u64,
    k: nat,
    batch: Seq<(int, int)>,
    fresh: PellSolutionIterator,
)
    requires
        valid_discriminant(d as int),
        1 <= k <= batch.len(),
        follows_recurrence(d as int, fundamental_solution(d as int), batch),
        fresh.discriminant() == d,
        fresh.position() == 1,
    ensures
        batch[k - 1] == ring_pow(d as int, fundamental_solution(d as int), k),
        fresh.upcoming(k)[k - 1] == ring_pow(d as int, fundamental_solution(d as int), k),
{
    lemma_recurrence_is_power(d as int, fundamental_solution(d as int), batch, k);
}

/// The solutions grow strictly in both coordinates: x_(k+1) > x_k and
/// y_(k+1) > y_k for every k ≥ 1.
pub proof fn lemma_solutions_increase(d: u64, k: nat)
    requires
        valid_discriminant(d as int),
        k >= 1,
    ensures
        ring_pow(d as int, fundamental_solution(d as int), k + 1).0 > ring_pow(
            d as int,
            fundamental_solution(d as int),
            k,
        ).0,
        ring_pow(d as int, fundamental_solution(d as int), k + 1).1 > ring_pow(
            d as int,
            fundamental_solution(d as int),
            k,
        ).1,
{
    lemma_fundamental_solution(d as int);
    lemma_powers_increase(d as int, fundamental_solution(d as int), k);
}

/// A sequence that was reset hands out the same solutions as it did from
/// the start: `reset` brings back position 1 and keeps D, and what `next`
/// hands out depends on these alone.
pub proof fn lemma_reset_replays(
    fresh: PellSolutionIterator,
    rewound: PellSolutionIterator,
    n: nat,
)
    requires
        fresh.position() == 1,
        rewound.position() == 1,
        rewound.discriminant() == fresh.discriminant(),
    ensures
        rewound.upcoming(n) == fresh.upcoming(n),
{
    assert(rewound.upcoming(n) =~= fresh.upcoming(n));
}

} // verus!
