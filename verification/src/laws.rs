//! Chain-level laws proved from the store's invariants.

use vstd::prelude::*;
use crate::local::LocalBlockchain;

verus! {

/// The sum of the difficulties of the blocks numbered `0..=n`.
pub open spec fn difficulty_sum(chain: LocalBlockchain, n: u64) -> int
    decreases n,
{
    if n == 0 {
        chain.diff_int_at(0)
    } else {
        difficulty_sum(chain, (n - 1) as u64) + chain.diff_int_at(n)
    }
}

/// Total difficulty accumulates: on a well-formed chain, the cumulative
/// difficulty through block `n` equals the sum of the difficulties of the
/// blocks numbered `0..=n` — for the genesis its own difficulty, and for
/// every later block the previous total plus its own difficulty.
pub proof fn lemma_total_difficulty_is_sum(chain: LocalBlockchain, n: u64)
    requires
        chain.wf(),
        n <= chain.tail(),
    ensures
        chain.td_int_at(n) == difficulty_sum(chain, n),
    decreases n,
{
    if n > 0 {
        lemma_total_difficulty_is_sum(chain, (n - 1) as u64);
    }
}

} // verus!
