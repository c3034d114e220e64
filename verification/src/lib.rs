pub mod hamming;
pub mod laws;
pub mod ratcliff_obershelp;
pub mod scores;
pub mod tokenize;
pub mod text;

use vstd::prelude::*;

verus! {

/// Clamped integer half-up rounding of `200 * matched / total`: the similarity
/// score scale used throughout this crate.
pub open spec fn score_spec(matched: nat, total: nat) -> int {
    if total == 0 {
        100
    } else {
        (400 * matched + total) as int / (2 * total) as int
    }
}

/// A score never leaves the `[0, 100]` band as long as twice the matched
/// amount stays within the total compared length.
pub proof fn lemma_score_range(matched: nat, total: nat)
    requires
        2 * matched <= total,
    ensures
        0 <= score_spec(matched, total) <= 100,
{
    if total != 0 {
        assert((400 * matched + total) as int <= 201 * total) by (nonlinear_arith)
            requires
                2 * matched <= total,
        ;
        assert((400 * matched + total) as int / (2 * total) as int <= 100) by (nonlinear_arith)
            requires
                (400 * matched + total) as int <= 201 * total,
                total > 0,
        ;
        assert((400 * matched + total) as int / (2 * total) as int >= 0) by (nonlinear_arith)
            requires
                total > 0,
        ;
    }
}

} // verus!
