//! The boundary with the compression permutation's pre-built sub-circuit:
//! its round-constant schedule.  The permutation's own constraint circuit
//! and row filling live outside this crate; the tables consume its
//! evaluations as (input, output) records.

use vstd::prelude::*;

use crate::field::F;

verus! {

/// The round-constant schedule of the compression permutation: full rounds
/// before and after the partial rounds, each full round one constant per
/// lane.
pub struct RoundConstants {
    pub beginning_full_round_constants: Vec<Vec<F>>,
    pub partial_round_constants: Vec<F>,
    pub ending_full_round_constants: Vec<Vec<F>>,
}

impl RoundConstants {
    /// Shaped for a permutation of `width` lanes with `half_full_rounds`
    /// full rounds on each side and `partial_rounds` partial rounds.
    pub open spec fn wf(&self, width: int, half_full_rounds: int, partial_rounds: int) -> bool {
        &&& self.beginning_full_round_constants@.len() == half_full_rounds
        &&& forall|r: int|
            0 <= r < half_full_rounds ==> (#[trigger] self.beginning_full_round_constants@[r])@.len()
                == width
        &&& self.partial_round_constants@.len() == partial_rounds
        &&& self.ending_full_round_constants@.len() == half_full_rounds
        &&& forall|r: int|
            0 <= r < half_full_rounds ==> (#[trigger] self.ending_full_round_constants@[r])@.len()
                == width
    }
}

} // verus!
