//! Parameters the outer proving engine is driven with.  The engine itself —
//! key generation, proof production and verification — is an external
//! collaborator; only the soundness arithmetic below is the circuit's own.

use vstd::prelude::*;

verus! {

/// Which soundness regime sizes the query count.
#[derive(Clone, Copy, PartialEq, Eq, Structural, Debug)]
pub enum SoundnessType {
    Provable,
    Conjecture,
}

impl SoundnessType {
    /// The number of queries the commitment opening needs for roughly 128
    /// bits of security after proof-of-work grinding: the provable regime
    /// doubles the conjectured count.
    pub fn num_queries(&self, log_blowup: usize, proof_of_work_bits: usize) -> (r: usize)
        requires
            0 < log_blowup < 64,
            proof_of_work_bits <= 128,
        ensures
            r as int == (match self {
                SoundnessType::Provable => (2 * (128 - proof_of_work_bits as int) + (
                log_blowup as int) - 1) / (log_blowup as int),
                SoundnessType::Conjecture => ((128 - proof_of_work_bits as int) + (
                log_blowup as int) - 1) / (log_blowup as int),
            }),
    {
        match self {
            SoundnessType::Provable => (2 * (128 - proof_of_work_bits) + log_blowup - 1)
                / log_blowup,
            SoundnessType::Conjecture => ((128 - proof_of_work_bits) + log_blowup - 1)
                / log_blowup,
        }
    }
}

} // verus!
