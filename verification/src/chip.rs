//! Assembly of the five tables: the closed set of constraint systems, the
//! bus channels they talk over, and the batch operations that build the
//! prover's (table, public values, trace) triples and the verifier's
//! (table, public values) pairs.

use vstd::prelude::*;

use crate::chain::{ChainAir, ChainChip, ChainCols, chain_input_ok, chain_trace_is};
use crate::decomposition::{
    DecompositionAir, DecompositionChip, DecompositionCols, batch_limb_list,
    decomposition_trace_is, mh_of, occ,
};
use crate::field::{F, P, fe};
use crate::hash_sig::{
    MAX_X, MSG_FE_LEN, MSG_LEN, NUM_CHUNKS, TWEAK_FE_LEN, VerificationInput, VerificationTrace,
    encode_msg, encoded_msg_spec, mh_chunk, tweak_msg_spec, tweak_tree_spec,
};
use crate::main_table::{MainAir, MainChip, MainCols, main_trace_is};
use crate::merkle_tree::{MerkleTreeAir, MerkleTreeChip, MerkleTreeCols, merkle_trace_is};
use crate::range_check::{
    RANGE_CHECK_HEIGHT, RangeCheckAir, RangeCheckChip, RangeCheckCols, RangeCheckInteraction,
};

verus! {

/// The bus channels the tables talk over.
#[derive(Clone, Copy, PartialEq, Eq, Structural, Debug)]
pub enum Bus {
    Parameter,
    MerkleRootAndMsgHash,
    Chain,
    MerkleLeaf,
    Decomposition,
    RangeCheck,
}

/// The closed set of the system's constraint tables.
#[derive(Clone, Copy, PartialEq, Eq, Structural, Debug)]
pub enum HashSigAggAir {
    Chain(ChainAir),
    Decomposition(DecompositionAir),
    Main(MainAir),
    MerkleTree(MerkleTreeAir),
    RangeCheck(RangeCheckAir),
}

impl HashSigAggAir {
    /// Column count of the table.
    pub fn width(&self) -> (r: usize)
        ensures
            r == (match self {
                HashSigAggAir::Chain(_) => crate::chain::NUM_CHAIN_COLS as int,
                HashSigAggAir::Decomposition(_) => crate::decomposition::NUM_DECOMPOSITION_COLS
                    as int,
                HashSigAggAir::Main(_) => crate::main_table::NUM_MAIN_COLS as int,
                HashSigAggAir::MerkleTree(_) => crate::merkle_tree::NUM_MERKLE_TREE_COLS as int,
                HashSigAggAir::RangeCheck(_) => crate::range_check::NUM_RANGE_CHECK_COLS as int,
            }),
    {
        match self {
            HashSigAggAir::Chain(air) => air.width(),
            HashSigAggAir::Decomposition(air) => air.width(),
            HashSigAggAir::Main(air) => air.width(),
            HashSigAggAir::MerkleTree(air) => air.width(),
            HashSigAggAir::RangeCheck(air) => air.width(),
        }
    }

    /// Number of public values of the table.
    pub fn num_public_values(&self) -> (r: usize)
        ensures
            r == (match self {
                HashSigAggAir::Chain(_) => 1int,
                HashSigAggAir::Decomposition(_) => 0int,
                HashSigAggAir::Main(_) => 0int,
                HashSigAggAir::MerkleTree(_) => 1 + MSG_FE_LEN as int + 2 * TWEAK_FE_LEN as int,
                HashSigAggAir::RangeCheck(_) => 0int,
            }),
    {
        match self {
            HashSigAggAir::Chain(air) => air.num_public_values(),
            HashSigAggAir::Decomposition(air) => air.num_public_values(),
            HashSigAggAir::Main(air) => air.num_public_values(),
            HashSigAggAir::MerkleTree(air) => air.num_public_values(),
            HashSigAggAir::RangeCheck(air) => air.num_public_values(),
        }
    }
}

/// A generated trace, table by table.
pub enum HashSigAggTrace {
    Chain(Vec<ChainCols>),
    Decomposition(Vec<DecompositionCols>),
    Main(Vec<MainCols>),
    MerkleTree(Vec<MerkleTreeCols>),
    RangeCheck(Vec<RangeCheckCols>),
}

/// What the prover hands the outer engine for one table.
pub struct ProverInput {
    pub air: HashSigAggAir,
    pub public_values: Vec<F>,
    pub trace: HashSigAggTrace,
}

/// What the verifier hands the outer engine for one table.
pub struct VerifierInput {
    pub air: HashSigAggAir,
    pub public_values: Vec<F>,
}

/// The public values of the five tables for one (epoch, message) pair, in
/// table order: chain, decomposition, main, Merkle tree, range check.
pub open spec fn public_values_are(epoch: int, msg: Seq<u8>, pvs: Seq<Seq<int>>) -> bool {
    &&& pvs.len() == 5
    &&& pvs[0] == seq![4 * epoch]
    &&& pvs[1] == Seq::<int>::empty()
    &&& pvs[2] == Seq::<int>::empty()
    &&& pvs[3] == seq![epoch] + encoded_msg_spec(msg) + tweak_msg_spec(epoch) + tweak_tree_spec(
        0,
        epoch,
    )
    &&& pvs[4] == Seq::<int>::empty()
}

/// The range-check trace generated for a batch: row `v` counts how often
/// limb value `v` was asserted by the decomposition table.
pub open spec fn range_trace_of_batch(
    traces: Seq<VerificationTrace>,
    rows: Seq<RangeCheckCols>,
) -> bool {
    &&& rows.len() == RANGE_CHECK_HEIGHT
    &&& forall|v: int|
        0 <= v < RANGE_CHECK_HEIGHT ==> (#[trigger] rows[v]).value@ == v && rows[v].mult@ == occ(
            batch_limb_list(traces, traces.len() as int),
            v,
        )
}

/// The full prover output for one batch.
pub open spec fn prover_inputs_are(vi: &VerificationInput, r: Seq<ProverInput>) -> bool {
    &&& r.len() == 5
    &&& r[0].air == HashSigAggAir::Chain(ChainAir)
    &&& r[1].air == HashSigAggAir::Decomposition(DecompositionAir)
    &&& r[2].air == HashSigAggAir::Main(MainAir)
    &&& r[3].air == HashSigAggAir::MerkleTree(MerkleTreeAir)
    &&& r[4].air == HashSigAggAir::RangeCheck(RangeCheckAir)
    &&& public_values_are(
        vi.epoch as int,
        vi.msg@,
        Seq::new(5, |i: int| fe(r[i].public_values@)),
    )
    &&& r[0].trace is Chain && chain_trace_is(vi.traces@, r[0].trace->Chain_0@)
    &&& r[1].trace is Decomposition && decomposition_trace_is(
        vi.traces@,
        r[1].trace->Decomposition_0@,
    )
    &&& r[2].trace is Main && main_trace_is(vi.traces@, r[2].trace->Main_0@)
    &&& r[3].trace is MerkleTree && merkle_trace_is(
        vi.traces@,
        vi.epoch as int,
        r[3].trace->MerkleTree_0@,
    )
    &&& r[4].trace is RangeCheck && range_trace_of_batch(vi.traces@, r[4].trace->RangeCheck_0@)
}

/// A well-formed batch feeds the chain table what it needs: every chunk at
/// or below the maximum and the chunks summing to the target.
pub proof fn lemma_wf_gives_chain_input(vi: &VerificationInput, k: int)
    requires
        vi.wf(),
        0 <= k < vi.traces@.len(),
    ensures
        chain_input_ok(&vi.traces@[k]),
{
    let vt = &vi.traces@[k];
    assert(vt.wf(vi.epoch as int, encoded_msg_spec(vi.msg@)));
    assert forall|c: int| 0 <= c < NUM_CHUNKS implies #[trigger] vt.x@[c] <= MAX_X by {
        assert(vt.x@[c] as int == mh_chunk(mh_of(vt), c));
        vstd::arithmetic::power2::lemma_pow2_pos((2 * c) as nat);
        vstd::arithmetic::div_mod::lemma_mod_bound(
            crate::hash_sig::mh_int(mh_of(vt)) / crate::field::p2(2 * c),
            4,
        );
    }
}

/// Build the five prover inputs for a batch: one verification trace per
/// signature pair, fanned into the five tables' generators; the range-check
/// multiplicities are accumulated by the decomposition pass and materialized
/// last.  The capacity hint only reserves trace memory for the outer prover.
pub fn generate_prover_inputs(extra_capacity_bits: usize, vi: &VerificationInput) -> (r: Vec<
    ProverInput,
>)
    requires
        vi.wf(),
    ensures
        prover_inputs_are(vi, r@),
{
    let encoded_msg = encode_msg(&vi.msg);
    proof {
        crate::hash_sig::lemma_encode_msg_unique(vi.msg@, fe(encoded_msg@));
        assert forall|k: int| 0 <= k < vi.traces@.len() implies chain_input_ok(
            &vi.traces@[k],
        ) by {
            lemma_wf_gives_chain_input(vi, k);
        }
    }
    let chain_chip = ChainChip::new(extra_capacity_bits, vi.epoch, &vi.traces);
    let decomposition_chip = DecompositionChip::new(extra_capacity_bits, &vi.traces);
    let main_chip = MainChip::new(extra_capacity_bits, &vi.traces);
    let merkle_tree_chip = MerkleTreeChip::new(
        extra_capacity_bits,
        vi.epoch,
        encoded_msg,
        &vi.traces,
    );
    let range_check_chip = RangeCheckChip::new(extra_capacity_bits);
    let mut range_check_mult = RangeCheckInteraction::new();

    let chain_trace = chain_chip.generate_trace();
    let decomposition_trace = decomposition_chip.generate_trace(&mut range_check_mult);
    let main_trace = main_chip.generate_trace();
    let merkle_tree_trace = merkle_tree_chip.generate_trace();
    let range_check_trace = range_check_chip.generate_trace(&range_check_mult);

    let mut r: Vec<ProverInput> = Vec::new();
    r.push(
        ProverInput {
            air: HashSigAggAir::Chain(chain_chip.air()),
            public_values: chain_chip.public_values(),
            trace: HashSigAggTrace::Chain(chain_trace),
        },
    );
    r.push(
        ProverInput {
            air: HashSigAggAir::Decomposition(decomposition_chip.air()),
            public_values: Vec::new(),
            trace: HashSigAggTrace::Decomposition(decomposition_trace),
        },
    );
    r.push(
        ProverInput {
            air: HashSigAggAir::Main(main_chip.air()),
            public_values: main_chip.public_values(),
            trace: HashSigAggTrace::Main(main_trace),
        },
    );
    r.push(
        ProverInput {
            air: HashSigAggAir::MerkleTree(merkle_tree_chip.air()),
            public_values: merkle_tree_chip.public_values(),
            trace: HashSigAggTrace::MerkleTree(merkle_tree_trace),
        },
    );
    r.push(
        ProverInput {
            air: HashSigAggAir::RangeCheck(range_check_chip.air()),
            public_values: range_check_chip.public_values(),
            trace: HashSigAggTrace::RangeCheck(range_check_trace),
        },
    );
    proof {
        assert(fe(r@[0].public_values@) =~= seq![4 * vi.epoch as int]);
        assert(fe(r@[1].public_values@) =~= Seq::<int>::empty());
        assert(fe(r@[2].public_values@) =~= Seq::<int>::empty());
        assert(fe(r@[4].public_values@) =~= Seq::<int>::empty());
        assert(Seq::new(5, |i: int| fe(r@[i].public_values@))[3] == fe(r@[3].public_values@));
        assert(public_values_are(
            vi.epoch as int,
            vi.msg@,
            Seq::new(5, |i: int| fe(r@[i].public_values@)),
        ));
    }
    r
}

/// Build the five verifier inputs — the tables and their public values,
/// with no witness data — for one (epoch, message) pair.
pub fn verifier_inputs(epoch: u32, msg: &Vec<u8>) -> (r: Vec<VerifierInput>)
    requires
        epoch < 0x100000,
        msg@.len() == MSG_LEN,
    ensures
        r@.len() == 5,
        r@[0].air == HashSigAggAir::Chain(ChainAir),
        r@[1].air == HashSigAggAir::Decomposition(DecompositionAir),
        r@[2].air == HashSigAggAir::Main(MainAir),
        r@[3].air == HashSigAggAir::MerkleTree(MerkleTreeAir),
        r@[4].air == HashSigAggAir::RangeCheck(RangeCheckAir),
        public_values_are(
            epoch as int,
            msg@,
            Seq::new(5, |i: int| fe(r@[i].public_values@)),
        ),
{
    let encoded_msg = encode_msg(msg);
    proof {
        crate::hash_sig::lemma_encode_msg_unique(msg@, fe(encoded_msg@));
    }
    let empty: Vec<VerificationTrace> = Vec::new();
    let chain_chip = ChainChip::new(0, epoch, &empty);
    let merkle_tree_chip = MerkleTreeChip::new(0, epoch, encoded_msg, &empty);
    let mut r: Vec<VerifierInput> = Vec::new();
    r.push(
        VerifierInput {
            air: HashSigAggAir::Chain(ChainAir),
            public_values: chain_chip.public_values(),
        },
    );
    r.push(
        VerifierInput { air: HashSigAggAir::Decomposition(DecompositionAir), public_values: Vec::new() },
    );
    r.push(VerifierInput { air: HashSigAggAir::Main(MainAir), public_values: Vec::new() });
    r.push(
        VerifierInput {
            air: HashSigAggAir::MerkleTree(MerkleTreeAir),
            public_values: merkle_tree_chip.public_values(),
        },
    );
    r.push(
        VerifierInput { air: HashSigAggAir::RangeCheck(RangeCheckAir), public_values: Vec::new() },
    );
    proof {
        assert(fe(r@[0].public_values@) =~= seq![4 * epoch as int]);
        assert(fe(r@[1].public_values@) =~= Seq::<int>::empty());
        assert(fe(r@[2].public_values@) =~= Seq::<int>::empty());
        assert(fe(r@[4].public_values@) =~= Seq::<int>::empty());
        assert(public_values_are(
            epoch as int,
            msg@,
            Seq::new(5, |i: int| fe(r@[i].public_values@)),
        ));
    }
    r
}

} // verus!
