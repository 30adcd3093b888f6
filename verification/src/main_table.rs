//! The main table: one row per signature, the single source of truth tying
//! a signature index to its (parameter, Merkle root, message digest) triple.
//! Every other table agrees with it over the bus.

use vstd::prelude::*;

use crate::field::{F, fadd, fmul, fsub, fe};
use crate::hash_sig::{HASH_FE_LEN, MSG_HASH_FE_LEN, PARAM_FE_LEN, VerificationTrace};
use crate::util::{clone_fvec, next_pow2, next_power_of_two, zero_fvec};

verus! {

/// Column count of the main table.
pub const NUM_MAIN_COLS: usize = 2 + PARAM_FE_LEN + HASH_FE_LEN + MSG_HASH_FE_LEN;

/// One row of the main table.
pub struct MainCols {
    pub sig_idx: F,
    pub is_active: F,
    pub parameter: Vec<F>,
    pub merkle_root: Vec<F>,
    pub msg_hash: Vec<F>,
}

impl MainCols {
    pub open spec fn wf(&self) -> bool {
        &&& self.parameter@.len() == PARAM_FE_LEN
        &&& self.merkle_root@.len() == HASH_FE_LEN
        &&& self.msg_hash@.len() == MSG_HASH_FE_LEN
    }

    /// The generated row of signature `r`.
    pub open spec fn is_sig_row(&self, vt: &VerificationTrace, r: int) -> bool {
        &&& self.sig_idx@ == r
        &&& self.is_active@ == 1
        &&& fe(self.parameter@) == fe(vt.pk.parameter@)
        &&& fe(self.merkle_root@) == fe(vt.pk.merkle_root@)
        &&& fe(self.msg_hash@) == fe(vt.msg_hash@)
    }

    /// The generated padding row at height position `r`: inactive, the
    /// signature index still counting up, everything else zero.
    pub open spec fn is_padding_row(&self, r: int) -> bool {
        &&& self.sig_idx@ == r
        &&& self.is_active@ == 0
        &&& fe(self.parameter@) == Seq::new(PARAM_FE_LEN as nat, |i: int| 0int)
        &&& fe(self.merkle_root@) == Seq::new(HASH_FE_LEN as nat, |i: int| 0int)
        &&& fe(self.msg_hash@) == Seq::new(MSG_HASH_FE_LEN as nat, |i: int| 0int)
    }

    /// Row-local constraints: the activity flag is boolean.
    pub open spec fn every_row_ok(&self) -> bool {
        fmul(self.is_active@, fsub(self.is_active@, 1)) == 0
    }

    /// First-row constraints: the table starts active at index zero.
    pub open spec fn first_row_ok(&self) -> bool {
        &&& self.is_active@ == 1
        &&& self.sig_idx@ == 0
    }

    /// Transition constraints: the signature index increases by exactly one
    /// and activity never comes back once it stops.
    pub open spec fn transition_ok(&self, next: &MainCols) -> bool {
        &&& next.sig_idx@ == fadd(self.sig_idx@, 1)
        &&& fmul(next.is_active@, fsub(1, self.is_active@)) == 0
    }

    /// The tuple sent on the parameter channel, with multiplicity
    /// `is_active`.
    pub open spec fn send_parameter_tuple(&self) -> Seq<int> {
        seq![self.sig_idx@] + fe(self.parameter@)
    }

    /// The tuple sent on the root-and-digest channel, with multiplicity
    /// `is_active`.
    pub open spec fn send_msg_hash_tuple(&self) -> Seq<int> {
        seq![self.sig_idx@] + fe(self.parameter@) + fe(self.merkle_root@) + fe(self.msg_hash@)
    }

    /// The tuple sent on the decomposition channel — the digest
    /// most-significant first — with multiplicity `is_active`.
    pub open spec fn send_decomposition_tuple(&self) -> Seq<int> {
        seq![self.sig_idx@] + fe(self.msg_hash@).reverse()
    }
}

/// The main table's constraint system.
#[derive(Clone, Copy, PartialEq, Eq, Structural, Debug)]
pub struct MainAir;

impl MainAir {
    pub fn width(&self) -> (r: usize)
        ensures
            r == NUM_MAIN_COLS,
    {
        NUM_MAIN_COLS
    }

    pub fn num_public_values(&self) -> (r: usize)
        ensures
            r == 0,
    {
        0
    }
}

/// The main table has no public values.
pub fn main_public_values() -> (r: Vec<F>)
    ensures
        r@.len() == 0,
{
    Vec::new()
}

/// Height of the main table: one row per signature, padded to a power of
/// two.
pub fn trace_height(traces: &Vec<VerificationTrace>) -> (h: usize)
    requires
        traces@.len() <= 0x100000,
    ensures
        h == next_pow2(traces@.len() as int),
{
    next_power_of_two(traces.len())
}

/// The fully pinned generated main trace: one active row per signature in
/// batch order, then inactive padding rows, the signature index counting up
/// through both.
pub open spec fn main_trace_is(traces: Seq<VerificationTrace>, rows: Seq<MainCols>) -> bool {
    &&& rows.len() == next_pow2(traces.len() as int)
    &&& forall|r: int| 0 <= r < rows.len() ==> (#[trigger] rows[r]).wf()
    &&& forall|r: int|
        0 <= r < traces.len() ==> (#[trigger] rows[r]).is_sig_row(&traces[r], r)
    &&& forall|r: int|
        traces.len() <= r < rows.len() ==> (#[trigger] rows[r]).is_padding_row(r)
}

/// Generate the main trace.  The capacity hint only reserves memory for the
/// outer prover and does not change the rows.
pub fn generate_trace(extra_capacity_bits: usize, traces: &Vec<VerificationTrace>) -> (rows: Vec<
    MainCols,
>)
    requires
        1 <= traces@.len() <= 0x100000,
        forall|k: int| 0 <= k < traces@.len() ==> (#[trigger] traces@[k]).wf_shape(),
    ensures
        main_trace_is(traces@, rows@),
{
    let n = traces.len();
    let height = next_power_of_two(n);
    let mut rows: Vec<MainCols> = Vec::new();
    let mut r: usize = 0;
    while r < n
        invariant
            n == traces@.len(),
            1 <= n <= 0x100000,
            forall|k: int| 0 <= k < n ==> (#[trigger] traces@[k]).wf_shape(),
            r <= n,
            rows@.len() == r,
            forall|k: int| 0 <= k < r ==> (#[trigger] rows@[k]).wf(),
            forall|k: int| 0 <= k < r ==> (#[trigger] rows@[k]).is_sig_row(&traces@[k], k),
        decreases n - r,
    {
        let vt = &traces[r];
        rows.push(
            MainCols {
                sig_idx: F::new(r as u32),
                is_active: F::one(),
                parameter: clone_fvec(&vt.pk.parameter),
                merkle_root: clone_fvec(&vt.pk.merkle_root),
                msg_hash: clone_fvec(&vt.msg_hash),
            },
        );
        proof {
            vstd::arithmetic::div_mod::lemma_small_mod(r as nat, crate::field::P as nat);
        }
        r = r + 1;
    }
    while r < height
        invariant
            n == traces@.len(),
            1 <= n <= 0x100000,
            height == next_pow2(n as int),
            n <= height <= 0x2000_0000,
            n <= r <= height,
            rows@.len() == r,
            forall|k: int| 0 <= k < r ==> (#[trigger] rows@[k]).wf(),
            forall|k: int| 0 <= k < n ==> (#[trigger] rows@[k]).is_sig_row(&traces@[k], k),
            forall|k: int| n <= k < r ==> (#[trigger] rows@[k]).is_padding_row(k),
        decreases height - r,
    {
        let parameter = zero_fvec(PARAM_FE_LEN);
        let merkle_root = zero_fvec(HASH_FE_LEN);
        let msg_hash = zero_fvec(MSG_HASH_FE_LEN);
        let ghost gp = fe(parameter@);
        let ghost gr = fe(merkle_root@);
        let ghost gm = fe(msg_hash@);
        rows.push(
            MainCols { sig_idx: F::new(r as u32), is_active: F::zero(), parameter, merkle_root, msg_hash },
        );
        proof {
            vstd::arithmetic::div_mod::lemma_small_mod(r as nat, crate::field::P as nat);
            assert(gp =~= Seq::new(PARAM_FE_LEN as nat, |i: int| 0int));
            assert(gr =~= Seq::new(HASH_FE_LEN as nat, |i: int| 0int));
            assert(gm =~= Seq::new(MSG_HASH_FE_LEN as nat, |i: int| 0int));
        }
        r = r + 1;
    }
    rows
}

/// A chip bundling the main table's constraint system, public values and
/// trace generation for one batch.
pub struct MainChip<'a> {
    pub extra_capacity_bits: usize,
    pub traces: &'a Vec<VerificationTrace>,
}

impl<'a> MainChip<'a> {
    pub fn new(extra_capacity_bits: usize, traces: &'a Vec<VerificationTrace>) -> (r: Self)
        ensures
            r.extra_capacity_bits == extra_capacity_bits,
            r.traces == traces,
    {
        MainChip { extra_capacity_bits, traces }
    }

    pub fn air(&self) -> (r: MainAir)
        ensures
            r == MainAir,
    {
        MainAir
    }

    pub fn public_values(&self) -> (r: Vec<F>)
        ensures
            r@.len() == 0,
    {
        main_public_values()
    }

    pub fn trace_height(&self) -> (h: usize)
        requires
            self.traces@.len() <= 0x100000,
        ensures
            h == next_pow2(self.traces@.len() as int),
    {
        trace_height(self.traces)
    }

    pub fn generate_trace(&self) -> (rows: Vec<MainCols>)
        requires
            1 <= self.traces@.len() <= 0x100000,
            forall|k: int|
                0 <= k < self.traces@.len() ==> (#[trigger] self.traces@[k]).wf_shape(),
        ensures
            main_trace_is(self.traces@, rows@),
    {
        generate_trace(self.extra_capacity_bits, self.traces)
    }
}

} // verus!
