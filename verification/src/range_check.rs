//! The range-check table: a fixed-height table of every representable limb
//! value, receiving each value with the multiplicity it was asserted
//! elsewhere.  Its content is fixed by its constraints; only the
//! multiplicity column is witness data.

use vstd::prelude::*;

use crate::field::{F, fadd};

verus! {

/// Bits of a limb; the table has one row per limb value.
pub const LIMB_BITS: usize = 12;

/// Height of the range-check table.
pub const RANGE_CHECK_HEIGHT: usize = 4096;

/// Column count of the range-check table.
pub const NUM_RANGE_CHECK_COLS: usize = 2;

/// One row: the limb value and how often it was asserted.
pub struct RangeCheckCols {
    pub value: F,
    pub mult: F,
}

impl RangeCheckCols {
    /// First-row constraint: the table starts at value zero.
    pub open spec fn first_row_ok(&self) -> bool {
        self.value@ == 0
    }

    /// Transition constraint: the value increases by exactly one.
    pub open spec fn transition_ok(&self, next: &RangeCheckCols) -> bool {
        next.value@ == fadd(self.value@, 1)
    }

}

/// The per-value assertion counters accumulated while the decomposition
/// table is generated, and read once by this table's generation.  The
/// counter array is freshly allocated per batch and passed explicitly.
pub struct RangeCheckInteraction {
    pub counts: Vec<u32>,
}

impl RangeCheckInteraction {
    pub open spec fn wf(&self) -> bool {
        self.counts@.len() == RANGE_CHECK_HEIGHT
    }

    /// A fresh counter array, all zeros.
    pub fn new() -> (r: RangeCheckInteraction)
        ensures
            r.wf(),
            forall|v: int| 0 <= v < RANGE_CHECK_HEIGHT ==> #[trigger] r.counts@[v] == 0,
    {
        let mut counts: Vec<u32> = Vec::new();
        let mut i: usize = 0;
        while i < RANGE_CHECK_HEIGHT
            invariant
                i <= RANGE_CHECK_HEIGHT,
                counts@.len() == i,
                forall|v: int| 0 <= v < i ==> #[trigger] counts@[v] == 0,
            decreases RANGE_CHECK_HEIGHT - i,
        {
            counts.push(0);
            i = i + 1;
        }
        RangeCheckInteraction { counts }
    }

    /// Record one assertion of `value` on the range-check channel.
    pub fn send(&mut self, value: usize)
        requires
            old(self).wf(),
            value < RANGE_CHECK_HEIGHT,
            old(self).counts@[value as int] < 0xffff_ffff,
        ensures
            final(self).wf(),
            final(self).counts@ == old(self).counts@.update(
                value as int,
                (old(self).counts@[value as int] + 1) as u32,
            ),
    {
        let c = self.counts[value];
        self.counts.set(value, c + 1);
    }
}

/// The range-check table's constraint system.
#[derive(Clone, Copy, PartialEq, Eq, Structural, Debug)]
pub struct RangeCheckAir;

impl RangeCheckAir {
    pub fn width(&self) -> (r: usize)
        ensures
            r == NUM_RANGE_CHECK_COLS,
    {
        NUM_RANGE_CHECK_COLS
    }

    pub fn num_public_values(&self) -> (r: usize)
        ensures
            r == 0,
    {
        0
    }
}

/// Height of the range-check table: fixed at one row per limb value.
pub fn trace_height() -> (h: usize)
    ensures
        h == RANGE_CHECK_HEIGHT,
{
    RANGE_CHECK_HEIGHT
}

/// The fully pinned generated range-check trace: row `v` holds value `v`
/// and the accumulated multiplicity of `v`.
pub open spec fn range_check_trace_is(counts: Seq<u32>, rows: Seq<RangeCheckCols>) -> bool {
    &&& rows.len() == RANGE_CHECK_HEIGHT
    &&& forall|v: int|
        0 <= v < RANGE_CHECK_HEIGHT ==> (#[trigger] rows[v]).value@ == v && rows[v].mult@
            == counts[v]
}

/// Generate the range-check trace from the accumulated counters.  The
/// capacity hint only reserves memory for the outer prover.
pub fn generate_trace(extra_capacity_bits: usize, mult: &RangeCheckInteraction) -> (rows: Vec<
    RangeCheckCols,
>)
    requires
        mult.wf(),
        forall|v: int| 0 <= v < RANGE_CHECK_HEIGHT ==> #[trigger] mult.counts@[v] < crate::field::P,
    ensures
        range_check_trace_is(mult.counts@, rows@),
{
    let mut rows: Vec<RangeCheckCols> = Vec::new();
    let mut v: usize = 0;
    while v < RANGE_CHECK_HEIGHT
        invariant
            mult.wf(),
            forall|k: int|
                0 <= k < RANGE_CHECK_HEIGHT ==> #[trigger] mult.counts@[k] < crate::field::P,
            v <= RANGE_CHECK_HEIGHT,
            rows@.len() == v,
            forall|k: int|
                0 <= k < v ==> (#[trigger] rows@[k]).value@ == k && rows@[k].mult@
                    == mult.counts@[k],
        decreases RANGE_CHECK_HEIGHT - v,
    {
        let value = F::new(v as u32);
        let m = F::new(mult.counts[v]);
        proof {
            vstd::arithmetic::div_mod::lemma_small_mod(v as nat, crate::field::P as nat);
            vstd::arithmetic::div_mod::lemma_small_mod(
                mult.counts@[v as int] as nat,
                crate::field::P as nat,
            );
        }
        rows.push(RangeCheckCols { value, mult: m });
        v = v + 1;
    }
    rows
}

/// A chip bundling the range-check table's pieces for one batch.
pub struct RangeCheckChip {
    pub extra_capacity_bits: usize,
}

impl RangeCheckChip {
    pub fn new(extra_capacity_bits: usize) -> (r: Self)
        ensures
            r.extra_capacity_bits == extra_capacity_bits,
    {
        RangeCheckChip { extra_capacity_bits }
    }

    pub fn air(&self) -> (r: RangeCheckAir)
        ensures
            r == RangeCheckAir,
    {
        RangeCheckAir
    }

    pub fn public_values(&self) -> (r: Vec<F>)
        ensures
            r@.len() == 0,
    {
        Vec::new()
    }

    pub fn trace_height(&self) -> (h: usize)
        ensures
            h == RANGE_CHECK_HEIGHT,
    {
        RANGE_CHECK_HEIGHT
    }

    pub fn generate_trace(&self, interaction: &RangeCheckInteraction) -> (rows: Vec<
        RangeCheckCols,
    >)
        requires
            interaction.wf(),
            forall|v: int|
                0 <= v < RANGE_CHECK_HEIGHT ==> #[trigger] interaction.counts@[v]
                    < crate::field::P,
        ensures
            range_check_trace_is(interaction.counts@, rows@),
    {
        generate_trace(self.extra_capacity_bits, interaction)
    }
}

} // verus!
