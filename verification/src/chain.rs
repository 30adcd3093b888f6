//! The chain table: one row per compression application, replaying every
//! hash chain from its revealed value to its end value.  Chains whose chunk
//! is at the maximum need no hashing and have no rows, so the chain index
//! advances with gaps witnessed by a bit-decomposed difference.  Because the
//! chunks of one signature sum to the fixed target, every signature occupies
//! exactly the target-sum number of rows.

use vstd::prelude::*;

use crate::decomposition::{bit_of, bits_of};
use crate::field::{F, P, fadd, fmul, fsub, fe};
use crate::gadget::{CycleInt, select_spec};
use crate::hash_sig::{HASH_FE_LEN, MAX_X, NUM_CHUNKS, PARAM_FE_LEN, Perm, TARGET_SUM, VerificationTrace, WIDTH_CHAIN, xsum};
use crate::util::{next_pow2, next_power_of_two};

verus! {

/// Rows one signature occupies: the target sum.
pub const NUM_ROWS_PER_SIG: usize = 117;

/// Bits of the chain-index jump between two consecutively hashed chains.
/// At most half the chains can sit at the maximum chunk, so a jump never
/// needs more.
pub const MAX_CHAIN_STEP_DIFF_BITS: usize = 6;

/// Column count of the chain table: the compression record's input and
/// output lanes, the signature index, the three cells of the cyclic
/// signature-step counter, the activity flag, the chain index with its six
/// difference bits, the two step bits, and the start marker.
pub const NUM_CHAIN_COLS: usize = 2 * WIDTH_CHAIN + 15;

/// One row of the chain table.
pub struct ChainCols {
    pub perm: Perm,
    pub sig_idx: F,
    pub sig_step: CycleInt,
    pub is_active: F,
    pub chain_idx: F,
    pub chain_idx_diff_bits: Vec<F>,
    pub chain_step_bits: Vec<F>,
    pub is_x_i: F,
}

/// The rows of one signature as (chain, step) coordinates: for each chain
/// below the maximum chunk, one row per remaining hash application.
pub open spec fn chain_block(x: Seq<u16>, i: int) -> Seq<(int, int)> {
    Seq::new((MAX_X - x[i]) as nat, |j: int| (i, j))
}

/// The row coordinates of the first `i` chains.
pub open spec fn chain_rows_upto(x: Seq<u16>, i: int) -> Seq<(int, int)>
    decreases i,
{
    if i <= 0 {
        Seq::empty()
    } else {
        chain_rows_upto(x, i - 1) + chain_block(x, i - 1)
    }
}

/// The row coordinates of one whole signature.
pub open spec fn chain_rows(x: Seq<u16>) -> Seq<(int, int)> {
    chain_rows_upto(x, NUM_CHUNKS as int)
}

/// The chain-index jump witnessed on row `r`: zero except on the first row
/// of a chain that follows another chain.
pub open spec fn diff_of(x: Seq<u16>, r: int) -> int {
    if r <= 0 || chain_rows(x)[r].1 != 0 {
        0
    } else {
        chain_rows(x)[r].0 - chain_rows(x)[r - 1].0 - 1
    }
}

impl ChainCols {
    pub open spec fn wf(&self) -> bool {
        &&& self.perm.wf(WIDTH_CHAIN as int)
        &&& self.chain_idx_diff_bits@.len() == MAX_CHAIN_STEP_DIFF_BITS
        &&& self.chain_step_bits@.len() == 2
    }

    /// The generated active row `r` of signature `k`: coordinates come from
    /// the signature's row list, the compression record from the chain's
    /// opening.
    pub open spec fn is_chain_row(&self, vt: &VerificationTrace, k: int, r: int) -> bool {
        let x = vt.x@;
        let i = chain_rows(x)[r].0;
        let j = chain_rows(x)[r].1;
        &&& self.sig_idx@ == k
        &&& self.sig_step.is_populated(r, NUM_ROWS_PER_SIG as int)
        &&& self.is_active@ == 1
        &&& self.chain_idx@ == i
        &&& fe(self.chain_idx_diff_bits@) == Seq::new(
            MAX_CHAIN_STEP_DIFF_BITS as nat,
            |b: int| bit_of(diff_of(x, r), b),
        )
        &&& fe(self.chain_step_bits@) == seq![
            bit_of(x[i] + j, 0),
            bit_of(x[i] + j, 1),
        ]
        &&& self.is_x_i@ == if j == 0 {
            1int
        } else {
            0int
        }
        &&& self.perm.input@ == vt.chains_at(i).steps@[j].input@
        &&& self.perm.output@ == vt.chains_at(i).steps@[j].output@
    }

    /// The generated padding row: inactive, a zero compression record,
    /// everything else zero.
    pub open spec fn is_padding_row(&self) -> bool {
        &&& self.sig_idx@ == 0
        &&& self.sig_step.is_populated(0, NUM_ROWS_PER_SIG as int)
        &&& self.is_active@ == 0
        &&& self.chain_idx@ == 0
        &&& fe(self.chain_idx_diff_bits@) == Seq::new(
            MAX_CHAIN_STEP_DIFF_BITS as nat,
            |b: int| 0int,
        )
        &&& fe(self.chain_step_bits@) == seq![0int, 0int]
        &&& self.is_x_i@ == 0
        &&& fe(self.perm.input@) == Seq::new(WIDTH_CHAIN as nat, |i: int| 0int)
        &&& fe(self.perm.output@) == Seq::new(WIDTH_CHAIN as nat, |i: int| 0int)
    }
}

impl ChainCols {
    /// The step counter recomposed from its bits.
    pub open spec fn chain_step_val(&self) -> int {
        fadd(fe(self.chain_step_bits@)[0], fmul(2, fe(self.chain_step_bits@)[1]))
    }

    /// Whether the step counter sits at the last hash application.
    pub open spec fn is_last_chain_step_val(&self) -> int {
        fmul(fsub(1, fe(self.chain_step_bits@)[0]), fe(self.chain_step_bits@)[1])
    }

    /// Whether the cyclic counter flags the signature's last row.
    pub open spec fn is_last_sig_row_val(&self) -> int {
        self.sig_step.at_last()
    }

    /// An active row that does not end its signature.
    pub open spec fn is_sig_transition_val(&self) -> int {
        fmul(self.is_active@, fsub(1, self.sig_step.at_last()))
    }

    /// The chain-index jump recomposed from its difference bits.
    pub open spec fn diff_sum_val(&self) -> int {
        let b = fe(self.chain_idx_diff_bits@);
        fadd(
            fadd(fadd(fadd(fadd(b[0], fmul(2, b[1])), fmul(4, b[2])), fmul(8, b[3])), fmul(
                16,
                b[4],
            )),
            fmul(32, b[5]),
        )
    }

    /// Row-local constraints of the chain table, against the public value:
    /// boolean flags and bits, the cyclic signature-step counter's
    /// indicator, the step bits never both set, zero padding lanes, and on
    /// active rows the compression input's tweak lanes bound to the epoch
    /// tweak and the chain coordinates.
    pub open spec fn every_row_ok(&self, encoded_tweak_chain_first: int) -> bool {
        let input = fe(self.perm.input@);
        let bits = fe(self.chain_step_bits@);
        let diff_bits = fe(self.chain_idx_diff_bits@);
        &&& fmul(self.is_active@, fsub(self.is_active@, 1)) == 0
        &&& self.sig_step.constraints_ok(NUM_ROWS_PER_SIG as int)
        &&& fmul(bits[0], fsub(bits[0], 1)) == 0
        &&& fmul(bits[1], fsub(bits[1], 1)) == 0
        &&& fmul(bits[0], bits[1]) == 0
        &&& forall|b: int|
            0 <= b < MAX_CHAIN_STEP_DIFF_BITS ==> fmul(
                #[trigger] diff_bits[b],
                fsub(diff_bits[b], 1),
            ) == 0
        &&& fmul(self.is_x_i@, fsub(self.is_x_i@, 1)) == 0
        &&& input[WIDTH_CHAIN - 2] == 0
        &&& input[WIDTH_CHAIN - 1] == 0
        &&& fmul(
            self.is_active@,
            fsub(input[HASH_FE_LEN as int + PARAM_FE_LEN as int], encoded_tweak_chain_first),
        ) == 0
        &&& fmul(
            self.is_active@,
            fsub(
                input[HASH_FE_LEN as int + PARAM_FE_LEN as int + 1],
                fadd(fadd(fmul(self.chain_idx@, 0x10000), self.chain_step_val()), 1),
            ),
        ) == 0
    }

    /// First-row constraints: the trace starts active, at signature zero,
    /// step zero, on a revealed value.
    pub open spec fn first_row_ok(&self) -> bool {
        &&& self.is_active@ == 1
        &&& self.sig_idx@ == 0
        &&& self.sig_step.step@ == 0
        &&& self.is_x_i@ == 1
    }

    /// Transition constraints: activity never returns, the cyclic counter
    /// advances, the signature index is selected by the boundary flags, the
    /// parameter lanes persist within a signature, a revealed value opens
    /// every signature and every chain, a chain's rows continue each other's
    /// feed-forward, and the chain index advances by the bit-decomposed
    /// jump.
    pub open spec fn transition_ok(&self, next: &ChainCols) -> bool {
        let ct = fmul(self.is_sig_transition_val(), fsub(1, self.is_last_chain_step_val()));
        let cb = fsub(self.is_last_chain_step_val(), self.is_last_sig_row_val());
        &&& fmul(next.is_active@, fsub(1, self.is_active@)) == 0
        &&& fmul(
            self.is_active@,
            fsub(
                next.sig_step.step@,
                select_spec(self.sig_step.at_last(), fadd(self.sig_step.step@, 1), 0),
            ),
        ) == 0
        &&& fsub(
            next.sig_idx@,
            select_spec(
                self.sig_step.at_last(),
                self.sig_idx@,
                select_spec(next.is_active@, 0, fadd(self.sig_idx@, 1)),
            ),
        ) == 0
        &&& forall|i: int|
            0 <= i < PARAM_FE_LEN ==> fmul(
                self.is_sig_transition_val(),
                fsub(
                    #[trigger] fe(next.perm.input@)[HASH_FE_LEN + i],
                    fe(self.perm.input@)[HASH_FE_LEN + i],
                ),
            ) == 0
        &&& fmul(fmul(self.sig_step.at_last(), next.is_active@), fsub(next.is_x_i@, 1)) == 0
        &&& fmul(ct, next.is_x_i@) == 0
        &&& fmul(ct, fsub(next.chain_idx@, self.chain_idx@)) == 0
        &&& fmul(ct, fsub(next.chain_step_val(), fadd(self.chain_step_val(), 1))) == 0
        &&& forall|i: int|
            0 <= i < HASH_FE_LEN ==> fmul(
                ct,
                fsub(#[trigger] fe(next.perm.input@)[i], self.perm.ff(i)),
            ) == 0
        &&& fmul(
            cb,
            fsub(next.chain_idx@, fadd(fadd(self.chain_idx@, 1), next.diff_sum_val())),
        ) == 0
        &&& fmul(cb, fsub(next.is_x_i@, 1)) == 0
    }
}

/// One chain contributes as many rows as it has hash steps left.
proof fn lemma_chain_rows_len(x: Seq<u16>, i: int)
    requires
        x.len() == NUM_CHUNKS,
        forall|c: int| 0 <= c < NUM_CHUNKS ==> #[trigger] x[c] <= MAX_X,
        0 <= i <= NUM_CHUNKS,
    ensures
        chain_rows_upto(x, i).len() == 3 * i - xsum(x.take(i)),
        xsum(x.take(i)) <= 3 * i,
    decreases i,
{
    if i == 0 {
        assert(x.take(0) =~= Seq::<u16>::empty());
    } else {
        lemma_chain_rows_len(x, i - 1);
        assert(x.take(i).drop_last() =~= x.take(i - 1));
    }
}

/// A signature whose chunks meet the target sum occupies exactly the
/// target-sum number of rows.
pub proof fn lemma_chain_rows_total(x: Seq<u16>)
    requires
        x.len() == NUM_CHUNKS,
        forall|c: int| 0 <= c < NUM_CHUNKS ==> #[trigger] x[c] <= MAX_X,
        xsum(x) == TARGET_SUM as int,
    ensures
        chain_rows(x).len() == NUM_ROWS_PER_SIG,
{
    lemma_chain_rows_len(x, NUM_CHUNKS as int);
    assert(x.take(NUM_CHUNKS as int) =~= x);
}

/// Earlier chains' rows keep their places as later chains are appended.
pub proof fn lemma_chain_rows_prefix_pub(x: Seq<u16>, i: int, r: int)
    requires
        x.len() == NUM_CHUNKS,
        forall|c: int| 0 <= c < NUM_CHUNKS ==> #[trigger] x[c] <= MAX_X,
        0 <= i <= NUM_CHUNKS,
        0 <= r < chain_rows_upto(x, i).len(),
    ensures
        chain_rows(x)[r] == chain_rows_upto(x, i)[r],
        chain_rows_upto(x, i).len() <= chain_rows(x).len(),
    decreases NUM_CHUNKS as int - i,
{
    if i < NUM_CHUNKS {
        lemma_chain_rows_prefix_pub(x, i + 1, r);
    }
}

/// Every listed row of the first `i` chains names a chain below `i` and a
/// step within its block.
pub proof fn lemma_chain_rows_range_pub(x: Seq<u16>, i: int)
    requires
        x.len() == NUM_CHUNKS,
        forall|c: int| 0 <= c < NUM_CHUNKS ==> #[trigger] x[c] <= MAX_X,
        0 <= i <= NUM_CHUNKS,
    ensures
        forall|r: int|
            0 <= r < chain_rows_upto(x, i).len() ==> 0 <= (#[trigger] chain_rows_upto(x, i)[r]).0
                < i && 0 <= chain_rows_upto(x, i)[r].1 < MAX_X - x[chain_rows_upto(x, i)[r].0],
    decreases i,
{
    if i > 0 {
        lemma_chain_rows_range_pub(x, i - 1);
        let cur = chain_rows_upto(x, i);
        let prev = chain_rows_upto(x, i - 1);
        assert forall|r: int|
            0 <= r < cur.len() implies 0 <= (#[trigger] cur[r]).0 < i && 0 <= cur[r].1 < MAX_X
            - x[cur[r].0] by {
            if r < prev.len() {
                assert(cur[r] == prev[r]);
            } else {
                assert(cur[r] == chain_block(x, i - 1)[r - prev.len()]);
            }
        }
    }
}

/// The row coordinates of chain `i` start right after the earlier chains'
/// rows.
pub proof fn lemma_chain_rows_at(x: Seq<u16>, i: int, j: int)
    requires
        x.len() == NUM_CHUNKS,
        forall|c: int| 0 <= c < NUM_CHUNKS ==> #[trigger] x[c] <= MAX_X,
        0 <= i < NUM_CHUNKS,
        0 <= j < MAX_X - x[i],
    ensures
        chain_rows_upto(x, i).len() + j < chain_rows(x).len(),
        chain_rows(x)[chain_rows_upto(x, i).len() + j] == (i, j),
{
    let r = chain_rows_upto(x, i).len() as int + j;
    assert(chain_rows_upto(x, i + 1)[r] == (i, j));
    lemma_chain_rows_prefix_pub(x, i + 1, r);
}

/// Earlier chains occupy earlier rows.
pub proof fn lemma_chain_rows_monotone(x: Seq<u16>, i1: int, i2: int)
    requires
        x.len() == NUM_CHUNKS,
        forall|c: int| 0 <= c < NUM_CHUNKS ==> #[trigger] x[c] <= MAX_X,
        0 <= i1 <= i2 <= NUM_CHUNKS,
    ensures
        chain_rows_upto(x, i1).len() <= chain_rows_upto(x, i2).len(),
    decreases i2 - i1,
{
    if i1 < i2 {
        lemma_chain_rows_monotone(x, i1, i2 - 1);
    }
}

/// Every position decomposes as its chain's start plus its step.
pub proof fn lemma_chain_rows_position(x: Seq<u16>, r: int)
    requires
        x.len() == NUM_CHUNKS,
        forall|c: int| 0 <= c < NUM_CHUNKS ==> #[trigger] x[c] <= MAX_X,
        0 <= r < chain_rows(x).len(),
    ensures
        0 <= chain_rows(x)[r].0 < NUM_CHUNKS,
        0 <= chain_rows(x)[r].1 < MAX_X - x[chain_rows(x)[r].0],
        r == chain_rows_upto(x, chain_rows(x)[r].0).len() + chain_rows(x)[r].1,
{
    lemma_chain_rows_range_pub(x, NUM_CHUNKS as int);
    lemma_chain_rows_position_rec(x, NUM_CHUNKS as int, r);
}

proof fn lemma_chain_rows_position_rec(x: Seq<u16>, i: int, r: int)
    requires
        x.len() == NUM_CHUNKS,
        forall|c: int| 0 <= c < NUM_CHUNKS ==> #[trigger] x[c] <= MAX_X,
        0 <= i <= NUM_CHUNKS,
        0 <= r < chain_rows_upto(x, i).len(),
    ensures
        r == chain_rows_upto(x, chain_rows_upto(x, i)[r].0).len() + chain_rows_upto(x, i)[r].1,
        chain_rows(x)[r] == chain_rows_upto(x, i)[r],
    decreases i,
{
    lemma_chain_rows_prefix_pub(x, i, r);
    if i > 0 {
        let prev = chain_rows_upto(x, i - 1);
        if r < prev.len() {
            lemma_chain_rows_position_rec(x, i - 1, r);
        } else {
            assert(chain_rows_upto(x, i)[r] == chain_block(x, i - 1)[r - prev.len()]);
        }
    }
}

/// After a chain's last row comes the next hashed chain's first row: the
/// skipped chains all sit at the maximum chunk.
pub proof fn lemma_chain_rows_succ(x: Seq<u16>, r: int)
    requires
        x.len() == NUM_CHUNKS,
        forall|c: int| 0 <= c < NUM_CHUNKS ==> #[trigger] x[c] <= MAX_X,
        0 <= r,
        r + 1 < chain_rows(x).len(),
        chain_rows(x)[r].1 == MAX_X - x[chain_rows(x)[r].0] - 1,
    ensures
        chain_rows(x)[r + 1].1 == 0,
        chain_rows(x)[r].0 < chain_rows(x)[r + 1].0,
        forall|m: int|
            chain_rows(x)[r].0 < m < chain_rows(x)[r + 1].0 ==> #[trigger] x[m] == MAX_X,
        chain_rows_upto(x, chain_rows(x)[r + 1].0).len() == r + 1,
{
    let i = chain_rows(x)[r].0;
    lemma_chain_rows_position(x, r);
    lemma_chain_rows_position(x, r + 1);
    let i2 = chain_rows(x)[r + 1].0;
    let j2 = chain_rows(x)[r + 1].1;
    assert(r + 1 == chain_rows_upto(x, i + 1).len());
    if j2 > 0 {
        lemma_chain_rows_at(x, i2, j2 - 1);
        assert(chain_rows(x)[r] == (i2, j2 - 1));
        assert(false);
    }
    if i2 <= i {
        lemma_chain_rows_monotone(x, i2, i);
        assert(false);
    }
    assert forall|m: int| i < m < i2 implies #[trigger] x[m] == MAX_X by {
        lemma_chain_rows_monotone(x, i + 1, m);
        lemma_chain_rows_monotone(x, m + 1, i2);
        assert(chain_rows_upto(x, m + 1).len() == chain_rows_upto(x, m).len());
    }
}

/// The last row of a full signature ends its chain.
pub proof fn lemma_chain_rows_sig_last(x: Seq<u16>)
    requires
        x.len() == NUM_CHUNKS,
        forall|c: int| 0 <= c < NUM_CHUNKS ==> #[trigger] x[c] <= MAX_X,
        xsum(x) == TARGET_SUM as int,
    ensures
        chain_rows(x)[NUM_ROWS_PER_SIG as int - 1].1 == MAX_X - x[chain_rows(x)[NUM_ROWS_PER_SIG
            as int - 1].0] - 1,
{
    lemma_chain_rows_total(x);
    let r = NUM_ROWS_PER_SIG as int - 1;
    lemma_chain_rows_position(x, r);
    let i = chain_rows(x)[r].0;
    let j = chain_rows(x)[r].1;
    if j < MAX_X - x[i] - 1 {
        lemma_chain_rows_at(x, i, j + 1);
        assert(false);
    }
}

/// Chunk sums only grow along a prefix.
proof fn lemma_xsum_prefix_le(x: Seq<u16>, b: int)
    requires
        0 <= b <= x.len(),
    ensures
        xsum(x.take(b)) <= xsum(x),
        xsum(x.take(b)) >= 0,
    decreases x.len() - b,
{
    lemma_xsum_nonneg(x.take(b));
    if b == x.len() {
        assert(x.take(b) =~= x);
    } else {
        lemma_xsum_prefix_le(x, b + 1);
        assert(x.take(b + 1).drop_last() =~= x.take(b));
    }
}

proof fn lemma_xsum_nonneg(x: Seq<u16>)
    ensures
        xsum(x) >= 0,
    decreases x.len(),
{
    if x.len() > 0 {
        lemma_xsum_nonneg(x.drop_last());
    }
}

/// A run of maxed chunks contributes three each to the chunk sum.
proof fn lemma_xsum_segment(x: Seq<u16>, a: int, b: int)
    requires
        0 <= a <= b <= x.len(),
        forall|m: int| a <= m < b ==> #[trigger] x[m] == MAX_X,
    ensures
        xsum(x.take(b)) >= xsum(x.take(a)) + 3 * (b - a),
    decreases b - a,
{
    if a < b {
        lemma_xsum_segment(x, a, b - 1);
        assert(x.take(b).drop_last() =~= x.take(b - 1));
    }
}

/// The chain-index jump on any row of a full signature is below two to the
/// difference-bit width: more than half the chains would otherwise sit at
/// the maximum chunk, overshooting the target sum.
pub proof fn lemma_diff_of_bound(x: Seq<u16>, r: int)
    requires
        x.len() == NUM_CHUNKS,
        forall|c: int| 0 <= c < NUM_CHUNKS ==> #[trigger] x[c] <= MAX_X,
        xsum(x) == TARGET_SUM as int,
        0 <= r < NUM_ROWS_PER_SIG,
    ensures
        0 <= diff_of(x, r) < 64,
        chain_rows(x)[r].1 == 0 && r > 0 ==> diff_of(x, r) == chain_rows(x)[r].0 - chain_rows(
            x,
        )[r - 1].0 - 1,
{
    lemma_chain_rows_total(x);
    if r == 0 || chain_rows(x)[r].1 != 0 {
    } else {
        lemma_chain_rows_position(x, r);
        lemma_chain_rows_position(x, r - 1);
        let i = chain_rows(x)[r].0;
        let i0 = chain_rows(x)[r - 1].0;
        let j0 = chain_rows(x)[r - 1].1;
        // the previous row ends its chain: otherwise its own successor
        // would continue it
        if j0 < MAX_X - x[i0] - 1 {
            lemma_chain_rows_at(x, i0, j0 + 1);
            assert(chain_rows(x)[r] == (i0, j0 + 1));
            assert(false);
        }
        lemma_chain_rows_succ(x, r - 1);
        lemma_xsum_segment(x, i0 + 1, i);
        lemma_xsum_prefix_le(x, i);
        lemma_xsum_prefix_le(x, i0 + 1);
        assert(3 * (i - i0 - 1) <= TARGET_SUM as int);
    }
}

/// A row of the generated chain trace, by signature and offset.
pub open spec fn sig_row(rows: Seq<ChainCols>, k: int, r: int) -> ChainCols {
    rows[k * NUM_ROWS_PER_SIG + r]
}

/// The fully pinned generated chain trace.
pub open spec fn chain_trace_is(traces: Seq<VerificationTrace>, rows: Seq<ChainCols>) -> bool {
    &&& rows.len() == next_pow2(NUM_ROWS_PER_SIG as int * traces.len() as int)
    &&& forall|q: int| 0 <= q < rows.len() ==> (#[trigger] rows[q]).wf()
    &&& forall|k: int, r: int|
        0 <= k < traces.len() && 0 <= r < NUM_ROWS_PER_SIG ==> (#[trigger] sig_row(
            rows,
            k,
            r,
        )).is_chain_row(&traces[k], k, r)
    &&& forall|q: int|
        NUM_ROWS_PER_SIG as int * traces.len() as int <= q < rows.len() ==> (
        #[trigger] rows[q]).is_padding_row()
}

/// Height of the chain table.
pub fn trace_height(traces: &Vec<VerificationTrace>) -> (h: usize)
    requires
        traces@.len() <= 0x100000,
    ensures
        h == next_pow2(NUM_ROWS_PER_SIG as int * traces@.len() as int),
{
    next_power_of_two(NUM_ROWS_PER_SIG * traces.len())
}

/// What chain generation needs of each trace: the shape, chunks at or below
/// the maximum that meet the target sum, and chain records wired per the
/// scheme.
pub open spec fn chain_input_ok(vt: &VerificationTrace) -> bool {
    &&& vt.wf_shape()
    &&& forall|c: int| 0 <= c < NUM_CHUNKS ==> #[trigger] vt.x@[c] <= MAX_X
    &&& xsum(vt.x@) == TARGET_SUM as int
}

/// The generated padding row template.
fn generate_padding_row() -> (r: ChainCols)
    ensures
        r.wf(),
        r.is_padding_row(),
{
    let row = ChainCols {
        perm: Perm::zeros(WIDTH_CHAIN),
        sig_idx: F::zero(),
        sig_step: CycleInt::populate(0, NUM_ROWS_PER_SIG),
        is_active: F::zero(),
        chain_idx: F::zero(),
        chain_idx_diff_bits: crate::util::zero_fvec(MAX_CHAIN_STEP_DIFF_BITS),
        chain_step_bits: crate::util::zero_fvec(2),
        is_x_i: F::zero(),
    };
    proof {
        assert(fe(row.chain_idx_diff_bits@) =~= Seq::new(
            MAX_CHAIN_STEP_DIFF_BITS as nat,
            |b: int| 0int,
        ));
        assert(fe(row.chain_step_bits@) =~= seq![0int, 0int]);
    }
    row
}

/// Generate the chain trace.  The capacity hint only reserves memory for
/// the outer prover.
pub fn generate_trace(
    extra_capacity_bits: usize,
    epoch: u32,
    traces: &Vec<VerificationTrace>,
) -> (rows: Vec<ChainCols>)
    requires
        1 <= traces@.len() <= 0x100000,
        forall|k: int| 0 <= k < traces@.len() ==> chain_input_ok(&traces@[k]),
    ensures
        chain_trace_is(traces@, rows@),
{
    let n = traces.len();
    let height = next_power_of_two(NUM_ROWS_PER_SIG * n);
    let mut rows: Vec<ChainCols> = Vec::new();
    let mut k: usize = 0;
    while k < n
        invariant
            n == traces@.len(),
            1 <= n <= 0x100000,
            forall|t: int| 0 <= t < n ==> chain_input_ok(&traces@[t]),
            k <= n,
            rows@.len() == NUM_ROWS_PER_SIG * k,
            forall|q: int| 0 <= q < rows@.len() ==> (#[trigger] rows@[q]).wf(),
            forall|t: int, r: int|
                0 <= t < k && 0 <= r < NUM_ROWS_PER_SIG ==> (#[trigger] sig_row(
                    rows@,
                    t,
                    r,
                )).is_chain_row(&traces@[t], t, r),
        decreases n - k,
    {
        let vt = &traces[k];
        let ghost x = vt.x@;
        let ghost rows_before = rows@;
        proof {
            lemma_chain_rows_total(x);
        }
        let mut r: usize = 0;
        let mut prev: usize = 0;
        let mut i: usize = 0;
        while i < NUM_CHUNKS
            invariant
                n == traces@.len(),
                k < n <= 0x100000,
                chain_input_ok(&traces@[k as int]),
                vt == &traces@[k as int],
                x == vt.x@,
                chain_rows(x).len() == NUM_ROWS_PER_SIG,
                rows_before.len() == NUM_ROWS_PER_SIG * k,
                i <= NUM_CHUNKS,
                r == chain_rows_upto(x, i as int).len(),
                r <= NUM_ROWS_PER_SIG,
                r > 0 ==> chain_rows(x)[r - 1].0 == prev as int,
                prev < NUM_CHUNKS,
                rows@.len() == rows_before.len() + r,
                forall|q: int|
                    0 <= q < rows_before.len() ==> #[trigger] rows@[q] == rows_before[q],
                forall|q: int| 0 <= q < rows@.len() ==> (#[trigger] rows@[q]).wf(),
                forall|t: int, r2: int|
                    0 <= t < k && 0 <= r2 < NUM_ROWS_PER_SIG ==> (#[trigger] sig_row(
                        rows@,
                        t,
                        r2,
                    )).is_chain_row(&traces@[t], t, r2),
                forall|r2: int|
                    0 <= r2 < r ==> (#[trigger] rows@[rows_before.len() + r2]).is_chain_row(
                        &traces@[k as int],
                        k as int,
                        r2,
                    ),
            decreases NUM_CHUNKS - i,
        {
            let xi = vt.x[i];
            if xi < MAX_X {
                let steps = (MAX_X - xi) as usize;
                let opening = &vt.sig.chains[i];
                let mut j: usize = 0;
                while j < steps
                    invariant
                        n == traces@.len(),
                        k < n <= 0x100000,
                        chain_input_ok(&traces@[k as int]),
                        vt == &traces@[k as int],
                        x == vt.x@,
                        chain_rows(x).len() == NUM_ROWS_PER_SIG,
                        rows_before.len() == NUM_ROWS_PER_SIG * k,
                        i < NUM_CHUNKS,
                        opening == &vt.sig.chains@[i as int],
                        xi == x[i as int],
                        xi < MAX_X,
                        steps == MAX_X - xi,
                        j <= steps,
                        r == chain_rows_upto(x, i as int).len() + j,
                        r <= NUM_ROWS_PER_SIG,
                        r > 0 ==> chain_rows(x)[r - 1].0 == (if j == 0 {
                            prev as int
                        } else {
                            i as int
                        }),
                        prev < NUM_CHUNKS,
                        rows@.len() == rows_before.len() + r,
                        forall|q: int|
                            0 <= q < rows_before.len() ==> #[trigger] rows@[q] == rows_before[q],
                        forall|q: int| 0 <= q < rows@.len() ==> (#[trigger] rows@[q]).wf(),
                        forall|t: int, r2: int|
                            0 <= t < k && 0 <= r2 < NUM_ROWS_PER_SIG ==> (#[trigger] sig_row(
                                rows@,
                                t,
                                r2,
                            )).is_chain_row(&traces@[t], t, r2),
                        forall|r2: int|
                            0 <= r2 < r ==> (#[trigger] rows@[rows_before.len()
                                + r2]).is_chain_row(&traces@[k as int], k as int, r2),
                    decreases steps - j,
                {
                    proof {
                        lemma_chain_rows_at(x, i as int, j as int);
                        lemma_chain_rows_prefix_pub(x, i as int + 1, r as int);
                        assert(vt.chains_at(i as int).steps@.len() == MAX_X - xi);
                        if j == 0 && r > 0 {
                            lemma_chain_rows_range_pub(x, i as int);
                            lemma_chain_rows_prefix_pub(x, i as int, r as int - 1);
                            assert(chain_rows(x)[r as int - 1].0 < i as int);
                            assert(prev < i);
                        }
                    }
                    let diff: u32 = if j == 0 && r > 0 {
                        (i - prev - 1) as u32
                    } else {
                        0
                    };
                    proof {
                        if j == 0 && r > 0 {
                            assert(diff_of(x, r as int) == i - prev - 1);
                        } else if j == 0 {
                            assert(diff_of(x, r as int) == 0);
                        } else {
                            assert(chain_rows(x)[r as int].1 == j);
                            assert(diff_of(x, r as int) == 0);
                        }
                    }
                    let step_val: u32 = xi as u32 + j as u32;
                    let row = ChainCols {
                        perm: opening.steps[j].duplicate(),
                        sig_idx: F::new(k as u32),
                        sig_step: CycleInt::populate(r, NUM_ROWS_PER_SIG),
                        is_active: F::one(),
                        chain_idx: F::new(i as u32),
                        chain_idx_diff_bits: bits_of(diff, MAX_CHAIN_STEP_DIFF_BITS),
                        chain_step_bits: bits_of(step_val, 2),
                        is_x_i: F::from_bool(j == 0),
                    };
                    proof {
                        vstd::arithmetic::div_mod::lemma_small_mod(k as nat, P as nat);
                        vstd::arithmetic::div_mod::lemma_small_mod(i as nat, P as nat);
                        assert(fe(row.chain_idx_diff_bits@) =~= Seq::new(
                            MAX_CHAIN_STEP_DIFF_BITS as nat,
                            |b: int| bit_of(diff_of(x, r as int), b),
                        ));
                        assert(fe(row.chain_step_bits@) =~= seq![
                            bit_of(x[i as int] + j, 0),
                            bit_of(x[i as int] + j, 1),
                        ]);
                    }
                    let ghost prev_rows = rows@;
                    rows.push(row);
                    proof {
                        assert forall|t: int, r2: int|
                            0 <= t < k && 0 <= r2 < NUM_ROWS_PER_SIG implies (#[trigger] sig_row(
                            rows@,
                            t,
                            r2,
                        )).is_chain_row(&traces@[t], t, r2) by {
                            assert(t * NUM_ROWS_PER_SIG + r2 < rows_before.len());
                            assert(sig_row(rows@, t, r2) == sig_row(prev_rows, t, r2));
                        }
                        assert forall|r2: int|
                            0 <= r2 < r + 1 implies (#[trigger] rows@[rows_before.len()
                            + r2]).is_chain_row(&traces@[k as int], k as int, r2) by {
                            if r2 < r {
                                assert(rows@[rows_before.len() + r2] == prev_rows[rows_before.len()
                                    + r2]);
                            }
                        }
                    }
                    r = r + 1;
                    j = j + 1;
                }
                prev = i;
            } else {
                proof {
                    assert(chain_block(x, i as int) =~= Seq::<(int, int)>::empty());
                    assert(chain_rows_upto(x, i as int + 1) =~= chain_rows_upto(x, i as int));
                }
            }
            i = i + 1;
        }
        proof {
            assert(x.take(NUM_CHUNKS as int) =~= x);
            assert forall|t: int, r2: int|
                0 <= t < k + 1 && 0 <= r2 < NUM_ROWS_PER_SIG implies (#[trigger] sig_row(
                rows@,
                t,
                r2,
            )).is_chain_row(&traces@[t], t, r2) by {
                if t < k {
                    assert(sig_row(rows@, t, r2) == rows_before[t * NUM_ROWS_PER_SIG + r2]);
                    assert(sig_row(rows_before, t, r2).is_chain_row(&traces@[t], t, r2));
                } else {
                    assert(t * NUM_ROWS_PER_SIG == rows_before.len());
                    assert(rows@[rows_before.len() + r2].is_chain_row(&traces@[t], t, r2));
                }
            }
        }
        k = k + 1;
    }
    let mut q: usize = rows.len();
    while q < height
        invariant
            n == traces@.len(),
            height == next_pow2(NUM_ROWS_PER_SIG as int * n as int),
            NUM_ROWS_PER_SIG * n <= q <= height,
            rows@.len() == q,
            forall|p: int| 0 <= p < rows@.len() ==> (#[trigger] rows@[p]).wf(),
            forall|t: int, r2: int|
                0 <= t < n && 0 <= r2 < NUM_ROWS_PER_SIG ==> (#[trigger] sig_row(
                    rows@,
                    t,
                    r2,
                )).is_chain_row(&traces@[t], t, r2),
            forall|p: int|
                NUM_ROWS_PER_SIG as int * n as int <= p < rows@.len() ==> (
                #[trigger] rows@[p]).is_padding_row(),
        decreases height - q,
    {
        let ghost prev_rows = rows@;
        rows.push(generate_padding_row());
        proof {
            assert forall|t: int, r2: int|
                0 <= t < n && 0 <= r2 < NUM_ROWS_PER_SIG implies (#[trigger] sig_row(
                rows@,
                t,
                r2,
            )).is_chain_row(&traces@[t], t, r2) by {
                assert(t * NUM_ROWS_PER_SIG + r2 < prev_rows.len());
                assert(sig_row(rows@, t, r2) == sig_row(prev_rows, t, r2));
            }
        }
        q = q + 1;
    }
    rows
}

/// The chain table's constraint system.
#[derive(Clone, Copy, PartialEq, Eq, Structural, Debug)]
pub struct ChainAir;

impl ChainAir {
    pub fn width(&self) -> (r: usize)
        ensures
            r == NUM_CHAIN_COLS,
    {
        NUM_CHAIN_COLS
    }

    pub fn num_public_values(&self) -> (r: usize)
        ensures
            r == 1,
    {
        1
    }
}

/// A chip bundling the chain table's pieces for one batch.
pub struct ChainChip<'a> {
    pub extra_capacity_bits: usize,
    pub epoch: u32,
    pub traces: &'a Vec<VerificationTrace>,
}

impl<'a> ChainChip<'a> {
    pub fn new(extra_capacity_bits: usize, epoch: u32, traces: &'a Vec<VerificationTrace>) -> (r:
        Self)
        ensures
            r.extra_capacity_bits == extra_capacity_bits,
            r.epoch == epoch,
            r.traces == traces,
    {
        ChainChip { extra_capacity_bits, epoch, traces }
    }

    pub fn air(&self) -> (r: ChainAir)
        ensures
            r == ChainAir,
    {
        ChainAir
    }

    /// The one public value: the epoch part of every chain tweak,
    /// separator-tagged.
    pub fn public_values(&self) -> (r: Vec<F>)
        requires
            self.epoch < 0x100000,
        ensures
            r@.len() == 1,
            r@[0]@ == 4 * self.epoch as int,
    {
        let v = F::new(self.epoch * 4);
        proof {
            vstd::arithmetic::div_mod::lemma_small_mod((4 * self.epoch) as nat, P as nat);
        }
        let mut r: Vec<F> = Vec::new();
        r.push(v);
        r
    }

    pub fn trace_height(&self) -> (h: usize)
        requires
            self.traces@.len() <= 0x100000,
        ensures
            h == next_pow2(NUM_ROWS_PER_SIG as int * self.traces@.len() as int),
    {
        trace_height(self.traces)
    }

    pub fn generate_trace(&self) -> (rows: Vec<ChainCols>)
        requires
            1 <= self.traces@.len() <= 0x100000,
            forall|k: int| 0 <= k < self.traces@.len() ==> chain_input_ok(&self.traces@[k]),
        ensures
            chain_trace_is(self.traces@, rows@),
    {
        generate_trace(self.extra_capacity_bits, self.epoch, self.traces)
    }
}

} // verus!
