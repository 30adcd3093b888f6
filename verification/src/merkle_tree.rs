//! The Merkle tree table: per signature, the sponge rows that absorb the
//! chain ends into the leaf, the path rows that walk the leaf to the root,
//! and the message-hash row, in that order.  The path's last row must agree
//! with the main table on (parameter, root, digest); the leaf rows receive
//! the chain ends from the chain table.

use vstd::prelude::*;

use crate::field::{F, P, fadd, fmul, fsub, fe};
use crate::gadget::{CycleInt, IsEqual, select_spec};
use crate::hash_sig::{
    HASH_FE_LEN, LOG_LIFETIME, MAX_X, MSG_FE_LEN, MSG_HASH_FE_LEN, NUM_CHUNKS, PARAM_FE_LEN, Perm,
    RHO_FE_LEN, SPONGE_INPUT_SIZE, SPONGE_PERM, SPONGE_RATE, TWEAK_FE_LEN, VerificationTrace,
    WIDTH_TREE,
};
use crate::util::{clone_fvec, next_pow2, next_power_of_two, sub_fvec, zero_fvec};

verus! {

/// Rows one signature occupies: the sponge rows, the path rows, and the
/// message-hash row.
pub const NUM_ROWS_PER_SIG: usize = 58;

/// Column count of the Merkle tree table.
pub const NUM_MERKLE_TREE_COLS: usize = 96;

/// One row of the Merkle tree table.
pub struct MerkleTreeCols {
    pub perm: Perm,
    pub sig_idx: F,
    pub is_msg: F,
    pub is_merkle_leaf: F,
    pub is_merkle_leaf_transition: F,
    pub is_merkle_path: F,
    pub is_merkle_path_transition: F,
    pub is_receive_merkle_tree: Vec<F>,
    pub sponge_step: CycleInt,
    pub sponge_block: Vec<F>,
    pub leaf_chunk_start_ind: Vec<F>,
    pub leaf_chunk_idx: F,
    pub level: CycleInt,
    pub epoch_dec: F,
    pub is_right: F,
}

/// The first leaf chunk whose start position falls in sponge row `s`.
pub open spec fn first_chunk_of_row(s: int) -> int {
    (SPONGE_RATE as int * s + HASH_FE_LEN as int - 1) / (HASH_FE_LEN as int)
}

/// Whether sponge row `s` begins exactly at a chunk boundary.
pub open spec fn row_is_aligned(s: int) -> bool {
    (SPONGE_RATE as int * s) % (HASH_FE_LEN as int) == 0
}

/// Whether leaf chunk `c` is received from the chain table: the reserved
/// chunk and the out-of-range trailing chunk never are, and a chain at the
/// maximum chunk sends nothing.
pub open spec fn chunk_flag(vt: &VerificationTrace, c: int) -> int {
    if 1 <= c <= NUM_CHUNKS && vt.x@[c - 1] != MAX_X {
        1
    } else {
        0
    }
}

/// The three receive-slot flags of sponge row `s`: on an aligned row the
/// first slot serves the chunk starting the row, otherwise it stays empty.
pub open spec fn leaf_flags(vt: &VerificationTrace, s: int) -> Seq<int> {
    let c0 = first_chunk_of_row(s);
    if row_is_aligned(s) {
        seq![chunk_flag(vt, c0), chunk_flag(vt, c0 + 1), chunk_flag(vt, c0 + 2)]
    } else {
        seq![0int, chunk_flag(vt, c0), chunk_flag(vt, c0 + 1)]
    }
}

impl MerkleTreeCols {
    pub open spec fn wf(&self) -> bool {
        &&& self.perm.wf(WIDTH_TREE as int)
        &&& self.is_receive_merkle_tree@.len() == 3
        &&& self.sponge_block@.len() == SPONGE_RATE
        &&& self.leaf_chunk_start_ind@.len() == SPONGE_RATE
    }

    /// The generated sponge row `s` of signature `k`.
    pub open spec fn is_leaf_row(&self, vt: &VerificationTrace, epoch: int, k: int, s: int) -> bool {
        &&& self.sig_idx@ == k
        &&& self.is_msg@ == 0
        &&& self.is_merkle_leaf@ == 1
        &&& self.is_merkle_leaf_transition@ == if s == SPONGE_PERM - 1 {
            0int
        } else {
            1int
        }
        &&& self.is_merkle_path@ == 0
        &&& self.is_merkle_path_transition@ == 0
        &&& fe(self.is_receive_merkle_tree@) == leaf_flags(vt, s)
        &&& self.sponge_step.is_populated(s, SPONGE_PERM as int)
        &&& fe(self.sponge_block@) == vt.sponge_block(epoch, s)
        &&& fe(self.leaf_chunk_start_ind@) == Seq::new(
            SPONGE_RATE as nat,
            |idx: int|
                if (SPONGE_RATE as int * s + idx) % (HASH_FE_LEN as int) == 0 {
                    1int
                } else {
                    0int
                },
        )
        &&& self.leaf_chunk_idx@ == first_chunk_of_row(s)
        &&& self.level.step@ == fe(vt.pk.parameter@)[0]
        &&& self.level.is_last_step.inv@ == fe(vt.pk.parameter@)[1]
        &&& self.level.is_last_step.output@ == fe(vt.pk.parameter@)[2]
        &&& self.epoch_dec@ == fe(vt.pk.parameter@)[3]
        &&& self.is_right@ == fe(vt.pk.parameter@)[4]
        &&& self.perm.input@ == vt.leaf_perms@[s].input@
        &&& self.perm.output@ == vt.leaf_perms@[s].output@
    }

    /// The generated path row of level `l` of signature `k`.
    pub open spec fn is_path_row(&self, vt: &VerificationTrace, epoch: int, k: int, l: int) -> bool {
        &&& self.sig_idx@ == k
        &&& self.is_msg@ == 0
        &&& self.is_merkle_leaf@ == 0
        &&& self.is_merkle_leaf_transition@ == 0
        &&& self.is_merkle_path@ == 1
        &&& self.is_merkle_path_transition@ == if l == LOG_LIFETIME - 1 {
            0int
        } else {
            1int
        }
        &&& fe(self.is_receive_merkle_tree@) == seq![0int, 0int, 0int]
        &&& self.sponge_step.is_populated(0, SPONGE_PERM as int)
        &&& fe(self.sponge_block@) == Seq::new(SPONGE_RATE as nat, |i: int| 0int)
        &&& fe(self.leaf_chunk_start_ind@) == Seq::new(SPONGE_RATE as nat, |i: int| 0int)
        &&& self.leaf_chunk_idx@ == 0
        &&& self.level.is_populated(l, LOG_LIFETIME as int)
        &&& self.epoch_dec@ == VerificationTrace::epoch_dec(epoch, l)
        &&& self.is_right@ == VerificationTrace::epoch_dec(epoch, l) % 2
        &&& self.perm.input@ == vt.path_perms@[l].input@
        &&& self.perm.output@ == vt.path_perms@[l].output@
    }

    /// The generated message-hash row of signature `k`.
    pub open spec fn is_msg_row(&self, vt: &VerificationTrace, k: int) -> bool {
        &&& self.sig_idx@ == k
        &&& self.is_msg@ == 1
        &&& self.is_merkle_leaf@ == 0
        &&& self.is_merkle_leaf_transition@ == 0
        &&& self.is_merkle_path@ == 0
        &&& self.is_merkle_path_transition@ == 0
        &&& fe(self.is_receive_merkle_tree@) == seq![0int, 0int, 0int]
        &&& self.sponge_step.is_populated(0, SPONGE_PERM as int)
        &&& fe(self.sponge_block@) == Seq::new(SPONGE_RATE as nat, |i: int| 0int)
        &&& fe(self.leaf_chunk_start_ind@) == Seq::new(SPONGE_RATE as nat, |i: int| 0int)
        &&& self.leaf_chunk_idx@ == 0
        &&& self.level.is_populated(0, LOG_LIFETIME as int)
        &&& self.epoch_dec@ == 0
        &&& self.is_right@ == 0
        &&& self.perm.input@ == vt.msg_perm.input@
        &&& self.perm.output@ == vt.msg_perm.output@
    }

    /// The generated padding row: no phase flag set, a zero compression
    /// record.
    pub open spec fn is_padding_row(&self) -> bool {
        &&& self.sig_idx@ == 0
        &&& self.is_msg@ == 0
        &&& self.is_merkle_leaf@ == 0
        &&& self.is_merkle_leaf_transition@ == 0
        &&& self.is_merkle_path@ == 0
        &&& self.is_merkle_path_transition@ == 0
        &&& fe(self.is_receive_merkle_tree@) == seq![0int, 0int, 0int]
        &&& self.sponge_step.is_populated(0, SPONGE_PERM as int)
        &&& fe(self.sponge_block@) == Seq::new(SPONGE_RATE as nat, |i: int| 0int)
        &&& fe(self.leaf_chunk_start_ind@) == Seq::new(SPONGE_RATE as nat, |i: int| 0int)
        &&& self.leaf_chunk_idx@ == 0
        &&& self.level.is_populated(0, LOG_LIFETIME as int)
        &&& self.epoch_dec@ == 0
        &&& self.is_right@ == 0
        &&& fe(self.perm.input@) == Seq::new(WIDTH_TREE as nat, |i: int| 0int)
        &&& fe(self.perm.output@) == Seq::new(WIDTH_TREE as nat, |i: int| 0int)
    }

    /// The parameter lanes of the message-hash compression.
    pub fn msg_hash_parameter(&self) -> (r: Vec<F>)
        requires
            self.wf(),
        ensures
            r@ == self.perm.input@.subrange(
                RHO_FE_LEN as int,
                RHO_FE_LEN as int + PARAM_FE_LEN as int,
            ),
    {
        sub_fvec(&self.perm.input, RHO_FE_LEN, PARAM_FE_LEN)
    }

    /// The tweak lanes of the message-hash compression.
    pub fn encoded_tweak_msg(&self) -> (r: Vec<F>)
        requires
            self.wf(),
        ensures
            r@ == self.perm.input@.subrange(
                RHO_FE_LEN as int + PARAM_FE_LEN as int,
                RHO_FE_LEN as int + PARAM_FE_LEN as int + TWEAK_FE_LEN as int,
            ),
    {
        sub_fvec(&self.perm.input, RHO_FE_LEN + PARAM_FE_LEN, TWEAK_FE_LEN)
    }

    /// The encoded-message lanes of the message-hash compression.
    pub fn encoded_msg(&self) -> (r: Vec<F>)
        requires
            self.wf(),
        ensures
            r@ == self.perm.input@.subrange(13, 13 + MSG_FE_LEN as int),
    {
        sub_fvec(&self.perm.input, RHO_FE_LEN + PARAM_FE_LEN + TWEAK_FE_LEN, MSG_FE_LEN)
    }

    /// The padding lanes of the message-hash compression.
    pub fn msg_hash_padding(&self) -> (r: Vec<F>)
        requires
            self.wf(),
        ensures
            r@ == self.perm.input@.subrange(22, WIDTH_TREE as int),
    {
        sub_fvec(&self.perm.input, 22, WIDTH_TREE - 22)
    }

    /// The digest this row computes: the feed-forward of the first lanes.
    pub fn msg_hash(&self) -> (r: Vec<F>)
        requires
            self.wf(),
        ensures
            fe(r@) == self.perm.ff_prefix(MSG_HASH_FE_LEN as int),
    {
        self.perm.ff_values(MSG_HASH_FE_LEN)
    }

    /// The parameter lanes of a tree compression.
    pub fn merkle_parameter(&self) -> (r: Vec<F>)
        requires
            self.wf(),
        ensures
            r@ == self.perm.input@.subrange(0, PARAM_FE_LEN as int),
    {
        sub_fvec(&self.perm.input, 0, PARAM_FE_LEN)
    }

    /// The tweak lanes of a tree compression.
    pub fn encoded_tweak_merkle(&self) -> (r: Vec<F>)
        requires
            self.wf(),
        ensures
            r@ == self.perm.input@.subrange(
                PARAM_FE_LEN as int,
                PARAM_FE_LEN as int + TWEAK_FE_LEN as int,
            ),
    {
        sub_fvec(&self.perm.input, PARAM_FE_LEN, TWEAK_FE_LEN)
    }

    /// The padding cells of the last sponge block.
    pub fn merkle_leaf_padding(&self) -> (r: Vec<F>)
        requires
            self.wf(),
        ensures
            r@ == self.sponge_block@.subrange(13, SPONGE_RATE as int),
    {
        sub_fvec(&self.sponge_block, 13, SPONGE_RATE - 13)
    }

    /// The columns that hold the signature's parameter across the sponge
    /// rows: the path-walk registers, unused during that phase.
    pub fn merkle_parameter_register(&self) -> (r: Vec<F>)
        ensures
            r@.len() == PARAM_FE_LEN,
            r@[0] == self.level.step,
            r@[1] == self.level.is_last_step.inv,
            r@[2] == self.level.is_last_step.output,
            r@[3] == self.epoch_dec,
            r@[4] == self.is_right,
    {
        let mut r: Vec<F> = Vec::new();
        r.push(self.level.step);
        r.push(self.level.is_last_step.inv);
        r.push(self.level.is_last_step.output);
        r.push(self.epoch_dec);
        r.push(self.is_right);
        r
    }

    /// Store a parameter into the path-walk registers.
    pub fn merkle_parameter_register_mut(&mut self, values: &Vec<F>)
        requires
            values@.len() == PARAM_FE_LEN,
        ensures
            final(self).level.step == values@[0],
            final(self).level.is_last_step.inv == values@[1],
            final(self).level.is_last_step.output == values@[2],
            final(self).epoch_dec == values@[3],
            final(self).is_right == values@[4],
            final(self).perm == old(self).perm,
            final(self).sig_idx == old(self).sig_idx,
            final(self).is_msg == old(self).is_msg,
            final(self).is_merkle_leaf == old(self).is_merkle_leaf,
            final(self).is_merkle_leaf_transition == old(self).is_merkle_leaf_transition,
            final(self).is_merkle_path == old(self).is_merkle_path,
            final(self).is_merkle_path_transition == old(self).is_merkle_path_transition,
            final(self).is_receive_merkle_tree == old(self).is_receive_merkle_tree,
            final(self).sponge_step == old(self).sponge_step,
            final(self).sponge_block == old(self).sponge_block,
            final(self).leaf_chunk_start_ind == old(self).leaf_chunk_start_ind,
            final(self).leaf_chunk_idx == old(self).leaf_chunk_idx,
    {
        self.level.step = values[0];
        self.level.is_last_step.inv = values[1];
        self.level.is_last_step.output = values[2];
        self.epoch_dec = values[3];
        self.is_right = values[4];
    }

    /// The node this row computes: the feed-forward of the first lanes.
    pub fn compress_output(&self) -> (r: Vec<F>)
        requires
            self.wf(),
        ensures
            fe(r@) == self.perm.ff_prefix(HASH_FE_LEN as int),
    {
        self.perm.ff_values(HASH_FE_LEN)
    }

    /// The full sponge state this row outputs.
    pub fn sponge_output(&self) -> (r: Vec<F>)
        requires
            self.wf(),
        ensures
            r@ == self.perm.output@,
    {
        clone_fvec(&self.perm.output)
    }

    /// The left child lanes of a tree compression.
    pub fn merkle_path_left(&self) -> (r: Vec<F>)
        requires
            self.wf(),
        ensures
            r@ == self.perm.input@.subrange(7, 7 + HASH_FE_LEN as int),
    {
        sub_fvec(&self.perm.input, PARAM_FE_LEN + TWEAK_FE_LEN, HASH_FE_LEN)
    }

    /// The right child lanes of a tree compression.
    pub fn merkle_path_right(&self) -> (r: Vec<F>)
        requires
            self.wf(),
        ensures
            r@ == self.perm.input@.subrange(14, 14 + HASH_FE_LEN as int),
    {
        sub_fvec(&self.perm.input, PARAM_FE_LEN + TWEAK_FE_LEN + HASH_FE_LEN, HASH_FE_LEN)
    }

    /// The padding lanes of a tree compression.
    pub fn merkle_path_padding(&self) -> (r: Vec<F>)
        requires
            self.wf(),
        ensures
            r@ == self.perm.input@.subrange(21, WIDTH_TREE as int),
    {
        sub_fvec(&self.perm.input, 21, WIDTH_TREE - 21)
    }
}

impl MerkleTreeCols {
    /// Rows inside one signature: everything but the message row.
    pub open spec fn is_sig_transition_val(&self) -> int {
        fsub(1, self.is_msg@)
    }

    /// The last sponge row: a leaf row that is no leaf transition.
    pub open spec fn is_last_merkle_leaf_row_val(&self) -> int {
        fsub(self.is_merkle_leaf@, self.is_merkle_leaf_transition@)
    }

    /// The last path row: a path row that is no path transition.
    pub open spec fn is_last_merkle_path_row_val(&self) -> int {
        fsub(self.is_merkle_path@, self.is_merkle_path_transition@)
    }

    /// A row with no phase flag set.
    pub open spec fn is_padding_val(&self) -> int {
        fsub(1, fadd(fadd(self.is_msg@, self.is_merkle_leaf@), self.is_merkle_path@))
    }

    /// The path-walk register columns, reused to carry the parameter across
    /// the sponge rows.
    pub open spec fn register_val(&self, t: int) -> int {
        if t == 0 {
            self.level.step@
        } else if t == 1 {
            self.level.is_last_step.inv@
        } else if t == 2 {
            self.level.is_last_step.output@
        } else if t == 3 {
            self.epoch_dec@
        } else {
            self.is_right@
        }
    }

    /// The clauses that open a signature's sponge: the counter at step
    /// zero, the chunk counter at the reserved chunk, the chunk-start
    /// indicators at every chunk boundary of the window, the parameter
    /// lanes equal to the carried registers, the tweak lanes equal to the
    /// public level-zero tree tweak, the rate lanes equal to the absorbed
    /// block, and the capacity lanes fixed.  Each clause is gated so the
    /// same form serves the trace's first row and the rows after each
    /// message row.
    pub open spec fn leaf_open_gated(&self, gate: int, pvs: Seq<int>) -> bool {
        let input = fe(self.perm.input@);
        &&& fmul(gate, self.sponge_step.step@) == 0
        &&& fmul(gate, self.leaf_chunk_idx@) == 0
        &&& fmul(gate, fsub(fe(self.leaf_chunk_start_ind@)[0], 1)) == 0
        &&& fmul(gate, fsub(fe(self.leaf_chunk_start_ind@)[HASH_FE_LEN as int], 1)) == 0
        &&& fmul(gate, fsub(fe(self.leaf_chunk_start_ind@)[2 * HASH_FE_LEN], 1)) == 0
        &&& forall|t: int|
            0 <= t < PARAM_FE_LEN ==> fmul(
                gate,
                fsub(#[trigger] fe(self.perm.input@)[t], self.register_val(t)),
            ) == 0
        &&& fmul(gate, fsub(input[PARAM_FE_LEN as int], pvs[12])) == 0
        &&& fmul(gate, fsub(input[PARAM_FE_LEN as int + 1], pvs[13])) == 0
        &&& forall|j: int|
            HASH_FE_LEN <= j < SPONGE_RATE ==> fmul(
                gate,
                fsub(#[trigger] fe(self.perm.input@)[j], fe(self.sponge_block@)[j]),
            ) == 0
        &&& fmul(
            gate,
            fsub(input[SPONGE_RATE as int], crate::hash_sig::SPONGE_CAPACITY_FIRST as int),
        ) == 0
        &&& forall|j: int|
            SPONGE_RATE + 1 <= j < WIDTH_TREE ==> fmul(
                gate,
                #[trigger] fe(self.perm.input@)[j],
            ) == 0
    }

    /// Row-local constraints of the Merkle tree table, against the public
    /// values: boolean phase and receive flags, at most one phase set, the
    /// two transition flags tied to their phase and counter, receive flags
    /// cleared off the sponge rows, exactly two chunk boundaries inside
    /// each sponge window, the sponge counter's indicator, on path rows the
    /// walk direction boolean, the level counter's indicator and the zero
    /// padding lanes, and on the message row the tweak and message lanes
    /// bound to the public values over zero padding lanes.
    pub open spec fn every_row_ok(&self, pvs: Seq<int>) -> bool {
        let input = fe(self.perm.input@);
        let flags = fe(self.is_receive_merkle_tree@);
        let phase_sum = fadd(fadd(self.is_msg@, self.is_merkle_leaf@), self.is_merkle_path@);
        let d = fsub(self.level.step@, LOG_LIFETIME as int - 1);
        &&& fmul(self.is_msg@, fsub(self.is_msg@, 1)) == 0
        &&& fmul(self.is_merkle_leaf@, fsub(self.is_merkle_leaf@, 1)) == 0
        &&& fmul(self.is_merkle_path@, fsub(self.is_merkle_path@, 1)) == 0
        &&& fmul(flags[0], fsub(flags[0], 1)) == 0
        &&& fmul(flags[1], fsub(flags[1], 1)) == 0
        &&& fmul(flags[2], fsub(flags[2], 1)) == 0
        &&& fmul(phase_sum, fsub(phase_sum, 1)) == 0
        &&& self.is_merkle_leaf_transition@ == fmul(
            self.is_merkle_leaf@,
            fsub(1, self.sponge_step.at_last()),
        )
        &&& self.is_merkle_path_transition@ == fmul(
            self.is_merkle_path@,
            fsub(1, self.level.at_last()),
        )
        &&& fmul(fsub(1, self.is_merkle_leaf@), fadd(fadd(flags[0], flags[1]), flags[2])) == 0
        &&& self.sponge_step.constraints_ok(SPONGE_PERM as int)
        &&& fmul(self.is_merkle_path@, fmul(self.is_right@, fsub(self.is_right@, 1))) == 0
        &&& fmul(
            self.is_merkle_path@,
            fmul(self.level.at_last(), fsub(self.level.at_last(), 1)),
        ) == 0
        &&& fmul(self.is_merkle_path@, fmul(self.level.at_last(), d)) == 0
        &&& fmul(
            self.is_merkle_path@,
            fsub(fmul(d, self.level.is_last_step.inv@), fsub(1, self.level.at_last())),
        ) == 0
        &&& fmul(self.is_merkle_path@, input[21]) == 0
        &&& fmul(self.is_merkle_path@, input[22]) == 0
        &&& fmul(self.is_merkle_path@, input[23]) == 0
        &&& fmul(
            self.is_merkle_leaf@,
            fsub(
                crate::decomposition::fsum(
                    fe(self.leaf_chunk_start_ind@),
                    1,
                    SPONGE_RATE as int,
                ),
                2,
            ),
        ) == 0
        &&& forall|t: int|
            0 <= t < TWEAK_FE_LEN ==> fmul(
                self.is_msg@,
                fsub(
                    #[trigger] fe(self.perm.input@)[RHO_FE_LEN as int + PARAM_FE_LEN as int + t],
                    pvs[10 + t],
                ),
            ) == 0
        &&& forall|t: int|
            0 <= t < MSG_FE_LEN ==> fmul(
                self.is_msg@,
                fsub(#[trigger] fe(self.perm.input@)[13 + t], pvs[1 + t]),
            ) == 0
        &&& fmul(self.is_msg@, input[22]) == 0
        &&& fmul(self.is_msg@, input[23]) == 0
    }

    /// First-row constraints: the trace opens with signature zero's first
    /// sponge row, carrying the opening clauses of the sponge.
    pub open spec fn first_row_ok(&self, pvs: Seq<int>) -> bool {
        &&& self.sig_idx@ == 0
        &&& self.is_merkle_leaf@ == 1
        &&& self.sponge_step.step@ == 0
        &&& self.leaf_open_gated(1, pvs)
    }

    /// Transition constraints, against the epoch: the signature index is
    /// carried within a signature and steps up into the next; sponge rows
    /// absorb the next block over the previous output and carry the
    /// parameter registers; the last sponge row opens the path walk on the
    /// epoch with the leaf hash in the selected child slot; path rows bind
    /// their tweak lanes, halve the epoch, carry the parameter and feed
    /// their output into the selected child slot; the last path row closes
    /// the walk; the message row is followed only by the next signature's
    /// sponge rows or padding; padding persists with a zero signature
    /// index.
    pub open spec fn transition_ok(&self, next: &MerkleTreeCols, pvs: Seq<int>) -> bool {
        let epoch = pvs[0];
        let lt = self.is_merkle_leaf_transition@;
        let ll = self.is_last_merkle_leaf_row_val();
        let pt = self.is_merkle_path_transition@;
        let pl = self.is_last_merkle_path_row_val();
        let input = fe(self.perm.input@);
        let ninput = fe(next.perm.input@);
        &&& fmul(self.is_sig_transition_val(), fsub(next.sig_idx@, self.sig_idx@)) == 0
        &&& fmul(lt, fsub(next.is_merkle_leaf@, 1)) == 0
        &&& fmul(
            lt,
            fsub(
                next.sponge_step.step@,
                select_spec(self.sponge_step.at_last(), fadd(self.sponge_step.step@, 1), 0),
            ),
        ) == 0
        &&& forall|j: int|
            0 <= j < WIDTH_TREE ==> fmul(
                lt,
                fsub(
                    #[trigger] fe(next.perm.input@)[j],
                    if j < SPONGE_RATE {
                        fadd(fe(self.perm.output@)[j], fe(next.sponge_block@)[j])
                    } else {
                        fe(self.perm.output@)[j]
                    },
                ),
            ) == 0
        &&& forall|t: int|
            0 <= t < PARAM_FE_LEN ==> fmul(
                lt,
                fsub(#[trigger] next.register_val(t), self.register_val(t)),
            ) == 0
        &&& fmul(ll, fe(self.sponge_block@)[13]) == 0
        &&& fmul(ll, fe(self.sponge_block@)[14]) == 0
        &&& fmul(ll, fsub(next.is_merkle_path@, 1)) == 0
        &&& fmul(ll, next.level.step@) == 0
        &&& fmul(ll, fsub(next.epoch_dec@, epoch)) == 0
        &&& forall|i: int|
            0 <= i < HASH_FE_LEN ==> fmul(
                ll,
                fsub(
                    #[trigger] fe(self.perm.output@)[i],
                    select_spec(
                        next.is_right@,
                        fe(next.perm.input@)[7 + i],
                        fe(next.perm.input@)[14 + i],
                    ),
                ),
            ) == 0
        &&& fmul(
            self.is_merkle_path@,
            fsub(input[5], fadd(fmul(fadd(self.level.step@, 1), 4), 1)),
        ) == 0
        &&& fmul(self.is_merkle_path@, fsub(input[6], select_spec(pt, 0, next.epoch_dec@))) == 0
        &&& fmul(pt, fsub(next.is_merkle_path@, 1)) == 0
        &&& fmul(pt, fsub(next.level.step@, fadd(self.level.step@, 1))) == 0
        &&& fmul(
            pt,
            fsub(self.epoch_dec@, fadd(fmul(2, next.epoch_dec@), self.is_right@)),
        ) == 0
        &&& forall|t: int|
            0 <= t < PARAM_FE_LEN ==> fmul(
                pt,
                fsub(#[trigger] fe(next.perm.input@)[t], fe(self.perm.input@)[t]),
            ) == 0
        &&& forall|i: int|
            0 <= i < HASH_FE_LEN ==> fmul(
                pt,
                fsub(
                    #[trigger] self.perm.ff(i),
                    select_spec(
                        next.is_right@,
                        fe(next.perm.input@)[7 + i],
                        fe(next.perm.input@)[14 + i],
                    ),
                ),
            ) == 0
        &&& fmul(pl, fsub(self.epoch_dec@, self.is_right@)) == 0
        &&& forall|t: int|
            0 <= t < PARAM_FE_LEN ==> fmul(
                pl,
                fsub(
                    #[trigger] fe(next.perm.input@)[RHO_FE_LEN + t],
                    fe(self.perm.input@)[t],
                ),
            ) == 0
        &&& forall|i: int|
            1 <= i <= HASH_FE_LEN ==> fmul(
                fmul(lt, #[trigger] fe(self.leaf_chunk_start_ind@)[i]),
                fsub(fe(next.leaf_chunk_start_ind@)[i - 1], 1),
            ) == 0
        &&& fmul(self.is_msg@, fadd(next.is_msg@, next.is_merkle_path@)) == 0
        &&& fmul(
            fmul(self.is_msg@, next.is_merkle_leaf@),
            fsub(next.sig_idx@, fadd(self.sig_idx@, 1)),
        ) == 0
        &&& next.leaf_open_gated(fmul(self.is_msg@, next.is_merkle_leaf@), pvs)
        &&& fmul(self.is_padding_val(), self.sig_idx@) == 0
        &&& fmul(self.is_padding_val(), fsub(1, next.is_padding_val())) == 0
    }
}

/// The public values of the Merkle tree table for one (epoch, message)
/// pair: the epoch, the encoded message, the message tweak, and the
/// level-zero tree tweak.
pub open spec fn merkle_public_values(epoch: int, msg: Seq<u8>) -> Seq<int> {
    seq![epoch] + crate::hash_sig::encoded_msg_spec(msg) + crate::hash_sig::tweak_msg_spec(epoch)
        + crate::hash_sig::tweak_tree_spec(0, epoch)
}

/// A row of the generated Merkle tree trace, by signature and offset.
pub open spec fn sig_row(rows: Seq<MerkleTreeCols>, k: int, r: int) -> MerkleTreeCols {
    rows[k * NUM_ROWS_PER_SIG + r]
}

/// The fully pinned generated Merkle tree trace: per signature the sponge
/// rows, the path rows and the message row, then padding rows.
pub open spec fn merkle_trace_is(
    traces: Seq<VerificationTrace>,
    epoch: int,
    rows: Seq<MerkleTreeCols>,
) -> bool {
    &&& rows.len() == next_pow2(NUM_ROWS_PER_SIG as int * traces.len() as int)
    &&& forall|q: int| 0 <= q < rows.len() ==> (#[trigger] rows[q]).wf()
    &&& forall|k: int, s: int|
        0 <= k < traces.len() && 0 <= s < SPONGE_PERM ==> (#[trigger] sig_row(
            rows,
            k,
            s,
        )).is_leaf_row(&traces[k], epoch, k, s)
    &&& forall|k: int, l: int|
        0 <= k < traces.len() && 0 <= l < LOG_LIFETIME ==> (#[trigger] sig_row(
            rows,
            k,
            SPONGE_PERM as int + l,
        )).is_path_row(&traces[k], epoch, k, l)
    &&& forall|k: int|
        0 <= k < traces.len() ==> (#[trigger] sig_row(
            rows,
            k,
            SPONGE_PERM as int + LOG_LIFETIME as int,
        )).is_msg_row(&traces[k], k)
    &&& forall|q: int|
        NUM_ROWS_PER_SIG as int * traces.len() as int <= q < rows.len() ==> (
        #[trigger] rows[q]).is_padding_row()
}

/// Height of the Merkle tree table.
pub fn trace_height(traces: &Vec<VerificationTrace>) -> (h: usize)
    requires
        traces@.len() <= 0x100000,
    ensures
        h == next_pow2(NUM_ROWS_PER_SIG as int * traces@.len() as int),
{
    next_power_of_two(NUM_ROWS_PER_SIG * traces.len())
}

/// The Merkle leaf preimage of one signature: the reserved parameter-and-
/// tweak chunk, then the chain ends.
fn build_leaf(vt: &VerificationTrace, epoch: u32) -> (r: Vec<F>)
    requires
        vt.wf_shape(),
        epoch < 0x100000,
    ensures
        r@.len() == SPONGE_INPUT_SIZE,
        fe(r@) == vt.leaf_preimage(epoch as int),
{
    let mut r = clone_fvec(&vt.pk.parameter);
    let mut tweak = crate::hash_sig::encode_tweak_merkle_tree(0, epoch);
    r.append(&mut tweak);
    let mut i: usize = 0;
    while i < NUM_CHUNKS
        invariant
            vt.wf_shape(),
            epoch < 0x100000,
            i <= NUM_CHUNKS,
            r@.len() == PARAM_FE_LEN + TWEAK_FE_LEN + HASH_FE_LEN * i,
            fe(r@) == fe(vt.pk.parameter@) + crate::hash_sig::tweak_tree_spec(0, epoch as int)
                + vt.ends_flat(i as int),
        decreases NUM_CHUNKS - i,
    {
        proof {
            assert(vt.chains_at(i as int).steps@.len() == (if vt.x@[i as int] == MAX_X {
                0int
            } else {
                MAX_X - vt.x@[i as int]
            }));
        }
        let mut end: Vec<F> = if vt.x[i] == MAX_X {
            clone_fvec(&vt.sig.chains[i].revealed)
        } else {
            vt.sig.chains[i].steps[vt.sig.chains[i].steps.len() - 1].ff_values(HASH_FE_LEN)
        };
        proof {
            assert(fe(end@) == vt.chain_end(i as int));
            assert(vt.chain_end(i as int).len() == HASH_FE_LEN) by {
                if vt.x@[i as int] == MAX_X {
                } else {
                }
            }
            assert(fe(r@) + fe(end@) =~= fe(vt.pk.parameter@) + crate::hash_sig::tweak_tree_spec(
                0,
                epoch as int,
            ) + vt.ends_flat(i as int + 1));
        }
        let ghost old_r = r@;
        r.append(&mut end);
        proof {
            assert(fe(r@) =~= fe(old_r) + fe(r@.subrange(old_r.len() as int, r@.len() as int)));
        }
        i = i + 1;
    }
    r
}

/// Generate the Merkle tree trace.  The capacity hint only reserves memory
/// for the outer prover.
pub fn generate_trace(
    extra_capacity_bits: usize,
    epoch: u32,
    encoded_msg: &Vec<F>,
    traces: &Vec<VerificationTrace>,
) -> (rows: Vec<MerkleTreeCols>)
    requires
        1 <= traces@.len() <= 0x100000,
        epoch < 0x100000,
        forall|k: int| 0 <= k < traces@.len() ==> (#[trigger] traces@[k]).wf_shape(),
    ensures
        merkle_trace_is(traces@, epoch as int, rows@),
{
    let n = traces.len();
    let height = next_power_of_two(NUM_ROWS_PER_SIG * n);
    let mut rows: Vec<MerkleTreeCols> = Vec::new();
    let mut k: usize = 0;
    while k < n
        invariant
            n == traces@.len(),
            1 <= n <= 0x100000,
            epoch < 0x100000,
            forall|t: int| 0 <= t < n ==> (#[trigger] traces@[t]).wf_shape(),
            k <= n,
            rows@.len() == NUM_ROWS_PER_SIG * k,
            forall|q: int| 0 <= q < rows@.len() ==> (#[trigger] rows@[q]).wf(),
            forall|t: int, s: int|
                0 <= t < k && 0 <= s < SPONGE_PERM ==> (#[trigger] sig_row(
                    rows@,
                    t,
                    s,
                )).is_leaf_row(&traces@[t], epoch as int, t, s),
            forall|t: int, l: int|
                0 <= t < k && 0 <= l < LOG_LIFETIME ==> (#[trigger] sig_row(
                    rows@,
                    t,
                    SPONGE_PERM as int + l,
                )).is_path_row(&traces@[t], epoch as int, t, l),
            forall|t: int|
                0 <= t < k ==> (#[trigger] sig_row(
                    rows@,
                    t,
                    SPONGE_PERM as int + LOG_LIFETIME as int,
                )).is_msg_row(&traces@[t], t),
        decreases n - k,
    {
        let vt = &traces[k];
        let ghost rows_before = rows@;
        let leaf = build_leaf(vt, epoch);
        let mut s: usize = 0;
        while s < SPONGE_PERM
            invariant
                n == traces@.len(),
                k < n <= 0x100000,
                epoch < 0x100000,
                traces@[k as int].wf_shape(),
                vt == &traces@[k as int],
                leaf@.len() == SPONGE_INPUT_SIZE,
                fe(leaf@) == vt.leaf_preimage(epoch as int),
                s <= SPONGE_PERM,
                rows_before.len() == NUM_ROWS_PER_SIG * k,
                rows@.len() == rows_before.len() + s,
                forall|q: int|
                    0 <= q < rows_before.len() ==> #[trigger] rows@[q] == rows_before[q],
                forall|q: int| 0 <= q < rows@.len() ==> (#[trigger] rows@[q]).wf(),
                forall|t: int, s2: int|
                    0 <= t < k && 0 <= s2 < SPONGE_PERM ==> (#[trigger] sig_row(
                        rows@,
                        t,
                        s2,
                    )).is_leaf_row(&traces@[t], epoch as int, t, s2),
                forall|t: int, l2: int|
                    0 <= t < k && 0 <= l2 < LOG_LIFETIME ==> (#[trigger] sig_row(
                        rows@,
                        t,
                        SPONGE_PERM as int + l2,
                    )).is_path_row(&traces@[t], epoch as int, t, l2),
                forall|t: int|
                    0 <= t < k ==> (#[trigger] sig_row(
                        rows@,
                        t,
                        SPONGE_PERM as int + LOG_LIFETIME as int,
                    )).is_msg_row(&traces@[t], t),
                forall|s2: int|
                    0 <= s2 < s ==> (#[trigger] rows@[rows_before.len() + s2]).is_leaf_row(
                        &traces@[k as int],
                        epoch as int,
                        k as int,
                        s2,
                    ),
            decreases SPONGE_PERM - s,
        {
            let mut block: Vec<F> = Vec::new();
            let mut idx: usize = 0;
            while idx < SPONGE_RATE
                invariant
                    leaf@.len() == SPONGE_INPUT_SIZE,
                    s < SPONGE_PERM,
                    idx <= SPONGE_RATE,
                    block@.len() == idx,
                    forall|j: int|
                        0 <= j < idx ==> #[trigger] block@[j]@ == (
                        if SPONGE_RATE * s + j < SPONGE_INPUT_SIZE {
                            fe(leaf@)[SPONGE_RATE * s + j]
                        } else {
                            0int
                        }),
                decreases SPONGE_RATE - idx,
            {
                if SPONGE_RATE * s + idx < SPONGE_INPUT_SIZE {
                    let x = leaf[SPONGE_RATE * s + idx];
                    block.push(x);
                } else {
                    block.push(F::zero());
                }
                idx = idx + 1;
            }
            let mut start_ind: Vec<F> = Vec::new();
            let mut flags: Vec<F> = Vec::new();
            let mut idx2: usize = 0;
            while idx2 < SPONGE_RATE
                invariant
                    s < SPONGE_PERM,
                    idx2 <= SPONGE_RATE,
                    start_ind@.len() == idx2,
                    forall|j: int|
                        0 <= j < idx2 ==> #[trigger] start_ind@[j]@ == (
                        if (SPONGE_RATE as int * s as int + j) % (HASH_FE_LEN as int) == 0 {
                            1int
                        } else {
                            0int
                        }),
                decreases SPONGE_RATE - idx2,
            {
                start_ind.push(F::from_bool((SPONGE_RATE * s + idx2) % HASH_FE_LEN == 0));
                idx2 = idx2 + 1;
            }
            let c0 = (SPONGE_RATE * s + HASH_FE_LEN - 1) / HASH_FE_LEN;
            let aligned = (SPONGE_RATE * s) % HASH_FE_LEN == 0;
            if aligned {
                flags.push(chunk_flag_exec(vt, c0));
                flags.push(chunk_flag_exec(vt, c0 + 1));
                flags.push(chunk_flag_exec(vt, c0 + 2));
            } else {
                flags.push(F::zero());
                flags.push(chunk_flag_exec(vt, c0));
                flags.push(chunk_flag_exec(vt, c0 + 1));
            }
            let param = &vt.pk.parameter;
            let row = MerkleTreeCols {
                perm: vt.leaf_perms[s].duplicate(),
                sig_idx: F::new(k as u32),
                is_msg: F::zero(),
                is_merkle_leaf: F::one(),
                is_merkle_leaf_transition: F::from_bool(s != SPONGE_PERM - 1),
                is_merkle_path: F::zero(),
                is_merkle_path_transition: F::zero(),
                is_receive_merkle_tree: flags,
                sponge_step: CycleInt::populate(s, SPONGE_PERM),
                sponge_block: block,
                leaf_chunk_start_ind: start_ind,
                leaf_chunk_idx: F::new(c0 as u32),
                level: CycleInt { step: param[0], is_last_step: IsEqual { inv: param[1], output: param[2] } },
                epoch_dec: param[3],
                is_right: param[4],
            };
            proof {
                vstd::arithmetic::div_mod::lemma_small_mod(k as nat, P as nat);
                vstd::arithmetic::div_mod::lemma_small_mod(c0 as nat, P as nat);
                assert(fe(row.is_receive_merkle_tree@) =~= leaf_flags(vt, s as int));
                assert(fe(row.sponge_block@) =~= vt.sponge_block(epoch as int, s as int));
                assert(fe(row.leaf_chunk_start_ind@) =~= Seq::new(
                    SPONGE_RATE as nat,
                    |idx: int|
                        if (SPONGE_RATE as int * s as int + idx) % (HASH_FE_LEN as int) == 0 {
                            1int
                        } else {
                            0int
                        },
                ));
            }
            let ghost prev_rows = rows@;
            rows.push(row);
            proof {
                lemma_push_keeps_sig_rows_pub(prev_rows, rows@, traces@, epoch as int, k as int);
            }
            s = s + 1;
        }
        let mut ed: u32 = epoch;
        let mut l: usize = 0;
        proof {
            vstd::arithmetic::power2::lemma2_to64();
            vstd::arithmetic::div_mod::lemma_div_basics(epoch as int);
        }
        while l < LOG_LIFETIME
            invariant
                n == traces@.len(),
                k < n <= 0x100000,
                epoch < 0x100000,
                traces@[k as int].wf_shape(),
                vt == &traces@[k as int],
                l <= LOG_LIFETIME,
                ed as int == VerificationTrace::epoch_dec(epoch as int, l as int),
                ed <= epoch,
                rows_before.len() == NUM_ROWS_PER_SIG * k,
                rows@.len() == rows_before.len() + SPONGE_PERM + l,
                forall|q: int|
                    0 <= q < rows_before.len() ==> #[trigger] rows@[q] == rows_before[q],
                forall|q: int| 0 <= q < rows@.len() ==> (#[trigger] rows@[q]).wf(),
                forall|t: int, s2: int|
                    0 <= t < k && 0 <= s2 < SPONGE_PERM ==> (#[trigger] sig_row(
                        rows@,
                        t,
                        s2,
                    )).is_leaf_row(&traces@[t], epoch as int, t, s2),
                forall|t: int, l2: int|
                    0 <= t < k && 0 <= l2 < LOG_LIFETIME ==> (#[trigger] sig_row(
                        rows@,
                        t,
                        SPONGE_PERM as int + l2,
                    )).is_path_row(&traces@[t], epoch as int, t, l2),
                forall|t: int|
                    0 <= t < k ==> (#[trigger] sig_row(
                        rows@,
                        t,
                        SPONGE_PERM as int + LOG_LIFETIME as int,
                    )).is_msg_row(&traces@[t], t),
                forall|s2: int|
                    0 <= s2 < SPONGE_PERM ==> (#[trigger] rows@[rows_before.len()
                        + s2]).is_leaf_row(&traces@[k as int], epoch as int, k as int, s2),
                forall|l2: int|
                    0 <= l2 < l ==> (#[trigger] rows@[rows_before.len() + SPONGE_PERM
                        + l2]).is_path_row(&traces@[k as int], epoch as int, k as int, l2),
            decreases LOG_LIFETIME - l,
        {
            let row = MerkleTreeCols {
                perm: vt.path_perms[l].duplicate(),
                sig_idx: F::new(k as u32),
                is_msg: F::zero(),
                is_merkle_leaf: F::zero(),
                is_merkle_leaf_transition: F::zero(),
                is_merkle_path: F::one(),
                is_merkle_path_transition: F::from_bool(l != LOG_LIFETIME - 1),
                is_receive_merkle_tree: zero_fvec(3),
                sponge_step: CycleInt::populate(0, SPONGE_PERM),
                sponge_block: zero_fvec(SPONGE_RATE),
                leaf_chunk_start_ind: zero_fvec(SPONGE_RATE),
                leaf_chunk_idx: F::zero(),
                level: CycleInt::populate(l, LOG_LIFETIME),
                epoch_dec: F::new(ed),
                is_right: F::from_bool(ed % 2 == 1),
            };
            proof {
                vstd::arithmetic::div_mod::lemma_small_mod(k as nat, P as nat);
                vstd::arithmetic::div_mod::lemma_small_mod(ed as nat, P as nat);
                assert(fe(row.is_receive_merkle_tree@) =~= seq![0int, 0int, 0int]);
                assert(fe(row.sponge_block@) =~= Seq::new(SPONGE_RATE as nat, |i: int| 0int));
                assert(fe(row.leaf_chunk_start_ind@) =~= Seq::new(
                    SPONGE_RATE as nat,
                    |i: int| 0int,
                ));
                assert(row.is_right@ == VerificationTrace::epoch_dec(epoch as int, l as int) % 2);
            }
            let ghost prev_rows = rows@;
            rows.push(row);
            proof {
                lemma_push_keeps_sig_rows_pub(prev_rows, rows@, traces@, epoch as int, k as int);
                vstd::arithmetic::power2::lemma2_to64();
                vstd::arithmetic::power2::lemma_pow2_pos(l as nat);
                vstd::arithmetic::power2::lemma_pow2_adds(l as nat, 1);
                vstd::arithmetic::div_mod::lemma_div_denominator(
                    epoch as int,
                    crate::field::p2(l as int),
                    2,
                );
                vstd::arithmetic::div_mod::lemma_div_is_ordered(
                    epoch as int / crate::field::p2(l as int),
                    epoch as int,
                    2,
                );
            }
            ed = ed / 2;
            l = l + 1;
        }
        let msg_row = MerkleTreeCols {
            perm: vt.msg_perm.duplicate(),
            sig_idx: F::new(k as u32),
            is_msg: F::one(),
            is_merkle_leaf: F::zero(),
            is_merkle_leaf_transition: F::zero(),
            is_merkle_path: F::zero(),
            is_merkle_path_transition: F::zero(),
            is_receive_merkle_tree: zero_fvec(3),
            sponge_step: CycleInt::populate(0, SPONGE_PERM),
            sponge_block: zero_fvec(SPONGE_RATE),
            leaf_chunk_start_ind: zero_fvec(SPONGE_RATE),
            leaf_chunk_idx: F::zero(),
            level: CycleInt::populate(0, LOG_LIFETIME),
            epoch_dec: F::zero(),
            is_right: F::zero(),
        };
        proof {
            vstd::arithmetic::div_mod::lemma_small_mod(k as nat, P as nat);
            assert(fe(msg_row.is_receive_merkle_tree@) =~= seq![0int, 0int, 0int]);
            assert(fe(msg_row.sponge_block@) =~= Seq::new(SPONGE_RATE as nat, |i: int| 0int));
            assert(fe(msg_row.leaf_chunk_start_ind@) =~= Seq::new(
                SPONGE_RATE as nat,
                |i: int| 0int,
            ));
        }
        let ghost prev_rows = rows@;
        rows.push(msg_row);
        proof {
            lemma_push_keeps_sig_rows_pub(prev_rows, rows@, traces@, epoch as int, k as int);
            assert forall|t: int, s2: int|
                0 <= t < k + 1 && 0 <= s2 < SPONGE_PERM implies (#[trigger] sig_row(
                rows@,
                t,
                s2,
            )).is_leaf_row(&traces@[t], epoch as int, t, s2) by {
                if t < k {
                    assert(t * NUM_ROWS_PER_SIG + s2 < rows_before.len());
                    assert(sig_row(rows@, t, s2) == sig_row(rows_before, t, s2));
                } else {
                    assert(t * NUM_ROWS_PER_SIG == rows_before.len());
                    assert(rows@[rows_before.len() + s2].is_leaf_row(
                        &traces@[t],
                        epoch as int,
                        t,
                        s2,
                    ));
                }
            }
            assert forall|t: int, l2: int|
                0 <= t < k + 1 && 0 <= l2 < LOG_LIFETIME implies (#[trigger] sig_row(
                rows@,
                t,
                SPONGE_PERM as int + l2,
            )).is_path_row(&traces@[t], epoch as int, t, l2) by {
                if t < k {
                    assert(t * NUM_ROWS_PER_SIG + (SPONGE_PERM as int + l2) < rows_before.len());
                    assert(sig_row(rows@, t, SPONGE_PERM as int + l2) == sig_row(
                        rows_before,
                        t,
                        SPONGE_PERM as int + l2,
                    ));
                } else {
                    assert(t * NUM_ROWS_PER_SIG == rows_before.len());
                    assert(rows@[rows_before.len() + SPONGE_PERM + l2].is_path_row(
                        &traces@[t],
                        epoch as int,
                        t,
                        l2,
                    ));
                }
            }
            assert forall|t: int|
                0 <= t < k + 1 implies (#[trigger] sig_row(
                rows@,
                t,
                SPONGE_PERM as int + LOG_LIFETIME as int,
            )).is_msg_row(&traces@[t], t) by {
                if t < k {
                    assert(t * NUM_ROWS_PER_SIG + (SPONGE_PERM as int + LOG_LIFETIME as int)
                        < rows_before.len());
                    assert(sig_row(rows@, t, SPONGE_PERM as int + LOG_LIFETIME as int) == sig_row(
                        rows_before,
                        t,
                        SPONGE_PERM as int + LOG_LIFETIME as int,
                    ));
                } else {
                    assert(t * NUM_ROWS_PER_SIG == rows_before.len());
                    assert(rows@[rows_before.len() + SPONGE_PERM + LOG_LIFETIME].is_msg_row(
                        &traces@[t],
                        t,
                    ));
                }
            }
        }
        k = k + 1;
    }
    let mut q: usize = rows.len();
    while q < height
        invariant
            n == traces@.len(),
            epoch < 0x100000,
            height == next_pow2(NUM_ROWS_PER_SIG as int * n as int),
            NUM_ROWS_PER_SIG * n <= q <= height,
            rows@.len() == q,
            forall|p: int| 0 <= p < rows@.len() ==> (#[trigger] rows@[p]).wf(),
            forall|t: int, s: int|
                0 <= t < n && 0 <= s < SPONGE_PERM ==> (#[trigger] sig_row(
                    rows@,
                    t,
                    s,
                )).is_leaf_row(&traces@[t], epoch as int, t, s),
            forall|t: int, l: int|
                0 <= t < n && 0 <= l < LOG_LIFETIME ==> (#[trigger] sig_row(
                    rows@,
                    t,
                    SPONGE_PERM as int + l,
                )).is_path_row(&traces@[t], epoch as int, t, l),
            forall|t: int|
                0 <= t < n ==> (#[trigger] sig_row(
                    rows@,
                    t,
                    SPONGE_PERM as int + LOG_LIFETIME as int,
                )).is_msg_row(&traces@[t], t),
            forall|p: int|
                NUM_ROWS_PER_SIG as int * n as int <= p < rows@.len() ==> (
                #[trigger] rows@[p]).is_padding_row(),
        decreases height - q,
    {
        let row = MerkleTreeCols {
            perm: Perm::zeros(WIDTH_TREE),
            sig_idx: F::zero(),
            is_msg: F::zero(),
            is_merkle_leaf: F::zero(),
            is_merkle_leaf_transition: F::zero(),
            is_merkle_path: F::zero(),
            is_merkle_path_transition: F::zero(),
            is_receive_merkle_tree: zero_fvec(3),
            sponge_step: CycleInt::populate(0, SPONGE_PERM),
            sponge_block: zero_fvec(SPONGE_RATE),
            leaf_chunk_start_ind: zero_fvec(SPONGE_RATE),
            leaf_chunk_idx: F::zero(),
            level: CycleInt::populate(0, LOG_LIFETIME),
            epoch_dec: F::zero(),
            is_right: F::zero(),
        };
        proof {
            assert(fe(row.is_receive_merkle_tree@) =~= seq![0int, 0int, 0int]);
            assert(fe(row.sponge_block@) =~= Seq::new(SPONGE_RATE as nat, |i: int| 0int));
            assert(fe(row.leaf_chunk_start_ind@) =~= Seq::new(SPONGE_RATE as nat, |i: int| 0int));
        }
        let ghost prev_rows = rows@;
        rows.push(row);
        proof {
            lemma_push_keeps_sig_rows_pub(prev_rows, rows@, traces@, epoch as int, n as int);
        }
        q = q + 1;
    }
    rows
}

/// The per-signature row facts survive appending a row.
pub proof fn lemma_push_keeps_sig_rows_pub(
    prev: Seq<MerkleTreeCols>,
    cur: Seq<MerkleTreeCols>,
    traces: Seq<VerificationTrace>,
    epoch: int,
    upto: int,
)
    requires
        cur.len() == prev.len() + 1,
        forall|q: int| 0 <= q < prev.len() ==> #[trigger] cur[q] == prev[q],
        0 <= upto <= traces.len(),
        NUM_ROWS_PER_SIG as int * upto <= prev.len(),
        forall|t: int, s: int|
            0 <= t < upto && 0 <= s < SPONGE_PERM ==> (#[trigger] sig_row(
                prev,
                t,
                s,
            )).is_leaf_row(&traces[t], epoch, t, s),
        forall|t: int, l: int|
            0 <= t < upto && 0 <= l < LOG_LIFETIME ==> (#[trigger] sig_row(
                prev,
                t,
                SPONGE_PERM as int + l,
            )).is_path_row(&traces[t], epoch, t, l),
        forall|t: int|
            0 <= t < upto ==> (#[trigger] sig_row(
                prev,
                t,
                SPONGE_PERM as int + LOG_LIFETIME as int,
            )).is_msg_row(&traces[t], t),
    ensures
        forall|t: int, s: int|
            0 <= t < upto && 0 <= s < SPONGE_PERM ==> (#[trigger] sig_row(
                cur,
                t,
                s,
            )).is_leaf_row(&traces[t], epoch, t, s),
        forall|t: int, l: int|
            0 <= t < upto && 0 <= l < LOG_LIFETIME ==> (#[trigger] sig_row(
                cur,
                t,
                SPONGE_PERM as int + l,
            )).is_path_row(&traces[t], epoch, t, l),
        forall|t: int|
            0 <= t < upto ==> (#[trigger] sig_row(
                cur,
                t,
                SPONGE_PERM as int + LOG_LIFETIME as int,
            )).is_msg_row(&traces[t], t),
{
    assert forall|t: int, s: int|
        0 <= t < upto && 0 <= s < SPONGE_PERM implies (#[trigger] sig_row(cur, t, s)).is_leaf_row(
        &traces[t],
        epoch,
        t,
        s,
    ) by {
        assert(t * NUM_ROWS_PER_SIG + s < NUM_ROWS_PER_SIG as int * upto);
        assert(sig_row(cur, t, s) == sig_row(prev, t, s));
    }
    assert forall|t: int, l: int|
        0 <= t < upto && 0 <= l < LOG_LIFETIME implies (#[trigger] sig_row(
        cur,
        t,
        SPONGE_PERM as int + l,
    )).is_path_row(&traces[t], epoch, t, l) by {
        assert(t * NUM_ROWS_PER_SIG + (SPONGE_PERM as int + l) < NUM_ROWS_PER_SIG as int * upto);
        assert(sig_row(cur, t, SPONGE_PERM as int + l) == sig_row(prev, t, SPONGE_PERM as int + l));
    }
    assert forall|t: int|
        0 <= t < upto implies (#[trigger] sig_row(
        cur,
        t,
        SPONGE_PERM as int + LOG_LIFETIME as int,
    )).is_msg_row(&traces[t], t) by {
        assert(t * NUM_ROWS_PER_SIG + (SPONGE_PERM as int + LOG_LIFETIME as int)
            < NUM_ROWS_PER_SIG as int * upto);
        assert(sig_row(cur, t, SPONGE_PERM as int + LOG_LIFETIME as int) == sig_row(
            prev,
            t,
            SPONGE_PERM as int + LOG_LIFETIME as int,
        ));
    }
}

/// Whether chunk `c` is received from the chain table, as a flag value.
fn chunk_flag_exec(vt: &VerificationTrace, c: usize) -> (r: F)
    requires
        vt.wf_shape(),
    ensures
        r@ == chunk_flag(vt, c as int),
{
    if 1 <= c && c <= NUM_CHUNKS {
        F::from_bool(vt.x[c - 1] != MAX_X)
    } else {
        F::zero()
    }
}

/// The Merkle tree table's constraint system.
#[derive(Clone, Copy, PartialEq, Eq, Structural, Debug)]
pub struct MerkleTreeAir;

impl MerkleTreeAir {
    pub fn width(&self) -> (r: usize)
        ensures
            r == NUM_MERKLE_TREE_COLS,
    {
        NUM_MERKLE_TREE_COLS
    }

    pub fn num_public_values(&self) -> (r: usize)
        ensures
            r == 1 + MSG_FE_LEN + 2 * TWEAK_FE_LEN,
    {
        1 + MSG_FE_LEN + 2 * TWEAK_FE_LEN
    }
}

/// A chip bundling the Merkle tree table's pieces for one batch.
pub struct MerkleTreeChip<'a> {
    pub extra_capacity_bits: usize,
    pub epoch: u32,
    pub encoded_msg: Vec<F>,
    pub traces: &'a Vec<VerificationTrace>,
}

impl<'a> MerkleTreeChip<'a> {
    pub fn new(
        extra_capacity_bits: usize,
        epoch: u32,
        encoded_msg: Vec<F>,
        traces: &'a Vec<VerificationTrace>,
    ) -> (r: Self)
        ensures
            r.extra_capacity_bits == extra_capacity_bits,
            r.epoch == epoch,
            r.encoded_msg == encoded_msg,
            r.traces == traces,
    {
        MerkleTreeChip { extra_capacity_bits, epoch, encoded_msg, traces }
    }

    pub fn air(&self) -> (r: MerkleTreeAir)
        ensures
            r == MerkleTreeAir,
    {
        MerkleTreeAir
    }

    /// The public values: the epoch, the encoded message, the message tweak
    /// and the level-zero tree tweak.
    pub fn public_values(&self) -> (r: Vec<F>)
        requires
            self.epoch < 0x100000,
        ensures
            fe(r@) == seq![self.epoch as int] + fe(self.encoded_msg@)
                + crate::hash_sig::tweak_msg_spec(self.epoch as int)
                + crate::hash_sig::tweak_tree_spec(0, self.epoch as int),
    {
        let mut r: Vec<F> = Vec::new();
        let e = F::new(self.epoch);
        proof {
            vstd::arithmetic::div_mod::lemma_small_mod(self.epoch as nat, P as nat);
        }
        r.push(e);
        let mut em = clone_fvec(&self.encoded_msg);
        r.append(&mut em);
        let mut tm = crate::hash_sig::encode_tweak_msg(self.epoch);
        r.append(&mut tm);
        let mut tt = crate::hash_sig::encode_tweak_merkle_tree(0, self.epoch);
        r.append(&mut tt);
        proof {
            assert(fe(r@) =~= seq![self.epoch as int] + fe(self.encoded_msg@)
                + crate::hash_sig::tweak_msg_spec(self.epoch as int)
                + crate::hash_sig::tweak_tree_spec(0, self.epoch as int));
        }
        r
    }

    pub fn trace_height(&self) -> (h: usize)
        requires
            self.traces@.len() <= 0x100000,
        ensures
            h == next_pow2(NUM_ROWS_PER_SIG as int * self.traces@.len() as int),
    {
        trace_height(self.traces)
    }

    pub fn generate_trace(&self) -> (rows: Vec<MerkleTreeCols>)
        requires
            1 <= self.traces@.len() <= 0x100000,
            self.epoch < 0x100000,
            forall|k: int|
                0 <= k < self.traces@.len() ==> (#[trigger] self.traces@[k]).wf_shape(),
        ensures
            merkle_trace_is(self.traces@, self.epoch as int, rows@),
    {
        generate_trace(self.extra_capacity_bits, self.epoch, &self.encoded_msg, self.traces)
    }
}

} // verus!
