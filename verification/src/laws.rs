//! The laws the table system obeys, stated and proved over the generated
//! traces: the per-signature checksum hits the target sum, the chain table
//! replays exactly the step counts the decomposition supplies, padding rows
//! carry no bus traffic, and the bus channels balance.

use vstd::prelude::*;

use crate::chain::{self, ChainCols, chain_block, chain_rows, chain_rows_upto, diff_of};
use crate::merkle_tree::{self, MerkleTreeCols};
use crate::decomposition::{
    self, CHUNKS_PER_LIMB, DecompositionCols, NUM_MSG_HASH_LIMBS,
};
use crate::field::{fadd, fe, fmul, fsub};
use crate::main_table::MainCols;
use crate::range_check::RangeCheckCols;
use crate::hash_sig::{
    HASH_FE_LEN, MAX_X, MSG_HASH_FE_LEN, NUM_CHUNKS, PARAM_FE_LEN, TARGET_SUM, VerificationInput,
    VerificationTrace, WIDTH_CHAIN, encoded_msg_spec, xsum,
};

verus! {

/// Checksum soundness of the witness: on the last decomposition row of
/// every signature, the running chunk sum is exactly the scheme's fixed
/// target sum.
pub proof fn lemma_decomposition_checksum(
    vi: &VerificationInput,
    rows: Seq<DecompositionCols>,
    k: int,
)
    requires
        vi.wf(),
        decomposition::decomposition_trace_is(vi.traces@, rows),
        0 <= k < vi.traces@.len(),
    ensures
        decomposition::sig_row(
            rows,
            k,
            decomposition::NUM_ROWS_PER_SIG as int - 1,
        ).sum@ == TARGET_SUM as int,
{
    let vt = &vi.traces@[k];
    assert(vt.wf(vi.epoch as int, encoded_msg_spec(vi.msg@)));
    let last = decomposition::sig_row(rows, k, decomposition::NUM_ROWS_PER_SIG as int - 1);
    assert(decomposition::sig_row(
        rows,
        k,
        MSG_HASH_FE_LEN as int + (NUM_MSG_HASH_LIMBS as int - 1),
    ).is_decomposition_row(vt, k, NUM_MSG_HASH_LIMBS as int - 1));
    assert(last == decomposition::sig_row(
        rows,
        k,
        MSG_HASH_FE_LEN as int + (NUM_MSG_HASH_LIMBS as int - 1),
    ));
    assert(vt.x@.take(CHUNKS_PER_LIMB as int * (NUM_MSG_HASH_LIMBS as int - 1 + 1)) =~= vt.x@);
}

/// Chain-replay soundness of the witness: for every chain with a nonzero
/// step count, the chain table holds exactly the required number of
/// compression rows, starting at a row flagged as the revealed value and
/// walking the chain's records, whose last feed-forward is the chain's end
/// value.
pub proof fn lemma_chain_replays_step_count(
    vi: &VerificationInput,
    rows: Seq<ChainCols>,
    k: int,
    i: int,
)
    requires
        vi.wf(),
        chain::chain_trace_is(vi.traces@, rows),
        0 <= k < vi.traces@.len(),
        0 <= i < NUM_CHUNKS,
        vi.traces@[k].x@[i] < MAX_X,
    ensures
        forall|j: int|
            0 <= j < MAX_X - vi.traces@[k].x@[i] ==> {
                let row = #[trigger] chain::sig_row(
                    rows,
                    k,
                    chain_rows_upto(vi.traces@[k].x@, i).len() + j,
                );
                &&& row.chain_idx@ == i
                &&& row.is_x_i@ == if j == 0 {
                    1int
                } else {
                    0int
                }
                &&& row.perm.input@ == vi.traces@[k].chains_at(i).steps@[j].input@
                &&& row.perm.ff_prefix(HASH_FE_LEN as int) == vi.traces@[k].chains_at(
                    i,
                ).steps@[j].ff_prefix(HASH_FE_LEN as int)
            },
        chain::sig_row(
            rows,
            k,
            chain_rows_upto(vi.traces@[k].x@, i).len() + (MAX_X - vi.traces@[k].x@[i]) - 1,
        ).perm.ff_prefix(HASH_FE_LEN as int) == vi.traces@[k].chain_end(i),
{
    let vt = &vi.traces@[k];
    let x = vt.x@;
    assert(vt.wf(vi.epoch as int, encoded_msg_spec(vi.msg@)));
    assert forall|c: int| 0 <= c < NUM_CHUNKS implies #[trigger] x[c] <= MAX_X by {
        crate::chip::lemma_wf_gives_chain_input(vi, k);
    }
    let base = chain_rows_upto(x, i).len() as int;
    assert forall|j: int| 0 <= j < MAX_X - x[i] implies {
        let row = #[trigger] chain::sig_row(rows, k, base + j);
        &&& row.chain_idx@ == i
        &&& row.is_x_i@ == if j == 0 {
            1int
        } else {
            0int
        }
        &&& row.perm.input@ == vt.chains_at(i).steps@[j].input@
        &&& row.perm.ff_prefix(HASH_FE_LEN as int) == vt.chains_at(i).steps@[j].ff_prefix(
            HASH_FE_LEN as int,
        )
    } by {
        lemma_chain_row_coords(x, i, j);
        let row = chain::sig_row(rows, k, base + j);
        assert(row.is_chain_row(vt, k, base + j));
        assert(row.perm.ff_prefix(HASH_FE_LEN as int) =~= vt.chains_at(i).steps@[j].ff_prefix(
            HASH_FE_LEN as int,
        ));
    }
    let lastj = MAX_X as int - x[i] - 1;
    assert(chain::sig_row(rows, k, base + lastj).perm.ff_prefix(HASH_FE_LEN as int)
        == vt.chains_at(i).steps@[lastj].ff_prefix(HASH_FE_LEN as int));
    assert(chain::sig_row(rows, k, base + lastj) == chain::sig_row(
        rows,
        k,
        chain_rows_upto(x, i).len() + (MAX_X - x[i]) - 1,
    ));
    assert(vt.chain_end(i) == vt.chains_at(i).steps@.last().ff_prefix(HASH_FE_LEN as int));
    assert(vt.chains_at(i).steps@.len() == MAX_X - x[i]);
    assert(vt.chains_at(i).steps@.last() == vt.chains_at(i).steps@[lastj]);
}

/// The row coordinates of one chain block, shared by the law above.
proof fn lemma_chain_row_coords(x: Seq<u16>, i: int, j: int)
    requires
        x.len() == NUM_CHUNKS,
        forall|c: int| 0 <= c < NUM_CHUNKS ==> #[trigger] x[c] <= MAX_X,
        xsum(x) == TARGET_SUM as int,
        0 <= i < NUM_CHUNKS,
        0 <= j < MAX_X - x[i],
        x[i] < MAX_X,
    ensures
        0 <= chain_rows_upto(x, i).len() + j < chain::NUM_ROWS_PER_SIG,
        chain_rows(x)[chain_rows_upto(x, i).len() + j] == (i, j),
{
    chain::lemma_chain_rows_total(x);
    chain::lemma_chain_rows_at(x, i, j);
}

/// The sum of `f` over `0..m`.
pub open spec fn rsum(f: spec_fn(int) -> int, m: int) -> int
    decreases m,
{
    if m <= 0 {
        0
    } else {
        rsum(f, m - 1) + f(m - 1)
    }
}

/// Summing a function that is nonzero only once per block — at a fixed
/// offset of each of `n` blocks — gives the per-block values' sum.
pub proof fn lemma_strided_sum(
    f: spec_fn(int) -> int,
    g: spec_fn(int) -> int,
    block: int,
    offset: int,
    n: int,
    m: int,
)
    requires
        block >= 1,
        0 <= offset < block,
        n >= 0,
        m >= block * n,
        forall|r: int|
            0 <= r < m ==> #[trigger] f(r) == (
            if r < block * n && r % block == offset {
                g(r / block)
            } else {
                0
            }),
    ensures
        rsum(f, m) == rsum(g, n),
    decreases m,
{
    if m > block * n {
        assert(f(m - 1) == 0);
        lemma_strided_sum(f, g, block, offset, n, m - 1);
    } else {
        assert(m == block * n);
        if n == 0 {
        } else {
            let m1 = block * (n - 1);
            assert(0 <= m1 && m1 + block == m && m1 < m) by (nonlinear_arith)
                requires
                    block >= 1,
                    n >= 1,
                    m == block * n,
                    m1 == block * (n - 1),
            ;
            lemma_block_tail_sum(f, g, block, offset, n, block);
            assert forall|r: int| 0 <= r < m1 implies #[trigger] f(r) == (
            if r < block * (n - 1) && r % block == offset {
                g(r / block)
            } else {
                0
            }) by {
                vstd::arithmetic::div_mod::lemma_fundamental_div_mod(r, block);
                vstd::arithmetic::div_mod::lemma_mod_bound(r, block);
                assert(r / block < n - 1) by (nonlinear_arith)
                    requires
                        block >= 1,
                        r == block * (r / block) + r % block,
                        0 <= r % block < block,
                        r < block * (n - 1),
                ;
                assert(r < block * n) by (nonlinear_arith)
                    requires
                        block >= 1,
                        n >= 1,
                        r < block * (n - 1),
                ;
            }
            lemma_strided_sum(f, g, block, offset, n - 1, m1);
            assert(rsum(f, m) == rsum(f, m1) + g(n - 1)) by {
                assert(rsum(f, m1 + block) == rsum(f, m1) + g(n - 1));
            }
        }
    }
}

/// The last block of a strided sum contributes exactly its value.
proof fn lemma_block_tail_sum(
    f: spec_fn(int) -> int,
    g: spec_fn(int) -> int,
    block: int,
    offset: int,
    n: int,
    d: int,
)
    requires
        block >= 1,
        0 <= offset < block,
        n >= 1,
        0 <= d <= block,
        forall|r: int|
            0 <= r < block * n ==> #[trigger] f(r) == (
            if r < block * n && r % block == offset {
                g(r / block)
            } else {
                0
            }),
    ensures
        rsum(f, block * (n - 1) + d) == rsum(f, block * (n - 1)) + (if d > offset {
            g(n - 1)
        } else {
            0
        }),
    decreases d,
{
    if d > 0 {
        lemma_block_tail_sum(f, g, block, offset, n, d - 1);
        let r = block * (n - 1) + d - 1;
        assert(0 <= r < block * n) by (nonlinear_arith)
            requires
                block >= 1,
                n >= 1,
                0 < d <= block,
                r == block * (n - 1) + d - 1,
        ;
        assert(r % block == d - 1 && r / block == n - 1) by {
            vstd::arithmetic::div_mod::lemma_fundamental_div_mod_converse(
                r,
                block,
                n - 1,
                d - 1,
            );
        }
        assert(f(r) == if d - 1 == offset {
            g(n - 1)
        } else {
            0
        });
        assert(rsum(f, r + 1) == rsum(f, r) + f(r));
    }
}

/// A generated trace with any number of extra padding rows: what a larger
/// explicit capacity produces.  Every law below is stated over this relaxed
/// shape, so padding beyond the minimum height changes nothing.
pub open spec fn main_trace_padded(traces: Seq<VerificationTrace>, rows: Seq<MainCols>) -> bool {
    &&& rows.len() >= traces.len()
    &&& forall|r: int|
        0 <= r < traces.len() ==> (#[trigger] rows[r]).is_sig_row(&traces[r], r)
    &&& forall|r: int| traces.len() <= r < rows.len() ==> (#[trigger] rows[r]).is_padding_row(r)
}

pub open spec fn chain_trace_padded(traces: Seq<VerificationTrace>, rows: Seq<ChainCols>) -> bool {
    &&& rows.len() >= chain::NUM_ROWS_PER_SIG as int * traces.len()
    &&& forall|k: int, r: int|
        0 <= k < traces.len() && 0 <= r < chain::NUM_ROWS_PER_SIG ==> (#[trigger] chain::sig_row(
            rows,
            k,
            r,
        )).is_chain_row(&traces[k], k, r)
    &&& forall|q: int|
        chain::NUM_ROWS_PER_SIG as int * traces.len() <= q < rows.len() ==> (
        #[trigger] rows[q]).is_padding_row()
}

pub open spec fn decomposition_trace_padded(
    traces: Seq<VerificationTrace>,
    rows: Seq<DecompositionCols>,
) -> bool {
    &&& rows.len() >= decomposition::NUM_ROWS_PER_SIG as int * traces.len()
    &&& forall|k: int, s: int|
        0 <= k < traces.len() && 0 <= s < MSG_HASH_FE_LEN ==> (#[trigger] decomposition::sig_row(
            rows,
            k,
            s,
        )).is_acc_row(&traces[k], k, s)
    &&& forall|k: int, s: int|
        0 <= k < traces.len() && 0 <= s < NUM_MSG_HASH_LIMBS ==> (
        #[trigger] decomposition::sig_row(
            rows,
            k,
            MSG_HASH_FE_LEN as int + s,
        )).is_decomposition_row(&traces[k], k, s)
    &&& forall|q: int|
        decomposition::NUM_ROWS_PER_SIG as int * traces.len() <= q < rows.len() ==> (
        #[trigger] rows[q]).is_padding_row()
}

/// A minimal generated trace is a padded one.
pub proof fn lemma_main_trace_padded(traces: Seq<VerificationTrace>, rows: Seq<MainCols>)
    requires
        crate::main_table::main_trace_is(traces, rows),
    ensures
        main_trace_padded(traces, rows),
{
    crate::util::lemma_next_pow2_ge(1, traces.len() as int);
}

pub proof fn lemma_chain_trace_padded(traces: Seq<VerificationTrace>, rows: Seq<ChainCols>)
    requires
        chain::chain_trace_is(traces, rows),
    ensures
        chain_trace_padded(traces, rows),
{
    crate::util::lemma_next_pow2_ge(1, chain::NUM_ROWS_PER_SIG as int * traces.len() as int);
}

pub proof fn lemma_decomposition_trace_padded(
    traces: Seq<VerificationTrace>,
    rows: Seq<DecompositionCols>,
)
    requires
        decomposition::decomposition_trace_is(traces, rows),
    ensures
        decomposition_trace_padded(traces, rows),
{
    crate::util::lemma_next_pow2_ge(
        1,
        decomposition::NUM_ROWS_PER_SIG as int * traces.len() as int,
    );
}

/// Padding-row fixed point: appending one more padding row to a padded
/// trace leaves it a padded trace, so every law over padded traces is
/// unchanged by extra height.
pub proof fn lemma_main_padding_extension(
    traces: Seq<VerificationTrace>,
    rows: Seq<MainCols>,
    p: MainCols,
)
    requires
        main_trace_padded(traces, rows),
        p.is_padding_row(rows.len() as int),
    ensures
        main_trace_padded(traces, rows.push(p)),
{
    assert forall|r: int| 0 <= r < traces.len() implies (#[trigger] rows.push(p)[r]).is_sig_row(
        &traces[r],
        r,
    ) by {
        assert(rows.push(p)[r] == rows[r]);
    }
}

pub proof fn lemma_chain_padding_extension(
    traces: Seq<VerificationTrace>,
    rows: Seq<ChainCols>,
    p: ChainCols,
)
    requires
        chain_trace_padded(traces, rows),
        p.is_padding_row(),
    ensures
        chain_trace_padded(traces, rows.push(p)),
{
    assert forall|k: int, r: int|
        0 <= k < traces.len() && 0 <= r < chain::NUM_ROWS_PER_SIG implies (
    #[trigger] chain::sig_row(rows.push(p), k, r)).is_chain_row(&traces[k], k, r) by {
        assert(k * chain::NUM_ROWS_PER_SIG + r < chain::NUM_ROWS_PER_SIG as int * traces.len());
        assert(chain::sig_row(rows.push(p), k, r) == chain::sig_row(rows, k, r));
    }
}

/// The multiplicity the main table sends the parameter channel with.
pub open spec fn main_param_mult(rows: Seq<MainCols>, r: int) -> int {
    rows[r].is_active@
}

/// The multiplicity the chain table receives the parameter channel with:
/// active rows at the last step of a signature's cycle.
pub open spec fn chain_param_mult(rows: Seq<ChainCols>, r: int) -> int {
    if rows[r].is_active@ == 1 && rows[r].sig_step.at_last() == 1 {
        1
    } else {
        0
    }
}

/// The tuple the chain table receives the parameter channel with: the
/// signature index and the parameter lanes of the compression input.
pub open spec fn chain_param_tuple(rows: Seq<ChainCols>, r: int) -> Seq<int> {
    seq![rows[r].sig_idx@] + fe(rows[r].perm.input@).subrange(
        HASH_FE_LEN as int,
        HASH_FE_LEN as int + 5,
    )
}

/// The canonical parameter tuple of signature `k`.
pub open spec fn param_tuple_of(traces: Seq<VerificationTrace>, k: int) -> Seq<int> {
    seq![k] + fe(traces[k].pk.parameter@)
}

/// The total multiplicity with which the main table sends tuple `t` on the
/// parameter channel.
pub open spec fn main_param_sum(main_rows: Seq<MainCols>, t: Seq<int>) -> int {
    rsum(
        |r: int|
            if main_rows[r].send_parameter_tuple() == t {
                main_param_mult(main_rows, r)
            } else {
                0
            },
        main_rows.len() as int,
    )
}

/// The total multiplicity with which the chain table receives tuple `t` on
/// the parameter channel.
pub open spec fn chain_param_sum(chain_rows_s: Seq<ChainCols>, t: Seq<int>) -> int {
    rsum(
        |r: int|
            if chain_param_tuple(chain_rows_s, r) == t {
                chain_param_mult(chain_rows_s, r)
            } else {
                0
            },
        chain_rows_s.len() as int,
    )
}

/// Bus balance on the parameter channel: for every tuple, the total
/// multiplicity the main table sends equals the total multiplicity the
/// chain table receives — both are one per signature, on the signature's
/// own tuple.
pub proof fn lemma_bus_balance_parameter(
    vi: &VerificationInput,
    main_rows: Seq<MainCols>,
    chain_rows_s: Seq<ChainCols>,
)
    requires
        vi.wf(),
        main_trace_padded(vi.traces@, main_rows),
        chain_trace_padded(vi.traces@, chain_rows_s),
    ensures
        forall|t: Seq<int>| #[trigger] main_param_sum(main_rows, t) == chain_param_sum(
            chain_rows_s,
            t,
        ),
{
    let traces = vi.traces@;
    let n = traces.len() as int;
    assert forall|t: Seq<int>| #[trigger] main_param_sum(main_rows, t) == chain_param_sum(
        chain_rows_s,
        t,
    ) by {
        let g = |k: int|
            if param_tuple_of(traces, k) == t {
                1int
            } else {
                0int
            };
        let fm = |r: int|
            if main_rows[r].send_parameter_tuple() == t {
                main_param_mult(main_rows, r)
            } else {
                0
            };
        let fc = |r: int|
            if chain_param_tuple(chain_rows_s, r) == t {
                chain_param_mult(chain_rows_s, r)
            } else {
                0
            };
        assert forall|r: int| 0 <= r < main_rows.len() implies #[trigger] fm(r) == (
        if r < 1 * n && r % 1 == 0 {
            g(r / 1)
        } else {
            0
        }) by {
            vstd::arithmetic::div_mod::lemma_div_basics(r);
            vstd::arithmetic::div_mod::lemma_small_mod(0nat, 1nat);
            assert(r % 1 == 0) by (nonlinear_arith);
            if r < n {
                assert(main_rows[r].is_sig_row(&traces[r], r));
                assert(main_rows[r].send_parameter_tuple() =~= param_tuple_of(traces, r));
            } else {
                assert(main_rows[r].is_padding_row(r));
            }
        }
        lemma_strided_sum(fm, g, 1, 0, n, main_rows.len() as int);
        assert forall|r: int| 0 <= r < chain_rows_s.len() implies #[trigger] fc(r) == (
        if r < chain::NUM_ROWS_PER_SIG as int * n && r % (chain::NUM_ROWS_PER_SIG as int) == (
        chain::NUM_ROWS_PER_SIG as int - 1) {
            g(r / (chain::NUM_ROWS_PER_SIG as int))
        } else {
            0
        }) by {
            let b = chain::NUM_ROWS_PER_SIG as int;
            if r < b * n {
                let k = r / b;
                let r2 = r % b;
                vstd::arithmetic::div_mod::lemma_fundamental_div_mod(r, b);
                vstd::arithmetic::div_mod::lemma_mod_bound(r, b);
                assert(0 <= k < n) by (nonlinear_arith)
                    requires
                        r == b * k + r2,
                        0 <= r2 < b,
                        0 <= r < b * n,
                        b >= 1,
                ;
                assert(chain::sig_row(chain_rows_s, k, r2).is_chain_row(&traces[k], k, r2));
                assert(chain_rows_s[r] == chain::sig_row(chain_rows_s, k, r2));
                let row = chain_rows_s[r];
                lemma_chain_param_row(vi, k, r2, &row);
                if r2 == b - 1 {
                    assert(fc(r) == g(k));
                } else {
                    assert(fc(r) == 0);
                }
            } else {
                assert(chain_rows_s[r].is_padding_row());
                assert(chain_param_mult(chain_rows_s, r) == 0);
            }
        }
        lemma_strided_sum(
            fc,
            g,
            chain::NUM_ROWS_PER_SIG as int,
            chain::NUM_ROWS_PER_SIG as int - 1,
            n,
            chain_rows_s.len() as int,
        );
    }
}

/// What one generated chain row contributes to the parameter channel: the
/// last row of a signature's cycle receives the signature's parameter
/// tuple; every other row receives nothing.
#[verifier::rlimit(100)]
proof fn lemma_chain_param_row(vi: &VerificationInput, k: int, r2: int, row: &ChainCols)
    requires
        vi.wf(),
        0 <= k < vi.traces@.len(),
        0 <= r2 < chain::NUM_ROWS_PER_SIG,
        row.is_chain_row(&vi.traces@[k], k, r2),
    ensures
        row.sig_idx@ == k,
        row.sig_step.at_last() == if r2 == chain::NUM_ROWS_PER_SIG as int - 1 {
            1int
        } else {
            0int
        },
        row.is_active@ == 1,
        seq![row.sig_idx@] + fe(row.perm.input@).subrange(HASH_FE_LEN as int, HASH_FE_LEN as int + 5)
            == seq![k] + fe(vi.traces@[k].pk.parameter@),
{
    let vt = &vi.traces@[k];
    let x = vt.x@;
    assert(vt.wf(vi.epoch as int, encoded_msg_spec(vi.msg@)));
    assert(vt.wf_shape() && vt.wf_chains(vi.epoch as int));
    crate::chip::lemma_wf_gives_chain_input(vi, k);
    chain::lemma_chain_rows_total(x);
    if r2 != chain::NUM_ROWS_PER_SIG as int - 1 {
        crate::gadget::lemma_fsub_nonzero(r2, chain::NUM_ROWS_PER_SIG as int - 1);
    } else {
        crate::gadget::lemma_fsub_nonzero(0, 1);
        assert(crate::field::fsub(r2, chain::NUM_ROWS_PER_SIG as int - 1) == 0) by {
            vstd::arithmetic::div_mod::lemma_mod_add_multiples_vanish(0, crate::field::P as int);
            vstd::arithmetic::div_mod::lemma_small_mod(0nat, crate::field::P as nat);
        }
    }
    let i = chain_rows(x)[r2].0;
    let j = chain_rows(x)[r2].1;
    lemma_chain_coords_in_range(x, r2);
    assert(0 <= j < vt.chains_at(i).steps@.len());
    assert(vt.wf_chain_step(vi.epoch as int, i, j));
    assert(fe(row.perm.input@) == (if j == 0 {
        fe(vt.chains_at(i).revealed@)
    } else {
        vt.chains_at(i).steps@[j - 1].ff_prefix(HASH_FE_LEN as int)
    }) + fe(vt.pk.parameter@) + crate::hash_sig::tweak_chain_spec(
        vi.epoch as int,
        i,
        vt.x@[i] + j + 1,
    ) + seq![0int, 0int]);
    assert((if j == 0 {
        fe(vt.chains_at(i).revealed@)
    } else {
        vt.chains_at(i).steps@[j - 1].ff_prefix(HASH_FE_LEN as int)
    }).len() == HASH_FE_LEN);
    assert(fe(row.perm.input@).subrange(HASH_FE_LEN as int, HASH_FE_LEN as int + 5) =~= fe(
        vt.pk.parameter@,
    ));
    assert(seq![row.sig_idx@] + fe(vt.pk.parameter@) =~= seq![k] + fe(vt.pk.parameter@));
}

/// Every row coordinate of a full signature names a real chain and step.
proof fn lemma_chain_coords_in_range(x: Seq<u16>, r: int)
    requires
        x.len() == NUM_CHUNKS,
        forall|c: int| 0 <= c < NUM_CHUNKS ==> #[trigger] x[c] <= MAX_X,
        0 <= r < chain_rows(x).len(),
    ensures
        0 <= chain_rows(x)[r].0 < NUM_CHUNKS,
        0 <= chain_rows(x)[r].1 < MAX_X - x[chain_rows(x)[r].0],
{
    chain::lemma_chain_rows_range_pub(x, NUM_CHUNKS as int);
}

/// The multiplicity the decomposition table receives the digest channel
/// with: the last accumulation row's indicator.
pub open spec fn decomposition_digest_mult(rows: Seq<DecompositionCols>, r: int) -> int {
    fe(rows[r].inds@)[MSG_HASH_FE_LEN as int - 1]
}

/// The tuple the decomposition table receives the digest channel with: the
/// signature index and the digest elements, most-significant first.
pub open spec fn decomposition_digest_tuple(rows: Seq<DecompositionCols>, r: int) -> Seq<int> {
    seq![rows[r].sig_idx@] + fe(rows[r].values@)
}

/// The total multiplicity with which the main table sends tuple `t` on the
/// digest channel.
pub open spec fn main_digest_sum(main_rows: Seq<MainCols>, t: Seq<int>) -> int {
    rsum(
        |r: int|
            if main_rows[r].send_decomposition_tuple() == t {
                main_param_mult(main_rows, r)
            } else {
                0
            },
        main_rows.len() as int,
    )
}

/// The total multiplicity with which the decomposition table receives tuple
/// `t` on the digest channel.
pub open spec fn decomposition_digest_sum(rows: Seq<DecompositionCols>, t: Seq<int>) -> int {
    rsum(
        |r: int|
            if decomposition_digest_tuple(rows, r) == t {
                decomposition_digest_mult(rows, r)
            } else {
                0
            },
        rows.len() as int,
    )
}

/// Bus balance on the digest channel: the main table sends each signature's
/// reversed digest once; the decomposition table receives it once, on the
/// row that finishes the accumulation.
pub proof fn lemma_bus_balance_decomposition(
    vi: &VerificationInput,
    main_rows: Seq<MainCols>,
    dec_rows: Seq<DecompositionCols>,
)
    requires
        vi.wf(),
        main_trace_padded(vi.traces@, main_rows),
        decomposition_trace_padded(vi.traces@, dec_rows),
    ensures
        forall|t: Seq<int>| #[trigger] main_digest_sum(main_rows, t) == decomposition_digest_sum(
            dec_rows,
            t,
        ),
{
    let traces = vi.traces@;
    let n = traces.len() as int;
    assert forall|t: Seq<int>| #[trigger] main_digest_sum(main_rows, t)
        == decomposition_digest_sum(dec_rows, t) by {
        let g = |k: int|
            if seq![k] + fe(traces[k].msg_hash@).reverse() == t {
                1int
            } else {
                0int
            };
        let fm = |r: int|
            if main_rows[r].send_decomposition_tuple() == t {
                main_param_mult(main_rows, r)
            } else {
                0
            };
        let fd = |r: int|
            if decomposition_digest_tuple(dec_rows, r) == t {
                decomposition_digest_mult(dec_rows, r)
            } else {
                0
            };
        assert forall|r: int| 0 <= r < main_rows.len() implies #[trigger] fm(r) == (
        if r < 1 * n && r % 1 == 0 {
            g(r / 1)
        } else {
            0
        }) by {
            vstd::arithmetic::div_mod::lemma_div_basics(r);
            assert(r % 1 == 0) by (nonlinear_arith);
            if r < n {
                assert(main_rows[r].is_sig_row(&traces[r], r));
                assert(main_rows[r].send_decomposition_tuple() =~= seq![r] + fe(
                    traces[r].msg_hash@,
                ).reverse());
            } else {
                assert(main_rows[r].is_padding_row(r));
            }
        }
        lemma_strided_sum(fm, g, 1, 0, n, main_rows.len() as int);
        let b = decomposition::NUM_ROWS_PER_SIG as int;
        assert forall|r: int| 0 <= r < dec_rows.len() implies #[trigger] fd(r) == (
        if r < b * n && r % b == MSG_HASH_FE_LEN as int - 1 {
            g(r / b)
        } else {
            0
        }) by {
            if r < b * n {
                let k = r / b;
                let r2 = r % b;
                vstd::arithmetic::div_mod::lemma_fundamental_div_mod(r, b);
                vstd::arithmetic::div_mod::lemma_mod_bound(r, b);
                assert(0 <= k < n) by (nonlinear_arith)
                    requires
                        r == b * k + r2,
                        0 <= r2 < b,
                        0 <= r < b * n,
                        b >= 1,
                ;
                assert(dec_rows[r] == decomposition::sig_row(dec_rows, k, r2));
                if r2 < MSG_HASH_FE_LEN {
                    assert(decomposition::sig_row(dec_rows, k, r2).is_acc_row(&traces[k], k, r2));
                    assert(decomposition_digest_mult(dec_rows, r) == (
                    if r2 == MSG_HASH_FE_LEN as int - 1 {
                        1int
                    } else {
                        0int
                    }));
                    if r2 == MSG_HASH_FE_LEN as int - 1 {
                        assert(decomposition_digest_tuple(dec_rows, r) =~= seq![k] + fe(
                            traces[k].msg_hash@,
                        ).reverse());
                    }
                } else {
                    assert(decomposition::sig_row(
                        dec_rows,
                        k,
                        MSG_HASH_FE_LEN as int + (r2 - MSG_HASH_FE_LEN as int),
                    ).is_decomposition_row(&traces[k], k, r2 - MSG_HASH_FE_LEN as int));
                    assert(decomposition_digest_mult(dec_rows, r) == 0) by {
                        assert(fe(dec_rows[r].inds@) == decomposition::one_hot(
                            MSG_HASH_FE_LEN as int + (r2 - MSG_HASH_FE_LEN as int),
                        ));
                    }
                }
            } else {
                assert(dec_rows[r].is_padding_row());
                assert(decomposition_digest_mult(dec_rows, r) == 0);
            }
        }
        lemma_strided_sum(fd, g, b, MSG_HASH_FE_LEN as int - 1, n, dec_rows.len() as int);
    }
}

/// The Merkle tree trace with any number of extra padding rows.
pub open spec fn merkle_trace_padded(
    traces: Seq<VerificationTrace>,
    epoch: int,
    rows: Seq<MerkleTreeCols>,
) -> bool {
    &&& rows.len() >= merkle_tree::NUM_ROWS_PER_SIG as int * traces.len()
    &&& forall|k: int, s: int|
        0 <= k < traces.len() && 0 <= s < crate::hash_sig::SPONGE_PERM ==> (
        #[trigger] merkle_tree::sig_row(rows, k, s)).is_leaf_row(&traces[k], epoch, k, s)
    &&& forall|k: int, l: int|
        0 <= k < traces.len() && 0 <= l < crate::hash_sig::LOG_LIFETIME ==> (
        #[trigger] merkle_tree::sig_row(
            rows,
            k,
            crate::hash_sig::SPONGE_PERM as int + l,
        )).is_path_row(&traces[k], epoch, k, l)
    &&& forall|k: int|
        0 <= k < traces.len() ==> (#[trigger] merkle_tree::sig_row(
            rows,
            k,
            crate::hash_sig::SPONGE_PERM as int + crate::hash_sig::LOG_LIFETIME as int,
        )).is_msg_row(&traces[k], k)
    &&& forall|q: int|
        merkle_tree::NUM_ROWS_PER_SIG as int * traces.len() <= q < rows.len() ==> (
        #[trigger] rows[q]).is_padding_row()
}

pub proof fn lemma_merkle_trace_padded(
    traces: Seq<VerificationTrace>,
    epoch: int,
    rows: Seq<MerkleTreeCols>,
)
    requires
        merkle_tree::merkle_trace_is(traces, epoch, rows),
    ensures
        merkle_trace_padded(traces, epoch, rows),
{
    crate::util::lemma_next_pow2_ge(
        1,
        merkle_tree::NUM_ROWS_PER_SIG as int * traces.len() as int,
    );
}

/// The multiplicity the Merkle table receives the root-and-digest channel
/// with: one on the last path row of each signature.
pub open spec fn merkle_root_mult(rows: Seq<MerkleTreeCols>, r: int) -> int {
    rows[r].is_merkle_path@ - rows[r].is_merkle_path_transition@
}

/// The tuple the Merkle table receives the root-and-digest channel with:
/// the signature index, the parameter, this row's compression output — the
/// recomputed root — and the digest the following message row computes.
pub open spec fn merkle_root_tuple(rows: Seq<MerkleTreeCols>, r: int) -> Seq<int> {
    let next = if r + 1 < rows.len() {
        rows[r + 1]
    } else {
        rows[0]
    };
    seq![rows[r].sig_idx@] + fe(rows[r].perm.input@).subrange(0, 5) + rows[r].perm.ff_prefix(
        HASH_FE_LEN as int,
    ) + next.perm.ff_prefix(MSG_HASH_FE_LEN as int)
}

/// The total multiplicity with which the main table sends tuple `t` on the
/// root-and-digest channel.
pub open spec fn main_root_sum(main_rows: Seq<MainCols>, t: Seq<int>) -> int {
    rsum(
        |r: int|
            if main_rows[r].send_msg_hash_tuple() == t {
                main_param_mult(main_rows, r)
            } else {
                0
            },
        main_rows.len() as int,
    )
}

/// The total multiplicity with which the Merkle table receives tuple `t` on
/// the root-and-digest channel.
pub open spec fn merkle_root_sum(rows: Seq<MerkleTreeCols>, t: Seq<int>) -> int {
    rsum(
        |r: int|
            if merkle_root_tuple(rows, r) == t {
                merkle_root_mult(rows, r)
            } else {
                0
            },
        rows.len() as int,
    )
}

/// Bus balance on the root-and-digest channel: the main table sends each
/// signature's (parameter, root, digest) once; the Merkle table receives it
/// once, on the last path row, the root it recomputed agreeing with the
/// public key's and the digest agreeing with the message row's.
pub proof fn lemma_bus_balance_merkle_root(
    vi: &VerificationInput,
    main_rows: Seq<MainCols>,
    mt_rows: Seq<MerkleTreeCols>,
)
    requires
        vi.wf(),
        main_trace_padded(vi.traces@, main_rows),
        merkle_trace_padded(vi.traces@, vi.epoch as int, mt_rows),
    ensures
        forall|t: Seq<int>| #[trigger] main_root_sum(main_rows, t) == merkle_root_sum(mt_rows, t),
{
    let traces = vi.traces@;
    let n = traces.len() as int;
    assert forall|t: Seq<int>| #[trigger] main_root_sum(main_rows, t) == merkle_root_sum(
        mt_rows,
        t,
    ) by {
        let g = |k: int|
            if seq![k] + fe(traces[k].pk.parameter@) + fe(traces[k].pk.merkle_root@) + fe(
                traces[k].msg_hash@,
            ) == t {
                1int
            } else {
                0int
            };
        let fm = |r: int|
            if main_rows[r].send_msg_hash_tuple() == t {
                main_param_mult(main_rows, r)
            } else {
                0
            };
        let fr = |r: int|
            if merkle_root_tuple(mt_rows, r) == t {
                merkle_root_mult(mt_rows, r)
            } else {
                0
            };
        assert forall|r: int| 0 <= r < main_rows.len() implies #[trigger] fm(r) == (
        if r < 1 * n && r % 1 == 0 {
            g(r / 1)
        } else {
            0
        }) by {
            vstd::arithmetic::div_mod::lemma_div_basics(r);
            assert(r % 1 == 0) by (nonlinear_arith);
            if r < n {
                assert(main_rows[r].is_sig_row(&traces[r], r));
                assert(main_rows[r].send_msg_hash_tuple() =~= seq![r] + fe(
                    traces[r].pk.parameter@,
                ) + fe(traces[r].pk.merkle_root@) + fe(traces[r].msg_hash@));
            } else {
                assert(main_rows[r].is_padding_row(r));
            }
        }
        lemma_strided_sum(fm, g, 1, 0, n, main_rows.len() as int);
        let b = merkle_tree::NUM_ROWS_PER_SIG as int;
        let off = crate::hash_sig::SPONGE_PERM as int + crate::hash_sig::LOG_LIFETIME as int - 1;
        assert forall|r: int| 0 <= r < mt_rows.len() implies #[trigger] fr(r) == (
        if r < b * n && r % b == off {
            g(r / b)
        } else {
            0
        }) by {
            if r < b * n {
                let k = r / b;
                let r2 = r % b;
                vstd::arithmetic::div_mod::lemma_fundamental_div_mod(r, b);
                vstd::arithmetic::div_mod::lemma_mod_bound(r, b);
                assert(0 <= k < n) by (nonlinear_arith)
                    requires
                        r == b * k + r2,
                        0 <= r2 < b,
                        0 <= r < b * n,
                        b >= 1,
                ;
                assert(mt_rows[r] == merkle_tree::sig_row(mt_rows, k, r2));
                lemma_merkle_root_row(vi, mt_rows, k, r2);
                if r2 == off {
                    assert(fr(r) == g(k));
                } else {
                    assert(fr(r) == 0);
                }
            } else {
                assert(mt_rows[r].is_padding_row());
                assert(merkle_root_mult(mt_rows, r) == 0);
            }
        }
        lemma_strided_sum(fr, g, b, off, n, mt_rows.len() as int);
    }
}

/// What one generated Merkle row contributes to the root-and-digest
/// channel: the last path row receives (index, parameter, recomputed root,
/// digest); every other row receives nothing.
#[verifier::rlimit(100)]
proof fn lemma_merkle_root_row(
    vi: &VerificationInput,
    mt_rows: Seq<MerkleTreeCols>,
    k: int,
    r2: int,
)
    requires
        vi.wf(),
        merkle_trace_padded(vi.traces@, vi.epoch as int, mt_rows),
        0 <= k < vi.traces@.len(),
        0 <= r2 < merkle_tree::NUM_ROWS_PER_SIG,
    ensures
        merkle_root_mult(mt_rows, k * merkle_tree::NUM_ROWS_PER_SIG as int + r2) == (
        if r2 == crate::hash_sig::SPONGE_PERM as int + crate::hash_sig::LOG_LIFETIME as int - 1 {
            1int
        } else {
            0int
        }),
        r2 == crate::hash_sig::SPONGE_PERM as int + crate::hash_sig::LOG_LIFETIME as int - 1
            ==> merkle_root_tuple(mt_rows, k * merkle_tree::NUM_ROWS_PER_SIG as int + r2)
            == seq![k] + fe(vi.traces@[k].pk.parameter@) + fe(vi.traces@[k].pk.merkle_root@) + fe(
            vi.traces@[k].msg_hash@,
        ),
{
    let vt = &vi.traces@[k];
    let epoch = vi.epoch as int;
    let sp = crate::hash_sig::SPONGE_PERM as int;
    let ll = crate::hash_sig::LOG_LIFETIME as int;
    let r = k * merkle_tree::NUM_ROWS_PER_SIG as int + r2;
    assert(vt.wf(epoch, encoded_msg_spec(vi.msg@)));
    assert(mt_rows[r] == merkle_tree::sig_row(mt_rows, k, r2));
    if r2 < sp {
        assert(merkle_tree::sig_row(mt_rows, k, r2).is_leaf_row(vt, epoch, k, r2));
    } else if r2 < sp + ll {
        let l = r2 - sp;
        assert(merkle_tree::sig_row(mt_rows, k, sp + l).is_path_row(vt, epoch, k, l));
        if l == ll - 1 {
            // the next row is the signature's message row
            assert(r + 1 == k * merkle_tree::NUM_ROWS_PER_SIG as int + (sp + ll));
            assert(mt_rows[r + 1] == merkle_tree::sig_row(mt_rows, k, sp + ll));
            assert(merkle_tree::sig_row(mt_rows, k, sp + ll).is_msg_row(vt, k));
            assert(r + 1 < mt_rows.len()) by (nonlinear_arith)
                requires
                    r == k * merkle_tree::NUM_ROWS_PER_SIG as int + r2,
                    r2 + 1 < merkle_tree::NUM_ROWS_PER_SIG as int,
                    0 <= k < vi.traces@.len(),
                    mt_rows.len() >= merkle_tree::NUM_ROWS_PER_SIG as int * vi.traces@.len(),
            ;
            // parameter lanes of the path record
            assert(vt.wf_path(epoch));
            assert(fe(mt_rows[r].perm.input@) == fe(vt.pk.parameter@)
                + crate::hash_sig::tweak_tree_spec(
                ll,
                VerificationTrace::epoch_dec(epoch, ll),
            ) + vt.path_children(epoch, ll - 1) + seq![0int, 0int, 0int]);
            assert(vt.path_children(epoch, ll - 1).len() == 2 * HASH_FE_LEN) by {
                assert(vt.path_node(ll - 1).len() == HASH_FE_LEN);
            }
            assert(fe(mt_rows[r].perm.input@).subrange(0, 5) =~= fe(vt.pk.parameter@));
            // the recomputed root
            assert(mt_rows[r].perm.ff_prefix(HASH_FE_LEN as int) =~= vt.path_perms@[ll
                - 1].ff_prefix(HASH_FE_LEN as int));
            assert(vt.path_node(ll) == fe(vt.pk.merkle_root@));
            // the digest from the message row
            assert(vt.wf_msg(epoch, encoded_msg_spec(vi.msg@)));
            assert(mt_rows[r + 1].perm.ff_prefix(MSG_HASH_FE_LEN as int) =~= vt.msg_perm.ff_prefix(
                MSG_HASH_FE_LEN as int,
            ));
            assert(merkle_root_tuple(mt_rows, r) =~= seq![k] + fe(vt.pk.parameter@) + fe(
                vt.pk.merkle_root@,
            ) + fe(vt.msg_hash@));
        }
    } else {
        assert(merkle_tree::sig_row(mt_rows, k, sp + ll).is_msg_row(vt, k));
        assert(r2 == sp + ll);
    }
}

/// Sums split at any point: the tail is the sum of the shifted function.
pub proof fn lemma_rsum_split(f: spec_fn(int) -> int, a: int, b: int)
    requires
        a >= 0,
        b >= 0,
    ensures
        rsum(f, a + b) == rsum(f, a) + rsum(|d: int| f(a + d), b),
    decreases b,
{
    if b > 0 {
        lemma_rsum_split(f, a, b - 1);
        let g = |d: int| f(a + d);
        assert(rsum(g, b) == rsum(g, b - 1) + g(b - 1));
        assert(g(b - 1) == f(a + b - 1));
    }
}

/// Two pointwise-equal functions sum alike.
pub proof fn lemma_rsum_congruence(f: spec_fn(int) -> int, g: spec_fn(int) -> int, m: int)
    requires
        forall|r: int| 0 <= r < m ==> #[trigger] f(r) == g(r),
    ensures
        rsum(f, m) == rsum(g, m),
    decreases m,
{
    if m > 0 {
        lemma_rsum_congruence(f, g, m - 1);
    }
}

/// A sum over `n` equal blocks is the sum of the per-block subtotals.
pub proof fn lemma_rsum_blocks(f: spec_fn(int) -> int, block: int, n: int)
    requires
        block >= 1,
        n >= 0,
    ensures
        rsum(f, block * n) == rsum(|k: int| rsum(|d: int| f(block * k + d), block), n),
    decreases n,
{
    let h = |k: int| rsum(|d: int| f(block * k + d), block);
    if n == 0 {
        assert(block * n == 0) by (nonlinear_arith)
            requires
                n == 0,
        ;
    } else {
        lemma_rsum_blocks(f, block, n - 1);
        let a = block * (n - 1);
        assert(a >= 0 && block * n == a + block) by (nonlinear_arith)
            requires
                block >= 1,
                n >= 1,
                a == block * (n - 1),
        ;
        lemma_rsum_split(f, a, block);
        assert(rsum(f, a) == rsum(h, n - 1));
        assert(rsum(f, a + block) == rsum(f, a) + rsum(|d: int| f(a + d), block));
        assert((|d: int| f(a + d)) =~= (|d: int| f(block * (n - 1) + d)));
        assert(h(n - 1) == rsum(|d: int| f(block * (n - 1) + d), block));
        assert(rsum(h, n) == rsum(h, n - 1) + h(n - 1));
        assert(rsum(f, block * n) == rsum(h, n));
    }
}

/// The multiplicity the decomposition table sends one range-check value
/// with, from one row: the count of that value among the row's limb cells,
/// on accumulation rows only.
pub open spec fn decomposition_range_row_mult(rows: Seq<DecompositionCols>, r: int, v: int) -> int {
    fe_occ(
        fe(rows[r].value_ls_limbs@) + fe(rows[r].acc_limbs@) + fe(rows[r].carries@),
        v,
    ) * is_acc_of(rows[r])
}

/// The accumulation-phase indicator of a row, as the constraint system
/// reads it: the sum of the first five row-kind indicator cells.
pub open spec fn is_acc_of(row: DecompositionCols) -> int {
    fe(row.inds@)[0] + fe(row.inds@)[1] + fe(row.inds@)[2] + fe(row.inds@)[3] + fe(row.inds@)[4]
}

/// How often a value occurs in a list of residues.
pub open spec fn fe_occ(s: Seq<int>, v: int) -> int {
    decomposition::occ(s, v)
}

/// The total multiplicity the decomposition table sends value `v` on the
/// range-check channel with.
pub open spec fn decomposition_range_sum(rows: Seq<DecompositionCols>, v: int) -> int {
    rsum(|r: int| decomposition_range_row_mult(rows, r, v), rows.len() as int)
}

/// Bus balance on the range-check channel: the total multiplicity the
/// decomposition table asserts each limb value with equals the multiplicity
/// the range-check table receives it with — the accumulated counter.
pub proof fn lemma_bus_balance_range_check(
    vi: &VerificationInput,
    dec_rows: Seq<DecompositionCols>,
    counts: Seq<u32>,
)
    requires
        vi.wf(),
        decomposition::decomposition_trace_is(vi.traces@, dec_rows),
        counts.len() == crate::range_check::RANGE_CHECK_HEIGHT,
        forall|w: int|
            0 <= w < crate::range_check::RANGE_CHECK_HEIGHT ==> #[trigger] counts[w]
                == decomposition::occ(
                decomposition::batch_limb_list(vi.traces@, vi.traces@.len() as int),
                w,
            ),
    ensures
        forall|v: int|
            0 <= v < crate::range_check::RANGE_CHECK_HEIGHT ==> #[trigger] decomposition_range_sum(
                dec_rows,
                v,
            ) == counts[v],
{
    let traces = vi.traces@;
    let n = traces.len() as int;
    let b = decomposition::NUM_ROWS_PER_SIG as int;
    crate::util::lemma_next_pow2_ge(1, b * n);
    assert forall|v: int|
        0 <= v < crate::range_check::RANGE_CHECK_HEIGHT implies #[trigger] decomposition_range_sum(
        dec_rows,
        v,
    ) == counts[v] by {
        let f = |r: int| decomposition_range_row_mult(dec_rows, r, v);
        // the padding tail contributes nothing
        assert forall|r: int| b * n <= r < dec_rows.len() implies #[trigger] f(r) == 0 by {
            assert(dec_rows[r].is_padding_row());
            assert(is_acc_of(dec_rows[r]) == 0);
            assert(f(r) == fe_occ(
                fe(dec_rows[r].value_ls_limbs@) + fe(dec_rows[r].acc_limbs@) + fe(
                    dec_rows[r].carries@,
                ),
                v,
            ) * 0);
            assert(f(r) == 0) by (nonlinear_arith)
                requires
                    f(r) == fe_occ(
                        fe(dec_rows[r].value_ls_limbs@) + fe(dec_rows[r].acc_limbs@) + fe(
                            dec_rows[r].carries@,
                        ),
                        v,
                    ) * 0,
            ;
        }
        lemma_rsum_tail_zero(f, b * n, dec_rows.len() as int);
        lemma_rsum_blocks(f, b, n);
        let h = |k: int| rsum(|d: int| f(b * k + d), b);
        assert forall|k: int| 0 <= k < n implies #[trigger] h(k) == decomposition::occ(
            decomposition::sig_limb_list(decomposition::mh_of(&traces[k]), MSG_HASH_FE_LEN as int),
            v,
        ) by {
            lemma_sig_block_range_sum(vi, dec_rows, k, v);
            assert((|d: int| f(b * k + d)) =~= (|d: int|
                decomposition_range_row_mult(dec_rows, b * k + d, v)));
            assert(h(k) == rsum(|d: int| f(b * k + d), b));
        }
        lemma_rsum_congruence(
            h,
            |k: int|
                decomposition::occ(
                    decomposition::sig_limb_list(
                        decomposition::mh_of(&traces[k]),
                        MSG_HASH_FE_LEN as int,
                    ),
                    v,
                ),
            n,
        );
        lemma_batch_occ_split(traces, n, v);
    }
}

/// A sum whose tail vanishes equals its head.
proof fn lemma_rsum_tail_zero(f: spec_fn(int) -> int, a: int, m: int)
    requires
        0 <= a <= m,
        forall|r: int| a <= r < m ==> #[trigger] f(r) == 0,
    ensures
        rsum(f, m) == rsum(f, a),
    decreases m - a,
{
    if m > a {
        lemma_rsum_tail_zero(f, a, m - 1);
    }
}

/// One signature's block of the decomposition trace asserts exactly the
/// signature's limb list on the range-check channel.
#[verifier::rlimit(100)]
proof fn lemma_sig_block_range_sum(
    vi: &VerificationInput,
    dec_rows: Seq<DecompositionCols>,
    k: int,
    v: int,
)
    requires
        vi.wf(),
        decomposition::decomposition_trace_is(vi.traces@, dec_rows),
        0 <= k < vi.traces@.len(),
    ensures
        rsum(
            |d: int|
                decomposition_range_row_mult(
                    dec_rows,
                    decomposition::NUM_ROWS_PER_SIG as int * k + d,
                    v,
                ),
            decomposition::NUM_ROWS_PER_SIG as int,
        ) == decomposition::occ(
            decomposition::sig_limb_list(
                decomposition::mh_of(&vi.traces@[k]),
                MSG_HASH_FE_LEN as int,
            ),
            v,
        ),
{
    let traces = vi.traces@;
    let b = decomposition::NUM_ROWS_PER_SIG as int;
    let mh = decomposition::mh_of(&traces[k]);
    let f = |d: int| decomposition_range_row_mult(dec_rows, b * k + d, v);
    // accumulation rows contribute their limb list; decomposition rows
    // contribute nothing
    assert forall|d: int| 0 <= d < b implies #[trigger] f(d) == (
    if d < MSG_HASH_FE_LEN {
        decomposition::occ(decomposition::row_limb_list(mh, d), v)
    } else {
        0
    }) by {
        crate::util::lemma_next_pow2_ge(1, b * traces.len() as int);
        assert(b * k + d < b * traces.len()) by (nonlinear_arith)
            requires
                0 <= k < traces.len(),
                0 <= d < b,
        ;
        let row = dec_rows[b * k + d];
        if d < MSG_HASH_FE_LEN {
            assert(decomposition::sig_row(dec_rows, k, d).is_acc_row(&traces[k], k, d));
            assert(row == decomposition::sig_row(dec_rows, k, d));
            assert(fe(row.inds@) == decomposition::one_hot(d));
            assert(is_acc_of(row) == 1);
            assert(fe(row.value_ls_limbs@) + fe(row.acc_limbs@) + fe(row.carries@)
                =~= decomposition::row_limb_list(mh, d));
            assert(f(d) == decomposition::occ(decomposition::row_limb_list(mh, d), v) * 1);
            assert(f(d) == decomposition::occ(decomposition::row_limb_list(mh, d), v))
                by (nonlinear_arith)
                requires
                    f(d) == decomposition::occ(decomposition::row_limb_list(mh, d), v) * 1,
            ;
        } else {
            assert(decomposition::sig_row(
                dec_rows,
                k,
                MSG_HASH_FE_LEN as int + (d - MSG_HASH_FE_LEN as int),
            ).is_decomposition_row(&traces[k], k, d - MSG_HASH_FE_LEN as int));
            assert(row == decomposition::sig_row(dec_rows, k, d));
            assert(fe(row.inds@) == decomposition::one_hot(MSG_HASH_FE_LEN as int + (d
                - MSG_HASH_FE_LEN as int)));
            assert(is_acc_of(row) == 0);
            assert(f(d) == fe_occ(
                fe(row.value_ls_limbs@) + fe(row.acc_limbs@) + fe(row.carries@),
                v,
            ) * 0);
            assert(f(d) == 0) by (nonlinear_arith)
                requires
                    f(d) == fe_occ(
                        fe(row.value_ls_limbs@) + fe(row.acc_limbs@) + fe(row.carries@),
                        v,
                    ) * 0,
            ;
        }
    }
    lemma_acc_prefix_range_sum(f, mh, v, MSG_HASH_FE_LEN as int);
    lemma_rsum_tail_zero(f, MSG_HASH_FE_LEN as int, b);
}

/// The first accumulation rows sum to the signature's limb-list prefix.
proof fn lemma_acc_prefix_range_sum(f: spec_fn(int) -> int, mh: Seq<int>, v: int, m: int)
    requires
        0 <= m <= MSG_HASH_FE_LEN,
        forall|d: int|
            0 <= d < m ==> #[trigger] f(d) == decomposition::occ(
                decomposition::row_limb_list(mh, d),
                v,
            ),
    ensures
        rsum(f, m) == decomposition::occ(decomposition::sig_limb_list(mh, m), v),
    decreases m,
{
    if m == 0 {
    } else {
        lemma_acc_prefix_range_sum(f, mh, v, m - 1);
        decomposition::lemma_occ_add(
            decomposition::sig_limb_list(mh, m - 1),
            decomposition::row_limb_list(mh, m - 1),
            v,
        );
    }
}

/// The batch limb list's occurrence counts split over the signatures.
proof fn lemma_batch_occ_split(traces: Seq<VerificationTrace>, n: int, v: int)
    requires
        0 <= n <= traces.len(),
    ensures
        rsum(
            |k: int|
                decomposition::occ(
                    decomposition::sig_limb_list(
                        decomposition::mh_of(&traces[k]),
                        MSG_HASH_FE_LEN as int,
                    ),
                    v,
                ),
            n,
        ) == decomposition::occ(decomposition::batch_limb_list(traces, n), v),
    decreases n,
{
    if n > 0 {
        lemma_batch_occ_split(traces, n - 1, v);
        decomposition::lemma_occ_add(
            decomposition::batch_limb_list(traces, n - 1),
            decomposition::sig_limb_list(
                decomposition::mh_of(&traces[n - 1]),
                MSG_HASH_FE_LEN as int,
            ),
            v,
        );
    }
}

/// A sum with at most one nonzero entry.
proof fn lemma_rsum_single(f: spec_fn(int) -> int, m: int, d0: int, val: int)
    requires
        0 <= d0 < m,
        forall|d: int|
            0 <= d < m ==> #[trigger] f(d) == (
            if d == d0 {
                val
            } else {
                0
            }),
    ensures
        rsum(f, m) == val,
    decreases m,
{
    if m - 1 > d0 {
        lemma_rsum_single(f, m - 1, d0, val);
    } else {
        lemma_rsum_zero(f, m - 1);
    }
}

/// A sum of zeros.
proof fn lemma_rsum_zero(f: spec_fn(int) -> int, m: int)
    requires
        forall|d: int| 0 <= d < m ==> #[trigger] f(d) == 0,
    ensures
        rsum(f, m) == 0,
    decreases m,
{
    if m > 0 {
        lemma_rsum_zero(f, m - 1);
    }
}

/// The chunk-position offset a decomposition row encodes: the sum of its
/// row-kind indicators weighted by their limb's first chunk.
pub open spec fn dec_chain_offset(row: DecompositionCols) -> int {
    let inds = fe(row.inds@);
    inds[5] * 0 + inds[6] * 6 + inds[7] * 12 + inds[8] * 18 + inds[9] * 24 + inds[10] * 30
        + inds[11] * 36 + inds[12] * 42 + inds[13] * 48 + inds[14] * 54 + inds[15] * 60 + inds[16]
        * 66 + inds[17] * 72
}

/// The chunk value slot `j` of a decomposition row recomposes from its bits.
pub open spec fn dec_chain_value(row: DecompositionCols, j: int) -> int {
    fe(row.decomposition_bits@)[2 * j] + 2 * fe(row.decomposition_bits@)[2 * j + 1]
}

/// The tuple slot `j` of a decomposition row sends on the chain channel.
pub open spec fn dec_chain_tuple(row: DecompositionCols, j: int) -> Seq<int> {
    seq![row.sig_idx@, dec_chain_offset(row) + j, dec_chain_value(row, j)]
}

/// What one decomposition row contributes to chain-channel tuple `t`: the
/// sum of its six send slots.
pub open spec fn dec_chain_row_mult(rows: Seq<DecompositionCols>, r: int, t: Seq<int>) -> int {
    slot_term(rows[r], 0, t) + slot_term(rows[r], 1, t) + slot_term(rows[r], 2, t) + slot_term(
        rows[r],
        3,
        t,
    ) + slot_term(rows[r], 4, t) + slot_term(rows[r], 5, t)
}

pub open spec fn slot_term(row: DecompositionCols, j: int, t: Seq<int>) -> int {
    if dec_chain_tuple(row, j) == t {
        fe(row.is_send_chain@)[j]
    } else {
        0
    }
}

/// What one chain row contributes to chain-channel tuple `t`.
pub open spec fn chain_recv_mult(rows: Seq<ChainCols>, r: int, t: Seq<int>) -> int {
    let row = rows[r];
    let tuple = seq![
        row.sig_idx@,
        row.chain_idx@,
        fe(row.chain_step_bits@)[0] + 2 * fe(row.chain_step_bits@)[1],
    ];
    if tuple == t && row.is_active@ == 1 && row.is_x_i@ == 1 {
        1
    } else {
        0
    }
}

/// The canonical chain-channel contribution of signature `k` to tuple `t`:
/// one, exactly on the tuples (k, chain, chunk) of the signature's chains
/// below the maximum chunk.
pub open spec fn chain_tuple_count(traces: Seq<VerificationTrace>, k: int, t: Seq<int>) -> int {
    if t.len() == 3 && t[0] == k && 0 <= t[1] < NUM_CHUNKS && t[2] == traces[k].x@[t[1]] as int
        && traces[k].x@[t[1]] < MAX_X {
        1
    } else {
        0
    }
}

/// The total multiplicity the decomposition table sends tuple `t` on the
/// chain channel with.
pub open spec fn dec_chain_sum(rows: Seq<DecompositionCols>, t: Seq<int>) -> int {
    rsum(|r: int| dec_chain_row_mult(rows, r, t), rows.len() as int)
}

/// The total multiplicity the chain table receives tuple `t` on the chain
/// channel with.
pub open spec fn chain_recv_sum(rows: Seq<ChainCols>, t: Seq<int>) -> int {
    rsum(|r: int| chain_recv_mult(rows, r, t), rows.len() as int)
}

/// Every row coordinate determines its position: the block structure is
/// injective.
proof fn lemma_chain_rows_inverse(x: Seq<u16>, i: int, d: int)
    requires
        x.len() == NUM_CHUNKS,
        forall|c: int| 0 <= c < NUM_CHUNKS ==> #[trigger] x[c] <= MAX_X,
        0 <= i <= NUM_CHUNKS,
        0 <= d < chain_rows_upto(x, i).len(),
    ensures
        d == chain_rows_upto(x, chain_rows_upto(x, i)[d].0).len() + chain_rows_upto(x, i)[d].1,
        chain_rows(x)[d] == chain_rows_upto(x, i)[d],
    decreases i,
{
    chain::lemma_chain_rows_prefix_pub(x, i, d);
    if i > 0 {
        let prev = chain_rows_upto(x, i - 1);
        if d < prev.len() {
            lemma_chain_rows_inverse(x, i - 1, d);
        } else {
            assert(chain_rows_upto(x, i)[d] == chain_block(x, i - 1)[d - prev.len()]);
        }
    }
}

/// Bus balance on the chain channel: for every tuple, the decomposition
/// table's sends — one per chunk below the maximum — equal the chain
/// table's receives — one per chain's first row.
pub proof fn lemma_bus_balance_chain(
    vi: &VerificationInput,
    dec_rows: Seq<DecompositionCols>,
    ch_rows: Seq<ChainCols>,
)
    requires
        vi.wf(),
        decomposition_trace_padded(vi.traces@, dec_rows),
        chain_trace_padded(vi.traces@, ch_rows),
    ensures
        forall|t: Seq<int>| #[trigger] dec_chain_sum(dec_rows, t) == chain_recv_sum(ch_rows, t),
{
    let traces = vi.traces@;
    let n = traces.len() as int;
    assert forall|t: Seq<int>| #[trigger] dec_chain_sum(dec_rows, t) == chain_recv_sum(
        ch_rows,
        t,
    ) by {
        let g = |k: int| chain_tuple_count(traces, k, t);
        // the sending side
        let fd = |r: int| dec_chain_row_mult(dec_rows, r, t);
        let bd = decomposition::NUM_ROWS_PER_SIG as int;
        assert forall|r: int| bd * n <= r < dec_rows.len() implies #[trigger] fd(r) == 0 by {
            assert(dec_rows[r].is_padding_row());
        }
        lemma_rsum_tail_zero(fd, bd * n, dec_rows.len() as int);
        lemma_rsum_blocks(fd, bd, n);
        let hd = |k: int| rsum(|d: int| fd(bd * k + d), bd);
        assert forall|k: int| 0 <= k < n implies #[trigger] hd(k) == g(k) by {
            lemma_dec_chain_block(vi, dec_rows, k, t);
            assert((|d: int| fd(bd * k + d)) =~= (|d: int|
                dec_chain_row_mult(dec_rows, bd * k + d, t)));
        }
        lemma_rsum_congruence(hd, g, n);
        // the receiving side
        let fc = |r: int| chain_recv_mult(ch_rows, r, t);
        let bc = chain::NUM_ROWS_PER_SIG as int;
        assert forall|r: int| bc * n <= r < ch_rows.len() implies #[trigger] fc(r) == 0 by {
            assert(ch_rows[r].is_padding_row());
        }
        lemma_rsum_tail_zero(fc, bc * n, ch_rows.len() as int);
        lemma_rsum_blocks(fc, bc, n);
        let hc = |k: int| rsum(|d: int| fc(bc * k + d), bc);
        assert forall|k: int| 0 <= k < n implies #[trigger] hc(k) == g(k) by {
            lemma_chain_recv_block(vi, ch_rows, k, t);
            assert((|d: int| fc(bc * k + d)) =~= (|d: int|
                chain_recv_mult(ch_rows, bc * k + d, t)));
        }
        lemma_rsum_congruence(hc, g, n);
    }
}

/// One signature's decomposition block sends each of its below-maximum
/// chunks exactly once on the chain channel.
#[verifier::rlimit(100)]
proof fn lemma_dec_chain_block(
    vi: &VerificationInput,
    dec_rows: Seq<DecompositionCols>,
    k: int,
    t: Seq<int>,
)
    requires
        vi.wf(),
        decomposition_trace_padded(vi.traces@, dec_rows),
        0 <= k < vi.traces@.len(),
    ensures
        rsum(
            |d: int| dec_chain_row_mult(dec_rows, decomposition::NUM_ROWS_PER_SIG as int * k + d, t),
            decomposition::NUM_ROWS_PER_SIG as int,
        ) == chain_tuple_count(vi.traces@, k, t),
{
    let traces = vi.traces@;
    let vt = &traces[k];
    let mh = decomposition::mh_of(vt);
    let b = decomposition::NUM_ROWS_PER_SIG as int;
    let f = |d: int| dec_chain_row_mult(dec_rows, b * k + d, t);
    assert(vt.wf(vi.epoch as int, encoded_msg_spec(vi.msg@)));
    crate::chip::lemma_wf_gives_chain_input(vi, k);
    // identify the shape of each row's contribution
    assert forall|d: int| 0 <= d < b implies #[trigger] f(d) == (
    if t.len() == 3 && t[0] == k && 0 <= t[1] < NUM_CHUNKS && d == MSG_HASH_FE_LEN as int + t[1]
        / 6 && t[2] == vt.x@[t[1]] as int && vt.x@[t[1]] < MAX_X {
        1int
    } else {
        0int
    }) by {
        assert(b * k + d < b * traces.len()) by (nonlinear_arith)
            requires
                0 <= k < traces.len(),
                0 <= d < b,
        ;
        let row = dec_rows[b * k + d];
        if d < MSG_HASH_FE_LEN {
            assert(decomposition::sig_row(dec_rows, k, d).is_acc_row(vt, k, d));
            assert(row == decomposition::sig_row(dec_rows, k, d));
            lemma_dec_chain_acc_row(row, t);
        } else {
            let s = d - MSG_HASH_FE_LEN as int;
            assert(decomposition::sig_row(
                dec_rows,
                k,
                MSG_HASH_FE_LEN as int + s,
            ).is_decomposition_row(vt, k, s));
            assert(row == decomposition::sig_row(dec_rows, k, d));
            lemma_dec_chain_dec_row(vi, k, s, row, t);
        }
    }
    if t.len() == 3 && t[0] == k && 0 <= t[1] < NUM_CHUNKS && t[2] == vt.x@[t[1]] as int
        && vt.x@[t[1]] < MAX_X {
        let d0 = MSG_HASH_FE_LEN as int + t[1] / 6;
        assert(0 <= t[1] / 6 < NUM_MSG_HASH_LIMBS) by (nonlinear_arith)
            requires
                0 <= t[1] < NUM_CHUNKS,
        ;
        lemma_rsum_single(f, b, d0, 1);
    } else {
        lemma_rsum_zero(f, b);
    }
}

/// An accumulation row sends nothing on the chain channel.
proof fn lemma_dec_chain_acc_row(row: DecompositionCols, t: Seq<int>)
    requires
        exists|vt: &VerificationTrace, k: int, s: int| (#[trigger] row.is_acc_row(vt, k, s)) && 0
            <= s < MSG_HASH_FE_LEN,
    ensures
        dec_chain_row_mult(seq![row], 0, t) == 0,
        forall|rows: Seq<DecompositionCols>, r: int|
            0 <= r < rows.len() && rows[r] == row ==> #[trigger] dec_chain_row_mult(rows, r, t)
                == 0,
{
    let (vt, k, s): (&VerificationTrace, int, int) = choose|vt: &VerificationTrace, k: int, s: int|
        (#[trigger] row.is_acc_row(vt, k, s)) && 0 <= s < MSG_HASH_FE_LEN;
    assert(fe(row.is_send_chain@) == Seq::new(6, |j: int| 0int));
    assert forall|rows: Seq<DecompositionCols>, r: int|
        0 <= r < rows.len() && rows[r] == row implies #[trigger] dec_chain_row_mult(rows, r, t)
        == 0 by {
        assert(fe(rows[r].is_send_chain@)[0] == 0 && fe(rows[r].is_send_chain@)[1] == 0 && fe(
            rows[r].is_send_chain@,
        )[2] == 0 && fe(rows[r].is_send_chain@)[3] == 0 && fe(rows[r].is_send_chain@)[4] == 0 && fe(
            rows[r].is_send_chain@,
        )[5] == 0);
    }
}

/// A decomposition row of limb `s` sends exactly its six chunks, flagged
/// when below the maximum, with their positions and values.
#[verifier::rlimit(100)]
proof fn lemma_dec_chain_dec_row(
    vi: &VerificationInput,
    k: int,
    s: int,
    row: DecompositionCols,
    t: Seq<int>,
)
    requires
        vi.wf(),
        0 <= k < vi.traces@.len(),
        0 <= s < NUM_MSG_HASH_LIMBS,
        row.is_decomposition_row(&vi.traces@[k], k, s),
    ensures
        forall|rows: Seq<DecompositionCols>, r: int|
            0 <= r < rows.len() && rows[r] == row ==> #[trigger] dec_chain_row_mult(rows, r, t)
                == (
            if t.len() == 3 && t[0] == k && 0 <= t[1] < NUM_CHUNKS && t[1] / 6 == s && t[2]
                == vi.traces@[k].x@[t[1]] as int && vi.traces@[k].x@[t[1]] < MAX_X {
                1int
            } else {
                0int
            }),
{
    let vt = &vi.traces@[k];
    let mh = decomposition::mh_of(vt);
    assert(vt.wf(vi.epoch as int, encoded_msg_spec(vi.msg@)));
    crate::chip::lemma_wf_gives_chain_input(vi, k);
    // the offset encoded by the one-hot indicators is six times the limb
    assert(fe(row.inds@) == decomposition::one_hot(MSG_HASH_FE_LEN as int + s));
    assert(dec_chain_offset(row) == 6 * s);
    // each slot's value recomposes the digest chunk, which is the chunk the
    // signature's opening fixes
    assert forall|j: int| 0 <= j < 6 implies #[trigger] dec_chain_value(row, j) == vt.x@[6 * s
        + j] as int by {
        decomposition::lemma_bits_to_chunk(crate::hash_sig::mh_limb(mh, s), j);
        decomposition::lemma_chunk_of_limb(mh, s, j);
        assert(fe(row.decomposition_bits@)[2 * j] == decomposition::bit_of(
            crate::hash_sig::mh_limb(mh, s),
            2 * j,
        ));
        assert(fe(row.decomposition_bits@)[2 * j + 1] == decomposition::bit_of(
            crate::hash_sig::mh_limb(mh, s),
            2 * j + 1,
        ));
        assert(vt.x@[6 * s + j] as int == crate::hash_sig::mh_chunk(fe(vt.msg_hash@), 6 * s + j));
    }
    assert forall|j: int| 0 <= j < 6 implies #[trigger] fe(row.is_send_chain@)[j] == (
    if vt.x@[6 * s + j] != MAX_X {
        1int
    } else {
        0int
    }) by {
        assert(fe(row.is_send_chain@) == Seq::new(
            6,
            |i: int|
                if vt.x@[6 * s + i] != MAX_X {
                    1int
                } else {
                    0int
                },
        ));
    }
    assert forall|rows: Seq<DecompositionCols>, r: int|
        0 <= r < rows.len() && rows[r] == row implies #[trigger] dec_chain_row_mult(rows, r, t)
        == (
    if t.len() == 3 && t[0] == k && 0 <= t[1] < NUM_CHUNKS && t[1] / 6 == s && t[2]
        == vt.x@[t[1]] as int && vt.x@[t[1]] < MAX_X {
        1int
    } else {
        0int
    }) by {
        assert forall|j: int| 0 <= j < 6 implies #[trigger] slot_term(rows[r], j, t) == (
        if t.len() == 3 && t[0] == k && t[1] == 6 * s + j && t[2] == vt.x@[6 * s + j] as int
            && vt.x@[6 * s + j] < MAX_X {
            1int
        } else {
            0int
        }) by {
            assert(dec_chain_tuple(rows[r], j) =~= seq![k, 6 * s + j, vt.x@[6 * s + j] as int]);
            if dec_chain_tuple(rows[r], j) == t {
                assert(t[0] == k && t[1] == 6 * s + j && t[2] == vt.x@[6 * s + j] as int);
            } else {
                if t.len() == 3 && t[0] == k && t[1] == 6 * s + j && t[2] == vt.x@[6 * s
                    + j] as int {
                    assert(t =~= dec_chain_tuple(rows[r], j));
                }
            }
        }
        if t.len() == 3 && t[0] == k && 0 <= t[1] < NUM_CHUNKS && t[1] / 6 == s && t[2]
            == vt.x@[t[1]] as int && vt.x@[t[1]] < MAX_X {
            let j0 = t[1] % 6;
            vstd::arithmetic::div_mod::lemma_fundamental_div_mod(t[1], 6);
            vstd::arithmetic::div_mod::lemma_mod_bound(t[1], 6);
            assert(t[1] == 6 * s + j0);
            assert forall|j: int| 0 <= j < 6 && j != j0 implies #[trigger] slot_term(
                rows[r],
                j,
                t,
            ) == 0 by {
                assert(6 * s + j != t[1]);
            }
            assert(slot_term(rows[r], j0, t) == 1);
        } else {
            assert forall|j: int| 0 <= j < 6 implies #[trigger] slot_term(rows[r], j, t)
                == 0 by {
                if t.len() == 3 && t[0] == k && t[1] == 6 * s + j && t[2] == vt.x@[6 * s
                    + j] as int && vt.x@[6 * s + j] < MAX_X {
                    assert(0 <= t[1] < NUM_CHUNKS);
                    vstd::arithmetic::div_mod::lemma_fundamental_div_mod(t[1], 6);
                    assert(t[1] / 6 == s) by (nonlinear_arith)
                        requires
                            t[1] == 6 * s + j,
                            0 <= j < 6,
                    ;
                    assert(false);
                }
            }
        }
    }
}

/// One signature's chain block receives each of its below-maximum chunks
/// exactly once on the chain channel.
#[verifier::rlimit(100)]
proof fn lemma_chain_recv_block(
    vi: &VerificationInput,
    ch_rows: Seq<ChainCols>,
    k: int,
    t: Seq<int>,
)
    requires
        vi.wf(),
        chain_trace_padded(vi.traces@, ch_rows),
        0 <= k < vi.traces@.len(),
    ensures
        rsum(
            |d: int| chain_recv_mult(ch_rows, chain::NUM_ROWS_PER_SIG as int * k + d, t),
            chain::NUM_ROWS_PER_SIG as int,
        ) == chain_tuple_count(vi.traces@, k, t),
{
    let traces = vi.traces@;
    let vt = &traces[k];
    let x = vt.x@;
    let b = chain::NUM_ROWS_PER_SIG as int;
    let f = |d: int| chain_recv_mult(ch_rows, b * k + d, t);
    assert(vt.wf(vi.epoch as int, encoded_msg_spec(vi.msg@)));
    crate::chip::lemma_wf_gives_chain_input(vi, k);
    chain::lemma_chain_rows_total(x);
    assert forall|d: int| 0 <= d < b implies #[trigger] f(d) == (
    if t.len() == 3 && t[0] == k && 0 <= t[1] < NUM_CHUNKS && x[t[1]] < MAX_X && d
        == chain_rows_upto(x, t[1]).len() && t[2] == x[t[1]] as int {
        1int
    } else {
        0int
    }) by {
        assert(b * k + d < b * traces.len()) by (nonlinear_arith)
            requires
                0 <= k < traces.len(),
                0 <= d < b,
        ;
        let row = ch_rows[b * k + d];
        assert(chain::sig_row(ch_rows, k, d).is_chain_row(vt, k, d));
        assert(row == chain::sig_row(ch_rows, k, d));
        let i = chain_rows(x)[d].0;
        let j = chain_rows(x)[d].1;
        lemma_chain_coords_in_range(x, d);
        lemma_chain_rows_inverse(x, NUM_CHUNKS as int, d);
        // the step bits recompose to the chunk value plus the step
        decomposition::lemma_bits_to_chunk(x[i] + j, 0);
        assert(decomposition::chunk_of(x[i] + j, 0) == (x[i] + j) % 4) by {
            vstd::arithmetic::power2::lemma2_to64();
            vstd::arithmetic::div_mod::lemma_div_basics(x[i] + j);
        }
        assert(fe(row.chain_step_bits@)[0] + 2 * fe(row.chain_step_bits@)[1] == (x[i] + j) % 4);
        vstd::arithmetic::div_mod::lemma_small_mod((x[i] + j) as nat, 4);
        let tuple = seq![
            row.sig_idx@,
            row.chain_idx@,
            fe(row.chain_step_bits@)[0] + 2 * fe(row.chain_step_bits@)[1],
        ];
        assert(tuple =~= seq![k, i as int, x[i] + j]);
        if j == 0 {
            if tuple == t {
                assert(t.len() == 3 && t[0] == k && t[1] == i && t[2] == x[i] as int);
                assert(d == chain_rows_upto(x, t[1]).len());
            } else {
                if t.len() == 3 && t[0] == k && 0 <= t[1] < NUM_CHUNKS && x[t[1]] < MAX_X && d
                    == chain_rows_upto(x, t[1]).len() && t[2] == x[t[1]] as int {
                    chain::lemma_chain_rows_at(x, t[1], 0);
                    assert(chain_rows(x)[d] == (t[1], 0int));
                    assert(t =~= tuple);
                }
            }
        } else {
            assert(row.is_x_i@ == 0);
            if t.len() == 3 && t[0] == k && 0 <= t[1] < NUM_CHUNKS && x[t[1]] < MAX_X && d
                == chain_rows_upto(x, t[1]).len() {
                chain::lemma_chain_rows_at(x, t[1], 0);
                assert(chain_rows(x)[d] == (t[1], 0int));
            }
        }
    }
    if t.len() == 3 && t[0] == k && 0 <= t[1] < NUM_CHUNKS && x[t[1]] < MAX_X && t[2]
        == x[t[1]] as int {
        let d0 = chain_rows_upto(x, t[1]).len() as int;
        chain::lemma_chain_rows_at(x, t[1], 0);
        lemma_rsum_single(f, b, d0, 1);
    } else {
        lemma_rsum_zero(f, b);
    }
}

/// The multiplicity one chain row sends the leaf channel with: active rows
/// on a chain's last compression step.
pub open spec fn chain_leaf_mult(rows: Seq<ChainCols>, r: int) -> int {
    let row = rows[r];
    if row.is_active@ == 1 && fe(row.chain_step_bits@)[0] == 0 && fe(row.chain_step_bits@)[1]
        == 1 {
        1
    } else {
        0
    }
}

/// The tuple one chain row sends the leaf channel with: the signature
/// index, the chain's leaf-chunk slot, and the compression output.
pub open spec fn chain_leaf_tuple(rows: Seq<ChainCols>, r: int) -> Seq<int> {
    seq![rows[r].sig_idx@, rows[r].chain_idx@ + 1] + rows[r].perm.ff_prefix(HASH_FE_LEN as int)
}

/// The total multiplicity the chain table sends tuple `t` on the leaf
/// channel with.
pub open spec fn chain_leaf_sum(rows: Seq<ChainCols>, t: Seq<int>) -> int {
    rsum(
        |r: int|
            if chain_leaf_tuple(rows, r) == t {
                chain_leaf_mult(rows, r)
            } else {
                0
            },
        rows.len() as int,
    )
}

/// The value lanes received by the middle slot of a sponge row: the block
/// cells selected by the chunk-start indicators of the first window.
pub open spec fn leaf_win1(row: MerkleTreeCols, i: int) -> int {
    let ind = fe(row.leaf_chunk_start_ind@);
    let bl = fe(row.sponge_block@);
    ind[1] * bl[1 + i] + ind[2] * bl[2 + i] + ind[3] * bl[3 + i] + ind[4] * bl[4 + i] + ind[5]
        * bl[5 + i] + ind[6] * bl[6 + i] + ind[7] * bl[7 + i]
}

/// The value lanes received by the last slot: the second window, spilling
/// into the next row's block.
pub open spec fn leaf_win2(row: MerkleTreeCols, next: MerkleTreeCols, i: int) -> int {
    let ind = fe(row.leaf_chunk_start_ind@);
    let bl = fe(row.sponge_block@);
    let nb = fe(next.sponge_block@);
    ind[8] * (if 8 + i < 15 {
        bl[8 + i]
    } else {
        nb[8 + i - 15]
    }) + ind[9] * (if 9 + i < 15 {
        bl[9 + i]
    } else {
        nb[9 + i - 15]
    }) + ind[10] * (if 10 + i < 15 {
        bl[10 + i]
    } else {
        nb[10 + i - 15]
    }) + ind[11] * (if 11 + i < 15 {
        bl[11 + i]
    } else {
        nb[11 + i - 15]
    }) + ind[12] * (if 12 + i < 15 {
        bl[12 + i]
    } else {
        nb[12 + i - 15]
    }) + ind[13] * (if 13 + i < 15 {
        bl[13 + i]
    } else {
        nb[13 + i - 15]
    }) + ind[14] * (if 14 + i < 15 {
        bl[14 + i]
    } else {
        nb[14 + i - 15]
    })
}

/// The three tuples one Merkle row receives on the leaf channel.
pub open spec fn merkle_leaf_tuple(
    rows: Seq<MerkleTreeCols>,
    r: int,
    slot: int,
) -> Seq<int> {
    let row = rows[r];
    let next = if r + 1 < rows.len() {
        rows[r + 1]
    } else {
        rows[0]
    };
    if slot == 0 {
        seq![row.sig_idx@, row.leaf_chunk_idx@] + fe(row.sponge_block@).take(HASH_FE_LEN as int)
    } else if slot == 1 {
        seq![row.sig_idx@, row.leaf_chunk_idx@ + fe(row.leaf_chunk_start_ind@)[0]] + Seq::new(
            HASH_FE_LEN as nat,
            |i: int| leaf_win1(row, i),
        )
    } else {
        seq![row.sig_idx@, row.leaf_chunk_idx@ + fe(row.leaf_chunk_start_ind@)[0] + 1] + Seq::new(
            HASH_FE_LEN as nat,
            |i: int| leaf_win2(row, next, i),
        )
    }
}

/// The multiplicities of the three slots.
pub open spec fn merkle_leaf_mult(rows: Seq<MerkleTreeCols>, r: int, slot: int) -> int {
    let row = rows[r];
    let flags = fe(row.is_receive_merkle_tree@);
    if slot == 0 {
        flags[0] * fe(row.leaf_chunk_start_ind@)[0]
    } else if slot == 1 {
        flags[1]
    } else {
        flags[2] * (1 - row.sponge_step.at_last())
    }
}

/// What one Merkle row receives on the leaf channel for tuple `t`.
pub open spec fn merkle_leaf_row_mult(rows: Seq<MerkleTreeCols>, r: int, t: Seq<int>) -> int {
    (if merkle_leaf_tuple(rows, r, 0) == t {
        merkle_leaf_mult(rows, r, 0)
    } else {
        0
    }) + (if merkle_leaf_tuple(rows, r, 1) == t {
        merkle_leaf_mult(rows, r, 1)
    } else {
        0
    }) + (if merkle_leaf_tuple(rows, r, 2) == t {
        merkle_leaf_mult(rows, r, 2)
    } else {
        0
    })
}

/// The total multiplicity the Merkle table receives tuple `t` on the leaf
/// channel with.
pub open spec fn merkle_leaf_sum(rows: Seq<MerkleTreeCols>, t: Seq<int>) -> int {
    rsum(|r: int| merkle_leaf_row_mult(rows, r, t), rows.len() as int)
}

/// The canonical leaf-channel contribution of signature `k` to tuple `t`:
/// one per chain below the maximum chunk, carrying the chain's end value at
/// leaf-chunk slot `chain + 1`.
pub open spec fn leaf_tuple_count(traces: Seq<VerificationTrace>, k: int, t: Seq<int>) -> int {
    if t.len() == 2 + HASH_FE_LEN && t[0] == k && 1 <= t[1] <= NUM_CHUNKS && traces[k].x@[t[1] - 1]
        < MAX_X && t.skip(2) == traces[k].chain_end(t[1] - 1) {
        1
    } else {
        0
    }
}

/// The flattened chain ends index chain by chain.
proof fn lemma_ends_flat_index(vt: &VerificationTrace, n: int, c: int, i: int)
    requires
        vt.wf_shape(),
        0 <= c < n <= NUM_CHUNKS,
        0 <= i < HASH_FE_LEN,
    ensures
        vt.ends_flat(n).len() == HASH_FE_LEN as int * n,
        vt.ends_flat(n)[HASH_FE_LEN as int * c + i] == vt.chain_end(c)[i],
    decreases n,
{
    lemma_chain_end_len(vt, n - 1);
    if c == n - 1 {
        lemma_ends_flat_len(vt, n - 1);
    } else {
        lemma_ends_flat_index(vt, n - 1, c, i);
    }
}

proof fn lemma_ends_flat_len(vt: &VerificationTrace, n: int)
    requires
        vt.wf_shape(),
        0 <= n <= NUM_CHUNKS,
    ensures
        vt.ends_flat(n).len() == HASH_FE_LEN as int * n,
    decreases n,
{
    if n > 0 {
        lemma_ends_flat_len(vt, n - 1);
        lemma_chain_end_len(vt, n - 1);
    }
}

proof fn lemma_chain_end_len(vt: &VerificationTrace, c: int)
    requires
        vt.wf_shape(),
        0 <= c < NUM_CHUNKS,
    ensures
        vt.chain_end(c).len() == HASH_FE_LEN,
{
}

/// One signature's chain block sends each of its chain ends exactly once
/// on the leaf channel.
#[verifier::rlimit(100)]
proof fn lemma_chain_leaf_block(
    vi: &VerificationInput,
    ch_rows: Seq<ChainCols>,
    k: int,
    t: Seq<int>,
)
    requires
        vi.wf(),
        chain_trace_padded(vi.traces@, ch_rows),
        0 <= k < vi.traces@.len(),
    ensures
        rsum(
            |d: int|
                if chain_leaf_tuple(ch_rows, chain::NUM_ROWS_PER_SIG as int * k + d) == t {
                    chain_leaf_mult(ch_rows, chain::NUM_ROWS_PER_SIG as int * k + d)
                } else {
                    0
                },
            chain::NUM_ROWS_PER_SIG as int,
        ) == leaf_tuple_count(vi.traces@, k, t),
{
    let traces = vi.traces@;
    let vt = &traces[k];
    let x = vt.x@;
    let b = chain::NUM_ROWS_PER_SIG as int;
    let f = |d: int|
        if chain_leaf_tuple(ch_rows, b * k + d) == t {
            chain_leaf_mult(ch_rows, b * k + d)
        } else {
            0
        };
    assert(vt.wf(vi.epoch as int, encoded_msg_spec(vi.msg@)));
    crate::chip::lemma_wf_gives_chain_input(vi, k);
    chain::lemma_chain_rows_total(x);
    assert forall|d: int| 0 <= d < b implies #[trigger] f(d) == (
    if t.len() == 2 + HASH_FE_LEN && t[0] == k && 1 <= t[1] <= NUM_CHUNKS && x[t[1] - 1] < MAX_X
        && d == chain_rows_upto(x, t[1] - 1).len() + (2 - x[t[1] - 1]) && t.skip(2)
        == vt.chain_end(t[1] - 1) {
        1int
    } else {
        0int
    }) by {
        assert(b * k + d < b * traces.len()) by (nonlinear_arith)
            requires
                0 <= k < traces.len(),
                0 <= d < b,
        ;
        let row = ch_rows[b * k + d];
        assert(chain::sig_row(ch_rows, k, d).is_chain_row(vt, k, d));
        assert(row == chain::sig_row(ch_rows, k, d));
        let i = chain_rows(x)[d].0;
        let j = chain_rows(x)[d].1;
        lemma_chain_coords_in_range(x, d);
        lemma_chain_rows_inverse(x, NUM_CHUNKS as int, d);
        // the step bits flag exactly the last compression of the chain
        assert(fe(row.chain_step_bits@) == seq![
            decomposition::bit_of(x[i] + j, 0),
            decomposition::bit_of(x[i] + j, 1),
        ]);
        let v = x[i] + j;
        assert(0 <= v <= 2);
        assert(decomposition::bit_of(v, 0) == v % 2 && decomposition::bit_of(v, 1) == (v / 2)
            % 2) by {
            vstd::arithmetic::power2::lemma2_to64();
            vstd::arithmetic::div_mod::lemma_div_basics(v);
        }
        let is_last = v == 2;
        assert(chain_leaf_mult(ch_rows, b * k + d) == (if is_last {
            1int
        } else {
            0int
        }));
        if is_last {
            assert(j == MAX_X - x[i] - 1);
            assert(vt.chains_at(i).steps@.len() == MAX_X - x[i]);
            assert(row.perm.ff_prefix(HASH_FE_LEN as int) =~= vt.chains_at(i).steps@[j].ff_prefix(
                HASH_FE_LEN as int,
            ));
            assert(vt.chains_at(i).steps@[j] == vt.chains_at(i).steps@.last());
            assert(row.perm.ff_prefix(HASH_FE_LEN as int) == vt.chain_end(i));
            let tuple = chain_leaf_tuple(ch_rows, b * k + d);
            assert(tuple =~= seq![k, i + 1] + vt.chain_end(i));
            if tuple == t {
                lemma_chain_end_len(vt, i);
                assert(t.skip(2) =~= vt.chain_end(i));
                assert(t[1] - 1 == i);
            } else {
                if t.len() == 2 + HASH_FE_LEN && t[0] == k && 1 <= t[1] <= NUM_CHUNKS && x[t[1]
                    - 1] < MAX_X && d == chain_rows_upto(x, t[1] - 1).len() + (2 - x[t[1] - 1])
                    && t.skip(2) == vt.chain_end(t[1] - 1) {
                    chain::lemma_chain_rows_at(x, t[1] - 1, 2 - x[t[1] - 1]);
                    assert(chain_rows(x)[d] == (t[1] - 1, 2 - x[t[1] - 1]));
                    lemma_chain_end_len(vt, i);
                    assert(t =~= tuple);
                }
            }
        } else {
            if t.len() == 2 + HASH_FE_LEN && t[0] == k && 1 <= t[1] <= NUM_CHUNKS && x[t[1] - 1]
                < MAX_X && d == chain_rows_upto(x, t[1] - 1).len() + (2 - x[t[1] - 1]) {
                chain::lemma_chain_rows_at(x, t[1] - 1, 2 - x[t[1] - 1]);
                assert(chain_rows(x)[d] == (t[1] - 1, 2 - x[t[1] - 1]));
                assert(x[i] + j == 2);
                assert(false);
            }
        }
    }
    if t.len() == 2 + HASH_FE_LEN && t[0] == k && 1 <= t[1] <= NUM_CHUNKS && x[t[1] - 1] < MAX_X
        && t.skip(2) == vt.chain_end(t[1] - 1) {
        chain::lemma_chain_rows_at(x, t[1] - 1, 2 - x[t[1] - 1]);
        let d0 = chain_rows_upto(x, t[1] - 1).len() as int + (2 - x[t[1] - 1]);
        lemma_rsum_single(f, b, d0, 1);
    } else {
        lemma_rsum_zero(f, b);
    }
}

/// A leaf chunk's lanes inside the leaf preimage are the chain's end value.
proof fn lemma_leaf_slice(vt: &VerificationTrace, epoch: int, c: int)
    requires
        vt.wf_shape(),
        1 <= c <= NUM_CHUNKS,
    ensures
        Seq::new(HASH_FE_LEN as nat, |i: int| vt.leaf_preimage(epoch)[7 * c + i])
            == vt.chain_end(c - 1),
        vt.leaf_preimage(epoch).len() == crate::hash_sig::SPONGE_INPUT_SIZE,
{
    lemma_ends_flat_len(vt, NUM_CHUNKS as int);
    lemma_chain_end_len(vt, c - 1);
    assert forall|i: int| 0 <= i < HASH_FE_LEN implies #[trigger] vt.chain_end(c - 1)[i]
        == vt.leaf_preimage(epoch)[7 * c + i] by {
        lemma_ends_flat_index(vt, NUM_CHUNKS as int, c - 1, i);
        assert(7 * c + i - 7 == HASH_FE_LEN as int * (c - 1) + i);
        assert(vt.leaf_preimage(epoch)[7 * c + i] == vt.ends_flat(NUM_CHUNKS as int)[
            HASH_FE_LEN as int * (c - 1) + i]);
    }
    assert(Seq::new(HASH_FE_LEN as nat, |i: int| vt.leaf_preimage(epoch)[7 * c + i]) =~= vt.chain_end(
        c - 1,
    ));
}

/// What one Merkle row receives on the leaf channel for tuple `t`: a leaf
/// row receives the chunks starting inside its rate window, each exactly
/// once; every other row receives nothing.
#[verifier::rlimit(100)]
proof fn lemma_merkle_leaf_row(
    vi: &VerificationInput,
    mt_rows: Seq<MerkleTreeCols>,
    k: int,
    d: int,
    t: Seq<int>,
)
    requires
        vi.wf(),
        merkle_trace_padded(vi.traces@, vi.epoch as int, mt_rows),
        0 <= k < vi.traces@.len(),
        0 <= d < merkle_tree::NUM_ROWS_PER_SIG,
    ensures
        merkle_leaf_row_mult(mt_rows, merkle_tree::NUM_ROWS_PER_SIG as int * k + d, t) == (
        if t.len() == 2 + HASH_FE_LEN && t[0] == k && 1 <= t[1] <= NUM_CHUNKS
            && vi.traces@[k].x@[t[1] - 1] < MAX_X && d == 7 * t[1] / 15 && t.skip(2)
            == vi.traces@[k].chain_end(t[1] - 1) {
            1int
        } else {
            0int
        }),
{
    let traces = vi.traces@;
    let vt = &traces[k];
    let epoch = vi.epoch as int;
    let b = merkle_tree::NUM_ROWS_PER_SIG as int;
    let sp = crate::hash_sig::SPONGE_PERM as int;
    let r = b * k + d;
    assert(vt.wf(epoch, encoded_msg_spec(vi.msg@)));
    crate::chip::lemma_wf_gives_chain_input(vi, k);
    assert(r + 1 < mt_rows.len() || (k == traces.len() - 1 && d == b - 1 && r + 1
        == mt_rows.len())) by (nonlinear_arith)
        requires
            r == b * k + d,
            0 <= k < traces.len(),
            0 <= d < b,
            b >= 1,
            mt_rows.len() >= b * traces.len(),
    ;
    assert(mt_rows[r] == merkle_tree::sig_row(mt_rows, k, d));
    let row = mt_rows[r];
    if d >= sp {
        // path and message rows receive nothing
        if d < sp + crate::hash_sig::LOG_LIFETIME as int {
            assert(merkle_tree::sig_row(mt_rows, k, sp + (d - sp)).is_path_row(
                vt,
                epoch,
                k,
                d - sp,
            ));
            assert(merkle_tree::sig_row(mt_rows, k, d).is_path_row(vt, epoch, k, d - sp));
        } else {
            assert(merkle_tree::sig_row(mt_rows, k, sp
                + crate::hash_sig::LOG_LIFETIME as int).is_msg_row(vt, k));
            assert(d == sp + crate::hash_sig::LOG_LIFETIME as int);
        }
        assert(fe(row.is_receive_merkle_tree@) == seq![0int, 0int, 0int]);
        lemma_leaf_mults_zero(mt_rows, r);
    } else {
        let s = d;
        assert(merkle_tree::sig_row(mt_rows, k, s).is_leaf_row(vt, epoch, k, s));
        vstd::arithmetic::div_mod::lemma_fundamental_div_mod(15 * s, 7);
        vstd::arithmetic::div_mod::lemma_mod_bound(15 * s, 7);
        let q = 15 * s / 7;
        let rho = 15 * s % 7;
        assert(0 <= q <= 77 && 15 * s == 7 * q + rho) by (nonlinear_arith)
            requires
                0 <= s <= 36,
                15 * s == 7 * q + rho,
                0 <= rho < 7,
        ;
        // the chunk counter of the row
        assert(merkle_tree::first_chunk_of_row(s) == q + (if rho == 0 {
            0int
        } else {
            1int
        })) by {
            if rho == 0 {
                vstd::arithmetic::div_mod::lemma_fundamental_div_mod_converse(
                    15 * s + 6,
                    7,
                    q,
                    6,
                );
            } else {
                vstd::arithmetic::div_mod::lemma_fundamental_div_mod_converse(
                    15 * s + 6,
                    7,
                    q + 1,
                    rho - 1,
                );
            }
        }
        // the start indicators are one-hot per seven-lane window
        assert forall|idx: int| 0 <= idx < 15 implies fe(row.leaf_chunk_start_ind@)[idx] == (
        if idx + rho == 0 || idx + rho == 7 || idx + rho == 14 {
            1int
        } else {
            0int
        }) by {
            assert((15 * s + idx) % 7 == (rho + idx) % 7) by {
                vstd::arithmetic::div_mod::lemma_fundamental_div_mod_converse(
                    15 * s + idx,
                    7,
                    q + (rho + idx) / 7,
                    (rho + idx) % 7,
                );
            }
            if rho + idx == 0 || rho + idx == 7 || rho + idx == 14 {
                assert((rho + idx) % 7 == 0);
            } else {
                vstd::arithmetic::div_mod::lemma_mod_bound(rho + idx, 7);
                if (rho + idx) % 7 == 0 {
                    vstd::arithmetic::div_mod::lemma_fundamental_div_mod(rho + idx, 7);
                    assert(rho + idx == 7 * ((rho + idx) / 7));
                    assert(0 <= (rho + idx) / 7 <= 2) by (nonlinear_arith)
                        requires
                            0 <= rho + idx <= 20,
                            rho + idx == 7 * ((rho + idx) / 7),
                    ;
                    assert(false);
                }
            }
        }
        lemma_merkle_leaf_slots(vi, mt_rows, k, s, q, rho, t);
    }
}

/// Every slot multiplicity of a row with cleared receive flags vanishes.
proof fn lemma_leaf_mults_zero(mt_rows: Seq<MerkleTreeCols>, r: int)
    requires
        0 <= r < mt_rows.len(),
        fe(mt_rows[r].is_receive_merkle_tree@) == seq![0int, 0int, 0int],
    ensures
        forall|t: Seq<int>| #[trigger] merkle_leaf_row_mult(mt_rows, r, t) == 0,
{
    assert forall|t: Seq<int>| #[trigger] merkle_leaf_row_mult(mt_rows, r, t) == 0 by {
        let flags = fe(mt_rows[r].is_receive_merkle_tree@);
        assert(flags[0] == 0 && flags[1] == 0 && flags[2] == 0);
        assert(merkle_leaf_mult(mt_rows, r, 0) == 0 * fe(
            mt_rows[r].leaf_chunk_start_ind@,
        )[0]) by {
        }
        assert(0 * fe(mt_rows[r].leaf_chunk_start_ind@)[0] == 0) by (nonlinear_arith);
        assert(merkle_leaf_mult(mt_rows, r, 2) == 0 * (1 - mt_rows[r].sponge_step.at_last()))
            by {
        }
        assert(0 * (1 - mt_rows[r].sponge_step.at_last()) == 0) by (nonlinear_arith);
    }
}

/// The three receive slots of one sponge row pick up exactly the chunks
/// that start inside its rate window.
#[verifier::rlimit(100)]
proof fn lemma_merkle_leaf_slots(
    vi: &VerificationInput,
    mt_rows: Seq<MerkleTreeCols>,
    k: int,
    s: int,
    q: int,
    rho: int,
    t: Seq<int>,
)
    requires
        vi.wf(),
        merkle_trace_padded(vi.traces@, vi.epoch as int, mt_rows),
        0 <= k < vi.traces@.len(),
        0 <= s < crate::hash_sig::SPONGE_PERM,
        15 * s == 7 * q + rho,
        0 <= rho < 7,
        0 <= q <= 77,
        merkle_tree::first_chunk_of_row(s) == q + (if rho == 0 {
            0int
        } else {
            1int
        }),
        forall|idx: int|
            0 <= idx < 15 ==> #[trigger] fe(
                mt_rows[merkle_tree::NUM_ROWS_PER_SIG as int * k + s].leaf_chunk_start_ind@,
            )[idx] == (
            if idx + rho == 0 || idx + rho == 7 || idx + rho == 14 {
                1int
            } else {
                0int
            }),
    ensures
        merkle_leaf_row_mult(mt_rows, merkle_tree::NUM_ROWS_PER_SIG as int * k + s, t) == (
        if t.len() == 2 + HASH_FE_LEN && t[0] == k && 1 <= t[1] <= NUM_CHUNKS
            && vi.traces@[k].x@[t[1] - 1] < MAX_X && s == 7 * t[1] / 15 && t.skip(2)
            == vi.traces@[k].chain_end(t[1] - 1) {
            1int
        } else {
            0int
        }),
{
    let traces = vi.traces@;
    let vt = &traces[k];
    let epoch = vi.epoch as int;
    let b = merkle_tree::NUM_ROWS_PER_SIG as int;
    let r = b * k + s;
    assert(vt.wf(epoch, encoded_msg_spec(vi.msg@)));
    crate::chip::lemma_wf_gives_chain_input(vi, k);
    assert(mt_rows[r] == merkle_tree::sig_row(mt_rows, k, s));
    assert(merkle_tree::sig_row(mt_rows, k, s).is_leaf_row(vt, epoch, k, s));
    let row = mt_rows[r];
    let leaf = vt.leaf_preimage(epoch);
    assert(leaf.len() == 553) by {
        lemma_ends_flat_len(vt, NUM_CHUNKS as int);
    }
    let ind = fe(row.leaf_chunk_start_ind@);
    let bl = fe(row.sponge_block@);
    let flags = fe(row.is_receive_merkle_tree@);
    let aligned = rho == 0;
    let c0 = q + (if aligned {
        0int
    } else {
        1int
    });
    assert(row.leaf_chunk_idx@ == c0);
    assert(flags == merkle_tree::leaf_flags(vt, s));
    assert(merkle_tree::row_is_aligned(s) == aligned) by {
        vstd::arithmetic::div_mod::lemma_fundamental_div_mod_converse(15 * s, 7, q, rho);
    }
    // at-last flag of the sponge cycle
    assert(row.sponge_step.at_last() == (if s == crate::hash_sig::SPONGE_PERM as int - 1 {
        1int
    } else {
        0int
    })) by {
        if s != crate::hash_sig::SPONGE_PERM as int - 1 {
            crate::gadget::lemma_fsub_nonzero(s, crate::hash_sig::SPONGE_PERM as int - 1);
        } else {
            crate::gadget::lemma_fsub_nonzero(0, 1);
            vstd::arithmetic::div_mod::lemma_mod_add_multiples_vanish(0, crate::field::P as int);
            vstd::arithmetic::div_mod::lemma_small_mod(0nat, crate::field::P as nat);
        }
    }
    // block cells carry the leaf preimage
    assert(bl == vt.sponge_block(epoch, s));
    // slot multiplicities
    let m0 = merkle_leaf_mult(mt_rows, r, 0);
    let m1 = merkle_leaf_mult(mt_rows, r, 1);
    let m2 = merkle_leaf_mult(mt_rows, r, 2);
    assert(ind[0] == if aligned {
        1int
    } else {
        0int
    });
    assert(m0 == (if aligned {
        merkle_tree::chunk_flag(vt, q)
    } else {
        0int
    })) by {
        if aligned {
            assert(flags[0] == merkle_tree::chunk_flag(vt, c0));
            assert(m0 == merkle_tree::chunk_flag(vt, q) * 1);
            assert(merkle_tree::chunk_flag(vt, q) * 1 == merkle_tree::chunk_flag(vt, q))
                by (nonlinear_arith);
        } else {
            assert(flags[0] == 0);
            assert(m0 == flags[0] * ind[0]);
            assert(flags[0] * ind[0] == 0) by (nonlinear_arith)
                requires
                    flags[0] == 0,
            ;
        }
    }
    assert(m1 == merkle_tree::chunk_flag(vt, q + 1)) by {
        if aligned {
            assert(flags[1] == merkle_tree::chunk_flag(vt, c0 + 1));
        } else {
            assert(flags[1] == merkle_tree::chunk_flag(vt, c0));
        }
    }
    assert(m2 == (if s == crate::hash_sig::SPONGE_PERM as int - 1 {
        0int
    } else {
        merkle_tree::chunk_flag(vt, q + 2)
    })) by {
        if s == crate::hash_sig::SPONGE_PERM as int - 1 {
            assert(m2 == flags[2] * 0) by {
            }
            assert(flags[2] * 0 == 0) by (nonlinear_arith);
        } else {
            if aligned {
                assert(flags[2] == merkle_tree::chunk_flag(vt, c0 + 2));
            } else {
                assert(flags[2] == merkle_tree::chunk_flag(vt, c0 + 1));
            }
            assert(m2 == flags[2] * 1);
            assert(flags[2] * 1 == flags[2]) by (nonlinear_arith);
        }
    }
    // slot tuples carry the chunks of the window
    let tuple0 = merkle_leaf_tuple(mt_rows, r, 0);
    let tuple1 = merkle_leaf_tuple(mt_rows, r, 1);
    let tuple2 = merkle_leaf_tuple(mt_rows, r, 2);
    if aligned {
        assert(tuple0 =~= seq![k, q as int] + Seq::new(
            HASH_FE_LEN as nat,
            |i: int| leaf[7 * q + i],
        )) by {
            assert forall|i: int| 0 <= i < HASH_FE_LEN implies bl[i] == leaf[7 * q + i] by {
                assert(15 * s + i < 553);
            }
        }
    }
    let j1 = 7 - rho;
    assert(1 <= j1 <= 7);
    assert forall|i: int| 0 <= i < HASH_FE_LEN implies leaf_win1(row, i) == leaf[7 * (q + 1)
        + i] by {
        assert forall|j: int| 1 <= j <= 7 && j != j1 implies ind[j] == 0 by {}
        assert(ind[j1] == 1);
        assert(bl[j1 + i] == leaf[15 * s + j1 + i]) by {
            assert(15 * s + j1 + i == 7 * (q + 1) + i);
            assert(7 * (q + 1) + i < 553) by (nonlinear_arith)
                requires
                    q <= 77,
                    i < 7,
            ;
        }
        lemma_onehot_win1(ind, bl, j1, i);
        assert(leaf_win1(row, i) == bl[j1 + i]);
    }
    assert(tuple1 =~= seq![k, q + 1] + Seq::new(
        HASH_FE_LEN as nat,
        |i: int| leaf[7 * (q + 1) + i],
    ));
    if s < crate::hash_sig::SPONGE_PERM as int - 1 {
        let next = mt_rows[r + 1];
        assert(r + 1 == b * k + (s + 1));
        assert(next == merkle_tree::sig_row(mt_rows, k, s + 1));
        assert(merkle_tree::sig_row(mt_rows, k, s + 1).is_leaf_row(vt, epoch, k, s + 1));
        assert(r + 1 < mt_rows.len()) by (nonlinear_arith)
            requires
                r == b * k + s,
                0 <= k < traces.len(),
                0 <= s < b - 1,
                mt_rows.len() >= b * traces.len(),
                b == 58,
        ;
        let nb = fe(next.sponge_block@);
        assert(nb == vt.sponge_block(epoch, s + 1));
        let j2 = 14 - rho;
        assert(8 <= j2 <= 14);
        assert(q <= 75) by (nonlinear_arith)
            requires
                15 * s == 7 * q + rho,
                s <= 35,
                rho >= 0,
        ;
        assert forall|i: int| 0 <= i < HASH_FE_LEN implies leaf_win2(row, next, i) == leaf[7 * (q
            + 2) + i] by {
            assert forall|j: int| 8 <= j <= 14 && j != j2 implies ind[j] == 0 by {}
            assert(ind[j2] == 1);
            assert(15 * s + j2 + i == 7 * (q + 2) + i);
            assert(7 * (q + 2) + i < 553) by (nonlinear_arith)
                requires
                    q <= 75,
                    i < 7,
            ;
            if j2 + i < 15 {
                assert(bl[j2 + i] == leaf[15 * s + j2 + i]);
            } else {
                assert(nb[j2 + i - 15] == leaf[15 * (s + 1) + (j2 + i - 15)]) by {
                    assert(15 * (s + 1) + (j2 + i - 15) < 553);
                }
                assert(15 * (s + 1) + (j2 + i - 15) == 15 * s + j2 + i);
            }
            lemma_onehot_win2(ind, bl, nb, j2, i, leaf[7 * (q + 2) + i]);
        }
        assert(tuple2 =~= seq![k, q + 2] + Seq::new(
            HASH_FE_LEN as nat,
            |i: int| leaf[7 * (q + 2) + i],
        ));
    }
    // compare against the canonical tuple
    let target: int = if t.len() == 2 + HASH_FE_LEN && t[0] == k && 1 <= t[1] <= NUM_CHUNKS
        && vt.x@[t[1] - 1] < MAX_X && s == 7 * t[1] / 15 && t.skip(2) == vt.chain_end(t[1] - 1) {
        1
    } else {
        0
    };
    let term0: int = if tuple0 == t {
        m0
    } else {
        0
    };
    let term1: int = if tuple1 == t {
        m1
    } else {
        0
    };
    let term2: int = if tuple2 == t {
        m2
    } else {
        0
    };
    if target == 1 {
        let c = t[1];
        let o = 7 * c - 15 * s;
        assert(0 <= o < 15) by {
            vstd::arithmetic::div_mod::lemma_fundamental_div_mod(7 * c, 15);
            vstd::arithmetic::div_mod::lemma_mod_bound(7 * c, 15);
            assert(7 * c == 15 * (7 * c / 15) + 7 * c % 15);
        }
        assert(o + rho == 0 || o + rho == 7 || o + rho == 14) by (nonlinear_arith)
            requires
                7 * c == 7 * q + rho + o,
                0 <= rho < 7,
                0 <= o < 15,
        ;
        lemma_leaf_slice(vt, epoch, c);
        if o + rho == 0 {
            assert(o == 0 && rho == 0);
            assert(aligned);
            assert(c == q) by (nonlinear_arith)
                requires
                    7 * c == 7 * q + rho + o,
                    o == 0,
                    rho == 0,
            ;
            assert(m0 == 1);
            assert(t =~= tuple0);
            assert(term1 == 0 && term2 == 0) by {
                assert(tuple1[1] == q + 1 && t[1] == q);
                if s < crate::hash_sig::SPONGE_PERM as int - 1 {
                    assert(tuple2[1] == q + 2);
                }
            }
        } else if o + rho == 7 {
            assert(c == q + 1) by (nonlinear_arith)
                requires
                    7 * c == 7 * q + rho + o,
                    o + rho == 7,
            ;
            assert(m1 == 1);
            assert(t =~= tuple1);
            assert(term0 == 0) by {
                if aligned {
                    assert(tuple0[1] == q && t[1] == q + 1);
                }
            }
            assert(term2 == 0) by {
                if s < crate::hash_sig::SPONGE_PERM as int - 1 {
                    assert(tuple2[1] == q + 2 && t[1] == q + 1);
                }
            }
        } else {
            assert(c == q + 2) by (nonlinear_arith)
                requires
                    7 * c == 7 * q + rho + o,
                    o + rho == 14,
            ;
            assert(s < crate::hash_sig::SPONGE_PERM as int - 1) by (nonlinear_arith)
                requires
                    15 * s == 7 * q + rho,
                    q + 2 <= 78,
                    rho < 7,
                    s < 37,
            ;
            assert(m2 == 1);
            assert(t =~= tuple2);
            assert(term0 == 0) by {
                if aligned {
                    assert(tuple0[1] == q && t[1] == q + 2);
                }
            }
            assert(term1 == 0) by {
                assert(tuple1[1] == q + 1 && t[1] == q + 2);
            }
        }
        assert(merkle_leaf_row_mult(mt_rows, r, t) == term0 + term1 + term2);
    } else {
        assert(term0 == 0) by {
            if tuple0 == t && m0 != 0 {
                assert(aligned && merkle_tree::chunk_flag(vt, q) == 1);
                assert(1 <= q <= NUM_CHUNKS && vt.x@[q - 1] < MAX_X);
                lemma_leaf_slice(vt, epoch, q);
                assert(t.skip(2) =~= vt.chain_end(q - 1));
                assert(7 * q / 15 == s) by {
                    vstd::arithmetic::div_mod::lemma_fundamental_div_mod_converse(
                        7 * q,
                        15,
                        s,
                        0,
                    );
                }
                assert(false);
            }
        }
        assert(term1 == 0) by {
            if tuple1 == t && m1 != 0 {
                assert(merkle_tree::chunk_flag(vt, q + 1) == 1);
                assert(1 <= q + 1 <= NUM_CHUNKS && vt.x@[q + 1 - 1] < MAX_X);
                lemma_leaf_slice(vt, epoch, q + 1);
                assert(t.skip(2) =~= vt.chain_end(q + 1 - 1));
                assert(7 * (q + 1) / 15 == s) by {
                    vstd::arithmetic::div_mod::lemma_fundamental_div_mod_converse(
                        7 * (q + 1),
                        15,
                        s,
                        7 - rho,
                    );
                }
                assert(false);
            }
        }
        assert(term2 == 0) by {
            if tuple2 == t && m2 != 0 {
                assert(s < crate::hash_sig::SPONGE_PERM as int - 1);
                assert(merkle_tree::chunk_flag(vt, q + 2) == 1);
                assert(1 <= q + 2 <= NUM_CHUNKS && vt.x@[q + 2 - 1] < MAX_X);
                lemma_leaf_slice(vt, epoch, q + 2);
                assert(t.skip(2) =~= vt.chain_end(q + 2 - 1));
                assert(7 * (q + 2) / 15 == s) by {
                    vstd::arithmetic::div_mod::lemma_fundamental_div_mod_converse(
                        7 * (q + 2),
                        15,
                        s,
                        14 - rho,
                    );
                }
                assert(false);
            }
        }
        assert(merkle_leaf_row_mult(mt_rows, r, t) == term0 + term1 + term2);
    }
}

/// Evaluate the first window's one-hot selection.
proof fn lemma_onehot_win1(ind: Seq<int>, bl: Seq<int>, j1: int, i: int)
    requires
        ind.len() == 15,
        bl.len() == 15,
        1 <= j1 <= 7,
        0 <= i < 7,
        forall|j: int| 1 <= j <= 7 && j != j1 ==> #[trigger] ind[j] == 0,
        ind[j1] == 1,
    ensures
        forall|row: MerkleTreeCols|
            fe(row.leaf_chunk_start_ind@) == ind && fe(row.sponge_block@) == bl
                ==> #[trigger] leaf_win1(row, i) == bl[j1 + i],
{
    assert forall|row: MerkleTreeCols|
        fe(row.leaf_chunk_start_ind@) == ind && fe(row.sponge_block@) == bl
            implies #[trigger] leaf_win1(row, i) == bl[j1 + i] by {
        assert forall|j: int| 1 <= j <= 7 implies (#[trigger] ind[j]) * bl[j + i] == (
        if j == j1 {
            bl[j1 + i]
        } else {
            0int
        }) by {
            if j == j1 {
                assert(1 * bl[j1 + i] == bl[j1 + i]) by (nonlinear_arith);
            } else {
                assert(0 * bl[j + i] == 0) by (nonlinear_arith);
            }
        }
    }
}

/// Evaluate the second window's one-hot selection, spilling into the next
/// block.
proof fn lemma_onehot_win2(
    ind: Seq<int>,
    bl: Seq<int>,
    nb: Seq<int>,
    j2: int,
    i: int,
    val: int,
)
    requires
        ind.len() == 15,
        bl.len() == 15,
        nb.len() == 15,
        8 <= j2 <= 14,
        0 <= i < 7,
        forall|j: int| 8 <= j <= 14 && j != j2 ==> #[trigger] ind[j] == 0,
        ind[j2] == 1,
        if j2 + i < 15 {
            bl[j2 + i] == val
        } else {
            nb[j2 + i - 15] == val
        },
    ensures
        forall|row: MerkleTreeCols, next: MerkleTreeCols|
            fe(row.leaf_chunk_start_ind@) == ind && fe(row.sponge_block@) == bl && fe(
                next.sponge_block@,
            ) == nb ==> #[trigger] leaf_win2(row, next, i) == val,
{
    assert forall|row: MerkleTreeCols, next: MerkleTreeCols|
        fe(row.leaf_chunk_start_ind@) == ind && fe(row.sponge_block@) == bl && fe(
            next.sponge_block@,
        ) == nb implies #[trigger] leaf_win2(row, next, i) == val by {
        assert forall|j: int| 8 <= j <= 14 implies (#[trigger] ind[j]) * (if j + i < 15 {
            bl[j + i]
        } else {
            nb[j + i - 15]
        }) == (
        if j == j2 {
            val
        } else {
            0int
        }) by {
            if j == j2 {
                assert(1 * val == val) by (nonlinear_arith);
            } else {
                assert(0 * (if j + i < 15 {
                    bl[j + i]
                } else {
                    nb[j + i - 15]
                }) == 0) by (nonlinear_arith);
            }
        }
    }
}

/// One signature's Merkle block receives each of its chain ends exactly
/// once on the leaf channel.
proof fn lemma_merkle_leaf_block(
    vi: &VerificationInput,
    mt_rows: Seq<MerkleTreeCols>,
    k: int,
    t: Seq<int>,
)
    requires
        vi.wf(),
        merkle_trace_padded(vi.traces@, vi.epoch as int, mt_rows),
        0 <= k < vi.traces@.len(),
    ensures
        rsum(
            |d: int| merkle_leaf_row_mult(mt_rows, merkle_tree::NUM_ROWS_PER_SIG as int * k + d, t),
            merkle_tree::NUM_ROWS_PER_SIG as int,
        ) == leaf_tuple_count(vi.traces@, k, t),
{
    let traces = vi.traces@;
    let vt = &traces[k];
    let b = merkle_tree::NUM_ROWS_PER_SIG as int;
    let f = |d: int| merkle_leaf_row_mult(mt_rows, b * k + d, t);
    assert forall|d: int| 0 <= d < b implies #[trigger] f(d) == (
    if t.len() == 2 + HASH_FE_LEN && t[0] == k && 1 <= t[1] <= NUM_CHUNKS && vt.x@[t[1] - 1]
        < MAX_X && d == 7 * t[1] / 15 && t.skip(2) == vt.chain_end(t[1] - 1) {
        1int
    } else {
        0int
    }) by {
        lemma_merkle_leaf_row(vi, mt_rows, k, d, t);
    }
    if t.len() == 2 + HASH_FE_LEN && t[0] == k && 1 <= t[1] <= NUM_CHUNKS && vt.x@[t[1] - 1]
        < MAX_X && t.skip(2) == vt.chain_end(t[1] - 1) {
        let d0 = 7 * t[1] / 15;
        assert(0 <= d0 < b) by {
            vstd::arithmetic::div_mod::lemma_div_pos_is_pos(7 * t[1], 15);
            vstd::arithmetic::div_mod::lemma_div_is_ordered(7 * t[1], 546int, 15);
            assert(546int / 15 == 36);
        }
        lemma_rsum_single(f, b, d0, 1);
    } else {
        lemma_rsum_zero(f, b);
    }
}

/// Bus balance on the leaf channel: for every tuple, the chain ends the
/// chain table sends — one per chain below the maximum chunk — equal the
/// chunks the Merkle table's sponge rows receive.
pub proof fn lemma_bus_balance_merkle_leaf(
    vi: &VerificationInput,
    ch_rows: Seq<ChainCols>,
    mt_rows: Seq<MerkleTreeCols>,
)
    requires
        vi.wf(),
        chain_trace_padded(vi.traces@, ch_rows),
        merkle_trace_padded(vi.traces@, vi.epoch as int, mt_rows),
    ensures
        forall|t: Seq<int>| #[trigger] chain_leaf_sum(ch_rows, t) == merkle_leaf_sum(mt_rows, t),
{
    let traces = vi.traces@;
    let n = traces.len() as int;
    assert forall|t: Seq<int>| #[trigger] chain_leaf_sum(ch_rows, t) == merkle_leaf_sum(
        mt_rows,
        t,
    ) by {
        let g = |k: int| leaf_tuple_count(traces, k, t);
        // the sending side
        let fc = |r: int|
            if chain_leaf_tuple(ch_rows, r) == t {
                chain_leaf_mult(ch_rows, r)
            } else {
                0
            };
        let bc = chain::NUM_ROWS_PER_SIG as int;
        assert forall|r: int| bc * n <= r < ch_rows.len() implies #[trigger] fc(r) == 0 by {
            assert(ch_rows[r].is_padding_row());
        }
        lemma_rsum_tail_zero(fc, bc * n, ch_rows.len() as int);
        lemma_rsum_blocks(fc, bc, n);
        let hc = |k: int| rsum(|d: int| fc(bc * k + d), bc);
        assert forall|k: int| 0 <= k < n implies #[trigger] hc(k) == g(k) by {
            lemma_chain_leaf_block(vi, ch_rows, k, t);
            assert((|d: int| fc(bc * k + d)) =~= (|d: int|
                if chain_leaf_tuple(ch_rows, bc * k + d) == t {
                    chain_leaf_mult(ch_rows, bc * k + d)
                } else {
                    0
                }));
        }
        lemma_rsum_congruence(hc, g, n);
        // the receiving side
        let fm = |r: int| merkle_leaf_row_mult(mt_rows, r, t);
        let bm = merkle_tree::NUM_ROWS_PER_SIG as int;
        assert forall|r: int| bm * n <= r < mt_rows.len() implies #[trigger] fm(r) == 0 by {
            assert(mt_rows[r].is_padding_row());
            lemma_leaf_mults_zero(mt_rows, r);
        }
        lemma_rsum_tail_zero(fm, bm * n, mt_rows.len() as int);
        lemma_rsum_blocks(fm, bm, n);
        let hm = |k: int| rsum(|d: int| fm(bm * k + d), bm);
        assert forall|k: int| 0 <= k < n implies #[trigger] hm(k) == g(k) by {
            lemma_merkle_leaf_block(vi, mt_rows, k, t);
            assert((|d: int| fm(bm * k + d)) =~= (|d: int|
                merkle_leaf_row_mult(mt_rows, bm * k + d, t)));
        }
        lemma_rsum_congruence(hm, g, n);
    }
}

pub proof fn lemma_decomposition_padding_extension(
    traces: Seq<VerificationTrace>,
    rows: Seq<DecompositionCols>,
    p: DecompositionCols,
)
    requires
        decomposition_trace_padded(traces, rows),
        p.is_padding_row(),
    ensures
        decomposition_trace_padded(traces, rows.push(p)),
{
    assert forall|k: int, s: int|
        0 <= k < traces.len() && 0 <= s < MSG_HASH_FE_LEN implies (
    #[trigger] decomposition::sig_row(rows.push(p), k, s)).is_acc_row(&traces[k], k, s) by {
        assert(k * decomposition::NUM_ROWS_PER_SIG + s < decomposition::NUM_ROWS_PER_SIG as int
            * traces.len());
        assert(decomposition::sig_row(rows.push(p), k, s) == decomposition::sig_row(rows, k, s));
    }
    assert forall|k: int, s: int|
        0 <= k < traces.len() && 0 <= s < NUM_MSG_HASH_LIMBS implies (
    #[trigger] decomposition::sig_row(
        rows.push(p),
        k,
        MSG_HASH_FE_LEN as int + s,
    )).is_decomposition_row(&traces[k], k, s) by {
        assert(k * decomposition::NUM_ROWS_PER_SIG + (MSG_HASH_FE_LEN as int + s)
            < decomposition::NUM_ROWS_PER_SIG as int * traces.len());
        assert(decomposition::sig_row(rows.push(p), k, MSG_HASH_FE_LEN as int + s)
            == decomposition::sig_row(rows, k, MSG_HASH_FE_LEN as int + s));
    }
}

pub proof fn lemma_merkle_padding_extension(
    traces: Seq<VerificationTrace>,
    epoch: int,
    rows: Seq<MerkleTreeCols>,
    p: MerkleTreeCols,
)
    requires
        merkle_trace_padded(traces, epoch, rows),
        p.is_padding_row(),
    ensures
        merkle_trace_padded(traces, epoch, rows.push(p)),
{
    merkle_tree::lemma_push_keeps_sig_rows_pub(rows, rows.push(p), traces, epoch, traces.len() as int);
}

/// Every law of this module holds of the five tables generated for one
/// batch: the bus balances on every channel, whatever the batch.
pub proof fn lemma_bus_balance(
    vi: &VerificationInput,
    chain_rows_s: Seq<ChainCols>,
    dec_rows: Seq<DecompositionCols>,
    main_rows: Seq<MainCols>,
    mt_rows: Seq<MerkleTreeCols>,
    counts: Seq<u32>,
)
    requires
        vi.wf(),
        chain::chain_trace_is(vi.traces@, chain_rows_s),
        decomposition::decomposition_trace_is(vi.traces@, dec_rows),
        crate::main_table::main_trace_is(vi.traces@, main_rows),
        merkle_tree::merkle_trace_is(vi.traces@, vi.epoch as int, mt_rows),
        counts.len() == crate::range_check::RANGE_CHECK_HEIGHT,
        forall|w: int|
            0 <= w < crate::range_check::RANGE_CHECK_HEIGHT ==> #[trigger] counts[w]
                == decomposition::occ(
                decomposition::batch_limb_list(vi.traces@, vi.traces@.len() as int),
                w,
            ),
    ensures
        forall|t: Seq<int>| #[trigger] main_param_sum(main_rows, t) == chain_param_sum(
            chain_rows_s,
            t,
        ),
        forall|t: Seq<int>| #[trigger] main_digest_sum(main_rows, t) == decomposition_digest_sum(
            dec_rows,
            t,
        ),
        forall|t: Seq<int>| #[trigger] main_root_sum(main_rows, t) == merkle_root_sum(mt_rows, t),
        forall|t: Seq<int>| #[trigger] dec_chain_sum(dec_rows, t) == chain_recv_sum(
            chain_rows_s,
            t,
        ),
        forall|t: Seq<int>| #[trigger] chain_leaf_sum(chain_rows_s, t) == merkle_leaf_sum(
            mt_rows,
            t,
        ),
        forall|v: int|
            0 <= v < crate::range_check::RANGE_CHECK_HEIGHT ==> #[trigger] decomposition_range_sum(
                dec_rows,
                v,
            ) == counts[v],
{
    lemma_main_trace_padded(vi.traces@, main_rows);
    lemma_chain_trace_padded(vi.traces@, chain_rows_s);
    lemma_decomposition_trace_padded(vi.traces@, dec_rows);
    lemma_merkle_trace_padded(vi.traces@, vi.epoch as int, mt_rows);
    lemma_bus_balance_parameter(vi, main_rows, chain_rows_s);
    lemma_bus_balance_decomposition(vi, main_rows, dec_rows);
    lemma_bus_balance_merkle_root(vi, main_rows, mt_rows);
    lemma_bus_balance_chain(vi, dec_rows, chain_rows_s);
    lemma_bus_balance_merkle_leaf(vi, chain_rows_s, mt_rows);
    lemma_bus_balance_range_check(vi, dec_rows, counts);
}

/// Multiplying by a zero residue gives zero.
proof fn lemma_fmul_zero(x: int)
    ensures
        crate::field::fmul(0, x) == 0,
        crate::field::fmul(x, 0) == 0,
{
    assert(0 * x == 0) by (nonlinear_arith);
    assert(x * 0 == 0) by (nonlinear_arith);
    vstd::arithmetic::div_mod::lemma_small_mod(0nat, crate::field::P as nat);
}

/// Small residues add without wrapping.
proof fn lemma_fadd_small(a: int)
    requires
        0 <= a < crate::field::P - 1,
    ensures
        crate::field::fadd(a, 1) == a + 1,
{
    vstd::arithmetic::div_mod::lemma_small_mod((a + 1) as nat, crate::field::P as nat);
}

/// The main table's generated trace satisfies the main constraint system:
/// the first row is active at index zero, the activity flag is boolean and
/// monotone, and the signature index counts up by one on every transition.
pub proof fn lemma_main_trace_constraints(
    traces: Seq<VerificationTrace>,
    rows: Seq<MainCols>,
)
    requires
        crate::main_table::main_trace_is(traces, rows),
        1 <= traces.len() <= 0x100000,
    ensures
        rows[0].first_row_ok(),
        forall|r: int| 0 <= r < rows.len() ==> (#[trigger] rows[r]).every_row_ok(),
        forall|r: int|
            0 <= r < rows.len() - 1 ==> (#[trigger] rows[r]).transition_ok(&rows[r + 1]),
{
    let n = traces.len() as int;
    crate::util::lemma_next_pow2_le(1, n);
    crate::util::lemma_next_pow2_ge(1, n);
    assert(crate::field::fsub(1, 1) == 0) by {
        vstd::arithmetic::div_mod::lemma_mod_add_multiples_vanish(0, crate::field::P as int);
        vstd::arithmetic::div_mod::lemma_small_mod(0nat, crate::field::P as nat);
    }
    assert forall|r: int| 0 <= r < rows.len() implies (#[trigger] rows[r]).every_row_ok() by {
        if r < n {
            assert(rows[r].is_sig_row(&traces[r], r));
            assert(crate::field::fmul(1, crate::field::fsub(1, 1)) == 0) by {
                lemma_fmul_zero(1);
            }
        } else {
            assert(rows[r].is_padding_row(r));
            lemma_fmul_zero(crate::field::fsub(0, 1));
        }
    }
    assert forall|r: int|
        0 <= r < rows.len() - 1 implies (#[trigger] rows[r]).transition_ok(&rows[r + 1]) by {
        assert(rows[r].sig_idx@ == r && rows[r + 1].sig_idx@ == r + 1) by {
            if r < n {
                assert(rows[r].is_sig_row(&traces[r], r));
            } else {
                assert(rows[r].is_padding_row(r));
            }
            if r + 1 < n {
                assert(rows[r + 1].is_sig_row(&traces[r + 1], r + 1));
            } else {
                assert(rows[r + 1].is_padding_row(r + 1));
            }
        }
        lemma_fadd_small(r);
        if r + 1 < n {
            assert(rows[r].is_sig_row(&traces[r], r));
            assert(rows[r + 1].is_sig_row(&traces[r + 1], r + 1));
            lemma_fmul_zero(crate::field::fsub(1, 1));
        } else {
            assert(rows[r + 1].is_padding_row(r + 1));
            lemma_fmul_zero(crate::field::fsub(1, rows[r].is_active@));
        }
    }
}

/// The range-check table's generated trace satisfies its constraint system:
/// the value column starts at zero and counts up by one, so its content is
/// fixed independent of the witness.
pub proof fn lemma_range_check_trace_constraints(counts: Seq<u32>, rows: Seq<RangeCheckCols>)
    requires
        crate::range_check::range_check_trace_is(counts, rows),
    ensures
        rows[0].first_row_ok(),
        forall|r: int|
            0 <= r < rows.len() - 1 ==> (#[trigger] rows[r]).transition_ok(&rows[r + 1]),
{
    assert forall|r: int|
        0 <= r < rows.len() - 1 implies (#[trigger] rows[r]).transition_ok(&rows[r + 1]) by {
        lemma_fadd_small(r);
    }
}

/// The two low bits of a small value.
proof fn lemma_low_bits(v: int)
    requires
        0 <= v < 4,
    ensures
        decomposition::bit_of(v, 0) == v % 2,
        decomposition::bit_of(v, 1) == v / 2,
        0 <= v % 2 <= 1,
        0 <= v / 2 <= 1,
{
    vstd::arithmetic::power2::lemma2_to64();
    vstd::arithmetic::div_mod::lemma_div_basics(v);
    vstd::arithmetic::div_mod::lemma_small_mod((v / 2) as nat, 2);
}

/// A populated cyclic counter's last-step flag indicates the last step.
proof fn lemma_at_last_eval(c: crate::gadget::CycleInt, s: int, period: int)
    requires
        c.is_populated(s, period),
        0 <= s < crate::field::P,
        1 <= period <= crate::field::P,
    ensures
        c.at_last() == (if s == period - 1 {
            1int
        } else {
            0int
        }),
{
    if s == period - 1 {
        crate::field::lemma_fsub_self(s);
    } else {
        crate::gadget::lemma_fsub_nonzero(s, period - 1);
    }
}

/// A row whose step bits decompose a small value recomposes it, and flags
/// exactly the last hash application.
proof fn lemma_chain_step_eval(row: ChainCols, v: int)
    requires
        row.chain_step_bits@.len() == 2,
        fe(row.chain_step_bits@) == seq![
            decomposition::bit_of(v, 0),
            decomposition::bit_of(v, 1),
        ],
        0 <= v < 4,
    ensures
        row.chain_step_val() == v,
        row.is_last_chain_step_val() == (if v == 2 {
            1int
        } else {
            0int
        }),
        fe(row.chain_step_bits@)[0] == 0 || fe(row.chain_step_bits@)[0] == 1,
        fe(row.chain_step_bits@)[1] == 0 || fe(row.chain_step_bits@)[1] == 1,
{
    lemma_low_bits(v);
    let b0 = v % 2;
    let b1 = v / 2;
    crate::field::lemma_fmul_no_wrap(2, b1);
    crate::field::lemma_fadd_no_wrap(b0, 2 * b1);
    vstd::arithmetic::div_mod::lemma_fundamental_div_mod(v, 2);
    if v == 2 {
        crate::field::lemma_fsub_no_wrap(1, 0);
        crate::field::lemma_fmul_by_one(1);
    } else if b0 == 1 {
        crate::field::lemma_fsub_no_wrap(1, 1);
        crate::field::lemma_fmul_by_zero(b1);
    } else {
        crate::field::lemma_fsub_no_wrap(1, 0);
        crate::field::lemma_fmul_by_one(b1);
    }
}

/// Six bits recompose their value.
proof fn lemma_bits6_recompose(d: int)
    requires
        0 <= d < 64,
    ensures
        d == decomposition::bit_of(d, 0) + 2 * decomposition::bit_of(d, 1) + 4
            * decomposition::bit_of(d, 2) + 8 * decomposition::bit_of(d, 3) + 16
            * decomposition::bit_of(d, 4) + 32 * decomposition::bit_of(d, 5),
        forall|b: int|
            0 <= b < 6 ==> 0 <= #[trigger] decomposition::bit_of(d, b) <= 1,
{
    vstd::arithmetic::power2::lemma2_to64();
    assert forall|b: int| 0 <= b < 6 implies 0 <= #[trigger] decomposition::bit_of(d, b)
        <= 1 by {
        vstd::arithmetic::power2::lemma_pow2_pos(b as nat);
        vstd::arithmetic::div_mod::lemma_div_pos_is_pos(d, crate::field::p2(b));
        vstd::arithmetic::div_mod::lemma_mod_bound(d / crate::field::p2(b), 2);
    }
    vstd::arithmetic::div_mod::lemma_div_basics(d);
    let q1 = d / 2;
    let q2 = q1 / 2;
    let q3 = q2 / 2;
    let q4 = q3 / 2;
    let q5 = q4 / 2;
    assert(q1 == d / crate::field::p2(1) && q2 == d / crate::field::p2(2) && q3 == d
        / crate::field::p2(3) && q4 == d / crate::field::p2(4) && q5 == d
        / crate::field::p2(5)) by {
        vstd::arithmetic::div_mod::lemma_div_denominator(d, 2, 2);
        vstd::arithmetic::div_mod::lemma_div_denominator(d, 4, 2);
        vstd::arithmetic::div_mod::lemma_div_denominator(d, 8, 2);
        vstd::arithmetic::div_mod::lemma_div_denominator(d, 16, 2);
    }
    vstd::arithmetic::div_mod::lemma_fundamental_div_mod(d, 2);
    vstd::arithmetic::div_mod::lemma_fundamental_div_mod(q1, 2);
    vstd::arithmetic::div_mod::lemma_fundamental_div_mod(q2, 2);
    vstd::arithmetic::div_mod::lemma_fundamental_div_mod(q3, 2);
    vstd::arithmetic::div_mod::lemma_fundamental_div_mod(q4, 2);
    vstd::arithmetic::div_mod::lemma_fundamental_div_mod(q5, 2);
    assert(q5 / 2 == 0) by {
        vstd::arithmetic::div_mod::lemma_basic_div(q5, 2);
    }
}

/// A row whose difference bits decompose a small jump recomposes it.
proof fn lemma_diff_sum_eval(row: ChainCols, d: int)
    requires
        row.chain_idx_diff_bits@.len() == chain::MAX_CHAIN_STEP_DIFF_BITS,
        fe(row.chain_idx_diff_bits@) == Seq::new(
            chain::MAX_CHAIN_STEP_DIFF_BITS as nat,
            |b: int| decomposition::bit_of(d, b),
        ),
        0 <= d < 64,
    ensures
        row.diff_sum_val() == d,
{
    lemma_bits6_recompose(d);
    let b = fe(row.chain_idx_diff_bits@);
    crate::field::lemma_fmul_no_wrap(2, b[1]);
    crate::field::lemma_fmul_no_wrap(4, b[2]);
    crate::field::lemma_fmul_no_wrap(8, b[3]);
    crate::field::lemma_fmul_no_wrap(16, b[4]);
    crate::field::lemma_fmul_no_wrap(32, b[5]);
    crate::field::lemma_fadd_no_wrap(b[0], 2 * b[1]);
    crate::field::lemma_fadd_no_wrap(b[0] + 2 * b[1], 4 * b[2]);
    crate::field::lemma_fadd_no_wrap(b[0] + 2 * b[1] + 4 * b[2], 8 * b[3]);
    crate::field::lemma_fadd_no_wrap(b[0] + 2 * b[1] + 4 * b[2] + 8 * b[3], 16 * b[4]);
    crate::field::lemma_fadd_no_wrap(b[0] + 2 * b[1] + 4 * b[2] + 8 * b[3] + 16 * b[4], 32 * b[5]);
}

/// Shared facts about one active generated chain row.
#[verifier::rlimit(100)]
proof fn lemma_chain_row_facts(vi: &VerificationInput, rows: Seq<ChainCols>, k: int, r2: int)
    requires
        vi.wf(),
        chain::chain_trace_is(vi.traces@, rows),
        0 <= k < vi.traces@.len(),
        0 <= r2 < chain::NUM_ROWS_PER_SIG,
    ensures
        ({
            let row = chain::sig_row(rows, k, r2);
            let x = vi.traces@[k].x@;
            let i = chain_rows(x)[r2].0;
            let j = chain_rows(x)[r2].1;
            &&& row.is_chain_row(&vi.traces@[k], k, r2)
            &&& 0 <= i < NUM_CHUNKS
            &&& 0 <= j < MAX_X - x[i]
            &&& row.chain_step_val() == x[i] + j
            &&& row.is_last_chain_step_val() == (if x[i] + j == 2 {
                1int
            } else {
                0int
            })
            &&& row.sig_step.at_last() == (if r2 == chain::NUM_ROWS_PER_SIG as int - 1 {
                1int
            } else {
                0int
            })
            &&& fe(row.perm.input@).len() == WIDTH_CHAIN
            &&& fe(row.perm.input@)[12] == 4 * vi.epoch as int
            &&& fe(row.perm.input@)[13] == i * 0x10000 + (x[i] + j) + 1
            &&& fe(row.perm.input@)[14] == 0 && fe(row.perm.input@)[15] == 0
            &&& forall|t: int|
                0 <= t < PARAM_FE_LEN ==> #[trigger] fe(row.perm.input@)[HASH_FE_LEN + t] == fe(
                    vi.traces@[k].pk.parameter@,
                )[t]
            &&& 0 <= diff_of(x, r2) < 64
        }),
{
    let vt = &vi.traces@[k];
    let x = vt.x@;
    assert(vt.wf(vi.epoch as int, encoded_msg_spec(vi.msg@)));
    crate::chip::lemma_wf_gives_chain_input(vi, k);
    chain::lemma_chain_rows_total(x);
    crate::util::lemma_next_pow2_ge(
        1,
        chain::NUM_ROWS_PER_SIG as int * vi.traces@.len() as int,
    );
    assert(k * chain::NUM_ROWS_PER_SIG + r2 < rows.len()) by (nonlinear_arith)
        requires
            0 <= k < vi.traces@.len(),
            0 <= r2 < chain::NUM_ROWS_PER_SIG,
            rows.len() >= chain::NUM_ROWS_PER_SIG as int * vi.traces@.len(),
    ;
    let row = chain::sig_row(rows, k, r2);
    assert(row.wf());
    assert(row.is_chain_row(vt, k, r2));
    chain::lemma_chain_rows_position(x, r2);
    let i = chain_rows(x)[r2].0;
    let j = chain_rows(x)[r2].1;
    assert(0 <= j < vt.chains_at(i).steps@.len());
    assert(vt.wf_chain_step(vi.epoch as int, i, j));
    lemma_chain_step_eval(row, x[i] + j);
    lemma_at_last_eval(row.sig_step, r2, chain::NUM_ROWS_PER_SIG as int);
    // the compression input's layout: walking value, parameter, tweak, pads
    assert((if j == 0 {
        fe(vt.chains_at(i).revealed@)
    } else {
        vt.chains_at(i).steps@[j - 1].ff_prefix(HASH_FE_LEN as int)
    }).len() == HASH_FE_LEN);
    assert(fe(row.perm.input@)[13] == (i * 0x10000 + (x[i] + j + 1)) % (crate::field::P as int));
    vstd::arithmetic::div_mod::lemma_small_mod(
        (i * 0x10000 + (x[i] + j) + 1) as nat,
        crate::field::P as nat,
    );
    vstd::arithmetic::div_mod::lemma_small_mod((4 * vi.epoch) as nat, crate::field::P as nat);
    chain::lemma_diff_of_bound(x, r2);
}

/// The generated chain trace satisfies the chain constraint system, given
/// genuine inverse witnesses (the modulus is prime).
#[verifier::rlimit(100)]
pub proof fn lemma_chain_trace_constraints(vi: &VerificationInput, rows: Seq<ChainCols>)
    requires
        vi.wf(),
        chain::chain_trace_is(vi.traces@, rows),
        crate::field::residues_invert(),
    ensures
        rows[0].first_row_ok(),
        forall|r: int|
            0 <= r < rows.len() ==> (#[trigger] rows[r]).every_row_ok(4 * vi.epoch as int),
        forall|r: int|
            0 <= r < rows.len() - 1 ==> (#[trigger] rows[r]).transition_ok(&rows[r + 1]),
{
    let traces = vi.traces@;
    let n = traces.len() as int;
    let b = chain::NUM_ROWS_PER_SIG as int;
    crate::util::lemma_next_pow2_ge(1, b * n);
    // the first row opens signature zero on a revealed value
    assert(rows[0].first_row_ok()) by {
        lemma_chain_row_facts(vi, rows, 0, 0);
        crate::chip::lemma_wf_gives_chain_input(vi, 0);
        chain::lemma_chain_rows_total(traces[0].x@);
        chain::lemma_chain_rows_position(traces[0].x@, 0);
        assert(rows[0] == chain::sig_row(rows, 0, 0));
    }
    assert forall|r: int| 0 <= r < rows.len() implies (#[trigger] rows[r]).every_row_ok(
        4 * vi.epoch as int,
    ) by {
        lemma_chain_every_row(vi, rows, r);
    }
    assert forall|r: int|
        0 <= r < rows.len() - 1 implies (#[trigger] rows[r]).transition_ok(&rows[r + 1]) by {
        lemma_chain_transition(vi, rows, r);
    }
}

/// Every generated chain row satisfies the row-local constraints.
#[verifier::rlimit(100)]
proof fn lemma_chain_every_row(vi: &VerificationInput, rows: Seq<ChainCols>, r: int)
    requires
        vi.wf(),
        chain::chain_trace_is(vi.traces@, rows),
        crate::field::residues_invert(),
        0 <= r < rows.len(),
    ensures
        rows[r].every_row_ok(4 * vi.epoch as int),
{
    let traces = vi.traces@;
    let n = traces.len() as int;
    let b = chain::NUM_ROWS_PER_SIG as int;
    let row = rows[r];
    if r < b * n {
        let k = r / b;
        let r2 = r % b;
        vstd::arithmetic::div_mod::lemma_fundamental_div_mod(r, b);
        vstd::arithmetic::div_mod::lemma_mod_bound(r, b);
        assert(0 <= k < n) by (nonlinear_arith)
            requires
                r == b * k + r2,
                0 <= r2 < b,
                0 <= r < b * n,
                b >= 1,
        ;
        lemma_chain_row_facts(vi, rows, k, r2);
        assert(row == chain::sig_row(rows, k, r2));
        let x = traces[k].x@;
        let i = chain_rows(x)[r2].0;
        let j = chain_rows(x)[r2].1;
        crate::field::lemma_bool_constraint(1);
        crate::gadget::lemma_cycle_constraints(row.sig_step, r2, b);
        lemma_chain_step_eval(row, x[i] + j);
        crate::field::lemma_bool_constraint(fe(row.chain_step_bits@)[0]);
        crate::field::lemma_bool_constraint(fe(row.chain_step_bits@)[1]);
        assert(fmul(fe(row.chain_step_bits@)[0], fe(row.chain_step_bits@)[1]) == 0) by {
            lemma_low_bits(x[i] + j);
            if fe(row.chain_step_bits@)[0] == 0 {
                crate::field::lemma_fmul_by_zero(fe(row.chain_step_bits@)[1]);
            } else {
                assert((x[i] + j) / 2 == 0);
                crate::field::lemma_fmul_by_zero(fe(row.chain_step_bits@)[0]);
            }
        }
        assert forall|t: int| 0 <= t < chain::MAX_CHAIN_STEP_DIFF_BITS implies fmul(
            #[trigger] fe(row.chain_idx_diff_bits@)[t],
            fsub(fe(row.chain_idx_diff_bits@)[t], 1),
        ) == 0 by {
            lemma_bits6_recompose(diff_of(x, r2));
            crate::field::lemma_bool_constraint(fe(row.chain_idx_diff_bits@)[t]);
        }
        crate::field::lemma_bool_constraint(row.is_x_i@);
        // the tweak lanes match the public value and the chain coordinates
        crate::field::lemma_fsub_self(4 * vi.epoch as int);
        crate::field::lemma_fmul_by_one(0);
        assert(fadd(fadd(fmul(row.chain_idx@, 0x10000), row.chain_step_val()), 1) == i * 0x10000
            + (x[i] + j) + 1) by {
            crate::field::lemma_fmul_no_wrap(i, 0x10000);
            crate::field::lemma_fadd_no_wrap(i * 0x10000, x[i] + j);
            crate::field::lemma_fadd_no_wrap(i * 0x10000 + (x[i] + j), 1);
        }
        crate::field::lemma_fsub_self(i * 0x10000 + (x[i] + j) + 1);
    } else {
        assert(row.is_padding_row());
        crate::field::lemma_bool_constraint(0);
        crate::gadget::lemma_cycle_constraints(row.sig_step, 0, b);
        crate::field::lemma_fmul_by_zero(fsub(0, 1));
        assert forall|t: int| 0 <= t < chain::MAX_CHAIN_STEP_DIFF_BITS implies fmul(
            #[trigger] fe(row.chain_idx_diff_bits@)[t],
            fsub(fe(row.chain_idx_diff_bits@)[t], 1),
        ) == 0 by {
            crate::field::lemma_bool_constraint(0);
        }
        crate::field::lemma_fmul_by_zero(
            fsub(fe(row.perm.input@)[12], 4 * vi.epoch as int),
        );
        crate::field::lemma_fmul_by_zero(
            fsub(
                fe(row.perm.input@)[13],
                fadd(fadd(fmul(row.chain_idx@, 0x10000), row.chain_step_val()), 1),
            ),
        );
    }
}

/// Shared facts about one generated padding chain row.
proof fn lemma_chain_padding_facts(row: ChainCols)
    requires
        row.is_padding_row(),
    ensures
        row.sig_step.at_last() == 0,
        row.chain_step_val() == 0,
        row.is_last_chain_step_val() == 0,
        row.is_sig_transition_val() == 0,
{
    lemma_at_last_eval(row.sig_step, 0, chain::NUM_ROWS_PER_SIG as int);
    crate::field::lemma_fmul_by_zero(2);
    crate::field::lemma_fadd_no_wrap(0, fmul(2, 0));
    crate::field::lemma_fsub_no_wrap(1, 0);
    crate::field::lemma_fmul_by_one(0);
    crate::field::lemma_fmul_by_zero(fsub(1, 0));
}

/// Every adjacent pair of generated chain rows satisfies the transition
/// constraints.
#[verifier::rlimit(100)]
proof fn lemma_chain_transition(vi: &VerificationInput, rows: Seq<ChainCols>, r: int)
    requires
        vi.wf(),
        chain::chain_trace_is(vi.traces@, rows),
        crate::field::residues_invert(),
        0 <= r < rows.len() - 1,
    ensures
        rows[r].transition_ok(&rows[r + 1]),
{
    let traces = vi.traces@;
    let n = traces.len() as int;
    let b = chain::NUM_ROWS_PER_SIG as int;
    crate::util::lemma_next_pow2_ge(1, b * n);
    let local = rows[r];
    let next = rows[r + 1];
    crate::field::lemma_fsub_no_wrap(1, 0);
    crate::field::lemma_fsub_no_wrap(1, 1);
    crate::field::lemma_fmul_by_one(0);
    crate::field::lemma_fmul_by_one(1);
    if r + 1 < b * n {
        let k = r / b;
        let r2 = r % b;
        vstd::arithmetic::div_mod::lemma_fundamental_div_mod(r, b);
        vstd::arithmetic::div_mod::lemma_mod_bound(r, b);
        assert(0 <= k < n) by (nonlinear_arith)
            requires
                r == b * k + r2,
                0 <= r2 < b,
                0 <= r < b * n,
                b >= 1,
        ;
        lemma_chain_row_facts(vi, rows, k, r2);
        assert(local == chain::sig_row(rows, k, r2));
        let x = traces[k].x@;
        crate::chip::lemma_wf_gives_chain_input(vi, k);
        chain::lemma_chain_rows_total(x);
        let i = chain_rows(x)[r2].0;
        let j = chain_rows(x)[r2].1;
        let v = x[i] + j;
        crate::field::lemma_fadd_no_wrap(r2, 1);
        crate::field::lemma_fadd_no_wrap(k, 1);
        crate::field::lemma_fsub_self(k);
        crate::field::lemma_fsub_self(0);
        if r2 < b - 1 {
            // the next row stays in the same signature
            assert(r + 1 == b * k + (r2 + 1));
            lemma_chain_row_facts(vi, rows, k, r2 + 1);
            assert(next == chain::sig_row(rows, k, r2 + 1));
            let i2 = chain_rows(x)[r2 + 1].0;
            let j2 = chain_rows(x)[r2 + 1].1;
            // activity, counter, signature index
            crate::field::lemma_fsub_self(r2 + 1);
            crate::gadget::lemma_select_bool(0, fadd(r2, 1), 0);
            vstd::arithmetic::div_mod::lemma_mod_bound(
                fmul(fsub(1, next.is_active@), 0) + fmul(next.is_active@, fadd(k, 1)),
                crate::field::P as int,
            );
            crate::gadget::lemma_select_bool(1, 0, fadd(k, 1));
            vstd::arithmetic::div_mod::lemma_mod_bound(
                (fmul(fsub(1, 1), 0) + fmul(1, fadd(k, 1))) % (crate::field::P as int),
                crate::field::P as int,
            );
            crate::gadget::lemma_select_bool(
                0,
                k,
                crate::gadget::select_spec(next.is_active@, 0, fadd(k, 1)),
            );
            assert(crate::gadget::select_spec(next.is_active@, 0, fadd(k, 1))
                < crate::field::P) by {
                vstd::arithmetic::div_mod::lemma_mod_bound(
                    fmul(fsub(1, next.is_active@), 0) + fmul(next.is_active@, fadd(k, 1)),
                    crate::field::P as int,
                );
            }
            // parameter lanes persist
            assert forall|t: int| 0 <= t < PARAM_FE_LEN implies fmul(
                local.is_sig_transition_val(),
                fsub(
                    #[trigger] fe(next.perm.input@)[HASH_FE_LEN + t],
                    fe(local.perm.input@)[HASH_FE_LEN + t],
                ),
            ) == 0 by {
                crate::field::lemma_fsub_self(fe(local.perm.input@)[HASH_FE_LEN + t]);
                crate::field::lemma_fmul_by_zero(0);
                crate::field::lemma_fmul_by_one(0);
                assert(local.is_sig_transition_val() == 1);
            }
            assert(fmul(fmul(local.sig_step.at_last(), next.is_active@), fsub(next.is_x_i@, 1))
                == 0) by {
                crate::field::lemma_fmul_by_zero(next.is_active@);
                crate::field::lemma_fmul_by_zero(fsub(next.is_x_i@, 1));
            }
            if j < MAX_X - x[i] - 1 {
                // the chain continues
                chain::lemma_chain_rows_at(x, i, j + 1);
                chain::lemma_chain_rows_position(x, r2);
                assert(chain_rows(x)[r2 + 1] == (i, j + 1));
                assert(local.is_last_chain_step_val() == 0);
                assert(local.is_sig_transition_val() == 1);
                let ct = fmul(local.is_sig_transition_val(), fsub(
                    1,
                    local.is_last_chain_step_val(),
                ));
                assert(ct == 1);
                crate::field::lemma_fsub_self(i as int);
                crate::field::lemma_fadd_no_wrap(v, 1);
                crate::field::lemma_fsub_self(v + 1);
                assert(traces[k].wf(vi.epoch as int, encoded_msg_spec(vi.msg@)));
                assert(traces[k].wf_chain_step(vi.epoch as int, i, j + 1));
                assert forall|t: int| 0 <= t < HASH_FE_LEN implies fmul(
                    ct,
                    fsub(#[trigger] fe(next.perm.input@)[t], local.perm.ff(t)),
                ) == 0 by {
                    assert(fe(next.perm.input@)[t] == traces[k].chains_at(i).steps@[j].ff_prefix(
                        HASH_FE_LEN as int,
                    )[t]);
                    assert(local.perm.ff(t) == traces[k].chains_at(i).steps@[j].ff(t));
                    crate::field::lemma_fsub_self(local.perm.ff(t));
                    crate::field::lemma_fmul_by_one(0);
                }
                // the boundary clauses are gated off
                crate::field::lemma_fsub_self(0);
                crate::field::lemma_fmul_by_zero(
                    fsub(next.chain_idx@, fadd(fadd(local.chain_idx@, 1), next.diff_sum_val())),
                );
                crate::field::lemma_fmul_by_zero(fsub(next.is_x_i@, 1));
                assert(fsub(local.is_last_chain_step_val(), local.sig_step.at_last()) == 0);
            } else {
                // the chain ends here and the next hashed chain opens
                chain::lemma_chain_rows_position(x, r2);
                chain::lemma_chain_rows_succ(x, r2);
                assert(j2 == 0 && i2 > i);
                assert(local.is_last_chain_step_val() == 1);
                let ct = fmul(local.is_sig_transition_val(), fsub(
                    1,
                    local.is_last_chain_step_val(),
                ));
                assert(ct == fmul(1, 0));
                assert(ct == 0);
                crate::field::lemma_fmul_by_zero(next.is_x_i@);
                crate::field::lemma_fmul_by_zero(fsub(next.chain_idx@, local.chain_idx@));
                crate::field::lemma_fmul_by_zero(
                    fsub(next.chain_step_val(), fadd(local.chain_step_val(), 1)),
                );
                assert forall|t: int| 0 <= t < HASH_FE_LEN implies fmul(
                    ct,
                    fsub(#[trigger] fe(next.perm.input@)[t], local.perm.ff(t)),
                ) == 0 by {
                    crate::field::lemma_fmul_by_zero(
                        fsub(fe(next.perm.input@)[t], local.perm.ff(t)),
                    );
                }
                // the jump clause is live
                let cb = fsub(local.is_last_chain_step_val(), local.sig_step.at_last());
                assert(cb == 1);
                chain::lemma_diff_of_bound(x, r2 + 1);
                assert(diff_of(x, r2 + 1) == i2 - i - 1);
                lemma_diff_sum_eval(next, i2 - i - 1);
                crate::field::lemma_fadd_no_wrap(i, 1);
                crate::field::lemma_fadd_no_wrap(i + 1, i2 - i - 1);
                crate::field::lemma_fsub_self(i2 as int);
                crate::field::lemma_fsub_self(1);
            }
        } else {
            // signature boundary: the next signature opens
            assert(r2 == b - 1);
            assert(r + 1 == b * (k + 1));
            assert(k + 1 < n) by (nonlinear_arith)
                requires
                    r + 1 == b * (k + 1),
                    r + 1 < b * n,
                    b >= 1,
            ;
            lemma_chain_row_facts(vi, rows, k + 1, 0);
            assert(next == chain::sig_row(rows, k + 1, 0));
            assert(local.sig_step.at_last() == 1);
            crate::chip::lemma_wf_gives_chain_input(vi, k + 1);
            chain::lemma_chain_rows_total(traces[k + 1].x@);
            chain::lemma_chain_rows_position(traces[k + 1].x@, 0);
            assert(next.is_x_i@ == 1);
            // counter wraps, signature index steps
            crate::field::lemma_fsub_self(0);
            crate::gadget::lemma_select_bool(1, fadd(r2, 1), 0);
            crate::gadget::lemma_select_bool(1, 0, fadd(k, 1));
            crate::gadget::lemma_select_bool(
                1,
                k,
                crate::gadget::select_spec(next.is_active@, 0, fadd(k, 1)),
            );
            assert(crate::gadget::select_spec(1, 0, fadd(k, 1)) == k + 1);
            crate::field::lemma_fsub_self(k + 1);
            // the within-signature clauses are gated off
            assert(local.is_sig_transition_val() == fmul(1, 0));
            assert(local.is_sig_transition_val() == 0);
            assert forall|t: int| 0 <= t < PARAM_FE_LEN implies fmul(
                local.is_sig_transition_val(),
                fsub(
                    #[trigger] fe(next.perm.input@)[HASH_FE_LEN + t],
                    fe(local.perm.input@)[HASH_FE_LEN + t],
                ),
            ) == 0 by {
                crate::field::lemma_fmul_by_zero(
                    fsub(fe(next.perm.input@)[HASH_FE_LEN + t], fe(
                        local.perm.input@,
                    )[HASH_FE_LEN + t]),
                );
            }
            assert(fmul(fmul(local.sig_step.at_last(), next.is_active@), fsub(next.is_x_i@, 1))
                == 0) by {
                crate::field::lemma_fsub_self(1);
                crate::field::lemma_fmul_by_one(1);
                crate::field::lemma_fmul_by_one(0);
            }
            let ct = fmul(local.is_sig_transition_val(), fsub(1, local.is_last_chain_step_val()));
            assert(ct == 0) by {
                crate::field::lemma_fmul_by_zero(fsub(1, local.is_last_chain_step_val()));
            }
            crate::field::lemma_fmul_by_zero(next.is_x_i@);
            crate::field::lemma_fmul_by_zero(fsub(next.chain_idx@, local.chain_idx@));
            crate::field::lemma_fmul_by_zero(
                fsub(next.chain_step_val(), fadd(local.chain_step_val(), 1)),
            );
            assert forall|t: int| 0 <= t < HASH_FE_LEN implies fmul(
                ct,
                fsub(#[trigger] fe(next.perm.input@)[t], local.perm.ff(t)),
            ) == 0 by {
                crate::field::lemma_fmul_by_zero(fsub(fe(next.perm.input@)[t], local.perm.ff(t)));
            }
            // the last row of a signature ends its chain, so the jump clause
            // is gated off too
            chain::lemma_chain_rows_sig_last(x);
            assert(local.is_last_chain_step_val() == 1);
            let cb = fsub(local.is_last_chain_step_val(), local.sig_step.at_last());
            assert(cb == 0) by {
                crate::field::lemma_fsub_self(1);
            }
            crate::field::lemma_fmul_by_zero(
                fsub(next.chain_idx@, fadd(fadd(local.chain_idx@, 1), next.diff_sum_val())),
            );
            crate::field::lemma_fmul_by_zero(fsub(next.is_x_i@, 1));
        }
    } else if r < b * n {
        // the last active row hands over to padding
        assert(r == b * n - 1);
        let k = n - 1;
        let r2 = b - 1;
        assert(r == b * k + r2) by (nonlinear_arith)
            requires
                r == b * n - 1,
                k == n - 1,
                r2 == b - 1,
                b >= 1,
        ;
        lemma_chain_row_facts(vi, rows, k, r2);
        assert(local == chain::sig_row(rows, k, r2));
        assert(next.is_padding_row());
        lemma_chain_padding_facts(next);
        let x = traces[k].x@;
        crate::field::lemma_fmul_by_zero(fsub(1, local.is_active@));
        assert(local.sig_step.at_last() == 1);
        crate::field::lemma_fadd_no_wrap(r2, 1);
        crate::gadget::lemma_select_bool(1, fadd(r2, 1), 0);
        crate::field::lemma_fsub_self(0);
        crate::field::lemma_fadd_no_wrap(k, 1);
        crate::gadget::lemma_select_bool(0, 0, fadd(k, 1));
        crate::gadget::lemma_select_bool(
            1,
            k,
            crate::gadget::select_spec(next.is_active@, 0, fadd(k, 1)),
        );
        assert forall|t: int| 0 <= t < PARAM_FE_LEN implies fmul(
            local.is_sig_transition_val(),
            fsub(
                #[trigger] fe(next.perm.input@)[HASH_FE_LEN + t],
                fe(local.perm.input@)[HASH_FE_LEN + t],
            ),
        ) == 0 by {
            assert(local.is_sig_transition_val() == fmul(1, 0));
            crate::field::lemma_fmul_by_zero(
                fsub(fe(next.perm.input@)[HASH_FE_LEN + t], fe(local.perm.input@)[HASH_FE_LEN
                    + t]),
            );
        }
        assert(fmul(fmul(local.sig_step.at_last(), next.is_active@), fsub(next.is_x_i@, 1))
            == 0) by {
            crate::field::lemma_fmul_by_one(0);
            crate::field::lemma_fmul_by_zero(fsub(next.is_x_i@, 1));
        }
        let ct = fmul(local.is_sig_transition_val(), fsub(1, local.is_last_chain_step_val()));
        assert(ct == 0) by {
            assert(local.is_sig_transition_val() == fmul(1, 0));
            crate::field::lemma_fmul_by_zero(fsub(1, local.is_last_chain_step_val()));
        }
        crate::field::lemma_fmul_by_zero(next.is_x_i@);
        crate::field::lemma_fmul_by_zero(fsub(next.chain_idx@, local.chain_idx@));
        crate::field::lemma_fmul_by_zero(
            fsub(next.chain_step_val(), fadd(local.chain_step_val(), 1)),
        );
        assert forall|t: int| 0 <= t < HASH_FE_LEN implies fmul(
            ct,
            fsub(#[trigger] fe(next.perm.input@)[t], local.perm.ff(t)),
        ) == 0 by {
            crate::field::lemma_fmul_by_zero(fsub(fe(next.perm.input@)[t], local.perm.ff(t)));
        }
        chain::lemma_chain_rows_sig_last(x);
        assert(local.is_last_chain_step_val() == 1);
        let cb = fsub(local.is_last_chain_step_val(), local.sig_step.at_last());
        assert(cb == 0) by {
            crate::field::lemma_fsub_self(1);
        }
        crate::field::lemma_fmul_by_zero(
            fsub(next.chain_idx@, fadd(fadd(local.chain_idx@, 1), next.diff_sum_val())),
        );
        crate::field::lemma_fmul_by_zero(fsub(next.is_x_i@, 1));
    } else {
        // padding persists
        assert(local.is_padding_row());
        assert(next.is_padding_row());
        lemma_chain_padding_facts(local);
        lemma_chain_padding_facts(next);
        crate::field::lemma_fmul_by_zero(fsub(1, local.is_active@));
        crate::field::lemma_fmul_by_zero(
            fsub(
                next.sig_step.step@,
                crate::gadget::select_spec(local.sig_step.at_last(), fadd(
                    local.sig_step.step@,
                    1,
                ), 0),
            ),
        );
        crate::field::lemma_fadd_no_wrap(0, 1);
        crate::gadget::lemma_select_bool(0, 0, fadd(0, 1));
        crate::gadget::lemma_select_bool(
            0,
            0,
            crate::gadget::select_spec(next.is_active@, 0, fadd(local.sig_idx@, 1)),
        );
        crate::field::lemma_fsub_self(0);
        assert forall|t: int| 0 <= t < PARAM_FE_LEN implies fmul(
            local.is_sig_transition_val(),
            fsub(
                #[trigger] fe(next.perm.input@)[HASH_FE_LEN + t],
                fe(local.perm.input@)[HASH_FE_LEN + t],
            ),
        ) == 0 by {
            crate::field::lemma_fmul_by_zero(
                fsub(fe(next.perm.input@)[HASH_FE_LEN + t], fe(local.perm.input@)[HASH_FE_LEN
                    + t]),
            );
        }
        assert(fmul(fmul(local.sig_step.at_last(), next.is_active@), fsub(next.is_x_i@, 1))
            == 0) by {
            crate::field::lemma_fmul_by_zero(next.is_active@);
            crate::field::lemma_fmul_by_zero(fsub(next.is_x_i@, 1));
        }
        let ct = fmul(local.is_sig_transition_val(), fsub(1, local.is_last_chain_step_val()));
        assert(ct == 0) by {
            crate::field::lemma_fmul_by_zero(fsub(1, local.is_last_chain_step_val()));
        }
        crate::field::lemma_fmul_by_zero(next.is_x_i@);
        crate::field::lemma_fmul_by_zero(fsub(next.chain_idx@, local.chain_idx@));
        crate::field::lemma_fmul_by_zero(
            fsub(next.chain_step_val(), fadd(local.chain_step_val(), 1)),
        );
        assert forall|t: int| 0 <= t < HASH_FE_LEN implies fmul(
            ct,
            fsub(#[trigger] fe(next.perm.input@)[t], local.perm.ff(t)),
        ) == 0 by {
            crate::field::lemma_fmul_by_zero(fsub(fe(next.perm.input@)[t], local.perm.ff(t)));
        }
        let cb = fsub(local.is_last_chain_step_val(), local.sig_step.at_last());
        assert(cb == 0) by {
            crate::field::lemma_fsub_self(0);
        }
        crate::field::lemma_fmul_by_zero(
            fsub(next.chain_idx@, fadd(fadd(local.chain_idx@, 1), next.diff_sum_val())),
        );
        crate::field::lemma_fmul_by_zero(fsub(next.is_x_i@, 1));
    }
}

/// The generated Merkle tree trace satisfies the Merkle constraint system,
/// given genuine inverse witnesses (the modulus is prime).
pub proof fn lemma_merkle_trace_constraints(vi: &VerificationInput, rows: Seq<MerkleTreeCols>)
    requires
        vi.wf(),
        merkle_tree::merkle_trace_is(vi.traces@, vi.epoch as int, rows),
        crate::field::residues_invert(),
    ensures
        ({
            let pvs = merkle_tree::merkle_public_values(vi.epoch as int, vi.msg@);
            &&& rows[0].first_row_ok(pvs)
            &&& forall|r: int| 0 <= r < rows.len() ==> (#[trigger] rows[r]).every_row_ok(pvs)
            &&& forall|r: int|
                0 <= r < rows.len() - 1 ==> (#[trigger] rows[r]).transition_ok(&rows[r + 1], pvs)
        }),
{
    let traces = vi.traces@;
    let n = traces.len() as int;
    let b = merkle_tree::NUM_ROWS_PER_SIG as int;
    let pvs = merkle_tree::merkle_public_values(vi.epoch as int, vi.msg@);
    crate::util::lemma_next_pow2_ge(1, b * n);
    assert(rows[0].first_row_ok(pvs)) by {
        assert(merkle_tree::sig_row(rows, 0, 0).is_leaf_row(&traces[0], vi.epoch as int, 0, 0));
        assert(rows[0] == merkle_tree::sig_row(rows, 0, 0));
        lemma_merkle_leaf_open(vi, rows, 0);
        lemma_leaf_open_assemble(rows[0], 1, pvs);
    }
    assert forall|r: int| 0 <= r < rows.len() implies (#[trigger] rows[r]).every_row_ok(pvs) by {
        lemma_merkle_every_row(vi, rows, r);
    }
    assert forall|r: int|
        0 <= r < rows.len() - 1 implies (#[trigger] rows[r]).transition_ok(&rows[r + 1], pvs) by {
        lemma_merkle_transition(vi, rows, r);
    }
}

/// Identify the generated Merkle row at one offset and its at-last flags.
proof fn lemma_merkle_row_kind(vi: &VerificationInput, rows: Seq<MerkleTreeCols>, r: int)
    requires
        vi.wf(),
        merkle_tree::merkle_trace_is(vi.traces@, vi.epoch as int, rows),
        0 <= r < rows.len(),
    ensures
        ({
            let b = merkle_tree::NUM_ROWS_PER_SIG as int;
            let sp = crate::hash_sig::SPONGE_PERM as int;
            let ll = crate::hash_sig::LOG_LIFETIME as int;
            let n = vi.traces@.len() as int;
            &&& r < b * n ==> {
                let k = r / b;
                let d = r % b;
                &&& 0 <= k < n && 0 <= d < b && r == b * k + d
                &&& rows[r] == merkle_tree::sig_row(rows, k, d)
                &&& (d < sp ==> rows[r].is_leaf_row(&vi.traces@[k], vi.epoch as int, k, d))
                &&& (sp <= d < sp + ll ==> rows[r].is_path_row(
                    &vi.traces@[k],
                    vi.epoch as int,
                    k,
                    d - sp,
                ))
                &&& (d == sp + ll ==> rows[r].is_msg_row(&vi.traces@[k], k))
            }
            &&& r >= b * n ==> rows[r].is_padding_row()
        }),
{
    let b = merkle_tree::NUM_ROWS_PER_SIG as int;
    let sp = crate::hash_sig::SPONGE_PERM as int;
    let ll = crate::hash_sig::LOG_LIFETIME as int;
    let n = vi.traces@.len() as int;
    if r < b * n {
        let k = r / b;
        let d = r % b;
        vstd::arithmetic::div_mod::lemma_fundamental_div_mod(r, b);
        vstd::arithmetic::div_mod::lemma_mod_bound(r, b);
        assert(0 <= k < n) by (nonlinear_arith)
            requires
                r == b * k + d,
                0 <= d < b,
                0 <= r < b * n,
                b >= 1,
        ;
        if d < sp {
            assert(merkle_tree::sig_row(rows, k, d).is_leaf_row(
                &vi.traces@[k],
                vi.epoch as int,
                k,
                d,
            ));
        } else if d < sp + ll {
            assert(merkle_tree::sig_row(rows, k, sp + (d - sp)).is_path_row(
                &vi.traces@[k],
                vi.epoch as int,
                k,
                d - sp,
            ));
            assert(merkle_tree::sig_row(rows, k, d).is_path_row(
                &vi.traces@[k],
                vi.epoch as int,
                k,
                d - sp,
            ));
        } else {
            assert(d == sp + ll);
            assert(merkle_tree::sig_row(rows, k, sp + ll).is_msg_row(&vi.traces@[k], k));
        }
        assert(rows[r] == merkle_tree::sig_row(rows, k, d));
    }
}

/// Every generated Merkle row satisfies the row-local constraints.
#[verifier::rlimit(100)]
proof fn lemma_merkle_every_row(vi: &VerificationInput, rows: Seq<MerkleTreeCols>, r: int)
    requires
        vi.wf(),
        merkle_tree::merkle_trace_is(vi.traces@, vi.epoch as int, rows),
        crate::field::residues_invert(),
        0 <= r < rows.len(),
    ensures
        rows[r].every_row_ok(merkle_tree::merkle_public_values(vi.epoch as int, vi.msg@)),
{
    broadcast use crate::field::lemma_fmul_zero_left, crate::field::lemma_fmul_zero_right,
        crate::field::lemma_fsub_cancel;

    let epoch = vi.epoch as int;
    let b = merkle_tree::NUM_ROWS_PER_SIG as int;
    let sp = crate::hash_sig::SPONGE_PERM as int;
    let llt = crate::hash_sig::LOG_LIFETIME as int;
    let n = vi.traces@.len() as int;
    let row = rows[r];
    let pvs = merkle_tree::merkle_public_values(epoch, vi.msg@);
    lemma_merkle_row_kind(vi, rows, r);
    crate::field::lemma_fsub_no_wrap(1, 0);
    crate::field::lemma_fsub_no_wrap(1, 1);
    crate::field::lemma_fmul_by_one(0);
    crate::field::lemma_fmul_by_one(1);
    crate::field::lemma_fadd_no_wrap(0, 0);
    crate::field::lemma_fadd_no_wrap(0, 1);
    crate::field::lemma_fadd_no_wrap(1, 0);
    crate::field::lemma_bool_constraint(0);
    crate::field::lemma_bool_constraint(1);
    if r < b * n {
        let k = r / b;
        let d = r % b;
        let vt = &vi.traces@[k];
        assert(vt.wf(epoch, encoded_msg_spec(vi.msg@)));
        if d < sp {
            lemma_at_last_eval(row.sponge_step, d, sp);
            crate::gadget::lemma_cycle_constraints(row.sponge_step, d, sp);
            assert(row.is_merkle_leaf_transition@ == fmul(1, fsub(1, row.sponge_step.at_last())));
            // each sponge window holds exactly two chunk boundaries past lane zero
            let q = (15 * d) / 7;
            let rho = (15 * d) % 7;
            vstd::arithmetic::div_mod::lemma_fundamental_div_mod(15 * d, 7);
            vstd::arithmetic::div_mod::lemma_mod_bound(15 * d, 7);
            lemma_leaf_start_pattern(row, d, q, rho);
            let inds = fe(row.leaf_chunk_start_ind@);
            assert forall|t: int| 1 <= t < 15 implies #[trigger] inds[t] == (
            if t == 7 - rho || t == 14 - rho {
                1int
            } else {
                0int
            }) by {}
            lemma_fsum_twohot(inds, 1, 15, 7 - rho, 14 - rho);
            lemma_msg_clauses_gated(row, pvs);
        } else if d < sp + llt {
            let l = d - sp;
            lemma_at_last_eval(row.level, l, llt);
            crate::gadget::lemma_cycle_constraints(row.sponge_step, 0, sp);
            crate::gadget::lemma_cycle_constraints(row.level, l, llt);
            assert(row.is_merkle_path_transition@ == fmul(1, fsub(1, row.level.at_last())));
            // the walk direction is the epoch bit
            assert(row.is_right@ == VerificationTrace::epoch_dec(epoch, l) % 2);
            vstd::arithmetic::div_mod::lemma_mod_bound(
                VerificationTrace::epoch_dec(epoch, l),
                2,
            );
            crate::field::lemma_bool_constraint(row.is_right@);
            // the compression input's padding lanes are zero
            assert(vt.wf_path(epoch));
            assert(fe(row.perm.input@) == fe(vt.pk.parameter@) + crate::hash_sig::tweak_tree_spec(
                l + 1,
                VerificationTrace::epoch_dec(epoch, l + 1),
            ) + vt.path_children(epoch, l) + seq![0int, 0int, 0int]);
            assert(vt.path_children(epoch, l).len() == 2 * HASH_FE_LEN) by {
                assert(vt.path_node(l).len() == HASH_FE_LEN);
            }
            assert(fe(row.perm.input@)[21] == 0 && fe(row.perm.input@)[22] == 0 && fe(
                row.perm.input@,
            )[23] == 0);
            lemma_msg_clauses_gated(row, pvs);
        } else {
            crate::gadget::lemma_cycle_constraints(row.sponge_step, 0, sp);
            assert(row.is_msg_row(vt, k));
            // the message row binds its tweak and message lanes to the
            // public values over zero padding lanes
            assert(vt.wf_msg(epoch, encoded_msg_spec(vi.msg@)));
            assert(fe(row.perm.input@) == vt.msg_hash_preimage(epoch, encoded_msg_spec(vi.msg@)));
            assert(fe(vt.sig.rho@).len() == crate::hash_sig::RHO_FE_LEN);
            assert(fe(vt.pk.parameter@).len() == PARAM_FE_LEN);
            assert forall|t: int| 0 <= t < crate::hash_sig::TWEAK_FE_LEN implies fmul(
                row.is_msg@,
                fsub(
                    #[trigger] fe(
                        row.perm.input@,
                    )[crate::hash_sig::RHO_FE_LEN as int + PARAM_FE_LEN as int + t],
                    pvs[10 + t],
                ),
            ) == 0 by {
                assert(fe(row.perm.input@)[crate::hash_sig::RHO_FE_LEN as int
                    + PARAM_FE_LEN as int + t] == crate::hash_sig::tweak_msg_spec(epoch)[t]);
                assert(pvs[10 + t] == crate::hash_sig::tweak_msg_spec(epoch)[t]);
            }
            assert forall|t: int| 0 <= t < crate::hash_sig::MSG_FE_LEN implies fmul(
                row.is_msg@,
                fsub(#[trigger] fe(row.perm.input@)[13 + t], pvs[1 + t]),
            ) == 0 by {
                assert(fe(row.perm.input@)[13 + t] == encoded_msg_spec(vi.msg@)[t]);
                assert(pvs[1 + t] == encoded_msg_spec(vi.msg@)[t]);
            }
            assert(fe(row.perm.input@)[22] == 0 && fe(row.perm.input@)[23] == 0);
        }
    } else {
        assert(row.is_padding_row());
        crate::gadget::lemma_cycle_constraints(row.sponge_step, 0, sp);
        lemma_msg_clauses_gated(row, pvs);
    }
}

/// The message-row clauses of a row whose message flag is clear.
proof fn lemma_msg_clauses_gated(row: MerkleTreeCols, pvs: Seq<int>)
    requires
        row.is_msg@ == 0,
    ensures
        forall|t: int|
            0 <= t < crate::hash_sig::TWEAK_FE_LEN ==> fmul(
                row.is_msg@,
                fsub(
                    #[trigger] fe(
                        row.perm.input@,
                    )[crate::hash_sig::RHO_FE_LEN as int + PARAM_FE_LEN as int + t],
                    pvs[10 + t],
                ),
            ) == 0,
        forall|t: int|
            0 <= t < crate::hash_sig::MSG_FE_LEN ==> fmul(
                row.is_msg@,
                fsub(#[trigger] fe(row.perm.input@)[13 + t], pvs[1 + t]),
            ) == 0,
        fmul(row.is_msg@, fe(row.perm.input@)[22]) == 0,
        fmul(row.is_msg@, fe(row.perm.input@)[23]) == 0,
{
    assert forall|t: int| 0 <= t < crate::hash_sig::TWEAK_FE_LEN implies fmul(
        row.is_msg@,
        fsub(
            #[trigger] fe(
                row.perm.input@,
            )[crate::hash_sig::RHO_FE_LEN as int + PARAM_FE_LEN as int + t],
            pvs[10 + t],
        ),
    ) == 0 by {
        crate::field::lemma_fmul_by_zero(
            fsub(
                fe(row.perm.input@)[crate::hash_sig::RHO_FE_LEN as int + PARAM_FE_LEN as int + t],
                pvs[10 + t],
            ),
        );
    }
    assert forall|t: int| 0 <= t < crate::hash_sig::MSG_FE_LEN implies fmul(
        row.is_msg@,
        fsub(#[trigger] fe(row.perm.input@)[13 + t], pvs[1 + t]),
    ) == 0 by {
        crate::field::lemma_fmul_by_zero(fsub(fe(row.perm.input@)[13 + t], pvs[1 + t]));
    }
    crate::field::lemma_fmul_by_zero(fe(row.perm.input@)[22]);
    crate::field::lemma_fmul_by_zero(fe(row.perm.input@)[23]);
}

/// A Merkle transition whose local row is a message or padding row: every
/// sponge and path gate of the pair is closed, and only the index and
/// phase-order clauses carry content.
#[verifier::rlimit(100)]
proof fn lemma_merkle_gated_transition(
    local: MerkleTreeCols,
    next: MerkleTreeCols,
    pvs: Seq<int>,
)
    requires
        local.is_merkle_leaf_transition@ == 0,
        local.is_merkle_leaf@ == 0,
        local.is_merkle_path@ == 0,
        local.is_merkle_path_transition@ == 0,
        fmul(local.is_sig_transition_val(), fsub(next.sig_idx@, local.sig_idx@)) == 0,
        fmul(local.is_msg@, fadd(next.is_msg@, next.is_merkle_path@)) == 0,
        fmul(fmul(local.is_msg@, next.is_merkle_leaf@), fsub(
            next.sig_idx@,
            fadd(local.sig_idx@, 1),
        )) == 0,
        next.leaf_open_gated(fmul(local.is_msg@, next.is_merkle_leaf@), pvs),
        fmul(local.is_padding_val(), local.sig_idx@) == 0,
        fmul(local.is_padding_val(), fsub(1, next.is_padding_val())) == 0,
    ensures
        local.transition_ok(&next, pvs),
{
    broadcast use crate::field::lemma_fsub_cancel;

    let epoch = pvs[0];
    lemma_start_prop_gated(local, next);

    let lt = local.is_merkle_leaf_transition@;
    let ll = local.is_last_merkle_leaf_row_val();
    let pt = local.is_merkle_path_transition@;
    let pl = local.is_last_merkle_path_row_val();
    assert(ll == 0 && pl == 0);
    crate::field::lemma_fmul_by_zero(fsub(next.is_merkle_leaf@, 1));
    crate::field::lemma_fmul_by_zero(
        fsub(
            next.sponge_step.step@,
            crate::gadget::select_spec(local.sponge_step.at_last(), fadd(
                local.sponge_step.step@,
                1,
            ), 0),
        ),
    );
    assert forall|j: int| 0 <= j < crate::hash_sig::WIDTH_TREE implies fmul(
        lt,
        fsub(
            #[trigger] fe(next.perm.input@)[j],
            if j < crate::hash_sig::SPONGE_RATE {
                fadd(fe(local.perm.output@)[j], fe(next.sponge_block@)[j])
            } else {
                fe(local.perm.output@)[j]
            },
        ),
    ) == 0 by {
        crate::field::lemma_fmul_by_zero(
            fsub(
                fe(next.perm.input@)[j],
                if j < crate::hash_sig::SPONGE_RATE {
                    fadd(fe(local.perm.output@)[j], fe(next.sponge_block@)[j])
                } else {
                    fe(local.perm.output@)[j]
                },
            ),
        );
    }
    assert forall|t: int| 0 <= t < PARAM_FE_LEN implies fmul(
        lt,
        fsub(#[trigger] next.register_val(t), local.register_val(t)),
    ) == 0 by {
        crate::field::lemma_fmul_by_zero(fsub(next.register_val(t), local.register_val(t)));
    }
    crate::field::lemma_fmul_by_zero(fe(local.sponge_block@)[13]);
    crate::field::lemma_fmul_by_zero(fe(local.sponge_block@)[14]);
    crate::field::lemma_fmul_by_zero(fsub(next.is_merkle_path@, 1));
    crate::field::lemma_fmul_by_zero(next.level.step@);
    crate::field::lemma_fmul_by_zero(fsub(next.epoch_dec@, epoch));
    assert forall|i: int| 0 <= i < HASH_FE_LEN implies fmul(
        ll,
        fsub(
            #[trigger] fe(local.perm.output@)[i],
            crate::gadget::select_spec(
                next.is_right@,
                fe(next.perm.input@)[7 + i],
                fe(next.perm.input@)[14 + i],
            ),
        ),
    ) == 0 by {
        crate::field::lemma_fmul_by_zero(
            fsub(
                fe(local.perm.output@)[i],
                crate::gadget::select_spec(
                    next.is_right@,
                    fe(next.perm.input@)[7 + i],
                    fe(next.perm.input@)[14 + i],
                ),
            ),
        );
    }
    crate::field::lemma_fmul_by_zero(
        fsub(
            fe(local.perm.input@)[5],
            fadd(fmul(fadd(local.level.step@, 1), 4), 1),
        ),
    );
    crate::field::lemma_fmul_by_zero(
        fsub(
            fe(local.perm.input@)[6],
            crate::gadget::select_spec(pt, 0, next.epoch_dec@),
        ),
    );
    crate::field::lemma_fmul_by_zero(fsub(next.level.step@, fadd(local.level.step@, 1)));
    crate::field::lemma_fmul_by_zero(
        fsub(local.epoch_dec@, fadd(fmul(2, next.epoch_dec@), local.is_right@)),
    );
    assert forall|t: int| 0 <= t < PARAM_FE_LEN implies fmul(
        pt,
        fsub(#[trigger] fe(next.perm.input@)[t], fe(local.perm.input@)[t]),
    ) == 0 by {
        crate::field::lemma_fmul_by_zero(fsub(fe(next.perm.input@)[t], fe(local.perm.input@)[t]));
    }
    assert forall|i: int| 0 <= i < HASH_FE_LEN implies fmul(
        pt,
        fsub(
            #[trigger] local.perm.ff(i),
            crate::gadget::select_spec(
                next.is_right@,
                fe(next.perm.input@)[7 + i],
                fe(next.perm.input@)[14 + i],
            ),
        ),
    ) == 0 by {
        crate::field::lemma_fmul_by_zero(
            fsub(
                local.perm.ff(i),
                crate::gadget::select_spec(
                    next.is_right@,
                    fe(next.perm.input@)[7 + i],
                    fe(next.perm.input@)[14 + i],
                ),
            ),
        );
    }
    crate::field::lemma_fmul_by_zero(fsub(local.epoch_dec@, local.is_right@));
    assert forall|t: int| 0 <= t < PARAM_FE_LEN implies fmul(
        pl,
        fsub(#[trigger] fe(next.perm.input@)[crate::hash_sig::RHO_FE_LEN + t], fe(
            local.perm.input@,
        )[t]),
    ) == 0 by {
        crate::field::lemma_fmul_by_zero(
            fsub(fe(next.perm.input@)[crate::hash_sig::RHO_FE_LEN + t], fe(
                local.perm.input@,
            )[t]),
        );
    }
}

/// The chunk-start propagation clauses of a pair whose leaf-transition
/// flag is clear.
proof fn lemma_start_prop_gated(local: MerkleTreeCols, next: MerkleTreeCols)
    requires
        local.is_merkle_leaf_transition@ == 0,
    ensures
        forall|i: int|
            1 <= i <= HASH_FE_LEN ==> fmul(
                fmul(
                    local.is_merkle_leaf_transition@,
                    #[trigger] fe(local.leaf_chunk_start_ind@)[i],
                ),
                fsub(fe(next.leaf_chunk_start_ind@)[i - 1], 1),
            ) == 0,
{
    assert forall|i: int| 1 <= i <= HASH_FE_LEN implies fmul(
        fmul(local.is_merkle_leaf_transition@, #[trigger] fe(local.leaf_chunk_start_ind@)[i]),
        fsub(fe(next.leaf_chunk_start_ind@)[i - 1], 1),
    ) == 0 by {
        crate::field::lemma_fmul_by_zero(fe(local.leaf_chunk_start_ind@)[i]);
        crate::field::lemma_fmul_by_zero(fsub(fe(next.leaf_chunk_start_ind@)[i - 1], 1));
    }
}

/// Every adjacent pair of generated Merkle rows satisfies the transition
/// constraints.
#[verifier::rlimit(100)]
proof fn lemma_merkle_transition(vi: &VerificationInput, rows: Seq<MerkleTreeCols>, r: int)
    requires
        vi.wf(),
        merkle_tree::merkle_trace_is(vi.traces@, vi.epoch as int, rows),
        crate::field::residues_invert(),
        0 <= r < rows.len() - 1,
    ensures
        rows[r].transition_ok(
            &rows[r + 1],
            merkle_tree::merkle_public_values(vi.epoch as int, vi.msg@),
        ),
{
    broadcast use crate::field::lemma_fmul_zero_left, crate::field::lemma_fmul_zero_right,
        crate::field::lemma_fsub_cancel;

    let epoch = vi.epoch as int;
    let traces = vi.traces@;
    let n = traces.len() as int;
    let b = merkle_tree::NUM_ROWS_PER_SIG as int;
    let sp = crate::hash_sig::SPONGE_PERM as int;
    let llt = crate::hash_sig::LOG_LIFETIME as int;
    let pvs = merkle_tree::merkle_public_values(epoch, vi.msg@);
    assert(pvs[0] == epoch);
    crate::util::lemma_next_pow2_ge(1, b * n);
    let local = rows[r];
    let next = rows[r + 1];
    lemma_merkle_row_kind(vi, rows, r);
    lemma_merkle_row_kind(vi, rows, r + 1);
    crate::field::lemma_fsub_no_wrap(1, 0);
    crate::field::lemma_fsub_no_wrap(1, 1);
    crate::field::lemma_fmul_by_one(0);
    crate::field::lemma_fmul_by_one(1);
    crate::field::lemma_fadd_no_wrap(0, 0);
    crate::field::lemma_fadd_no_wrap(0, 1);
    crate::field::lemma_fadd_no_wrap(1, 0);
    if r >= b * n {
        // padding persists
        assert(local.is_padding_row() && next.is_padding_row());
        assert(local.is_padding_val() == 1 && next.is_padding_val() == 1);
        crate::field::lemma_fmul_by_zero(next.is_merkle_leaf@);
        lemma_leaf_open_assemble(next, fmul(local.is_msg@, next.is_merkle_leaf@), pvs);
        lemma_merkle_gated_transition(local, next, pvs);
    } else {
        let k = r / b;
        let d = r % b;
        let vt = &traces[k];
        assert(vt.wf(epoch, encoded_msg_spec(vi.msg@)));
        assert(r + 1 == b * k + (d + 1) || d == b - 1);
        if d == b - 1 {
            // the message row closes the signature
            assert(local.is_msg_row(vt, k));
            assert(local.is_padding_val() == fsub(1, 1));
            if r + 1 < b * n {
                assert(r + 1 == b * (k + 1));
                assert((r + 1) / b == k + 1 && (r + 1) % b == 0) by {
                    vstd::arithmetic::div_mod::lemma_fundamental_div_mod_converse(
                        r + 1,
                        b,
                        k + 1,
                        0,
                    );
                }
                assert(next.is_leaf_row(&traces[k + 1], epoch, k + 1, 0));
                crate::field::lemma_fadd_no_wrap(k, 1);
                assert(fmul(fmul(1, 1), fsub(next.sig_idx@, fadd(local.sig_idx@, 1))) == 0);
                // the next signature's sponge re-opens
                assert(next == merkle_tree::sig_row(rows, k + 1, 0));
                lemma_merkle_leaf_open(vi, rows, k + 1);
                assert(fmul(local.is_msg@, next.is_merkle_leaf@) == 1);
                lemma_leaf_open_assemble(next, fmul(local.is_msg@, next.is_merkle_leaf@), pvs);
            } else {
                assert(next.is_padding_row());
                assert(fmul(fmul(local.is_msg@, next.is_merkle_leaf@), fsub(
                    next.sig_idx@,
                    fadd(local.sig_idx@, 1),
                )) == 0);
                crate::field::lemma_fmul_by_zero(local.is_msg@);
                lemma_leaf_open_assemble(next, fmul(local.is_msg@, next.is_merkle_leaf@), pvs);
            }
            assert(local.is_sig_transition_val() == 0);
            lemma_merkle_gated_transition(local, next, pvs);
        } else if d < sp {
            // sponge rows
            assert(local.is_leaf_row(vt, epoch, k, d));
            assert(next == merkle_tree::sig_row(rows, k, d + 1));
            lemma_at_last_eval(local.sponge_step, d, sp);
            let lt = local.is_merkle_leaf_transition@;
            let ll = local.is_last_merkle_leaf_row_val();
            assert(local.is_merkle_path@ == 0 && local.is_merkle_path_transition@ == 0);
            assert(local.is_msg@ == 0);
            assert(local.is_sig_transition_val() == 1);
            assert(local.is_padding_val() == fsub(1, 1));
            if d < sp - 1 {
                // absorption into the next sponge row
                assert(next.is_leaf_row(vt, epoch, k, d + 1));
                assert(lt == 1 && ll == fsub(1, 1));
                crate::field::lemma_fadd_no_wrap(d, 1);
                crate::gadget::lemma_select_bool(0, fadd(d, 1), 0);
                assert(vt.wf_leaf(epoch));
                assert(fe(next.perm.input@) == vt.sponge_input(epoch, d + 1));
                assert forall|j: int| 0 <= j < crate::hash_sig::WIDTH_TREE implies fmul(
                    lt,
                    fsub(
                        #[trigger] fe(next.perm.input@)[j],
                        if j < crate::hash_sig::SPONGE_RATE {
                            fadd(fe(local.perm.output@)[j], fe(next.sponge_block@)[j])
                        } else {
                            fe(local.perm.output@)[j]
                        },
                    ),
                ) == 0 by {
                    assert(fe(next.perm.input@)[j] == vt.sponge_input(epoch, d + 1)[j]);
                    assert(fe(local.perm.output@) == fe(vt.leaf_perms@[d].output@));
                    assert(fe(next.sponge_block@) == vt.sponge_block(epoch, d + 1));
                }
                assert forall|t: int| 0 <= t < PARAM_FE_LEN implies fmul(
                    lt,
                    fsub(#[trigger] next.register_val(t), local.register_val(t)),
                ) == 0 by {
                    assert(next.register_val(t) == local.register_val(t));
                }
                // a chunk boundary inside the window recurs one lane earlier
                // in the next window
                let q = (15 * d) / 7;
                let rho = (15 * d) % 7;
                vstd::arithmetic::div_mod::lemma_fundamental_div_mod(15 * d, 7);
                vstd::arithmetic::div_mod::lemma_mod_bound(15 * d, 7);
                lemma_leaf_start_pattern(local, d, q, rho);
                let q2 = (15 * (d + 1)) / 7;
                let rho2 = (15 * (d + 1)) % 7;
                vstd::arithmetic::div_mod::lemma_fundamental_div_mod(15 * (d + 1), 7);
                vstd::arithmetic::div_mod::lemma_mod_bound(15 * (d + 1), 7);
                lemma_leaf_start_pattern(next, d + 1, q2, rho2);
                assert(rho2 == if rho == 6 {
                    0int
                } else {
                    rho + 1
                }) by {
                    vstd::arithmetic::div_mod::lemma_fundamental_div_mod_converse(
                        15 * (d + 1),
                        7,
                        if rho == 6 {
                            q + 3
                        } else {
                            q + 2
                        },
                        if rho == 6 {
                            0int
                        } else {
                            rho + 1
                        },
                    );
                }
                assert forall|i: int| 1 <= i <= HASH_FE_LEN implies fmul(
                    fmul(lt, #[trigger] fe(local.leaf_chunk_start_ind@)[i]),
                    fsub(fe(next.leaf_chunk_start_ind@)[i - 1], 1),
                ) == 0 by {
                    if fe(local.leaf_chunk_start_ind@)[i] == 1 {
                        assert(i + rho == 7 || i + rho == 14);
                        assert((i - 1) + rho2 == 0 || (i - 1) + rho2 == 7 || (i - 1) + rho2
                            == 14);
                        assert(fe(next.leaf_chunk_start_ind@)[i - 1] == 1);
                        crate::field::lemma_fmul_by_zero(fmul(lt, 1));
                    } else {
                        crate::field::lemma_fmul_by_zero(lt);
                        crate::field::lemma_fmul_by_zero(
                            fsub(fe(next.leaf_chunk_start_ind@)[i - 1], 1),
                        );
                    }
                }
                // the leaf-last clauses are gated off
                crate::field::lemma_fmul_by_zero(fe(local.sponge_block@)[13]);
                crate::field::lemma_fmul_by_zero(fe(local.sponge_block@)[14]);
                crate::field::lemma_fmul_by_zero(fsub(next.is_merkle_path@, 1));
                crate::field::lemma_fmul_by_zero(next.level.step@);
                crate::field::lemma_fmul_by_zero(fsub(next.epoch_dec@, epoch));
                assert forall|i: int| 0 <= i < HASH_FE_LEN implies fmul(
                    ll,
                    fsub(
                        #[trigger] fe(local.perm.output@)[i],
                        crate::gadget::select_spec(
                            next.is_right@,
                            fe(next.perm.input@)[7 + i],
                            fe(next.perm.input@)[14 + i],
                        ),
                    ),
                ) == 0 by {
                    crate::field::lemma_fmul_by_zero(
                        fsub(
                            fe(local.perm.output@)[i],
                            crate::gadget::select_spec(
                                next.is_right@,
                                fe(next.perm.input@)[7 + i],
                                fe(next.perm.input@)[14 + i],
                            ),
                        ),
                    );
                }
            } else {
                // the last sponge row opens the path walk
                assert(next.is_path_row(vt, epoch, k, 0));
                assert(lt == 0 && ll == fsub(1, 0));
                lemma_start_prop_gated(local, next);
                crate::field::lemma_fmul_by_zero(fsub(next.is_merkle_leaf@, 1));
                crate::field::lemma_fmul_by_zero(
                    fsub(
                        next.sponge_step.step@,
                        crate::gadget::select_spec(local.sponge_step.at_last(), fadd(
                            local.sponge_step.step@,
                            1,
                        ), 0),
                    ),
                );
                assert forall|j: int| 0 <= j < crate::hash_sig::WIDTH_TREE implies fmul(
                    lt,
                    fsub(
                        #[trigger] fe(next.perm.input@)[j],
                        if j < crate::hash_sig::SPONGE_RATE {
                            fadd(fe(local.perm.output@)[j], fe(next.sponge_block@)[j])
                        } else {
                            fe(local.perm.output@)[j]
                        },
                    ),
                ) == 0 by {
                    crate::field::lemma_fmul_by_zero(
                        fsub(
                            fe(next.perm.input@)[j],
                            if j < crate::hash_sig::SPONGE_RATE {
                                fadd(fe(local.perm.output@)[j], fe(next.sponge_block@)[j])
                            } else {
                                fe(local.perm.output@)[j]
                            },
                        ),
                    );
                }
                assert forall|t: int| 0 <= t < PARAM_FE_LEN implies fmul(
                    lt,
                    fsub(#[trigger] next.register_val(t), local.register_val(t)),
                ) == 0 by {
                    crate::field::lemma_fmul_by_zero(
                        fsub(next.register_val(t), local.register_val(t)),
                    );
                }
                // the padding cells of the last block are zero
                assert(fe(local.sponge_block@)[13] == 0 && fe(local.sponge_block@)[14] == 0) by {
                    assert(fe(local.sponge_block@) == vt.sponge_block(epoch, sp - 1));
                }
                // the walk starts on the whole epoch
                assert(next.epoch_dec@ == VerificationTrace::epoch_dec(epoch, 0));
                assert(VerificationTrace::epoch_dec(epoch, 0) == epoch) by {
                    vstd::arithmetic::power2::lemma2_to64();
                    vstd::arithmetic::div_mod::lemma_div_basics(epoch);
                }
                // the leaf hash lands in the child slot the epoch bit picks
                assert(vt.wf_path(epoch));
                assert(fe(next.perm.input@) == fe(vt.pk.parameter@)
                    + crate::hash_sig::tweak_tree_spec(1, VerificationTrace::epoch_dec(epoch, 1))
                    + vt.path_children(epoch, 0) + seq![0int, 0int, 0int]);
                assert(vt.path_node(0).len() == HASH_FE_LEN);
                assert(next.is_right@ == VerificationTrace::epoch_dec(epoch, 0) % 2);
                vstd::arithmetic::div_mod::lemma_mod_bound(epoch, 2);
                assert forall|i: int| 0 <= i < HASH_FE_LEN implies fmul(
                    ll,
                    fsub(
                        #[trigger] fe(local.perm.output@)[i],
                        crate::gadget::select_spec(
                            next.is_right@,
                            fe(next.perm.input@)[7 + i],
                            fe(next.perm.input@)[14 + i],
                        ),
                    ),
                ) == 0 by {
                    assert(fe(local.perm.output@)[i] == vt.leaf_hash()[i]) by {
                        assert(fe(local.perm.output@) == fe(vt.leaf_perms@[sp - 1].output@));
                        assert(vt.leaf_perms@.last() == vt.leaf_perms@[sp - 1]);
                    }
                    assert(vt.path_node(0)[i] == vt.leaf_hash()[i]);
                    if next.is_right@ == 1 {
                        assert(fe(next.perm.input@)[14 + i] == vt.path_node(0)[i]) by {
                            assert(vt.path_children(epoch, 0) == fe(
                                vt.sig.merkle_siblings@[0]@,
                            ) + vt.path_node(0));
                            assert(fe(vt.sig.merkle_siblings@[0]@).len() == HASH_FE_LEN);
                        }
                        crate::gadget::lemma_select_pick(
                            1,
                            fe(next.perm.input@)[7 + i],
                            fe(next.perm.input@)[14 + i],
                        );
                    } else {
                        assert(fe(next.perm.input@)[7 + i] == vt.path_node(0)[i]) by {
                            assert(vt.path_children(epoch, 0) == vt.path_node(0) + fe(
                                vt.sig.merkle_siblings@[0]@,
                            ));
                        }
                        crate::gadget::lemma_select_pick(
                            0,
                            fe(next.perm.input@)[7 + i],
                            fe(next.perm.input@)[14 + i],
                        );
                    }
                }
            }
            // the path and message clauses are gated off on sponge rows
            crate::field::lemma_fmul_by_zero(
                fsub(fe(local.perm.input@)[5], fadd(fmul(fadd(local.level.step@, 1), 4), 1)),
            );
            crate::field::lemma_fmul_by_zero(
                fsub(
                    fe(local.perm.input@)[6],
                    crate::gadget::select_spec(local.is_merkle_path_transition@, 0, next.epoch_dec@),
                ),
            );
            crate::field::lemma_fmul_by_zero(fsub(next.is_merkle_path@, 1));
            crate::field::lemma_fmul_by_zero(fsub(next.level.step@, fadd(local.level.step@, 1)));
            crate::field::lemma_fmul_by_zero(
                fsub(local.epoch_dec@, fadd(fmul(2, next.epoch_dec@), local.is_right@)),
            );
            assert forall|t: int| 0 <= t < PARAM_FE_LEN implies fmul(
                local.is_merkle_path_transition@,
                fsub(#[trigger] fe(next.perm.input@)[t], fe(local.perm.input@)[t]),
            ) == 0 by {
                crate::field::lemma_fmul_by_zero(
                    fsub(fe(next.perm.input@)[t], fe(local.perm.input@)[t]),
                );
            }
            assert forall|i: int| 0 <= i < HASH_FE_LEN implies fmul(
                local.is_merkle_path_transition@,
                fsub(
                    #[trigger] local.perm.ff(i),
                    crate::gadget::select_spec(
                        next.is_right@,
                        fe(next.perm.input@)[7 + i],
                        fe(next.perm.input@)[14 + i],
                    ),
                ),
            ) == 0 by {
                crate::field::lemma_fmul_by_zero(
                    fsub(
                        local.perm.ff(i),
                        crate::gadget::select_spec(
                            next.is_right@,
                            fe(next.perm.input@)[7 + i],
                            fe(next.perm.input@)[14 + i],
                        ),
                    ),
                );
            }
            assert(local.is_last_merkle_path_row_val() == fsub(0, 0));
            crate::field::lemma_fmul_by_zero(fsub(local.epoch_dec@, local.is_right@));
            assert forall|t: int| 0 <= t < PARAM_FE_LEN implies fmul(
                local.is_last_merkle_path_row_val(),
                fsub(#[trigger] fe(next.perm.input@)[crate::hash_sig::RHO_FE_LEN + t], fe(
                    local.perm.input@,
                )[t]),
            ) == 0 by {
                crate::field::lemma_fmul_by_zero(
                    fsub(fe(next.perm.input@)[crate::hash_sig::RHO_FE_LEN + t], fe(
                        local.perm.input@,
                    )[t]),
                );
            }
            crate::field::lemma_fmul_by_zero(next.is_merkle_leaf@);
            lemma_leaf_open_assemble(next, fmul(local.is_msg@, next.is_merkle_leaf@), pvs);
        } else {
            // path rows
            let l = d - sp;
            assert(local.is_path_row(vt, epoch, k, l));
            assert(next == merkle_tree::sig_row(rows, k, d + 1));
            lemma_at_last_eval(local.level, l, llt);
            let pt = local.is_merkle_path_transition@;
            let pl = local.is_last_merkle_path_row_val();
            assert(local.is_merkle_leaf@ == 0 && local.is_merkle_leaf_transition@ == 0);
            assert(local.is_msg@ == 0);
            assert(local.is_sig_transition_val() == 1);
            assert(local.is_padding_val() == fsub(1, 1));
            assert(local.is_last_merkle_leaf_row_val() == fsub(0, 0));
            lemma_start_prop_gated(local, next);
            crate::field::lemma_fmul_by_zero(next.is_merkle_leaf@);
            lemma_leaf_open_assemble(next, fmul(local.is_msg@, next.is_merkle_leaf@), pvs);
            // the sponge clauses are gated off on path rows
            crate::field::lemma_fmul_by_zero(fsub(next.is_merkle_leaf@, 1));
            crate::field::lemma_fmul_by_zero(
                fsub(
                    next.sponge_step.step@,
                    crate::gadget::select_spec(local.sponge_step.at_last(), fadd(
                        local.sponge_step.step@,
                        1,
                    ), 0),
                ),
            );
            assert forall|j: int| 0 <= j < crate::hash_sig::WIDTH_TREE implies fmul(
                local.is_merkle_leaf_transition@,
                fsub(
                    #[trigger] fe(next.perm.input@)[j],
                    if j < crate::hash_sig::SPONGE_RATE {
                        fadd(fe(local.perm.output@)[j], fe(next.sponge_block@)[j])
                    } else {
                        fe(local.perm.output@)[j]
                    },
                ),
            ) == 0 by {
                crate::field::lemma_fmul_by_zero(
                    fsub(
                        fe(next.perm.input@)[j],
                        if j < crate::hash_sig::SPONGE_RATE {
                            fadd(fe(local.perm.output@)[j], fe(next.sponge_block@)[j])
                        } else {
                            fe(local.perm.output@)[j]
                        },
                    ),
                );
            }
            assert forall|t: int| 0 <= t < PARAM_FE_LEN implies fmul(
                local.is_merkle_leaf_transition@,
                fsub(#[trigger] next.register_val(t), local.register_val(t)),
            ) == 0 by {
                crate::field::lemma_fmul_by_zero(
                    fsub(next.register_val(t), local.register_val(t)),
                );
            }
            crate::field::lemma_fmul_by_zero(fe(local.sponge_block@)[13]);
            crate::field::lemma_fmul_by_zero(fe(local.sponge_block@)[14]);
            crate::field::lemma_fmul_by_zero(fsub(next.is_merkle_path@, 1));
            crate::field::lemma_fmul_by_zero(next.level.step@);
            crate::field::lemma_fmul_by_zero(fsub(next.epoch_dec@, epoch));
            assert forall|i: int| 0 <= i < HASH_FE_LEN implies fmul(
                local.is_last_merkle_leaf_row_val(),
                fsub(
                    #[trigger] fe(local.perm.output@)[i],
                    crate::gadget::select_spec(
                        next.is_right@,
                        fe(next.perm.input@)[7 + i],
                        fe(next.perm.input@)[14 + i],
                    ),
                ),
            ) == 0 by {
                crate::field::lemma_fmul_by_zero(
                    fsub(
                        fe(local.perm.output@)[i],
                        crate::gadget::select_spec(
                            next.is_right@,
                            fe(next.perm.input@)[7 + i],
                            fe(next.perm.input@)[14 + i],
                        ),
                    ),
                );
            }
            // the path tweak lanes
            assert(vt.wf_path(epoch));
            assert(fe(local.perm.input@) == fe(vt.pk.parameter@)
                + crate::hash_sig::tweak_tree_spec(l + 1, VerificationTrace::epoch_dec(
                epoch,
                l + 1,
            )) + vt.path_children(epoch, l) + seq![0int, 0int, 0int]);
            assert(fe(local.perm.input@)[5] == ((l + 1) * 4 + 1) % (crate::field::P as int));
            vstd::arithmetic::div_mod::lemma_small_mod(((l + 1) * 4 + 1) as nat, crate::field::P as nat);
            assert(fadd(fmul(fadd(local.level.step@, 1), 4), 1) == (l + 1) * 4 + 1) by {
                crate::field::lemma_fadd_no_wrap(l, 1);
                crate::field::lemma_fmul_no_wrap(l + 1, 4);
                crate::field::lemma_fadd_no_wrap((l + 1) * 4, 1);
            }
            let ed1 = VerificationTrace::epoch_dec(epoch, l + 1);
            assert(0 <= ed1 <= epoch) by {
                vstd::arithmetic::power2::lemma_pow2_pos((l + 1) as nat);
                vstd::arithmetic::div_mod::lemma_div_pos_is_pos(epoch, crate::field::p2(l + 1));
                vstd::arithmetic::div_mod::lemma_div_is_ordered_by_denominator(
                    epoch,
                    1,
                    crate::field::p2(l + 1),
                );
                vstd::arithmetic::div_mod::lemma_div_basics(epoch);
            }
            assert(fe(local.perm.input@)[6] == ed1 % (crate::field::P as int));
            vstd::arithmetic::div_mod::lemma_small_mod(ed1 as nat, crate::field::P as nat);
            if l < llt - 1 {
                // the walk continues
                assert(next.is_path_row(vt, epoch, k, l + 1));
                assert(pt == 1 && pl == fsub(1, 1));
                assert(next.epoch_dec@ == ed1);
                crate::gadget::lemma_select_bool(1, 0, ed1);
                // the epoch halves into the next level
                let edl = VerificationTrace::epoch_dec(epoch, l);
                assert(local.epoch_dec@ == edl && local.is_right@ == edl % 2);
                assert(ed1 == edl / 2) by {
                    vstd::arithmetic::power2::lemma2_to64();
                    vstd::arithmetic::power2::lemma_pow2_pos(l as nat);
                    vstd::arithmetic::power2::lemma_pow2_adds(l as nat, 1);
                    vstd::arithmetic::div_mod::lemma_div_denominator(
                        epoch,
                        crate::field::p2(l),
                        2,
                    );
                }
                vstd::arithmetic::div_mod::lemma_fundamental_div_mod(edl, 2);
                assert(0 <= edl <= epoch) by {
                    vstd::arithmetic::power2::lemma_pow2_pos(l as nat);
                    vstd::arithmetic::div_mod::lemma_div_pos_is_pos(epoch, crate::field::p2(l));
                    vstd::arithmetic::div_mod::lemma_div_is_ordered_by_denominator(
                        epoch,
                        1,
                        crate::field::p2(l),
                    );
                    vstd::arithmetic::div_mod::lemma_div_basics(epoch);
                }
                assert(fadd(fmul(2, ed1), local.is_right@) == edl) by {
                    crate::field::lemma_fmul_no_wrap(2, ed1);
                    vstd::arithmetic::div_mod::lemma_mod_bound(edl, 2);
                    crate::field::lemma_fadd_no_wrap(2 * ed1, edl % 2);
                }
                // level steps and parameter lanes
                crate::field::lemma_fadd_no_wrap(l, 1);
                assert(next.is_path_row(vt, epoch, k, l + 1));
                assert(fe(next.perm.input@) == fe(vt.pk.parameter@)
                    + crate::hash_sig::tweak_tree_spec(l + 2, VerificationTrace::epoch_dec(
                    epoch,
                    l + 2,
                )) + vt.path_children(epoch, l + 1) + seq![0int, 0int, 0int]);
                assert forall|t: int| 0 <= t < PARAM_FE_LEN implies fmul(
                    pt,
                    fsub(#[trigger] fe(next.perm.input@)[t], fe(local.perm.input@)[t]),
                ) == 0 by {
                    assert(fe(next.perm.input@)[t] == fe(vt.pk.parameter@)[t]);
                    assert(fe(local.perm.input@)[t] == fe(vt.pk.parameter@)[t]);
                }
                // the compression output lands in the selected child slot
                assert(vt.path_node(l + 1).len() == HASH_FE_LEN);
                assert(next.is_right@ == ed1 % 2);
                vstd::arithmetic::div_mod::lemma_mod_bound(ed1, 2);
                assert forall|i: int| 0 <= i < HASH_FE_LEN implies fmul(
                    pt,
                    fsub(
                        #[trigger] local.perm.ff(i),
                        crate::gadget::select_spec(
                            next.is_right@,
                            fe(next.perm.input@)[7 + i],
                            fe(next.perm.input@)[14 + i],
                        ),
                    ),
                ) == 0 by {
                    assert(local.perm.ff(i) == vt.path_perms@[l].ff(i));
                    assert(vt.path_node(l + 1)[i] == vt.path_perms@[l].ff_prefix(
                        HASH_FE_LEN as int,
                    )[i]);
                    assert(fe(vt.sig.merkle_siblings@[l + 1]@).len() == HASH_FE_LEN);
                    if next.is_right@ == 1 {
                        assert(fe(next.perm.input@)[14 + i] == vt.path_node(l + 1)[i]) by {
                            assert(vt.path_children(epoch, l + 1) == fe(
                                vt.sig.merkle_siblings@[l + 1]@,
                            ) + vt.path_node(l + 1));
                        }
                        crate::gadget::lemma_select_pick(
                            1,
                            fe(next.perm.input@)[7 + i],
                            fe(next.perm.input@)[14 + i],
                        );
                    } else {
                        assert(fe(next.perm.input@)[7 + i] == vt.path_node(l + 1)[i]) by {
                            assert(vt.path_children(epoch, l + 1) == vt.path_node(l + 1) + fe(
                                vt.sig.merkle_siblings@[l + 1]@,
                            ));
                        }
                        crate::gadget::lemma_select_pick(
                            0,
                            fe(next.perm.input@)[7 + i],
                            fe(next.perm.input@)[14 + i],
                        );
                    }
                }
                crate::field::lemma_fmul_by_zero(fsub(local.epoch_dec@, local.is_right@));
                assert forall|t: int| 0 <= t < PARAM_FE_LEN implies fmul(
                    pl,
                    fsub(#[trigger] fe(next.perm.input@)[crate::hash_sig::RHO_FE_LEN + t], fe(
                        local.perm.input@,
                    )[t]),
                ) == 0 by {
                    crate::field::lemma_fmul_by_zero(
                        fsub(fe(next.perm.input@)[crate::hash_sig::RHO_FE_LEN + t], fe(
                            local.perm.input@,
                        )[t]),
                    );
                }
            } else {
                // the last path row closes the walk into the message row
                assert(next.is_msg_row(vt, k));
                assert(pt == 0 && pl == fsub(1, 0));
                assert(next.epoch_dec@ == 0);
                crate::gadget::lemma_select_bool(0, 0, next.epoch_dec@);
                assert(ed1 == 0) by {
                    vstd::arithmetic::power2::lemma_pow2_pos(llt as nat);
                    assert(crate::field::p2(llt) == 0x100000) by {
                        vstd::arithmetic::power2::lemma2_to64();
                    }
                    vstd::arithmetic::div_mod::lemma_basic_div(epoch, crate::field::p2(llt));
                }
                // the remaining epoch bit is the direction itself
                let edl = VerificationTrace::epoch_dec(epoch, l);
                assert(local.epoch_dec@ == edl && local.is_right@ == edl % 2);
                assert(edl < 2) by {
                    vstd::arithmetic::power2::lemma2_to64();
                    vstd::arithmetic::power2::lemma_pow2_adds((llt - 1) as nat, 1);
                    vstd::arithmetic::div_mod::lemma_div_denominator(
                        epoch,
                        crate::field::p2(llt - 1),
                        2,
                    );
                    vstd::arithmetic::power2::lemma_pow2_pos((llt - 1) as nat);
                    vstd::arithmetic::div_mod::lemma_basic_div(epoch, crate::field::p2(llt));
                    vstd::arithmetic::div_mod::lemma_fundamental_div_mod(edl, 2);
                    if edl >= 2 {
                        assert(edl / 2 >= 1) by (nonlinear_arith)
                            requires
                                edl >= 2,
                                edl == 2 * (edl / 2) + edl % 2,
                                0 <= edl % 2 < 2,
                        ;
                        assert(false);
                    }
                }
                assert(0 <= edl) by {
                    vstd::arithmetic::power2::lemma_pow2_pos(l as nat);
                    vstd::arithmetic::div_mod::lemma_div_pos_is_pos(epoch, crate::field::p2(l));
                }
                vstd::arithmetic::div_mod::lemma_small_mod(edl as nat, 2);
                // the path-transition clauses are gated off
                crate::field::lemma_fmul_by_zero(fsub(next.is_merkle_path@, 1));
                crate::field::lemma_fmul_by_zero(
                    fsub(next.level.step@, fadd(local.level.step@, 1)),
                );
                crate::field::lemma_fmul_by_zero(
                    fsub(local.epoch_dec@, fadd(fmul(2, next.epoch_dec@), local.is_right@)),
                );
                assert forall|t: int| 0 <= t < PARAM_FE_LEN implies fmul(
                    pt,
                    fsub(#[trigger] fe(next.perm.input@)[t], fe(local.perm.input@)[t]),
                ) == 0 by {
                    crate::field::lemma_fmul_by_zero(
                        fsub(fe(next.perm.input@)[t], fe(local.perm.input@)[t]),
                    );
                }
                assert forall|i: int| 0 <= i < HASH_FE_LEN implies fmul(
                    pt,
                    fsub(
                        #[trigger] local.perm.ff(i),
                        crate::gadget::select_spec(
                            next.is_right@,
                            fe(next.perm.input@)[7 + i],
                            fe(next.perm.input@)[14 + i],
                        ),
                    ),
                ) == 0 by {
                    crate::field::lemma_fmul_by_zero(
                        fsub(
                            local.perm.ff(i),
                            crate::gadget::select_spec(
                                next.is_right@,
                                fe(next.perm.input@)[7 + i],
                                fe(next.perm.input@)[14 + i],
                            ),
                        ),
                    );
                }
                // the parameter hands over to the message row
                assert(vt.wf_msg(epoch, encoded_msg_spec(vi.msg@)));
                assert(fe(next.perm.input@) == vt.msg_hash_preimage(
                    epoch,
                    encoded_msg_spec(vi.msg@),
                ));
                assert forall|t: int| 0 <= t < PARAM_FE_LEN implies fmul(
                    pl,
                    fsub(#[trigger] fe(next.perm.input@)[crate::hash_sig::RHO_FE_LEN + t], fe(
                        local.perm.input@,
                    )[t]),
                ) == 0 by {
                    assert(fe(next.perm.input@)[crate::hash_sig::RHO_FE_LEN + t] == fe(
                        vt.pk.parameter@,
                    )[t]) by {
                        assert(fe(vt.sig.rho@).len() == crate::hash_sig::RHO_FE_LEN);
                    }
                    assert(fe(local.perm.input@)[t] == fe(vt.pk.parameter@)[t]);
                }
            }
            // the message clauses are gated off on path rows
            assert(fmul(fmul(local.is_msg@, next.is_merkle_leaf@), fsub(
                next.sig_idx@,
                fadd(local.sig_idx@, 1),
            )) == 0) by {
                crate::field::lemma_fmul_by_zero(next.is_merkle_leaf@);
            }
        }
    }
}

/// A field-folded window over a one-hot sequence picks out whether the hot
/// index lies inside.
proof fn lemma_fsum_onehot(s: Seq<int>, a: int, b: int, at: int)
    requires
        0 <= a <= b <= s.len(),
        forall|t: int|
            a <= t < b ==> #[trigger] s[t] == (
            if t == at {
                1int
            } else {
                0int
            }),
    ensures
        decomposition::fsum(s, a, b) == if a <= at < b {
            1int
        } else {
            0int
        },
    decreases b - a,
{
    if b > a {
        lemma_fsum_onehot(s, a, b - 1, at);
        crate::field::lemma_fadd_no_wrap(decomposition::fsum(s, a, b - 1), s[b - 1]);
    }
}

/// A field-folded window of small cells is their plain sum.
proof fn lemma_fsum_small(s: Seq<int>, a: int, b: int, c: int)
    requires
        0 <= a <= b <= s.len(),
        0 <= c,
        forall|t: int| a <= t < b ==> 0 <= #[trigger] s[t] <= c,
        (b - a) * c < crate::field::P,
    ensures
        0 <= decomposition::fsum(s, a, b) <= (b - a) * c,
        decomposition::fsum(s, a, b) == decomposition::fsum(s, a, b),
    decreases b - a,
{
    if b > a {
        assert((b - 1 - a) * c < crate::field::P && (b - 1 - a) * c + c == (b - a) * c)
            by (nonlinear_arith)
            requires
                (b - a) * c < crate::field::P,
                c >= 0,
                b > a,
        ;
        lemma_fsum_small(s, a, b - 1, c);
        crate::field::lemma_fadd_no_wrap(decomposition::fsum(s, a, b - 1), s[b - 1]);
    }
}

/// The field-folded bit window equals the recursive bit count.
proof fn lemma_fsum_bits(s: Seq<int>, v: int, n: int)
    requires
        0 <= n <= s.len(),
        n <= 32,
        forall|i: int| 0 <= i < n ==> #[trigger] s[i] == decomposition::bit_of(v, i),
        v >= 0,
    ensures
        decomposition::fsum(s, 0, n) == decomposition::bitsum(v, n),
        0 <= decomposition::bitsum(v, n) <= n,
    decreases n,
{
    if n > 0 {
        lemma_fsum_bits(s, v, n - 1);
        assert(0 <= decomposition::bit_of(v, n - 1) <= 1) by {
            vstd::arithmetic::power2::lemma_pow2_pos((n - 1) as nat);
            vstd::arithmetic::div_mod::lemma_div_pos_is_pos(v, crate::field::p2(n - 1));
            vstd::arithmetic::div_mod::lemma_mod_bound(v / crate::field::p2(n - 1), 2);
        }
        crate::field::lemma_fadd_no_wrap(decomposition::fsum(s, 0, n - 1), s[n - 1]);
    }
}

/// Seven bits recompose their value; a full bit count forces the maximum.
proof fn lemma_bits7_recompose(v: int)
    requires
        0 <= v < 128,
    ensures
        v == decomposition::bit_of(v, 0) + 2 * decomposition::bit_of(v, 1) + 4
            * decomposition::bit_of(v, 2) + 8 * decomposition::bit_of(v, 3) + 16
            * decomposition::bit_of(v, 4) + 32 * decomposition::bit_of(v, 5) + 64
            * decomposition::bit_of(v, 6),
        decomposition::bitsum(v, 7) == 7 ==> v == 127,
{
    vstd::arithmetic::power2::lemma2_to64();
    vstd::arithmetic::div_mod::lemma_div_basics(v);
    let q1 = v / 2;
    let q2 = q1 / 2;
    let q3 = q2 / 2;
    let q4 = q3 / 2;
    let q5 = q4 / 2;
    let q6 = q5 / 2;
    assert(q1 == v / crate::field::p2(1) && q2 == v / crate::field::p2(2) && q3 == v
        / crate::field::p2(3) && q4 == v / crate::field::p2(4) && q5 == v / crate::field::p2(5)
        && q6 == v / crate::field::p2(6)) by {
        vstd::arithmetic::div_mod::lemma_div_denominator(v, 2, 2);
        vstd::arithmetic::div_mod::lemma_div_denominator(v, 4, 2);
        vstd::arithmetic::div_mod::lemma_div_denominator(v, 8, 2);
        vstd::arithmetic::div_mod::lemma_div_denominator(v, 16, 2);
        vstd::arithmetic::div_mod::lemma_div_denominator(v, 32, 2);
    }
    vstd::arithmetic::div_mod::lemma_fundamental_div_mod(v, 2);
    vstd::arithmetic::div_mod::lemma_fundamental_div_mod(q1, 2);
    vstd::arithmetic::div_mod::lemma_fundamental_div_mod(q2, 2);
    vstd::arithmetic::div_mod::lemma_fundamental_div_mod(q3, 2);
    vstd::arithmetic::div_mod::lemma_fundamental_div_mod(q4, 2);
    vstd::arithmetic::div_mod::lemma_fundamental_div_mod(q5, 2);
    vstd::arithmetic::div_mod::lemma_fundamental_div_mod(q6, 2);
    assert(q6 / 2 == 0) by {
        vstd::arithmetic::div_mod::lemma_basic_div(q6, 2);
        vstd::arithmetic::div_mod::lemma_div_is_ordered(v, 127, 64);
        assert(127int / 64 == 1);
    }
    assert(v == decomposition::bit_of(v, 0) + 2 * decomposition::bit_of(v, 1) + 4
        * decomposition::bit_of(v, 2) + 8 * decomposition::bit_of(v, 3) + 16
        * decomposition::bit_of(v, 4) + 32 * decomposition::bit_of(v, 5) + 64
        * decomposition::bit_of(v, 6));
    if decomposition::bitsum(v, 7) == 7 {
        assert forall|b: int| 0 <= b < 7 implies #[trigger] decomposition::bit_of(v, b)
            == 1 by {
            lemma_bitsum_forces(v, 7, b);
        }
        assert(decomposition::bit_of(v, 0) == 1 && decomposition::bit_of(v, 1) == 1
            && decomposition::bit_of(v, 2) == 1 && decomposition::bit_of(v, 3) == 1
            && decomposition::bit_of(v, 4) == 1 && decomposition::bit_of(v, 5) == 1
            && decomposition::bit_of(v, 6) == 1);
        assert(v == 127);
    }
}

/// A row whose limb bits decompose a small value recomposes it.
proof fn lemma_ms_limb_eval(row: DecompositionCols, v: int)
    requires
        row.value_ms_limb_bits@.len() == decomposition::F_MS_LIMB_BITS,
        fe(row.value_ms_limb_bits@) == Seq::new(
            decomposition::F_MS_LIMB_BITS as nat,
            |i: int| decomposition::bit_of(v, i),
        ),
        0 <= v < 128,
    ensures
        row.value_ms_limb_val() == v,
{
    lemma_bits7_recompose(v);
    assert forall|i: int| 0 <= i < 7 implies 0 <= #[trigger] decomposition::bit_of(v, i)
        <= 1 by {
        vstd::arithmetic::power2::lemma_pow2_pos(i as nat);
        vstd::arithmetic::div_mod::lemma_div_pos_is_pos(v, crate::field::p2(i));
        vstd::arithmetic::div_mod::lemma_mod_bound(v / crate::field::p2(i), 2);
    }
    let b = fe(row.value_ms_limb_bits@);
    crate::field::lemma_fmul_no_wrap(2, b[1]);
    crate::field::lemma_fmul_no_wrap(4, b[2]);
    crate::field::lemma_fmul_no_wrap(8, b[3]);
    crate::field::lemma_fmul_no_wrap(16, b[4]);
    crate::field::lemma_fmul_no_wrap(32, b[5]);
    crate::field::lemma_fmul_no_wrap(64, b[6]);
    crate::field::lemma_fadd_no_wrap(b[0], 2 * b[1]);
    crate::field::lemma_fadd_no_wrap(b[0] + 2 * b[1], 4 * b[2]);
    crate::field::lemma_fadd_no_wrap(b[0] + 2 * b[1] + 4 * b[2], 8 * b[3]);
    crate::field::lemma_fadd_no_wrap(b[0] + 2 * b[1] + 4 * b[2] + 8 * b[3], 16 * b[4]);
    crate::field::lemma_fadd_no_wrap(b[0] + 2 * b[1] + 4 * b[2] + 8 * b[3] + 16 * b[4], 32 * b[5]);
    crate::field::lemma_fadd_no_wrap(
        b[0] + 2 * b[1] + 4 * b[2] + 8 * b[3] + 16 * b[4] + 32 * b[5],
        64 * b[6],
    );
}

/// A maximal bit count forces every bit.
proof fn lemma_bitsum_forces(v: int, n: int, b: int)
    requires
        v >= 0,
        0 <= b < n,
        decomposition::bitsum(v, n) == n,
    ensures
        decomposition::bit_of(v, b) == 1,
    decreases n,
{
    assert forall|i: int| 0 <= i < n implies 0 <= #[trigger] decomposition::bit_of(v, i)
        <= 1 by {
        vstd::arithmetic::power2::lemma_pow2_pos(i as nat);
        vstd::arithmetic::div_mod::lemma_div_pos_is_pos(v, crate::field::p2(i));
        vstd::arithmetic::div_mod::lemma_mod_bound(v / crate::field::p2(i), 2);
    }
    lemma_bitsum_range(v, n);
    lemma_bitsum_range(v, n - 1);
    assert(decomposition::bitsum(v, n) == decomposition::bitsum(v, n - 1)
        + decomposition::bit_of(v, n - 1));
    assert(decomposition::bitsum(v, n - 1) == n - 1);
    if b < n - 1 {
        lemma_bitsum_forces(v, n - 1, b);
    }
}

proof fn lemma_bitsum_range(v: int, n: int)
    requires
        v >= 0,
        n >= 0,
    ensures
        0 <= decomposition::bitsum(v, n) <= n,
    decreases n,
{
    if n > 0 {
        lemma_bitsum_range(v, n - 1);
        vstd::arithmetic::power2::lemma_pow2_pos((n - 1) as nat);
        vstd::arithmetic::div_mod::lemma_div_pos_is_pos(v, crate::field::p2(n - 1));
        vstd::arithmetic::div_mod::lemma_mod_bound(v / crate::field::p2(n - 1), 2);
    }
}


/// Six consecutive chunks extend the running chunk sum.
proof fn lemma_xsum_window(x: Seq<u16>, m: int)
    requires
        0 <= m,
        m + 6 <= x.len(),
    ensures
        xsum(x.take(m + 6)) == xsum(x.take(m)) + x[m] + x[m + 1] + x[m + 2] + x[m + 3] + x[m + 4]
            + x[m + 5],
{
    assert(x.take(m + 1).drop_last() =~= x.take(m));
    assert(x.take(m + 2).drop_last() =~= x.take(m + 1));
    assert(x.take(m + 3).drop_last() =~= x.take(m + 2));
    assert(x.take(m + 4).drop_last() =~= x.take(m + 3));
    assert(x.take(m + 5).drop_last() =~= x.take(m + 4));
    assert(x.take(m + 6).drop_last() =~= x.take(m + 5));
    assert(xsum(x.take(m + 1)) == xsum(x.take(m)) + x[m]);
    assert(xsum(x.take(m + 2)) == xsum(x.take(m + 1)) + x[m + 1]);
    assert(xsum(x.take(m + 3)) == xsum(x.take(m + 2)) + x[m + 2]);
    assert(xsum(x.take(m + 4)) == xsum(x.take(m + 3)) + x[m + 3]);
    assert(xsum(x.take(m + 5)) == xsum(x.take(m + 4)) + x[m + 4]);
    assert(xsum(x.take(m + 6)) == xsum(x.take(m + 5)) + x[m + 5]);
}

/// Folding a zero accumulator produces the digest element's limbs with no
/// carries.
proof fn lemma_fold_zero(v: int, i: int)
    requires
        0 <= v < crate::field::P,
        -1 <= i < NUM_MSG_HASH_LIMBS,
    ensures
        decomposition::acc_carry(Seq::new(NUM_MSG_HASH_LIMBS as nat, |j: int| 0int), v, i) == 0,
        i >= 0 ==> decomposition::acc_fold(
            Seq::new(NUM_MSG_HASH_LIMBS as nat, |j: int| 0int),
            v,
        )[i] == (
        if i < 3 {
            crate::decomposition::vlimb(v, i)
        } else {
            0int
        }),
    decreases i + 1,
{
    let z = Seq::new(NUM_MSG_HASH_LIMBS as nat, |j: int| 0int);
    if i >= 0 {
        lemma_fold_zero(v, i - 1);
        assert(0 <= (if i < 3 {
            crate::decomposition::vlimb(v, i)
        } else {
            0int
        }) < 4096) by {
            if i < 3 {
                vstd::arithmetic::power2::lemma_pow2_pos((12 * i) as nat);
                vstd::arithmetic::div_mod::lemma_div_pos_is_pos(v, crate::field::p2(12 * i));
                vstd::arithmetic::div_mod::lemma_mod_bound(v / crate::field::p2(12 * i), 4096);
            }
        }
        assert(decomposition::acc_term(z, v, i) == (if i < 3 {
            crate::decomposition::vlimb(v, i)
        } else {
            0int
        })) by {
            assert(z[i] == 0);
            if i >= 2 {
                assert(z[i - 2] == 0);
                assert((decomposition::F_MS_LIMB as int) * 0 == 0) by (nonlinear_arith);
            }
        }
        let t = decomposition::acc_term(z, v, i) + 0;
        vstd::arithmetic::div_mod::lemma_basic_div(t, 4096);
        vstd::arithmetic::div_mod::lemma_small_mod(t as nat, 4096);
    }
}

/// The generated decomposition trace satisfies the decomposition constraint
/// system, given genuine inverse witnesses (the modulus is prime).
pub proof fn lemma_decomposition_trace_constraints(
    vi: &VerificationInput,
    rows: Seq<DecompositionCols>,
)
    requires
        vi.wf(),
        decomposition::decomposition_trace_is(vi.traces@, rows),
        crate::field::residues_invert(),
    ensures
        rows[0].first_row_ok(),
        forall|r: int| 0 <= r < rows.len() ==> (#[trigger] rows[r]).every_row_ok(),
        forall|r: int|
            0 <= r < rows.len() - 1 ==> (#[trigger] rows[r]).transition_ok(&rows[r + 1]),
{
    let traces = vi.traces@;
    let n = traces.len() as int;
    let b = decomposition::NUM_ROWS_PER_SIG as int;
    crate::util::lemma_next_pow2_ge(1, b * n);
    assert(rows[0].first_row_ok()) by {
        assert(decomposition::sig_row(rows, 0, 0).is_acc_row(&traces[0], 0, 0));
        assert(rows[0] == decomposition::sig_row(rows, 0, 0));
        lemma_acc_open_values(vi, rows, 0);
        lemma_acc_open_assemble(rows[0], 1);
    }
    assert forall|r: int| 0 <= r < rows.len() implies (#[trigger] rows[r]).every_row_ok() by {
        lemma_decomposition_every_row(vi, rows, r);
    }
    assert forall|r: int|
        0 <= r < rows.len() - 1 implies (#[trigger] rows[r]).transition_ok(&rows[r + 1]) by {
        lemma_decomposition_transition(vi, rows, r);
    }
}

/// Common facts of one generated decomposition-table row.
#[verifier::rlimit(100)]
proof fn lemma_dec_row_facts(vi: &VerificationInput, rows: Seq<DecompositionCols>, k: int, d: int)
    requires
        vi.wf(),
        decomposition::decomposition_trace_is(vi.traces@, rows),
        0 <= k < vi.traces@.len(),
        0 <= d < decomposition::NUM_ROWS_PER_SIG,
    ensures
        ({
            let row = decomposition::sig_row(rows, k, d);
            let mh = decomposition::mh_of(&vi.traces@[k]);
            &&& rows[decomposition::NUM_ROWS_PER_SIG as int * k + d] == row
            &&& (d < MSG_HASH_FE_LEN ==> row.is_acc_row(&vi.traces@[k], k, d) && fe(row.inds@)
                == decomposition::one_hot(d))
            &&& (d >= MSG_HASH_FE_LEN ==> row.is_decomposition_row(
                &vi.traces@[k],
                k,
                d - MSG_HASH_FE_LEN as int,
            ) && fe(row.inds@) == decomposition::one_hot(d))
            &&& forall|i: int|
                0 <= i < MSG_HASH_FE_LEN ==> 0 <= #[trigger] mh[i] < crate::field::P
            &&& forall|c: int| 0 <= c < NUM_CHUNKS ==> #[trigger] vi.traces@[k].x@[c] <= MAX_X
            &&& xsum(vi.traces@[k].x@) == TARGET_SUM as int
        }),
{
    let vt = &vi.traces@[k];
    let mh = decomposition::mh_of(vt);
    let bb = decomposition::NUM_ROWS_PER_SIG as int;
    crate::util::lemma_next_pow2_ge(1, bb * vi.traces@.len() as int);
    assert(bb * k + d < rows.len()) by (nonlinear_arith)
        requires
            0 <= k < vi.traces@.len(),
            0 <= d < bb,
            rows.len() >= bb * vi.traces@.len(),
    ;
    assert(vt.wf(vi.epoch as int, encoded_msg_spec(vi.msg@)));
    crate::chip::lemma_wf_gives_chain_input(vi, k);
    if d < MSG_HASH_FE_LEN {
        assert(decomposition::sig_row(rows, k, d).is_acc_row(vt, k, d));
    } else {
        assert(decomposition::sig_row(
            rows,
            k,
            MSG_HASH_FE_LEN as int + (d - MSG_HASH_FE_LEN as int),
        ).is_decomposition_row(vt, k, d - MSG_HASH_FE_LEN as int));
    }
    assert forall|i: int| 0 <= i < MSG_HASH_FE_LEN implies 0 <= #[trigger] mh[i]
        < crate::field::P by {
        decomposition::lemma_chunk_of_limb(mh, 0, 0);
    }
}

/// Every generated decomposition row satisfies the row-local constraints.
#[verifier::rlimit(100)]
proof fn lemma_decomposition_every_row(
    vi: &VerificationInput,
    rows: Seq<DecompositionCols>,
    r: int,
)
    requires
        vi.wf(),
        decomposition::decomposition_trace_is(vi.traces@, rows),
        crate::field::residues_invert(),
        0 <= r < rows.len(),
    ensures
        rows[r].every_row_ok(),
{
    broadcast use crate::field::lemma_fsub_cancel;

    let traces = vi.traces@;
    let n = traces.len() as int;
    let b = decomposition::NUM_ROWS_PER_SIG as int;
    let row = rows[r];
    crate::field::lemma_bool_constraint(0);
    crate::field::lemma_bool_constraint(1);
    crate::field::lemma_fmul_by_one(0);
    if r < b * n {
        let k = r / b;
        let d = r % b;
        vstd::arithmetic::div_mod::lemma_fundamental_div_mod(r, b);
        vstd::arithmetic::div_mod::lemma_mod_bound(r, b);
        assert(0 <= k < n) by (nonlinear_arith)
            requires
                r == b * k + d,
                0 <= d < b,
                0 <= r < b * n,
                b >= 1,
        ;
        lemma_dec_row_facts(vi, rows, k, d);
        let vt = &traces[k];
        let mh = decomposition::mh_of(vt);
        let inds = fe(row.inds@);
        assert forall|t: int| 0 <= t < decomposition::NUM_ROWS_PER_SIG implies fmul(
            #[trigger] inds[t],
            fsub(inds[t], 1),
        ) == 0 by {
            crate::field::lemma_bool_constraint(inds[t]);
        }
        lemma_fsum_onehot(inds, 0, decomposition::NUM_ROWS_PER_SIG as int, d);
        if d < MSG_HASH_FE_LEN {
            // an accumulation row
            let v = mh[d];
            let l2 = crate::decomposition::vlimb(v, 2);
            assert(0 <= l2 < 128) by {
                vstd::arithmetic::power2::lemma2_to64();
                vstd::arithmetic::div_mod::lemma_div_pos_is_pos(v, crate::field::p2(24));
                vstd::arithmetic::div_mod::lemma_div_is_ordered(
                    v,
                    crate::field::P as int - 1,
                    crate::field::p2(24),
                );
                assert((0x7f000000int) / 0x1000000 == 127);
                vstd::arithmetic::div_mod::lemma_small_mod((v / crate::field::p2(24)) as nat, 4096);
            }
            assert forall|i: int| 0 <= i < decomposition::F_MS_LIMB_BITS implies fmul(
                #[trigger] fe(row.value_ms_limb_bits@)[i],
                fsub(fe(row.value_ms_limb_bits@)[i], 1),
            ) == 0 by {
                vstd::arithmetic::power2::lemma_pow2_pos(i as nat);
                vstd::arithmetic::div_mod::lemma_div_pos_is_pos(l2, crate::field::p2(i));
                vstd::arithmetic::div_mod::lemma_mod_bound(l2 / crate::field::p2(i), 2);
                crate::field::lemma_bool_constraint(fe(row.value_ms_limb_bits@)[i]);
            }
            assert forall|t: int| 0 <= t < decomposition::LIMB_BITS implies fmul(
                #[trigger] fe(row.decomposition_bits@)[t],
                fsub(fe(row.decomposition_bits@)[t], 1),
            ) == 0 by {
                crate::field::lemma_bool_constraint(0);
            }
            let l0 = crate::decomposition::vlimb(v, 0);
            let l1 = crate::decomposition::vlimb(v, 1);
            assert(0 <= l0 < 4096 && 0 <= l1 < 4096) by {
                vstd::arithmetic::power2::lemma2_to64();
                vstd::arithmetic::div_mod::lemma_div_basics(v);
                vstd::arithmetic::div_mod::lemma_mod_bound(v, 4096);
                vstd::arithmetic::div_mod::lemma_div_pos_is_pos(v, crate::field::p2(12));
                vstd::arithmetic::div_mod::lemma_mod_bound(v / crate::field::p2(12), 4096);
            }
            crate::gadget::lemma_is_equal_constraints(row.value_limb_0_is_zero, l0);
            crate::gadget::lemma_is_equal_constraints(row.value_limb_1_is_zero, l1);
            // the threshold gadget over the bit count
            let bs = decomposition::bitsum(l2, decomposition::F_MS_LIMB_BITS as int);
            lemma_fsum_bits(fe(row.value_ms_limb_bits@), l2, decomposition::F_MS_LIMB_BITS as int);
            assert(row.value_ms_limb_bits_sum() == bs);
            vstd::arithmetic::div_mod::lemma_mod_bound(
                bs + (crate::field::P as int) - 7,
                crate::field::P as int,
            );
            crate::gadget::lemma_is_equal_constraints(row.is_ms_limb_max, fsub(bs, 7));
            // at the maximum, the low limbs vanish
            if row.is_ms_limb_max.output@ == 1 {
                assert(fsub(bs, 7) == 0);
                assert(bs == 7) by {
                    if bs != 7 {
                        crate::gadget::lemma_fsub_nonzero(bs, 7);
                    }
                }
                lemma_bits7_recompose(l2);
                assert(l2 == 127);
                // the digest element is then exactly the modulus threshold
                vstd::arithmetic::power2::lemma2_to64();
                vstd::arithmetic::div_mod::lemma_fundamental_div_mod(v, 0x1000000);
                vstd::arithmetic::div_mod::lemma_mod_bound(v, 0x1000000);
                vstd::arithmetic::div_mod::lemma_small_mod((v / crate::field::p2(24)) as nat, 4096);
                assert(v / 0x1000000 == 127) by {
                    assert(v / crate::field::p2(24) == v / 0x1000000);
                }
                assert(v == 0x7f000000) by {
                    assert(v == 0x1000000 * 127 + v % 0x1000000);
                }
                assert(l0 == 0 && l1 == 0) by {
                    vstd::arithmetic::power2::lemma2_to64();
                    vstd::arithmetic::div_mod::lemma_div_basics(v);
                    assert((0x7f000000int) % 4096 == 0);
                    assert((0x7f000000int) / 0x1000 == 0x7f000);
                    assert((0x7f000int) % 4096 == 0);
                    assert(v / crate::field::p2(12) == v / 0x1000);
                }
                assert(row.value_limb_0_is_zero.output@ == 1);
                assert(row.value_limb_1_is_zero.output@ == 1);
                crate::field::lemma_fmul_by_one(fsub(1, 1));
                crate::field::lemma_fsub_no_wrap(1, 1);
                crate::field::lemma_fmul_by_one(0);
            } else {
                crate::field::lemma_fmul_by_zero(fsub(row.value_limb_0_is_zero.output@, 1));
                crate::field::lemma_fmul_by_zero(fsub(row.value_limb_1_is_zero.output@, 1));
            }
            // the sum clauses are gated off
            crate::field::lemma_fmul_by_zero(
                fsub(row.sum@, decomposition::fsum(row.chunk_vals(), 0, 6)),
            );
            crate::field::lemma_fmul_by_zero(fsub(row.sum@, TARGET_SUM as int));
            // the active kind indicator binds the received digest element to
            // its decomposed limbs
            decomposition::lemma_vlimbs_total(v);
            lemma_ms_limb_eval(row, l2);
            assert(row.value_composed() == v) by {
                assert(l0 + 4096 * l1 + 0x100_0000 * l2 == crate::decomposition::vlimbs_val(v, 3))
                    by {
                    vstd::arithmetic::power2::lemma2_to64();
                    assert(crate::decomposition::vlimbs_val(v, 0) == 0);
                    assert(crate::decomposition::vlimbs_val(v, 1)
                        == crate::decomposition::vlimbs_val(v, 0) + l0 * crate::field::p2(0));
                    assert(crate::decomposition::vlimbs_val(v, 2)
                        == crate::decomposition::vlimbs_val(v, 1) + l1 * crate::field::p2(12));
                    assert(crate::decomposition::vlimbs_val(v, 3)
                        == crate::decomposition::vlimbs_val(v, 2) + l2 * crate::field::p2(24));
                    assert(l0 * crate::field::p2(0) == l0) by (nonlinear_arith)
                        requires
                            crate::field::p2(0) == 1,
                    ;
                    assert(l1 * crate::field::p2(12) == 4096 * l1) by (nonlinear_arith)
                        requires
                            crate::field::p2(12) == 4096,
                    ;
                    assert(l2 * crate::field::p2(24) == 0x100_0000 * l2) by (nonlinear_arith)
                        requires
                            crate::field::p2(24) == 0x100_0000,
                    ;
                }
                crate::field::lemma_fmul_no_wrap(4096, l1);
                crate::field::lemma_fadd_no_wrap(l0, 4096 * l1);
                crate::field::lemma_fmul_no_wrap(0x100_0000, l2);
                crate::field::lemma_fadd_no_wrap(l0 + 4096 * l1, 0x100_0000 * l2);
            }
            assert forall|idx: int| 0 <= idx < MSG_HASH_FE_LEN implies fmul(
                #[trigger] inds[idx],
                fsub(
                    fe(row.values@)[MSG_HASH_FE_LEN as int - 1 - idx],
                    row.value_composed(),
                ),
            ) == 0 by {
                if idx == d {
                    assert(fe(row.values@)[MSG_HASH_FE_LEN as int - 1 - d] == mh.reverse()[
                        MSG_HASH_FE_LEN as int - 1 - d]);
                    assert(mh.reverse()[MSG_HASH_FE_LEN as int - 1 - d] == mh[d]);
                    crate::field::lemma_fmul_by_one(0);
                } else {
                    crate::field::lemma_fmul_by_zero(
                        fsub(
                            fe(row.values@)[MSG_HASH_FE_LEN as int - 1 - idx],
                            row.value_composed(),
                        ),
                    );
                }
            }
            // no chunk is sent from an accumulation row
            lemma_fsum_onehot(inds, MSG_HASH_FE_LEN as int, b, d);
            assert(row.is_decomposition_val() == 0);
            assert forall|j: int| 0 <= j < 6 implies #[trigger] fe(row.is_send_chain@)[j] == fmul(
                row.is_decomposition_val(),
                fsub(
                    1,
                    fmul(
                        fe(row.decomposition_bits@)[2 * j],
                        fe(row.decomposition_bits@)[2 * j + 1],
                    ),
                ),
            ) by {
                crate::field::lemma_fmul_by_zero(
                    fsub(
                        1,
                        fmul(
                            fe(row.decomposition_bits@)[2 * j],
                            fe(row.decomposition_bits@)[2 * j + 1],
                        ),
                    ),
                );
            }
            crate::field::lemma_fmul_by_zero(
                fsub(row.selected_limb(), row.bits_recomposed()),
            );
        } else {
            // a decomposition row
            let sdx = d - MSG_HASH_FE_LEN as int;
            let limb = crate::hash_sig::mh_limb(mh, sdx);
            assert(0 <= limb < 4096) by {
                vstd::arithmetic::power2::lemma_pow2_pos((12 * sdx) as nat);
                decomposition::lemma_acc_after(mh, MSG_HASH_FE_LEN as int - 1);
                decomposition::lemma_digits_val_bounds(
                    decomposition::acc_after(mh, MSG_HASH_FE_LEN as int - 1),
                );
                assert(mh.take(MSG_HASH_FE_LEN as int) =~= mh);
                vstd::arithmetic::div_mod::lemma_div_pos_is_pos(
                    crate::hash_sig::mh_int(mh),
                    crate::field::p2(12 * sdx),
                );
                vstd::arithmetic::div_mod::lemma_mod_bound(
                    crate::hash_sig::mh_int(mh) / crate::field::p2(12 * sdx),
                    4096,
                );
            }
            assert forall|i: int| 0 <= i < decomposition::F_MS_LIMB_BITS implies fmul(
                #[trigger] fe(row.value_ms_limb_bits@)[i],
                fsub(fe(row.value_ms_limb_bits@)[i], 1),
            ) == 0 by {
                crate::field::lemma_bool_constraint(0);
            }
            assert forall|t: int| 0 <= t < decomposition::LIMB_BITS implies fmul(
                #[trigger] fe(row.decomposition_bits@)[t],
                fsub(fe(row.decomposition_bits@)[t], 1),
            ) == 0 by {
                vstd::arithmetic::power2::lemma_pow2_pos(t as nat);
                vstd::arithmetic::div_mod::lemma_div_pos_is_pos(limb, crate::field::p2(t));
                vstd::arithmetic::div_mod::lemma_mod_bound(limb / crate::field::p2(t), 2);
                crate::field::lemma_bool_constraint(fe(row.decomposition_bits@)[t]);
            }
            crate::gadget::lemma_is_equal_constraints(row.value_limb_0_is_zero, 0);
            crate::gadget::lemma_is_equal_constraints(row.value_limb_1_is_zero, 0);
            lemma_fsum_onehot(fe(row.value_ms_limb_bits@), 0, decomposition::F_MS_LIMB_BITS as int, -1);
            vstd::arithmetic::div_mod::lemma_mod_bound(
                0 + (crate::field::P as int) - 7,
                crate::field::P as int,
            );
            crate::gadget::lemma_is_equal_constraints(row.is_ms_limb_max, fsub(0, 7));
            assert(row.is_ms_limb_max.output@ == 0) by {
                crate::gadget::lemma_fsub_nonzero(0, 7);
            }
            crate::field::lemma_fmul_by_zero(fsub(row.value_limb_0_is_zero.output@, 1));
            crate::field::lemma_fmul_by_zero(fsub(row.value_limb_1_is_zero.output@, 1));
            // the running-sum clauses
            let x = vt.x@;
            assert forall|j: int| 0 <= j < 6 implies #[trigger] row.chunk_vals()[j] == x[6 * sdx
                + j] as int by {
                decomposition::lemma_bits_to_chunk(limb, j);
                decomposition::lemma_chunk_of_limb(mh, sdx, j);
                lemma_low_bits_pair(limb, j, row);
            }
            lemma_fsum_small(row.chunk_vals(), 0, 6, 3);
            lemma_fsum_window_int(row.chunk_vals(), x, 6 * sdx);
            if sdx == 0 {
                assert(x.take(0) =~= Seq::<u16>::empty());
                lemma_xsum_window(x, 0);
                crate::field::lemma_fmul_by_one(
                    fsub(row.sum@, decomposition::fsum(row.chunk_vals(), 0, 6)),
                );
            } else {
                assert(inds[MSG_HASH_FE_LEN as int] == 0);
                crate::field::lemma_fmul_by_zero(
                    fsub(row.sum@, decomposition::fsum(row.chunk_vals(), 0, 6)),
                );
            }
            if sdx == decomposition::NUM_MSG_HASH_LIMBS as int - 1 {
                assert(x.take(78int) =~= x);
                crate::field::lemma_fmul_by_one(fsub(row.sum@, TARGET_SUM as int));
            } else {
                assert(inds[decomposition::NUM_ROWS_PER_SIG as int - 1] == 0);
                crate::field::lemma_fmul_by_zero(fsub(row.sum@, TARGET_SUM as int));
            }
            // the value-reconstruction clauses are gated off
            assert forall|idx: int| 0 <= idx < MSG_HASH_FE_LEN implies fmul(
                #[trigger] inds[idx],
                fsub(
                    fe(row.values@)[MSG_HASH_FE_LEN as int - 1 - idx],
                    row.value_composed(),
                ),
            ) == 0 by {
                crate::field::lemma_fmul_by_zero(
                    fsub(
                        fe(row.values@)[MSG_HASH_FE_LEN as int - 1 - idx],
                        row.value_composed(),
                    ),
                );
            }
            // the send flags follow the chunk bits
            lemma_fsum_onehot(inds, MSG_HASH_FE_LEN as int, b, d);
            assert(row.is_decomposition_val() == 1);
            assert forall|j: int| 0 <= j < 6 implies #[trigger] fe(row.is_send_chain@)[j] == fmul(
                row.is_decomposition_val(),
                fsub(
                    1,
                    fmul(
                        fe(row.decomposition_bits@)[2 * j],
                        fe(row.decomposition_bits@)[2 * j + 1],
                    ),
                ),
            ) by {
                lemma_send_flag_eval(vi, k, sdx, limb, j, row);
            }
            // the kind indicators select the exposed limb
            decomposition::lemma_acc_final(mh, sdx);
            assert(row.selected_limb() == limb) by {
                let cells = Seq::new(
                    decomposition::NUM_MSG_HASH_LIMBS as nat,
                    |t: int|
                        fmul(
                            fe(row.acc_limbs@)[t],
                            fe(row.inds@)[MSG_HASH_FE_LEN as int + t],
                        ),
                );
                assert forall|t: int|
                    0 <= t < decomposition::NUM_MSG_HASH_LIMBS implies #[trigger] cells[t] == (
                if t == sdx {
                    limb
                } else {
                    0int
                }) by {
                    assert(0 <= crate::hash_sig::mh_limb(mh, t) < 4096) by {
                        vstd::arithmetic::power2::lemma_pow2_pos((12 * t) as nat);
                        decomposition::lemma_acc_after(mh, MSG_HASH_FE_LEN as int - 1);
                        decomposition::lemma_digits_val_bounds(
                            decomposition::acc_after(mh, MSG_HASH_FE_LEN as int - 1),
                        );
                        assert(mh.take(MSG_HASH_FE_LEN as int) =~= mh);
                        vstd::arithmetic::div_mod::lemma_div_pos_is_pos(
                            crate::hash_sig::mh_int(mh),
                            crate::field::p2(12 * t),
                        );
                        vstd::arithmetic::div_mod::lemma_mod_bound(
                            crate::hash_sig::mh_int(mh) / crate::field::p2(12 * t),
                            4096,
                        );
                    }
                    if t == sdx {
                        crate::field::lemma_fmul_by_one(fe(row.acc_limbs@)[t]);
                    } else {
                        crate::field::lemma_fmul_by_zero(fe(row.acc_limbs@)[t]);
                    }
                }
                lemma_fsum_single_val(
                    cells,
                    0,
                    decomposition::NUM_MSG_HASH_LIMBS as int,
                    sdx,
                    limb,
                );
            }
            lemma_limb_bits_eval(row, limb);
            crate::field::lemma_fmul_by_one(
                fsub(row.selected_limb(), row.bits_recomposed()),
            );
        }
    } else {
        assert(row.is_padding_row());
        let inds = fe(row.inds@);
        assert forall|t: int| 0 <= t < decomposition::NUM_ROWS_PER_SIG implies fmul(
            #[trigger] inds[t],
            fsub(inds[t], 1),
        ) == 0 by {
            crate::field::lemma_bool_constraint(0);
        }
        lemma_fsum_onehot(inds, 0, decomposition::NUM_ROWS_PER_SIG as int, -1);
        assert forall|i: int| 0 <= i < decomposition::F_MS_LIMB_BITS implies fmul(
            #[trigger] fe(row.value_ms_limb_bits@)[i],
            fsub(fe(row.value_ms_limb_bits@)[i], 1),
        ) == 0 by {
            crate::field::lemma_bool_constraint(0);
        }
        assert forall|t: int| 0 <= t < decomposition::LIMB_BITS implies fmul(
            #[trigger] fe(row.decomposition_bits@)[t],
            fsub(fe(row.decomposition_bits@)[t], 1),
        ) == 0 by {
            crate::field::lemma_bool_constraint(0);
        }
        crate::gadget::lemma_is_equal_constraints(row.value_limb_0_is_zero, 0);
        crate::gadget::lemma_is_equal_constraints(row.value_limb_1_is_zero, 0);
        lemma_fsum_onehot(fe(row.value_ms_limb_bits@), 0, decomposition::F_MS_LIMB_BITS as int, -1);
        vstd::arithmetic::div_mod::lemma_mod_bound(
            0 + (crate::field::P as int) - 7,
            crate::field::P as int,
        );
        crate::gadget::lemma_is_equal_constraints(row.is_ms_limb_max, fsub(0, 7));
        assert(row.is_ms_limb_max.output@ == 0) by {
            crate::gadget::lemma_fsub_nonzero(0, 7);
        }
        crate::field::lemma_fmul_by_zero(fsub(row.value_limb_0_is_zero.output@, 1));
        crate::field::lemma_fmul_by_zero(fsub(row.value_limb_1_is_zero.output@, 1));
        crate::field::lemma_fmul_by_zero(
            fsub(row.sum@, decomposition::fsum(row.chunk_vals(), 0, 6)),
        );
        crate::field::lemma_fmul_by_zero(fsub(row.sum@, TARGET_SUM as int));
        assert forall|idx: int| 0 <= idx < MSG_HASH_FE_LEN implies fmul(
            #[trigger] inds[idx],
            fsub(fe(row.values@)[MSG_HASH_FE_LEN as int - 1 - idx], row.value_composed()),
        ) == 0 by {
            crate::field::lemma_fmul_by_zero(
                fsub(fe(row.values@)[MSG_HASH_FE_LEN as int - 1 - idx], row.value_composed()),
            );
        }
        lemma_fsum_onehot(
            inds,
            MSG_HASH_FE_LEN as int,
            decomposition::NUM_ROWS_PER_SIG as int,
            -1,
        );
        assert(row.is_decomposition_val() == 0);
        assert forall|j: int| 0 <= j < 6 implies #[trigger] fe(row.is_send_chain@)[j] == fmul(
            row.is_decomposition_val(),
            fsub(
                1,
                fmul(
                    fe(row.decomposition_bits@)[2 * j],
                    fe(row.decomposition_bits@)[2 * j + 1],
                ),
            ),
        ) by {
            crate::field::lemma_fmul_by_zero(
                fsub(
                    1,
                    fmul(
                        fe(row.decomposition_bits@)[2 * j],
                        fe(row.decomposition_bits@)[2 * j + 1],
                    ),
                ),
            );
        }
        crate::field::lemma_fmul_by_zero(fsub(row.selected_limb(), row.bits_recomposed()));
    }
}

/// One decomposition row's send flag follows its chunk's bits.
#[verifier::rlimit(100)]
proof fn lemma_send_flag_eval(
    vi: &VerificationInput,
    k: int,
    sdx: int,
    limb: int,
    j: int,
    row: DecompositionCols,
)
    requires
        vi.wf(),
        0 <= k < vi.traces@.len(),
        0 <= sdx < decomposition::NUM_MSG_HASH_LIMBS,
        0 <= j < 6,
        limb == crate::hash_sig::mh_limb(decomposition::mh_of(&vi.traces@[k]), sdx),
        0 <= limb < 4096,
        row.is_decomposition_row(&vi.traces@[k], k, sdx),
        row.is_decomposition_val() == 1,
    ensures
        fe(row.is_send_chain@)[j] == fmul(
            row.is_decomposition_val(),
            fsub(
                1,
                fmul(
                    fe(row.decomposition_bits@)[2 * j],
                    fe(row.decomposition_bits@)[2 * j + 1],
                ),
            ),
        ),
{
    let vt = &vi.traces@[k];
    let mh = decomposition::mh_of(vt);
    let x = vt.x@;
    assert(vt.wf(vi.epoch as int, encoded_msg_spec(vi.msg@)));
    crate::chip::lemma_wf_gives_chain_input(vi, k);
    assert forall|i: int| 0 <= i < MSG_HASH_FE_LEN implies 0 <= #[trigger] mh[i]
        < crate::field::P by {
        decomposition::lemma_chunk_of_limb(mh, 0, 0);
    }
    decomposition::lemma_bits_to_chunk(limb, j);
    decomposition::lemma_chunk_of_limb(mh, sdx, j);
    let b0 = decomposition::bit_of(limb, 2 * j);
    let b1 = decomposition::bit_of(limb, 2 * j + 1);
    assert(0 <= b0 <= 1 && 0 <= b1 <= 1) by {
        vstd::arithmetic::power2::lemma_pow2_pos((2 * j) as nat);
        vstd::arithmetic::power2::lemma_pow2_pos((2 * j + 1) as nat);
        vstd::arithmetic::div_mod::lemma_div_pos_is_pos(limb, crate::field::p2(2 * j));
        vstd::arithmetic::div_mod::lemma_div_pos_is_pos(limb, crate::field::p2(2 * j + 1));
        vstd::arithmetic::div_mod::lemma_mod_bound(limb / crate::field::p2(2 * j), 2);
        vstd::arithmetic::div_mod::lemma_mod_bound(limb / crate::field::p2(2 * j + 1), 2);
    }
    assert(x[6 * sdx + j] as int == b0 + 2 * b1);
    if b0 == 1 && b1 == 1 {
        assert(x[6 * sdx + j] == MAX_X);
        crate::field::lemma_fmul_by_one(1);
        crate::field::lemma_fsub_no_wrap(1, 1);
        crate::field::lemma_fmul_by_one(0);
    } else {
        assert(x[6 * sdx + j] != MAX_X);
        assert(fmul(b0, b1) == 0) by {
            if b0 == 0 {
                crate::field::lemma_fmul_by_zero(b1);
            } else {
                crate::field::lemma_fmul_by_zero(b0);
            }
        }
        crate::field::lemma_fsub_no_wrap(1, 0);
        crate::field::lemma_fmul_by_one(1);
    }
}

/// One chunk's two bits on a decomposition row.
proof fn lemma_low_bits_pair(limb: int, j: int, row: DecompositionCols)
    requires
        0 <= limb < 4096,
        0 <= j < 6,
        row.decomposition_bits@.len() == decomposition::LIMB_BITS,
        forall|t: int|
            0 <= t < decomposition::LIMB_BITS ==> #[trigger] fe(row.decomposition_bits@)[t]
                == decomposition::bit_of(limb, t),
    ensures
        row.chunk_val(j) == decomposition::chunk_of(limb, j),
{
    decomposition::lemma_bits_to_chunk(limb, j);
    assert(0 <= decomposition::bit_of(limb, 2 * j) <= 1 && 0 <= decomposition::bit_of(
        limb,
        2 * j + 1,
    ) <= 1) by {
        vstd::arithmetic::power2::lemma_pow2_pos((2 * j) as nat);
        vstd::arithmetic::power2::lemma_pow2_pos((2 * j + 1) as nat);
        vstd::arithmetic::div_mod::lemma_div_pos_is_pos(limb, crate::field::p2(2 * j));
        vstd::arithmetic::div_mod::lemma_div_pos_is_pos(limb, crate::field::p2(2 * j + 1));
        vstd::arithmetic::div_mod::lemma_mod_bound(limb / crate::field::p2(2 * j), 2);
        vstd::arithmetic::div_mod::lemma_mod_bound(limb / crate::field::p2(2 * j + 1), 2);
    }
    crate::field::lemma_fmul_no_wrap(2, decomposition::bit_of(limb, 2 * j + 1));
    crate::field::lemma_fadd_no_wrap(
        decomposition::bit_of(limb, 2 * j),
        2 * decomposition::bit_of(limb, 2 * j + 1),
    );
}

/// A window of small chunk values folds to their plain sum.
proof fn lemma_fsum_window_int(s: Seq<int>, x: Seq<u16>, m: int)
    requires
        s.len() == 6,
        0 <= m,
        m + 6 <= x.len(),
        forall|j: int| 0 <= j < 6 ==> #[trigger] s[j] == x[m + j] as int,
        forall|c: int| 0 <= c < x.len() ==> #[trigger] x[c] <= 3,
    ensures
        decomposition::fsum(s, 0, 6) == x[m] + x[m + 1] + x[m + 2] + x[m + 3] + x[m + 4] + x[m
            + 5],
{
    assert forall|j: int| 0 <= j < 6 implies 0 <= #[trigger] s[j] <= 3 by {}
    lemma_fsum_small(s, 0, 1, 3);
    crate::field::lemma_fadd_no_wrap(decomposition::fsum(s, 0, 0), s[0]);
    crate::field::lemma_fadd_no_wrap(decomposition::fsum(s, 0, 1), s[1]);
    crate::field::lemma_fadd_no_wrap(decomposition::fsum(s, 0, 2), s[2]);
    crate::field::lemma_fadd_no_wrap(decomposition::fsum(s, 0, 3), s[3]);
    crate::field::lemma_fadd_no_wrap(decomposition::fsum(s, 0, 4), s[4]);
    crate::field::lemma_fadd_no_wrap(decomposition::fsum(s, 0, 5), s[5]);
}

/// Chunk sums stay small.
proof fn lemma_xsum_le3(x: Seq<u16>, m: int)
    requires
        0 <= m <= x.len(),
        forall|c: int| 0 <= c < x.len() ==> #[trigger] x[c] <= 3,
    ensures
        0 <= xsum(x.take(m)) <= 3 * m,
    decreases m,
{
    if m > 0 {
        lemma_xsum_le3(x, m - 1);
        assert(x.take(m).drop_last() =~= x.take(m - 1));
    } else {
        assert(x.take(0) =~= Seq::<u16>::empty());
    }
}

/// Every adjacent pair of generated decomposition rows satisfies the
/// transition constraints.
#[verifier::rlimit(100)]
proof fn lemma_decomposition_transition(
    vi: &VerificationInput,
    rows: Seq<DecompositionCols>,
    r: int,
)
    requires
        vi.wf(),
        decomposition::decomposition_trace_is(vi.traces@, rows),
        crate::field::residues_invert(),
        0 <= r < rows.len() - 1,
    ensures
        rows[r].transition_ok(&rows[r + 1]),
{
    broadcast use crate::field::lemma_fmul_zero_left, crate::field::lemma_fmul_zero_right,
        crate::field::lemma_fsub_cancel;

    let traces = vi.traces@;
    let n = traces.len() as int;
    let b = decomposition::NUM_ROWS_PER_SIG as int;
    crate::util::lemma_next_pow2_ge(1, b * n);
    let local = rows[r];
    let next = rows[r + 1];
    crate::field::lemma_fmul_by_one(0);
    crate::field::lemma_fmul_by_one(1);
    crate::field::lemma_fsub_no_wrap(1, 0);
    crate::field::lemma_fsub_no_wrap(1, 1);
    crate::field::lemma_fadd_no_wrap(0, 0);
    crate::field::lemma_fadd_no_wrap(1, 0);
    crate::field::lemma_fadd_no_wrap(0, 1);
    if r >= b * n {
        assert(local.is_padding_row() && next.is_padding_row());
        let inds = fe(local.inds@);
        lemma_fsum_onehot(inds, 0, b, -1);
        lemma_fsum_onehot(fe(next.inds@), 0, b, -1);
        lemma_fsum_onehot(inds, 0, b - 1, -1);
        lemma_fsum_onehot(inds, 0, MSG_HASH_FE_LEN as int - 1, -1);
        lemma_fsum_onehot(inds, MSG_HASH_FE_LEN as int, b - 1, -1);
        assert forall|t: int| 0 <= t < b - 1 implies fmul(
            #[trigger] inds[t],
            fsub(fe(next.inds@)[t + 1], 1),
        ) == 0 by {
            crate::field::lemma_fmul_by_zero(fsub(fe(next.inds@)[t + 1], 1));
        }
        assert forall|i: int| 0 <= i < decomposition::NUM_MSG_HASH_LIMBS implies fmul(
            decomposition::fsum(inds, 0, MSG_HASH_FE_LEN as int - 1),
            fsub(#[trigger] next.acc_lhs(i), local.acc_rhs(&next, i)),
        ) == 0 by {
            crate::field::lemma_fmul_by_zero(fsub(next.acc_lhs(i), local.acc_rhs(&next, i)));
        }
        assert forall|i: int| 0 <= i < decomposition::NUM_MSG_HASH_LIMBS implies fmul(
            fadd(inds[MSG_HASH_FE_LEN as int - 1], decomposition::fsum(
                inds,
                MSG_HASH_FE_LEN as int,
                b - 1,
            )),
            fsub(#[trigger] fe(next.acc_limbs@)[i], fe(local.acc_limbs@)[i]),
        ) == 0 by {
            crate::field::lemma_fmul_by_zero(
                fsub(fe(next.acc_limbs@)[i], fe(local.acc_limbs@)[i]),
            );
        }
        // the boundary and re-opening clauses are inert on padding
        crate::field::lemma_fmul_by_zero(
            fsub(fadd(fe(next.inds@)[0], fsub(1, decomposition::fsum(fe(next.inds@), 0, b))), 1),
        );
        lemma_acc_open_assemble(next, fmul(inds[b - 1], fe(next.inds@)[0]));
    } else {
        let k = r / b;
        let d = r % b;
        vstd::arithmetic::div_mod::lemma_fundamental_div_mod(r, b);
        vstd::arithmetic::div_mod::lemma_mod_bound(r, b);
        assert(0 <= k < n) by (nonlinear_arith)
            requires
                r == b * k + d,
                0 <= d < b,
                0 <= r < b * n,
                b >= 1,
        ;
        lemma_dec_row_facts(vi, rows, k, d);
        let vt = &traces[k];
        let mh = decomposition::mh_of(vt);
        let x = vt.x@;
        let inds = fe(local.inds@);
        lemma_fsum_onehot(inds, 0, b, d);
        lemma_fsum_onehot(inds, 0, b - 1, d);
        lemma_fsum_onehot(inds, 0, MSG_HASH_FE_LEN as int - 1, d);
        lemma_fsum_onehot(inds, MSG_HASH_FE_LEN as int, b - 1, d);
        if d < b - 1 {
            assert(r + 1 == b * k + (d + 1));
            lemma_dec_row_facts(vi, rows, k, d + 1);
            lemma_fsum_onehot(fe(next.inds@), 0, b, d + 1);
            // within one signature: the index is carried and the kinds step
            crate::field::lemma_fmul_by_zero(fsub(next.sig_idx@, fadd(local.sig_idx@, 1)));
            assert forall|t: int| 0 <= t < b - 1 implies fmul(
                #[trigger] inds[t],
                fsub(fe(next.inds@)[t + 1], 1),
            ) == 0 by {
                if t == d {
                    assert(fe(next.inds@)[d + 1] == 1);
                } else {
                    crate::field::lemma_fmul_by_zero(fsub(fe(next.inds@)[t + 1], 1));
                }
            }
            if d < MSG_HASH_FE_LEN as int - 1 {
                // an accumulation step: the carry-propagating fold
                let dd = decomposition::acc_after(mh, d);
                let v = mh[d + 1];
                decomposition::lemma_acc_after(mh, d);
                decomposition::lemma_acc_after(mh, d + 1);
                assert forall|i: int| 0 <= i < decomposition::NUM_MSG_HASH_LIMBS implies fmul(
                    decomposition::fsum(inds, 0, MSG_HASH_FE_LEN as int - 1),
                    fsub(#[trigger] next.acc_lhs(i), local.acc_rhs(&next, i)),
                ) == 0 by {
                    lemma_acc_fold_identity(local, next, mh, d, i);
                }
                assert forall|i: int| 0 <= i < decomposition::NUM_MSG_HASH_LIMBS implies fmul(
                    fadd(inds[MSG_HASH_FE_LEN as int - 1], decomposition::fsum(
                        inds,
                        MSG_HASH_FE_LEN as int,
                        b - 1,
                    )),
                    fsub(#[trigger] fe(next.acc_limbs@)[i], fe(local.acc_limbs@)[i]),
                ) == 0 by {
                    crate::field::lemma_fmul_by_zero(
                        fsub(fe(next.acc_limbs@)[i], fe(local.acc_limbs@)[i]),
                    );
                }
                crate::field::lemma_fmul_by_zero(
                    fsub(
                        next.sum@,
                        fadd(local.sum@, decomposition::fsum(next.chunk_vals(), 0, 6)),
                    ),
                );
            } else {
                // the accumulator is carried unchanged past this point
                assert forall|i: int| 0 <= i < decomposition::NUM_MSG_HASH_LIMBS implies fmul(
                    decomposition::fsum(inds, 0, MSG_HASH_FE_LEN as int - 1),
                    fsub(#[trigger] next.acc_lhs(i), local.acc_rhs(&next, i)),
                ) == 0 by {
                    crate::field::lemma_fmul_by_zero(
                        fsub(next.acc_lhs(i), local.acc_rhs(&next, i)),
                    );
                }
                assert forall|i: int| 0 <= i < decomposition::NUM_MSG_HASH_LIMBS implies fmul(
                    fadd(inds[MSG_HASH_FE_LEN as int - 1], decomposition::fsum(
                        inds,
                        MSG_HASH_FE_LEN as int,
                        b - 1,
                    )),
                    fsub(#[trigger] fe(next.acc_limbs@)[i], fe(local.acc_limbs@)[i]),
                ) == 0 by {
                    if d == MSG_HASH_FE_LEN as int - 1 {
                        decomposition::lemma_acc_final(mh, i);
                        assert(fe(local.acc_limbs@)[i] == decomposition::acc_after(
                            mh,
                            MSG_HASH_FE_LEN as int - 1,
                        )[i]);
                        assert(fe(next.acc_limbs@)[i] == crate::hash_sig::mh_limb(mh, i));
                    }
                    assert(fe(next.acc_limbs@)[i] == fe(local.acc_limbs@)[i]);
                }
                if d >= MSG_HASH_FE_LEN {
                    // the running sum accumulates the next row's chunks
                    let sdx = d - MSG_HASH_FE_LEN as int;
                    let limb1 = crate::hash_sig::mh_limb(mh, sdx + 1);
                    assert(0 <= limb1 < 4096) by {
                        vstd::arithmetic::power2::lemma_pow2_pos((12 * (sdx + 1)) as nat);
                        decomposition::lemma_acc_after(mh, MSG_HASH_FE_LEN as int - 1);
                        decomposition::lemma_digits_val_bounds(
                            decomposition::acc_after(mh, MSG_HASH_FE_LEN as int - 1),
                        );
                        assert(mh.take(MSG_HASH_FE_LEN as int) =~= mh);
                        vstd::arithmetic::div_mod::lemma_div_pos_is_pos(
                            crate::hash_sig::mh_int(mh),
                            crate::field::p2(12 * (sdx + 1)),
                        );
                        vstd::arithmetic::div_mod::lemma_mod_bound(
                            crate::hash_sig::mh_int(mh) / crate::field::p2(12 * (sdx + 1)),
                            4096,
                        );
                    }
                    assert forall|j: int| 0 <= j < 6 implies #[trigger] next.chunk_vals()[j] == x[6
                        * (sdx + 1) + j] as int by {
                        decomposition::lemma_bits_to_chunk(limb1, j);
                        decomposition::lemma_chunk_of_limb(mh, sdx + 1, j);
                        lemma_low_bits_pair(limb1, j, next);
                    }
                    lemma_fsum_window_int(next.chunk_vals(), x, 6 * (sdx + 1));
                    lemma_xsum_window(x, 6 * (sdx + 1));
                    lemma_xsum_le3(x, 6 * (sdx + 2));
                    lemma_xsum_le3(x, 6 * (sdx + 1));
                    lemma_fsum_small(next.chunk_vals(), 0, 6, 3);
                    crate::field::lemma_fadd_no_wrap(
                        local.sum@,
                        decomposition::fsum(next.chunk_vals(), 0, 6),
                    );
                    crate::field::lemma_fmul_by_one(
                        fsub(
                            next.sum@,
                            fadd(local.sum@, decomposition::fsum(next.chunk_vals(), 0, 6)),
                        ),
                    );
                } else {
                    crate::field::lemma_fmul_by_zero(
                        fsub(
                            next.sum@,
                            fadd(local.sum@, decomposition::fsum(next.chunk_vals(), 0, 6)),
                        ),
                    );
                }
            }
            // the boundary and re-opening clauses are gated off mid-signature
            crate::field::lemma_fmul_by_zero(
                fsub(
                    fadd(fe(next.inds@)[0], fsub(1, decomposition::fsum(fe(next.inds@), 0, b))),
                    1,
                ),
            );
            crate::field::lemma_fmul_by_zero(fe(next.inds@)[0]);
            lemma_acc_open_assemble(next, fmul(inds[b - 1], fe(next.inds@)[0]));
        } else {
            // the signature boundary
            assert(d == b - 1);
            crate::field::lemma_fmul_by_zero(fsub(next.sig_idx@, local.sig_idx@));
            if r + 1 < b * n {
                assert(r + 1 == b * (k + 1));
                assert((r + 1) / b == k + 1 && (r + 1) % b == 0) by {
                    vstd::arithmetic::div_mod::lemma_fundamental_div_mod_converse(
                        r + 1,
                        b,
                        k + 1,
                        0,
                    );
                }
                lemma_dec_row_facts(vi, rows, k + 1, 0);
                lemma_fsum_onehot(fe(next.inds@), 0, b, 0);
                crate::field::lemma_fadd_no_wrap(k, 1);
                // the next signature's accumulator re-opens
                assert(next == decomposition::sig_row(rows, k + 1, 0));
                lemma_acc_open_values(vi, rows, k + 1);
                assert(fmul(inds[b - 1], fe(next.inds@)[0]) == 1);
                lemma_acc_open_assemble(next, fmul(inds[b - 1], fe(next.inds@)[0]));
            } else {
                assert(next.is_padding_row());
                lemma_fsum_onehot(fe(next.inds@), 0, b, -1);
                crate::field::lemma_fmul_by_zero(fsub(next.sig_idx@, fadd(local.sig_idx@, 1)));
                lemma_acc_open_assemble(next, fmul(inds[b - 1], fe(next.inds@)[0]));
            }
            assert forall|t: int| 0 <= t < b - 1 implies fmul(
                #[trigger] inds[t],
                fsub(fe(next.inds@)[t + 1], 1),
            ) == 0 by {
                crate::field::lemma_fmul_by_zero(fsub(fe(next.inds@)[t + 1], 1));
            }
            assert forall|i: int| 0 <= i < decomposition::NUM_MSG_HASH_LIMBS implies fmul(
                decomposition::fsum(inds, 0, MSG_HASH_FE_LEN as int - 1),
                fsub(#[trigger] next.acc_lhs(i), local.acc_rhs(&next, i)),
            ) == 0 by {
                crate::field::lemma_fmul_by_zero(fsub(next.acc_lhs(i), local.acc_rhs(&next, i)));
            }
            assert forall|i: int| 0 <= i < decomposition::NUM_MSG_HASH_LIMBS implies fmul(
                fadd(inds[MSG_HASH_FE_LEN as int - 1], decomposition::fsum(
                    inds,
                    MSG_HASH_FE_LEN as int,
                    b - 1,
                )),
                fsub(#[trigger] fe(next.acc_limbs@)[i], fe(local.acc_limbs@)[i]),
            ) == 0 by {
                crate::field::lemma_fmul_by_zero(
                    fsub(fe(next.acc_limbs@)[i], fe(local.acc_limbs@)[i]),
                );
            }
            crate::field::lemma_fmul_by_zero(
                fsub(next.sum@, fadd(local.sum@, decomposition::fsum(next.chunk_vals(), 0, 6))),
            );
        }
    }
}

/// One limb of the carry-propagating fold, as a field identity on the
/// generated rows.
#[verifier::rlimit(100)]
proof fn lemma_acc_fold_identity(
    local: DecompositionCols,
    next: DecompositionCols,
    mh: Seq<int>,
    d: int,
    i: int,
)
    requires
        mh.len() == MSG_HASH_FE_LEN,
        forall|t: int| 0 <= t < MSG_HASH_FE_LEN ==> 0 <= #[trigger] mh[t] < crate::field::P,
        0 <= d < MSG_HASH_FE_LEN - 1,
        0 <= i < decomposition::NUM_MSG_HASH_LIMBS,
        fe(local.acc_limbs@) == decomposition::acc_after(mh, d),
        fe(next.acc_limbs@) == decomposition::acc_after(mh, d + 1),
        fe(next.carries@) == decomposition::carries_of(mh, d + 1),
        fe(next.value_ls_limbs@) == seq![
            crate::decomposition::vlimb(mh[d + 1], 0),
            crate::decomposition::vlimb(mh[d + 1], 1),
        ],
        next.value_ms_limb_bits@.len() == decomposition::F_MS_LIMB_BITS,
        fe(next.value_ms_limb_bits@) == Seq::new(
            decomposition::F_MS_LIMB_BITS as nat,
            |t: int| decomposition::bit_of(crate::decomposition::vlimb(mh[d + 1], 2), t),
        ),
    ensures
        fsub(next.acc_lhs(i), local.acc_rhs(&next, i)) == 0,
{
    broadcast use crate::field::lemma_fsub_cancel;

    let dd = decomposition::acc_after(mh, d);
    let v = mh[d + 1];
    decomposition::lemma_acc_after(mh, d);
    decomposition::lemma_acc_after(mh, d + 1);
    decomposition::lemma_acc_carry_bound(dd, v, i);
    decomposition::lemma_acc_carry_bound(dd, v, i - 1);
    assert(0 <= crate::decomposition::vlimb(v, 0) < 4096 && 0 <= crate::decomposition::vlimb(
        v,
        1,
    ) < 4096 && 0 <= crate::decomposition::vlimb(v, 2) < 128) by {
        vstd::arithmetic::power2::lemma2_to64();
        vstd::arithmetic::div_mod::lemma_div_basics(v);
        vstd::arithmetic::div_mod::lemma_mod_bound(v, 4096);
        vstd::arithmetic::div_mod::lemma_div_pos_is_pos(v, crate::field::p2(12));
        vstd::arithmetic::div_mod::lemma_mod_bound(v / crate::field::p2(12), 4096);
        vstd::arithmetic::div_mod::lemma_div_pos_is_pos(v, crate::field::p2(24));
        vstd::arithmetic::div_mod::lemma_div_is_ordered(
            v,
            crate::field::P as int - 1,
            crate::field::p2(24),
        );
        assert((0x7f000000int) / 0x1000000 == 127);
        vstd::arithmetic::div_mod::lemma_small_mod((v / crate::field::p2(24)) as nat, 4096);
    }
    let t = decomposition::acc_term(dd, v, i) + decomposition::acc_carry(dd, v, i - 1);
    vstd::arithmetic::div_mod::lemma_fundamental_div_mod(t, 4096);
    // the left side: the carry and digit the fold writes
    let digit = decomposition::acc_digit(dd, v, i);
    let carry = decomposition::acc_carry(dd, v, i);
    vstd::arithmetic::div_mod::lemma_mod_bound(t, 4096);
    assert(fe(next.acc_limbs@)[i] == digit);
    if i < decomposition::NUM_MSG_HASH_LIMBS as int - 1 {
        assert(fe(next.carries@)[i] == carry);
        crate::field::lemma_fmul_no_wrap(carry, 4096);
        crate::field::lemma_fadd_no_wrap(carry * 4096, digit);
        assert(next.acc_lhs(i) == carry * 4096 + digit);
    } else {
        // the top limb has no carry cell; the fold's carry vanishes there
        assert(decomposition::digits_val(dd) < crate::field::p2(124)) by {
            if 31 * (d + 1) < 124 {
                vstd::arithmetic::power2::lemma_pow2_strictly_increases(
                    (31 * (d + 1)) as nat,
                    124,
                );
            }
        }
        decomposition::lemma_acc_fold(dd, v);
        assert(next.acc_lhs(i) == digit);
        assert(carry == 0);
    }
    // the right side: the fold's termwise value
    assert(digit + 4096 * carry == t);
    if i == 0 {
        crate::field::lemma_fadd_no_wrap(dd[0], crate::decomposition::vlimb(v, 0));
        assert(local.acc_rhs(&next, 0) == t);
    } else if i == 1 {
        crate::field::lemma_fadd_no_wrap(dd[1], crate::decomposition::vlimb(v, 1));
        crate::field::lemma_fadd_no_wrap(
            dd[1] + crate::decomposition::vlimb(v, 1),
            decomposition::acc_carry(dd, v, 0),
        );
        assert(local.acc_rhs(&next, 1) == t);
    } else if i == 2 {
        lemma_ms_limb_eval(next, crate::decomposition::vlimb(v, 2));
        crate::field::lemma_fmul_no_wrap(dd[0], decomposition::F_MS_LIMB as int);
        crate::field::lemma_fadd_no_wrap(dd[0] * (decomposition::F_MS_LIMB as int), dd[2]);
        crate::field::lemma_fadd_no_wrap(
            dd[0] * (decomposition::F_MS_LIMB as int) + dd[2],
            crate::decomposition::vlimb(v, 2),
        );
        crate::field::lemma_fadd_no_wrap(
            dd[0] * (decomposition::F_MS_LIMB as int) + dd[2] + crate::decomposition::vlimb(v, 2),
            decomposition::acc_carry(dd, v, 1),
        );
        assert((decomposition::F_MS_LIMB as int) * dd[0] == dd[0] * (
        decomposition::F_MS_LIMB as int)) by (nonlinear_arith);
        assert(local.acc_rhs(&next, 2) == t);
    } else {
        crate::field::lemma_fmul_no_wrap(dd[i - 2], decomposition::F_MS_LIMB as int);
        crate::field::lemma_fadd_no_wrap(dd[i - 2] * (decomposition::F_MS_LIMB as int), dd[i]);
        crate::field::lemma_fadd_no_wrap(
            dd[i - 2] * (decomposition::F_MS_LIMB as int) + dd[i],
            decomposition::acc_carry(dd, v, i - 1),
        );
        assert((decomposition::F_MS_LIMB as int) * dd[i - 2] == dd[i - 2] * (
        decomposition::F_MS_LIMB as int)) by (nonlinear_arith);
        assert(local.acc_rhs(&next, i) == t);
    }
    crate::field::lemma_fsub_self(t);
}

/// A field-folded window with a single carrying cell.
proof fn lemma_fsum_single_val(s: Seq<int>, a: int, b: int, at: int, val: int)
    requires
        0 <= a <= b <= s.len(),
        a <= at < b,
        0 <= val < crate::field::P,
        forall|t: int|
            a <= t < b ==> #[trigger] s[t] == (
            if t == at {
                val
            } else {
                0int
            }),
    ensures
        decomposition::fsum(s, a, b) == val,
    decreases b - a,
{
    if b - 1 > at {
        lemma_fsum_single_val(s, a, b - 1, at, val);
        crate::field::lemma_fadd_no_wrap(val, 0);
    } else {
        lemma_fsum_zero_window(s, a, b - 1);
        crate::field::lemma_fadd_no_wrap(0, val);
    }
}

proof fn lemma_fsum_zero_window(s: Seq<int>, a: int, b: int)
    requires
        0 <= a <= b <= s.len(),
        forall|t: int| a <= t < b ==> #[trigger] s[t] == 0,
    ensures
        decomposition::fsum(s, a, b) == 0,
    decreases b - a,
{
    if b > a {
        lemma_fsum_zero_window(s, a, b - 1);
        crate::field::lemma_fadd_no_wrap(0, 0);
    }
}

/// A field-folded window with exactly two set cells.
proof fn lemma_fsum_twohot(s: Seq<int>, a: int, b: int, at1: int, at2: int)
    requires
        0 <= a <= b <= s.len(),
        a <= at1 < at2 < b,
        forall|t: int|
            a <= t < b ==> #[trigger] s[t] == (
            if t == at1 || t == at2 {
                1int
            } else {
                0int
            }),
    ensures
        decomposition::fsum(s, a, b) == 2,
    decreases b - a,
{
    if b - 1 > at2 {
        lemma_fsum_twohot(s, a, b - 1, at1, at2);
        crate::field::lemma_fadd_no_wrap(2, 0);
    } else {
        lemma_fsum_onehot(s, a, b - 1, at1);
        crate::field::lemma_fadd_no_wrap(1, 1);
    }
}

/// Twelve bits recompose their value.
proof fn lemma_bits12_recompose(v: int)
    requires
        0 <= v < 4096,
    ensures
        v == decomposition::bit_of(v, 0) + 2 * decomposition::bit_of(v, 1) + 4
            * decomposition::bit_of(v, 2) + 8 * decomposition::bit_of(v, 3) + 16
            * decomposition::bit_of(v, 4) + 32 * decomposition::bit_of(v, 5) + 64
            * decomposition::bit_of(v, 6) + 128 * decomposition::bit_of(v, 7) + 256
            * decomposition::bit_of(v, 8) + 512 * decomposition::bit_of(v, 9) + 1024
            * decomposition::bit_of(v, 10) + 2048 * decomposition::bit_of(v, 11),
{
    vstd::arithmetic::power2::lemma2_to64();
    vstd::arithmetic::div_mod::lemma_div_basics(v);
    let q1 = v / 2;
    let q2 = q1 / 2;
    let q3 = q2 / 2;
    let q4 = q3 / 2;
    let q5 = q4 / 2;
    let q6 = q5 / 2;
    let q7 = q6 / 2;
    let q8 = q7 / 2;
    let q9 = q8 / 2;
    let q10 = q9 / 2;
    let q11 = q10 / 2;
    assert(q1 == v / crate::field::p2(1) && q2 == v / crate::field::p2(2) && q3 == v
        / crate::field::p2(3) && q4 == v / crate::field::p2(4) && q5 == v / crate::field::p2(5)
        && q6 == v / crate::field::p2(6) && q7 == v / crate::field::p2(7) && q8 == v
        / crate::field::p2(8) && q9 == v / crate::field::p2(9) && q10 == v / crate::field::p2(10)
        && q11 == v / crate::field::p2(11)) by {
        vstd::arithmetic::div_mod::lemma_div_denominator(v, 2, 2);
        vstd::arithmetic::div_mod::lemma_div_denominator(v, 4, 2);
        vstd::arithmetic::div_mod::lemma_div_denominator(v, 8, 2);
        vstd::arithmetic::div_mod::lemma_div_denominator(v, 16, 2);
        vstd::arithmetic::div_mod::lemma_div_denominator(v, 32, 2);
        vstd::arithmetic::div_mod::lemma_div_denominator(v, 64, 2);
        vstd::arithmetic::div_mod::lemma_div_denominator(v, 128, 2);
        vstd::arithmetic::div_mod::lemma_div_denominator(v, 256, 2);
        vstd::arithmetic::div_mod::lemma_div_denominator(v, 512, 2);
        vstd::arithmetic::div_mod::lemma_div_denominator(v, 1024, 2);
    }
    vstd::arithmetic::div_mod::lemma_fundamental_div_mod(v, 2);
    vstd::arithmetic::div_mod::lemma_fundamental_div_mod(q1, 2);
    vstd::arithmetic::div_mod::lemma_fundamental_div_mod(q2, 2);
    vstd::arithmetic::div_mod::lemma_fundamental_div_mod(q3, 2);
    vstd::arithmetic::div_mod::lemma_fundamental_div_mod(q4, 2);
    vstd::arithmetic::div_mod::lemma_fundamental_div_mod(q5, 2);
    vstd::arithmetic::div_mod::lemma_fundamental_div_mod(q6, 2);
    vstd::arithmetic::div_mod::lemma_fundamental_div_mod(q7, 2);
    vstd::arithmetic::div_mod::lemma_fundamental_div_mod(q8, 2);
    vstd::arithmetic::div_mod::lemma_fundamental_div_mod(q9, 2);
    vstd::arithmetic::div_mod::lemma_fundamental_div_mod(q10, 2);
    vstd::arithmetic::div_mod::lemma_fundamental_div_mod(q11, 2);
    assert(q11 / 2 == 0) by {
        vstd::arithmetic::div_mod::lemma_basic_div(q11, 2);
        vstd::arithmetic::div_mod::lemma_div_is_ordered(v, 4095, 2048);
        assert(4095int / 2048 == 1);
    }
}

/// A row whose chunk bits decompose its limb recomposes it.
proof fn lemma_limb_bits_eval(row: DecompositionCols, v: int)
    requires
        row.decomposition_bits@.len() == decomposition::LIMB_BITS,
        forall|t: int|
            0 <= t < decomposition::LIMB_BITS ==> #[trigger] fe(row.decomposition_bits@)[t]
                == decomposition::bit_of(v, t),
        0 <= v < 4096,
    ensures
        row.bits_recomposed() == v,
{
    lemma_bits12_recompose(v);
    assert forall|i: int| 0 <= i < 12 implies 0 <= #[trigger] decomposition::bit_of(v, i)
        <= 1 by {
        vstd::arithmetic::power2::lemma_pow2_pos(i as nat);
        vstd::arithmetic::div_mod::lemma_div_pos_is_pos(v, crate::field::p2(i));
        vstd::arithmetic::div_mod::lemma_mod_bound(v / crate::field::p2(i), 2);
    }
    let b = fe(row.decomposition_bits@);
    crate::field::lemma_fmul_no_wrap(2, b[1]);
    crate::field::lemma_fmul_no_wrap(4, b[2]);
    crate::field::lemma_fmul_no_wrap(8, b[3]);
    crate::field::lemma_fmul_no_wrap(16, b[4]);
    crate::field::lemma_fmul_no_wrap(32, b[5]);
    crate::field::lemma_fmul_no_wrap(64, b[6]);
    crate::field::lemma_fmul_no_wrap(128, b[7]);
    crate::field::lemma_fmul_no_wrap(256, b[8]);
    crate::field::lemma_fmul_no_wrap(512, b[9]);
    crate::field::lemma_fmul_no_wrap(1024, b[10]);
    crate::field::lemma_fmul_no_wrap(2048, b[11]);
    let s1 = b[0] + 2 * b[1];
    crate::field::lemma_fadd_no_wrap(b[0], 2 * b[1]);
    crate::field::lemma_fadd_no_wrap(s1, 4 * b[2]);
    crate::field::lemma_fadd_no_wrap(s1 + 4 * b[2], 8 * b[3]);
    crate::field::lemma_fadd_no_wrap(s1 + 4 * b[2] + 8 * b[3], 16 * b[4]);
    crate::field::lemma_fadd_no_wrap(s1 + 4 * b[2] + 8 * b[3] + 16 * b[4], 32 * b[5]);
    crate::field::lemma_fadd_no_wrap(s1 + 4 * b[2] + 8 * b[3] + 16 * b[4] + 32 * b[5], 64 * b[6]);
    crate::field::lemma_fadd_no_wrap(
        s1 + 4 * b[2] + 8 * b[3] + 16 * b[4] + 32 * b[5] + 64 * b[6],
        128 * b[7],
    );
    crate::field::lemma_fadd_no_wrap(
        s1 + 4 * b[2] + 8 * b[3] + 16 * b[4] + 32 * b[5] + 64 * b[6] + 128 * b[7],
        256 * b[8],
    );
    crate::field::lemma_fadd_no_wrap(
        s1 + 4 * b[2] + 8 * b[3] + 16 * b[4] + 32 * b[5] + 64 * b[6] + 128 * b[7] + 256 * b[8],
        512 * b[9],
    );
    crate::field::lemma_fadd_no_wrap(
        s1 + 4 * b[2] + 8 * b[3] + 16 * b[4] + 32 * b[5] + 64 * b[6] + 128 * b[7] + 256 * b[8]
            + 512 * b[9],
        1024 * b[10],
    );
    crate::field::lemma_fadd_no_wrap(
        s1 + 4 * b[2] + 8 * b[3] + 16 * b[4] + 32 * b[5] + 64 * b[6] + 128 * b[7] + 256 * b[8]
            + 512 * b[9] + 1024 * b[10],
        2048 * b[11],
    );
}

/// The accumulator written on a signature's first accumulation row is the
/// first digest element's limbs.
proof fn lemma_acc_open_values(vi: &VerificationInput, rows: Seq<DecompositionCols>, k: int)
    requires
        vi.wf(),
        decomposition::decomposition_trace_is(vi.traces@, rows),
        0 <= k < vi.traces@.len(),
    ensures
        ({
            let row = decomposition::sig_row(rows, k, 0);
            forall|i: int|
                0 <= i < decomposition::NUM_MSG_HASH_LIMBS ==> #[trigger] fe(row.acc_limbs@)[i]
                    == (
                if i == 0 {
                    fe(row.value_ls_limbs@)[0]
                } else if i == 1 {
                    fe(row.value_ls_limbs@)[1]
                } else if i == 2 {
                    row.value_ms_limb_val()
                } else {
                    0int
                })
        }),
{
    lemma_dec_row_facts(vi, rows, k, 0);
    let row = decomposition::sig_row(rows, k, 0);
    let vt = &vi.traces@[k];
    let mh = decomposition::mh_of(vt);
    let v = mh[0];
    assert(row.is_acc_row(vt, k, 0));
    assert(fe(row.value_ms_limb_bits@) =~= Seq::new(
        decomposition::F_MS_LIMB_BITS as nat,
        |i: int| decomposition::bit_of(decomposition::vlimb(v, 2), i),
    ));
    assert(row.value_ms_limb_bits@.len() == decomposition::F_MS_LIMB_BITS) by {
        assert(fe(row.value_ms_limb_bits@).len() == decomposition::F_MS_LIMB_BITS as nat);
    }
    let z = Seq::new(decomposition::NUM_MSG_HASH_LIMBS as nat, |j: int| 0int);
    assert(decomposition::acc_after(mh, -1) =~= z);
    assert forall|i: int| 0 <= i < decomposition::NUM_MSG_HASH_LIMBS implies #[trigger] fe(
        row.acc_limbs@,
    )[i] == (
    if i == 0 {
        fe(row.value_ls_limbs@)[0]
    } else if i == 1 {
        fe(row.value_ls_limbs@)[1]
    } else if i == 2 {
        row.value_ms_limb_val()
    } else {
        0int
    }) by {
        lemma_fold_zero(v, i);
        assert(fe(row.acc_limbs@)[i] == decomposition::acc_after(mh, 0)[i]);
        assert(decomposition::acc_after(mh, 0) == decomposition::acc_fold(z, v));
        if i == 2 {
            assert(0 <= crate::decomposition::vlimb(v, 2) < 128) by {
                vstd::arithmetic::power2::lemma2_to64();
                vstd::arithmetic::div_mod::lemma_div_pos_is_pos(v, crate::field::p2(24));
                vstd::arithmetic::div_mod::lemma_div_is_ordered(
                    v,
                    crate::field::P as int - 1,
                    crate::field::p2(24),
                );
                assert((0x7f000000int) / 0x1000000 == 127);
                vstd::arithmetic::div_mod::lemma_small_mod(
                    (v / crate::field::p2(24)) as nat,
                    4096,
                );
            }
            lemma_ms_limb_eval(row, crate::decomposition::vlimb(v, 2));
        }
    }
}

/// Assemble the gated signature-opening clauses from the plain equalities
/// (gate one) or from a closed gate (gate zero).
proof fn lemma_acc_open_assemble(row: DecompositionCols, gate: int)
    requires
        gate == 0 || (gate == 1 && forall|i: int|
            0 <= i < decomposition::NUM_MSG_HASH_LIMBS ==> #[trigger] fe(row.acc_limbs@)[i] == (
            if i == 0 {
                fe(row.value_ls_limbs@)[0]
            } else if i == 1 {
                fe(row.value_ls_limbs@)[1]
            } else if i == 2 {
                row.value_ms_limb_val()
            } else {
                0int
            })),
    ensures
        row.acc_open_gated(gate),
{
    broadcast use crate::field::lemma_fsub_cancel;

    assert forall|i: int| 0 <= i < decomposition::NUM_MSG_HASH_LIMBS implies fmul(
        gate,
        fsub(
            #[trigger] fe(row.acc_limbs@)[i],
            if i == 0 {
                fe(row.value_ls_limbs@)[0]
            } else if i == 1 {
                fe(row.value_ls_limbs@)[1]
            } else if i == 2 {
                row.value_ms_limb_val()
            } else {
                0int
            },
        ),
    ) == 0 by {
        if gate == 0 {
            crate::field::lemma_fmul_by_zero(
                fsub(
                    fe(row.acc_limbs@)[i],
                    if i == 0 {
                        fe(row.value_ls_limbs@)[0]
                    } else if i == 1 {
                        fe(row.value_ls_limbs@)[1]
                    } else if i == 2 {
                        row.value_ms_limb_val()
                    } else {
                        0int
                    },
                ),
            );
        } else {
            crate::field::lemma_fmul_by_one(0);
        }
    }
}

/// The chunk-start indicators of a sponge row follow its window's phase.
proof fn lemma_leaf_start_pattern(row: MerkleTreeCols, s: int, q: int, rho: int)
    requires
        row.leaf_chunk_start_ind@.len() == crate::hash_sig::SPONGE_RATE,
        fe(row.leaf_chunk_start_ind@) == Seq::new(
            crate::hash_sig::SPONGE_RATE as nat,
            |idx: int|
                if (crate::hash_sig::SPONGE_RATE as int * s + idx) % (HASH_FE_LEN as int) == 0 {
                    1int
                } else {
                    0int
                },
        ),
        15 * s == 7 * q + rho,
        0 <= rho < 7,
        0 <= s,
    ensures
        forall|idx: int|
            0 <= idx < 15 ==> #[trigger] fe(row.leaf_chunk_start_ind@)[idx] == (
            if idx + rho == 0 || idx + rho == 7 || idx + rho == 14 {
                1int
            } else {
                0int
            }),
{
    assert forall|idx: int| 0 <= idx < 15 implies #[trigger] fe(row.leaf_chunk_start_ind@)[idx]
        == (
    if idx + rho == 0 || idx + rho == 7 || idx + rho == 14 {
        1int
    } else {
        0int
    }) by {
        assert((15 * s + idx) % 7 == (rho + idx) % 7) by {
            vstd::arithmetic::div_mod::lemma_fundamental_div_mod_converse(
                15 * s + idx,
                7,
                q + (rho + idx) / 7,
                (rho + idx) % 7,
            );
            vstd::arithmetic::div_mod::lemma_fundamental_div_mod(rho + idx, 7);
            vstd::arithmetic::div_mod::lemma_mod_bound(rho + idx, 7);
        }
        if rho + idx == 0 || rho + idx == 7 || rho + idx == 14 {
            assert((rho + idx) % 7 == 0);
        } else {
            vstd::arithmetic::div_mod::lemma_mod_bound(rho + idx, 7);
            if (rho + idx) % 7 == 0 {
                vstd::arithmetic::div_mod::lemma_fundamental_div_mod(rho + idx, 7);
                assert(rho + idx == 7 * ((rho + idx) / 7));
                assert(0 <= (rho + idx) / 7 <= 2) by (nonlinear_arith)
                    requires
                        0 <= rho + idx <= 20,
                        rho + idx == 7 * ((rho + idx) / 7),
                ;
                assert(false);
            }
        }
    }
}

/// The opening equalities of a signature's first sponge row.
#[verifier::rlimit(100)]
proof fn lemma_merkle_leaf_open(vi: &VerificationInput, rows: Seq<MerkleTreeCols>, k: int)
    requires
        vi.wf(),
        merkle_tree::merkle_trace_is(vi.traces@, vi.epoch as int, rows),
        0 <= k < vi.traces@.len(),
    ensures
        ({
            let row = merkle_tree::sig_row(rows, k, 0);
            let pvs = merkle_tree::merkle_public_values(vi.epoch as int, vi.msg@);
            &&& row.sponge_step.step@ == 0
            &&& row.leaf_chunk_idx@ == 0
            &&& fe(row.leaf_chunk_start_ind@)[0] == 1
            &&& fe(row.leaf_chunk_start_ind@)[HASH_FE_LEN as int] == 1
            &&& fe(row.leaf_chunk_start_ind@)[2 * HASH_FE_LEN] == 1
            &&& forall|t: int|
                0 <= t < PARAM_FE_LEN ==> #[trigger] fe(row.perm.input@)[t] == row.register_val(t)
            &&& fe(row.perm.input@)[PARAM_FE_LEN as int] == pvs[12]
            &&& fe(row.perm.input@)[PARAM_FE_LEN as int + 1] == pvs[13]
            &&& forall|j: int|
                HASH_FE_LEN <= j < crate::hash_sig::SPONGE_RATE ==> #[trigger] fe(
                    row.perm.input@,
                )[j] == fe(row.sponge_block@)[j]
            &&& fe(row.perm.input@)[crate::hash_sig::SPONGE_RATE as int]
                == crate::hash_sig::SPONGE_CAPACITY_FIRST as int
            &&& forall|j: int|
                crate::hash_sig::SPONGE_RATE + 1 <= j < crate::hash_sig::WIDTH_TREE
                    ==> #[trigger] fe(row.perm.input@)[j] == 0
        }),
{
    let epoch = vi.epoch as int;
    let vt = &vi.traces@[k];
    let row = merkle_tree::sig_row(rows, k, 0);
    let pvs = merkle_tree::merkle_public_values(epoch, vi.msg@);
    assert(vt.wf(epoch, encoded_msg_spec(vi.msg@)));
    assert(row.is_leaf_row(vt, epoch, k, 0));
    assert(vt.wf_leaf(epoch));
    assert(fe(row.perm.input@) == vt.sponge_input(epoch, 0));
    lemma_ends_flat_len(vt, NUM_CHUNKS as int);
    assert(vt.leaf_preimage(epoch).len() == 553);
    assert(row.leaf_chunk_idx@ == merkle_tree::first_chunk_of_row(0));
    assert(merkle_tree::first_chunk_of_row(0) == 0) by {
        assert(6int / 7 == 0);
    }
    assert(fe(row.sponge_block@) == vt.sponge_block(epoch, 0));
    assert forall|t: int| 0 <= t < PARAM_FE_LEN implies #[trigger] fe(row.perm.input@)[t]
        == row.register_val(t) by {
        assert(fe(row.perm.input@)[t] == vt.sponge_block(epoch, 0)[t]);
        assert(vt.leaf_preimage(epoch)[t] == fe(vt.pk.parameter@)[t]);
    }
    assert(fe(row.perm.input@)[PARAM_FE_LEN as int] == vt.leaf_preimage(epoch)[5]);
    assert(vt.leaf_preimage(epoch)[5] == crate::hash_sig::tweak_tree_spec(0, epoch)[0]);
    assert(fe(row.perm.input@)[PARAM_FE_LEN as int + 1] == vt.leaf_preimage(epoch)[6]);
    assert(vt.leaf_preimage(epoch)[6] == crate::hash_sig::tweak_tree_spec(0, epoch)[1]);
    assert(pvs[12] == crate::hash_sig::tweak_tree_spec(0, epoch)[0]);
    assert(pvs[13] == crate::hash_sig::tweak_tree_spec(0, epoch)[1]);
}

/// Assemble the gated sponge-opening clauses from the plain equalities
/// (gate one) or from a closed gate (gate zero).
#[verifier::rlimit(100)]
proof fn lemma_leaf_open_assemble(row: MerkleTreeCols, gate: int, pvs: Seq<int>)
    requires
        gate == 0 || (gate == 1 && row.sponge_step.step@ == 0 && row.leaf_chunk_idx@ == 0 && fe(
            row.leaf_chunk_start_ind@,
        )[0] == 1 && fe(row.leaf_chunk_start_ind@)[HASH_FE_LEN as int] == 1 && fe(
            row.leaf_chunk_start_ind@,
        )[2 * HASH_FE_LEN] == 1 && (forall|t: int|
            0 <= t < PARAM_FE_LEN ==> #[trigger] fe(row.perm.input@)[t] == row.register_val(t))
            && fe(row.perm.input@)[PARAM_FE_LEN as int] == pvs[12] && fe(
            row.perm.input@,
        )[PARAM_FE_LEN as int + 1] == pvs[13] && (forall|j: int|
            HASH_FE_LEN <= j < crate::hash_sig::SPONGE_RATE ==> #[trigger] fe(row.perm.input@)[j]
                == fe(row.sponge_block@)[j]) && fe(
            row.perm.input@,
        )[crate::hash_sig::SPONGE_RATE as int] == crate::hash_sig::SPONGE_CAPACITY_FIRST as int
            && (forall|j: int|
            crate::hash_sig::SPONGE_RATE + 1 <= j < crate::hash_sig::WIDTH_TREE ==> #[trigger] fe(
                row.perm.input@,
            )[j] == 0)),
    ensures
        row.leaf_open_gated(gate, pvs),
{
    broadcast use crate::field::lemma_fsub_cancel;

    crate::field::lemma_fmul_by_one(0);
    if gate == 0 {
        crate::field::lemma_fmul_by_zero(row.sponge_step.step@);
        crate::field::lemma_fmul_by_zero(row.leaf_chunk_idx@);
        crate::field::lemma_fmul_by_zero(fsub(fe(row.leaf_chunk_start_ind@)[0], 1));
        crate::field::lemma_fmul_by_zero(
            fsub(fe(row.leaf_chunk_start_ind@)[HASH_FE_LEN as int], 1),
        );
        crate::field::lemma_fmul_by_zero(
            fsub(fe(row.leaf_chunk_start_ind@)[2 * HASH_FE_LEN], 1),
        );
        assert forall|t: int| 0 <= t < PARAM_FE_LEN implies fmul(
            gate,
            fsub(#[trigger] fe(row.perm.input@)[t], row.register_val(t)),
        ) == 0 by {
            crate::field::lemma_fmul_by_zero(fsub(fe(row.perm.input@)[t], row.register_val(t)));
        }
        crate::field::lemma_fmul_by_zero(
            fsub(fe(row.perm.input@)[PARAM_FE_LEN as int], pvs[12]),
        );
        crate::field::lemma_fmul_by_zero(
            fsub(fe(row.perm.input@)[PARAM_FE_LEN as int + 1], pvs[13]),
        );
        assert forall|j: int| HASH_FE_LEN <= j < crate::hash_sig::SPONGE_RATE implies fmul(
            gate,
            fsub(#[trigger] fe(row.perm.input@)[j], fe(row.sponge_block@)[j]),
        ) == 0 by {
            crate::field::lemma_fmul_by_zero(
                fsub(fe(row.perm.input@)[j], fe(row.sponge_block@)[j]),
            );
        }
        crate::field::lemma_fmul_by_zero(
            fsub(
                fe(row.perm.input@)[crate::hash_sig::SPONGE_RATE as int],
                crate::hash_sig::SPONGE_CAPACITY_FIRST as int,
            ),
        );
        assert forall|j: int|
            crate::hash_sig::SPONGE_RATE + 1 <= j < crate::hash_sig::WIDTH_TREE implies fmul(
            gate,
            #[trigger] fe(row.perm.input@)[j],
        ) == 0 by {
            crate::field::lemma_fmul_by_zero(fe(row.perm.input@)[j]);
        }
    } else {
        crate::field::lemma_fmul_by_zero(gate);
        assert forall|t: int| 0 <= t < PARAM_FE_LEN implies fmul(
            gate,
            fsub(#[trigger] fe(row.perm.input@)[t], row.register_val(t)),
        ) == 0 by {
            crate::field::lemma_fmul_by_one(0);
        }
        assert forall|j: int| HASH_FE_LEN <= j < crate::hash_sig::SPONGE_RATE implies fmul(
            gate,
            fsub(#[trigger] fe(row.perm.input@)[j], fe(row.sponge_block@)[j]),
        ) == 0 by {
            crate::field::lemma_fmul_by_one(0);
        }
        assert forall|j: int|
            crate::hash_sig::SPONGE_RATE + 1 <= j < crate::hash_sig::WIDTH_TREE implies fmul(
            gate,
            #[trigger] fe(row.perm.input@)[j],
        ) == 0 by {
            crate::field::lemma_fmul_by_one(0);
        }
    }
}

} // verus!
