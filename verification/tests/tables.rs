//! End-to-end exercises of the trace generators: batches of mock
//! verification traces are fanned into the five tables, and the bus tuples
//! are independently recomputed from the generated rows and checked to
//! balance, channel by channel.

use std::collections::BTreeMap;

use hash_sig_agg::chain;
use hash_sig_agg::chip::{generate_prover_inputs, verifier_inputs, HashSigAggTrace};
use hash_sig_agg::decomposition;
use hash_sig_agg::field::{F, P};
use hash_sig_agg::hash_sig::{
    encode_msg, ChainOpening, Perm, PublicKey, Signature, VerificationInput, VerificationTrace,
    HASH_FE_LEN, LOG_LIFETIME, MSG_HASH_FE_LEN, NUM_CHUNKS, SPONGE_PERM, SPONGE_RATE, TARGET_SUM,
    WIDTH_CHAIN, WIDTH_TREE,
};
use hash_sig_agg::merkle_tree;
use hash_sig_agg::range_check;

fn fv(x: u32) -> F {
    F::new(x)
}

fn fvec(vals: &[u32]) -> Vec<F> {
    vals.iter().map(|v| fv(*v)).collect()
}

fn zeros(n: usize) -> Vec<F> {
    vec![fv(0); n]
}

fn u(f: F) -> u32 {
    f.as_u32()
}

fn madd(a: u32, b: u32) -> u32 {
    ((a as u64 + b as u64) % P as u64) as u32
}

fn mmul(a: u32, b: u32) -> u32 {
    ((a as u64 * b as u64) % P as u64) as u32
}

/// A mock batch: every signature shares one digest whose 39 low chunks are
/// at the maximum and the rest zero, so the chunks sum to the target; the
/// compression records carry all-zero outputs, which the tables accept
/// since the permutation itself is external.
fn mock_vi(n: usize) -> VerificationInput {
    let p = P as u128;
    let big: u128 = (1u128 << 78) - 1;
    let d0 = (big % p) as u32;
    let rest = big / p;
    let d1 = (rest % p) as u32;
    let d2 = (rest / p) as u32;
    let msg_hash_vals: [u32; MSG_HASH_FE_LEN] = [0, 0, d2, d1, d0];
    let msg = vec![7u8; 32];
    let encoded = encode_msg(&msg);
    let param: [u32; 5] = [1, 2, 3, 4, 5];
    let rho: [u32; 6] = [9, 9, 9, 9, 9, 9];
    let mut traces = Vec::new();
    for _ in 0..n {
        let mut x: Vec<u16> = Vec::new();
        for c in 0..NUM_CHUNKS {
            x.push(if c < 39 { 3 } else { 0 });
        }
        let mut chains: Vec<ChainOpening> = Vec::new();
        let mut ends: Vec<Vec<u32>> = Vec::new();
        for i in 0..NUM_CHUNKS {
            let start: Vec<u32> = (0..HASH_FE_LEN).map(|t| (10 + i + t) as u32).collect();
            if x[i] == 3 {
                ends.push(start.clone());
                chains.push(ChainOpening { revealed: fvec(&start), steps: Vec::new() });
            } else {
                let mut steps = Vec::new();
                for j in 0..3u32 {
                    let mut input = start.clone();
                    input.extend_from_slice(&param);
                    input.push(0);
                    input.push((i as u32) * 0x10000 + j + 1);
                    input.push(0);
                    input.push(0);
                    assert_eq!(input.len(), WIDTH_CHAIN);
                    steps.push(Perm { input: fvec(&input), output: zeros(WIDTH_CHAIN) });
                }
                ends.push(start.clone());
                chains.push(ChainOpening { revealed: fvec(&start), steps });
            }
        }
        // the leaf preimage: parameter, level-zero tweak, chain ends
        let mut leaf: Vec<u32> = param.to_vec();
        leaf.push(1);
        leaf.push(0);
        for e in &ends {
            leaf.extend_from_slice(e);
        }
        assert_eq!(leaf.len(), (NUM_CHUNKS + 1) * HASH_FE_LEN);
        let mut leaf_perms = Vec::new();
        for s in 0..SPONGE_PERM {
            let mut input: Vec<u32> = Vec::new();
            for idx in 0..SPONGE_RATE {
                let pos = SPONGE_RATE * s + idx;
                input.push(if pos < leaf.len() { leaf[pos] } else { 0 });
            }
            if s == 0 {
                input.push(leaf.len() as u32);
                while input.len() < WIDTH_TREE {
                    input.push(0);
                }
            } else {
                while input.len() < WIDTH_TREE {
                    input.push(0);
                }
            }
            leaf_perms.push(Perm { input: fvec(&input), output: zeros(WIDTH_TREE) });
        }
        // the path walk at epoch zero: every step keeps the node on the left
        let mut node: Vec<u32> = vec![0; HASH_FE_LEN];
        let mut path_perms = Vec::new();
        let mut siblings = Vec::new();
        for l in 0..LOG_LIFETIME {
            let mut input: Vec<u32> = param.to_vec();
            input.push(((l as u32) + 1) * 4 + 1);
            input.push(0);
            input.extend_from_slice(&node);
            input.extend_from_slice(&[0; HASH_FE_LEN]);
            input.push(0);
            input.push(0);
            input.push(0);
            assert_eq!(input.len(), WIDTH_TREE);
            path_perms.push(Perm { input: fvec(&input), output: zeros(WIDTH_TREE) });
            siblings.push(zeros(HASH_FE_LEN));
            node = input[0..HASH_FE_LEN].to_vec();
        }
        let merkle_root = fvec(&node);
        // the message-hash record: the digest is its feed-forward
        let mut msg_input: Vec<u32> = rho.to_vec();
        msg_input.extend_from_slice(&param);
        msg_input.push(2);
        msg_input.push(0);
        for e in &encoded {
            msg_input.push(u(*e));
        }
        msg_input.push(0);
        msg_input.push(0);
        assert_eq!(msg_input.len(), WIDTH_TREE);
        let mut msg_output = Vec::new();
        for i in 0..WIDTH_TREE {
            if i < MSG_HASH_FE_LEN {
                msg_output.push(fv(msg_hash_vals[i]).sub(fv(msg_input[i])));
            } else {
                msg_output.push(fv(0));
            }
        }
        traces.push(VerificationTrace {
            pk: PublicKey { parameter: fvec(&param), merkle_root },
            sig: Signature { rho: fvec(&rho), chains, merkle_siblings: siblings },
            msg_hash: fvec(&msg_hash_vals),
            x,
            msg_perm: Perm { input: fvec(&msg_input), output: msg_output },
            leaf_perms,
            path_perms,
        });
    }
    VerificationInput { epoch: 0, msg, traces }
}

type Balance = BTreeMap<(u8, Vec<u32>), i64>;

fn post(bal: &mut Balance, ch: u8, tuple: Vec<u32>, mult: i64) {
    if mult != 0 {
        *bal.entry((ch, tuple)).or_insert(0) += mult;
    }
}

fn ff(perm: &Perm, n: usize) -> Vec<u32> {
    (0..n).map(|i| madd(u(perm.input[i]), u(perm.output[i]))).collect()
}

/// Recompute every bus tuple from the generated rows, sends positive and
/// receives negative, and return the per-tuple totals.
fn recompute_balance(inputs: &[hash_sig_agg::chip::ProverInput]) -> Balance {
    let mut bal: Balance = BTreeMap::new();
    for input in inputs {
        match &input.trace {
            HashSigAggTrace::Main(rows) => {
                for row in rows {
                    let mult = u(row.is_active) as i64;
                    let sig = u(row.sig_idx);
                    let param: Vec<u32> = row.parameter.iter().map(|f| u(*f)).collect();
                    let root: Vec<u32> = row.merkle_root.iter().map(|f| u(*f)).collect();
                    let mh: Vec<u32> = row.msg_hash.iter().map(|f| u(*f)).collect();
                    let mut t0 = vec![sig];
                    t0.extend_from_slice(&param);
                    post(&mut bal, 0, t0, mult);
                    let mut t1 = vec![sig];
                    t1.extend_from_slice(&param);
                    t1.extend_from_slice(&root);
                    t1.extend_from_slice(&mh);
                    post(&mut bal, 1, t1, mult);
                    let mut t4 = vec![sig];
                    t4.extend(mh.iter().rev());
                    post(&mut bal, 4, t4, mult);
                }
            }
            HashSigAggTrace::Chain(rows) => {
                for row in rows {
                    let active = u(row.is_active) as i64;
                    let sig = u(row.sig_idx);
                    let at_last = u(row.sig_step.is_last_step.output) as i64;
                    let param: Vec<u32> =
                        (7..12).map(|i| u(row.perm.input[i])).collect();
                    let mut t0 = vec![sig];
                    t0.extend_from_slice(&param);
                    post(&mut bal, 0, t0, -(active * at_last));
                    let b0 = u(row.chain_step_bits[0]);
                    let b1 = u(row.chain_step_bits[1]);
                    let step = b0 + 2 * b1;
                    let idx = u(row.chain_idx);
                    post(
                        &mut bal,
                        2,
                        vec![sig, idx, step],
                        -(active * u(row.is_x_i) as i64),
                    );
                    let is_last_step = mmul(madd(1, P - b0), b1) as i64;
                    let mut t3 = vec![sig, madd(idx, 1)];
                    t3.extend(ff(&row.perm, HASH_FE_LEN));
                    post(&mut bal, 3, t3, active * is_last_step);
                }
            }
            HashSigAggTrace::Decomposition(rows) => {
                for row in rows {
                    let sig = u(row.sig_idx);
                    let mut i_offset: u32 = 0;
                    for idx in 0..13 {
                        i_offset = madd(i_offset, mmul(u(row.inds[5 + idx]), 6 * idx as u32));
                    }
                    for j in 0..6 {
                        let chunk = madd(
                            u(row.decomposition_bits[2 * j]),
                            2 * u(row.decomposition_bits[2 * j + 1]),
                        );
                        post(
                            &mut bal,
                            2,
                            vec![sig, madd(i_offset, j as u32), chunk],
                            u(row.is_send_chain[j]) as i64,
                        );
                    }
                    let mut is_acc: i64 = 0;
                    for idx in 0..5 {
                        is_acc += u(row.inds[idx]) as i64;
                    }
                    for limb in row
                        .value_ls_limbs
                        .iter()
                        .chain(row.acc_limbs.iter())
                        .chain(row.carries.iter())
                    {
                        post(&mut bal, 5, vec![u(*limb)], is_acc);
                    }
                    let mut t4 = vec![sig];
                    t4.extend(row.values.iter().map(|f| u(*f)));
                    post(&mut bal, 4, t4, -(u(row.inds[4]) as i64));
                }
            }
            HashSigAggTrace::MerkleTree(rows) => {
                for (r, row) in rows.iter().enumerate() {
                    let next = &rows[(r + 1) % rows.len()];
                    let sig = u(row.sig_idx);
                    let root_mult =
                        u(row.is_merkle_path) as i64 - u(row.is_merkle_path_transition) as i64;
                    let mut t1 = vec![sig];
                    t1.extend((0..5).map(|i| u(row.perm.input[i])));
                    t1.extend(ff(&row.perm, HASH_FE_LEN));
                    t1.extend(ff(&next.perm, MSG_HASH_FE_LEN));
                    post(&mut bal, 1, t1, -root_mult);
                    let chunk_idx = u(row.leaf_chunk_idx);
                    let ind: Vec<u32> =
                        row.leaf_chunk_start_ind.iter().map(|f| u(*f)).collect();
                    let block: Vec<u32> = row.sponge_block.iter().map(|f| u(*f)).collect();
                    let nblock: Vec<u32> = next.sponge_block.iter().map(|f| u(*f)).collect();
                    let flags: Vec<i64> =
                        row.is_receive_merkle_tree.iter().map(|f| u(*f) as i64).collect();
                    let mut t_s0 = vec![sig, chunk_idx];
                    t_s0.extend_from_slice(&block[0..HASH_FE_LEN]);
                    post(&mut bal, 3, t_s0, -(flags[0] * ind[0] as i64));
                    let mut t_s1 = vec![sig, madd(chunk_idx, ind[0])];
                    for i in 0..HASH_FE_LEN {
                        let mut v: u32 = 0;
                        for j in 1..=HASH_FE_LEN {
                            v = madd(v, mmul(ind[j], block[j + i]));
                        }
                        t_s1.push(v);
                    }
                    post(&mut bal, 3, t_s1, -flags[1]);
                    let mut t_s2 = vec![sig, madd(madd(chunk_idx, ind[0]), 1)];
                    for i in 0..HASH_FE_LEN {
                        let mut v: u32 = 0;
                        for j in (1 + HASH_FE_LEN)..(1 + 2 * HASH_FE_LEN) {
                            let cell = if j + i < SPONGE_RATE {
                                block[j + i]
                            } else {
                                nblock[j + i - SPONGE_RATE]
                            };
                            v = madd(v, mmul(ind[j], cell));
                        }
                        t_s2.push(v);
                    }
                    let not_last = 1 - u(row.sponge_step.is_last_step.output) as i64;
                    post(&mut bal, 3, t_s2, -(flags[2] * not_last));
                }
            }
            HashSigAggTrace::RangeCheck(rows) => {
                for row in rows {
                    post(&mut bal, 5, vec![u(row.value)], -(u(row.mult) as i64));
                }
            }
        }
    }
    bal
}

fn assert_balanced(inputs: &[hash_sig_agg::chip::ProverInput]) {
    let bal = recompute_balance(inputs);
    for ((ch, tuple), total) in &bal {
        assert_eq!(*total, 0, "channel {ch} unbalanced on tuple {tuple:?}");
    }
}

fn trace_height(input: &hash_sig_agg::chip::ProverInput) -> usize {
    match &input.trace {
        HashSigAggTrace::Chain(rows) => rows.len(),
        HashSigAggTrace::Decomposition(rows) => rows.len(),
        HashSigAggTrace::Main(rows) => rows.len(),
        HashSigAggTrace::MerkleTree(rows) => rows.len(),
        HashSigAggTrace::RangeCheck(rows) => rows.len(),
    }
}

#[test]
fn airs() {
    for log_sigs in 1..8 {
        let vi = mock_vi(1 << log_sigs);
        let prover_inputs = generate_prover_inputs(0, &vi);
        assert_eq!(prover_inputs.len(), 5);
        assert_balanced(&prover_inputs);
    }
}

#[test]
fn chip() {
    for log_sigs in 4..8 {
        let vi = mock_vi(1 << log_sigs);
        let inputs = generate_prover_inputs(1, &vi);
        assert_balanced(&inputs);
        let verifier = verifier_inputs(vi.epoch, &vi.msg);
        for (p, v) in inputs.iter().zip(verifier.iter()) {
            assert_eq!(p.air, v.air);
            assert_eq!(p.public_values.len(), v.public_values.len());
            for (a, b) in p.public_values.iter().zip(v.public_values.iter()) {
                assert_eq!(a, b);
            }
        }
    }
}

#[test]
fn trace_heights_of_batch_of_four() {
    let vi = mock_vi(4);
    let inputs = generate_prover_inputs(0, &vi);
    // exact row counts: 4*117 chain, 4*18 decomposition, 4 main, 4*58 tree,
    // 4096 range-check rows, each padded to the next power of two
    assert_eq!(trace_height(&inputs[0]), 512);
    assert_eq!(trace_height(&inputs[1]), 128);
    assert_eq!(trace_height(&inputs[2]), 4);
    assert_eq!(trace_height(&inputs[3]), 256);
    assert_eq!(trace_height(&inputs[4]), 4096);
    assert_balanced(&inputs);
}

#[test]
fn tampered_root_breaks_balance() {
    let mut vi = mock_vi(4);
    // flip one lane of one public root: the root the Merkle table recomputes
    // from the path records no longer matches what the main table asserts,
    // so the root-and-digest channel cannot balance
    let old = vi.traces[2].pk.merkle_root[0];
    vi.traces[2].pk.merkle_root[0] = old.add(F::one());
    let inputs = generate_prover_inputs(0, &vi);
    let bal = recompute_balance(&inputs);
    let unbalanced: Vec<_> = bal.iter().filter(|(_, total)| **total != 0).collect();
    assert!(!unbalanced.is_empty());
    assert!(unbalanced.iter().all(|((ch, _), _)| *ch == 1));
}

#[test]
fn checksum_hits_target_on_last_decomposition_row() {
    let vi = mock_vi(2);
    let inputs = generate_prover_inputs(0, &vi);
    if let HashSigAggTrace::Decomposition(rows) = &inputs[1].trace {
        for k in 0..2 {
            let last = &rows[decomposition::NUM_ROWS_PER_SIG * (k + 1) - 1];
            assert_eq!(u(last.sum), TARGET_SUM as u32);
        }
    } else {
        panic!("decomposition trace expected");
    }
}

#[test]
fn chain_rows_replay_step_counts() {
    let vi = mock_vi(1);
    let inputs = generate_prover_inputs(0, &vi);
    if let HashSigAggTrace::Chain(rows) = &inputs[0].trace {
        // each chain below the maximum chunk has exactly 3 - x rows, marked
        // by is_x_i on the first
        let mut r = 0usize;
        for i in 0..NUM_CHUNKS {
            let x = vi.traces[0].x[i];
            if x == 3 {
                continue;
            }
            for j in 0..(3 - x) {
                let row = &rows[r];
                assert_eq!(u(row.chain_idx), i as u32);
                assert_eq!(u(row.is_x_i), if j == 0 { 1 } else { 0 });
                assert_eq!(u(row.is_active), 1);
                r += 1;
            }
        }
        assert_eq!(r, chain::NUM_ROWS_PER_SIG);
        for q in r..rows.len() {
            assert_eq!(u(rows[q].is_active), 0);
        }
    } else {
        panic!("chain trace expected");
    }
}

#[test]
fn extra_capacity_changes_nothing() {
    let vi = mock_vi(2);
    let a = generate_prover_inputs(0, &vi);
    let b = generate_prover_inputs(3, &vi);
    assert_eq!(recompute_balance(&a), recompute_balance(&b));
    for (x, y) in a.iter().zip(b.iter()) {
        assert_eq!(trace_height(x), trace_height(y));
    }
}

#[test]
fn padding_rows_are_their_own_successors() {
    let vi = mock_vi(3);
    let inputs = generate_prover_inputs(0, &vi);
    if let HashSigAggTrace::Main(rows) = &inputs[2].trace {
        for r in 3..rows.len() {
            assert_eq!(u(rows[r].is_active), 0);
            assert_eq!(u(rows[r].sig_idx), r as u32);
        }
    } else {
        panic!("main trace expected");
    }
    if let HashSigAggTrace::MerkleTree(rows) = &inputs[3].trace {
        let first_pad = 3 * merkle_tree::NUM_ROWS_PER_SIG;
        for r in first_pad..rows.len() {
            assert_eq!(u(rows[r].is_msg), 0);
            assert_eq!(u(rows[r].is_merkle_leaf), 0);
            assert_eq!(u(rows[r].is_merkle_path), 0);
            assert_eq!(u(rows[r].sig_idx), 0);
        }
    } else {
        panic!("merkle tree trace expected");
    }
}

#[test]
fn range_check_table_is_fixed() {
    let vi = mock_vi(1);
    let inputs = generate_prover_inputs(0, &vi);
    if let HashSigAggTrace::RangeCheck(rows) = &inputs[4].trace {
        assert_eq!(rows.len(), range_check::RANGE_CHECK_HEIGHT);
        for (v, row) in rows.iter().enumerate() {
            assert_eq!(u(row.value), v as u32);
        }
    } else {
        panic!("range check trace expected");
    }
}

#[test]
fn main_table_anchors_each_signature() {
    let vi = mock_vi(2);
    let inputs = generate_prover_inputs(0, &vi);
    if let HashSigAggTrace::Main(rows) = &inputs[2].trace {
        for k in 0..2usize {
            assert_eq!(u(rows[k].sig_idx), k as u32);
            assert_eq!(u(rows[k].is_active), 1);
            for (a, b) in rows[k].parameter.iter().zip(vi.traces[k].pk.parameter.iter()) {
                assert_eq!(a, b);
            }
            for (a, b) in rows[k].msg_hash.iter().zip(vi.traces[k].msg_hash.iter()) {
                assert_eq!(a, b);
            }
        }
    } else {
        panic!("main trace expected");
    }
}
