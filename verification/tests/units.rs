//! Exact-value exercises of the field, the encodings, the gadgets and the
//! engine arithmetic.

use hash_sig_agg::engine::SoundnessType;
use hash_sig_agg::field::{F, P};
use hash_sig_agg::gadget::{not, select, CycleInt, IsEqual};
use hash_sig_agg::hash_sig::{
    encode_msg, encode_tweak_chain, encode_tweak_merkle_tree, encode_tweak_msg,
};
use hash_sig_agg::merkle_tree::MerkleTreeCols;
use hash_sig_agg::util::next_power_of_two;

#[test]
fn field_arithmetic_reduces() {
    assert_eq!(F::new(P).as_u32(), 0);
    assert_eq!(F::new(P - 1).add(F::one()).as_u32(), 0);
    assert_eq!(F::zero().sub(F::one()).as_u32(), P - 1);
    assert_eq!(F::new(3).mul(F::new(5)).as_u32(), 15);
    assert_eq!(F::new(65536).mul(F::new(65536)).as_u32(), 33_554_430);
    let big = F::new(P - 1).mul(F::new(P - 1));
    // (-1) * (-1) == 1
    assert_eq!(big.as_u32(), 1);
}

#[test]
fn field_inverse_inverts() {
    for v in [1u32, 2, 3, 116, 4095, P - 7, P - 1, 123_456_789] {
        let f = F::new(v);
        let inv = f.inv();
        assert_eq!(f.mul(inv).as_u32(), 1, "inverse of {v}");
    }
    assert_eq!(F::zero().inv().as_u32(), 0);
}

#[test]
fn message_encoding_carries_the_value() {
    // a message of all-one bytes: every 30-bit limb of the 256-bit value
    let msg = vec![0xffu8; 32];
    let limbs = encode_msg(&msg);
    assert_eq!(limbs.len(), 9);
    for limb in limbs.iter().take(8) {
        assert_eq!(limb.as_u32(), 0x3fff_ffff);
    }
    // the top limb holds the remaining 16 bits
    assert_eq!(limbs[8].as_u32(), 0xffff);
    // a single low byte lands in the first limb
    let mut msg2 = vec![0u8; 32];
    msg2[0] = 0xab;
    let limbs2 = encode_msg(&msg2);
    assert_eq!(limbs2[0].as_u32(), 0xab);
    for limb in limbs2.iter().skip(1) {
        assert_eq!(limb.as_u32(), 0);
    }
}

#[test]
fn tweak_encodings() {
    let t = encode_tweak_chain(11, 5, 2);
    assert_eq!(t[0].as_u32(), 44);
    assert_eq!(t[1].as_u32(), 5 * 0x10000 + 2);
    let t = encode_tweak_merkle_tree(3, 9);
    assert_eq!(t[0].as_u32(), 13);
    assert_eq!(t[1].as_u32(), 9);
    let t = encode_tweak_msg(11);
    assert_eq!(t[0].as_u32(), 46);
    assert_eq!(t[1].as_u32(), 0);
}

#[test]
fn gadgets_indicate() {
    assert_eq!(not(F::zero()).as_u32(), 1);
    assert_eq!(not(F::one()).as_u32(), 0);
    assert_eq!(select(F::zero(), F::new(4), F::new(9)).as_u32(), 4);
    assert_eq!(select(F::one(), F::new(4), F::new(9)).as_u32(), 9);
    let eq = IsEqual::populate(F::new(7), F::new(7));
    assert_eq!(eq.output.as_u32(), 1);
    assert_eq!(eq.inv.as_u32(), 0);
    let ne = IsEqual::populate(F::new(7), F::new(9));
    assert_eq!(ne.output.as_u32(), 0);
    // the witness is a genuine inverse of the difference
    let diff = F::new(7).sub(F::new(9));
    assert_eq!(diff.mul(ne.inv).as_u32(), 1);
    let cyc = CycleInt::populate(116, 117);
    assert_eq!(cyc.step.as_u32(), 116);
    assert_eq!(cyc.is_last_step.output.as_u32(), 1);
    let cyc = CycleInt::populate(3, 117);
    assert_eq!(cyc.is_last_step.output.as_u32(), 0);
}

#[test]
fn next_power_of_two_rounds_up() {
    assert_eq!(next_power_of_two(0), 1);
    assert_eq!(next_power_of_two(1), 1);
    assert_eq!(next_power_of_two(2), 2);
    assert_eq!(next_power_of_two(3), 4);
    assert_eq!(next_power_of_two(117), 128);
    assert_eq!(next_power_of_two(468), 512);
    assert_eq!(next_power_of_two(4096), 4096);
}

#[test]
fn num_queries_matches_the_ceiling() {
    assert_eq!(SoundnessType::Provable.num_queries(1, 0), 256);
    assert_eq!(SoundnessType::Conjecture.num_queries(1, 0), 128);
    assert_eq!(SoundnessType::Provable.num_queries(3, 16), 75);
    assert_eq!(SoundnessType::Conjecture.num_queries(4, 20), 27);
}

#[test]
fn merkle_register_round_trips() {
    let mut row = MerkleTreeCols {
        perm: hash_sig_agg::hash_sig::Perm::zeros(24),
        sig_idx: F::zero(),
        is_msg: F::zero(),
        is_merkle_leaf: F::zero(),
        is_merkle_leaf_transition: F::zero(),
        is_merkle_path: F::zero(),
        is_merkle_path_transition: F::zero(),
        is_receive_merkle_tree: vec![F::zero(); 3],
        sponge_step: CycleInt::populate(0, 37),
        sponge_block: vec![F::zero(); 15],
        leaf_chunk_start_ind: vec![F::zero(); 15],
        leaf_chunk_idx: F::zero(),
        level: CycleInt::populate(0, 20),
        epoch_dec: F::zero(),
        is_right: F::zero(),
    };
    let values: Vec<F> = vec![F::new(11), F::new(22), F::new(33), F::new(44), F::new(55)];
    row.merkle_parameter_register_mut(&values);
    let back = row.merkle_parameter_register();
    for (a, b) in back.iter().zip(values.iter()) {
        assert_eq!(a, b);
    }
}
