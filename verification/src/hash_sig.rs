//! Shape and encodings of the hash-based signature scheme whose
//! verifications the circuit batches.
//!
//! A signature opens one value per hash chain; the message digest is
//! re-expressed as base-4 chunks whose sum must hit a fixed target; chain
//! ends are absorbed by a sponge into a Merkle leaf; an authentication path
//! walks the leaf to the public root.  The compression primitive itself is
//! an external collaborator: every application of it reaches the circuit as
//! an (input, output) record inside the verification trace, and the
//! well-formedness predicate below states exactly how those records must be
//! wired together.

use vstd::prelude::*;

use crate::field::{F, P, fadd, fe, p2};

verus! {

/// Message length in bytes.
pub const MSG_LEN: usize = 32;

/// Field elements of an encoded message: 30-bit limbs covering 256 bits.
pub const MSG_FE_LEN: usize = 9;

/// Field elements of a message digest.
pub const MSG_HASH_FE_LEN: usize = 5;

/// Field elements of a public parameter.
pub const PARAM_FE_LEN: usize = 5;

/// Field elements of the randomizer mixed into the message hash.
pub const RHO_FE_LEN: usize = 6;

/// Field elements of an encoded tweak.
pub const TWEAK_FE_LEN: usize = 2;

/// Field elements of a chain value or tree node.
pub const HASH_FE_LEN: usize = 7;

/// Bits per digest chunk; each chunk drives one hash chain.
pub const CHUNK_SIZE: usize = 2;

/// The largest chunk value: a chain that needs no further hashing.
pub const MAX_X: u16 = 3;

/// Number of chunks, hence of hash chains, per signature.
pub const NUM_CHUNKS: usize = 78;

/// The fixed checksum target every signature's chunks must sum to.
pub const TARGET_SUM: u16 = 117;

/// Height of the Merkle tree; the lifetime is two to this power.
pub const LOG_LIFETIME: usize = 20;

/// Width of the compression permutation used for chain steps.
pub const WIDTH_CHAIN: usize = 16;

/// Width of the compression permutation used for digests and the tree.
pub const WIDTH_TREE: usize = 24;

/// Rate of the leaf sponge; the remaining lanes are capacity.
pub const SPONGE_RATE: usize = 15;

/// Capacity lanes of the leaf sponge.
pub const SPONGE_CAPACITY: usize = WIDTH_TREE - SPONGE_RATE;

/// Length of the leaf preimage: one reserved chunk holding parameter and
/// tweak, then one chunk per chain end.
pub const SPONGE_INPUT_SIZE: usize = (NUM_CHUNKS + 1) * HASH_FE_LEN;

/// Permutation calls the leaf sponge makes: the preimage length in
/// rate-sized blocks, the last one partial.
pub const SPONGE_PERM: usize = 37;

/// Tweak domain separators: hash chains, tree compressions, message hash.
pub const TWEAK_SEP_CHAIN: u32 = 0;

pub const TWEAK_SEP_TREE: u32 = 1;

pub const TWEAK_SEP_MSG: u32 = 2;

/// The value loaded into the first capacity lane of the leaf sponge: the
/// preimage length, a plain domain separation.
pub const SPONGE_CAPACITY_FIRST: u32 = SPONGE_INPUT_SIZE as u32;

/// The tweak that binds a compression to hash-chain position (`i`, `k`) of
/// one epoch: the separator-tagged epoch, then the chain coordinates.
pub open spec fn tweak_chain_spec(epoch: int, i: int, k: int) -> Seq<int> {
    seq![(epoch * 4 + TWEAK_SEP_CHAIN) % (P as int), (i * 0x10000 + k) % (P as int)]
}

/// The tweak that binds a compression to tree level `l` above index `i`.
pub open spec fn tweak_tree_spec(l: int, i: int) -> Seq<int> {
    seq![(l * 4 + TWEAK_SEP_TREE) % (P as int), i % (P as int)]
}

/// The tweak of the message-hash compression for one epoch.
pub open spec fn tweak_msg_spec(epoch: int) -> Seq<int> {
    seq![(epoch * 4 + TWEAK_SEP_MSG) % (P as int), 0int]
}

/// Encoded tweak for hash-chain position (`i`, `k`) of one epoch.
pub fn encode_tweak_chain(epoch: u32, i: usize, k: u32) -> (r: Vec<F>)
    requires
        epoch < 0x100000,
        i < NUM_CHUNKS,
        k <= 4,
    ensures
        r@.len() == TWEAK_FE_LEN,
        r@.map_values(|f: F| f@) == tweak_chain_spec(epoch as int, i as int, k as int),
{
    let r = vec![F::new(epoch * 4 + TWEAK_SEP_CHAIN), F::new((i as u32) * 0x10000 + k)];
    proof {
        assert(r@.map_values(|f: F| f@) =~= tweak_chain_spec(epoch as int, i as int, k as int));
    }
    r
}

/// Encoded tweak for the tree compression at level `l` above index `i`.
pub fn encode_tweak_merkle_tree(l: u32, i: u32) -> (r: Vec<F>)
    requires
        l <= LOG_LIFETIME,
        i < 0x100000,
    ensures
        r@.len() == TWEAK_FE_LEN,
        r@.map_values(|f: F| f@) == tweak_tree_spec(l as int, i as int),
{
    let r = vec![F::new(l * 4 + TWEAK_SEP_TREE), F::new(i)];
    proof {
        assert(r@.map_values(|f: F| f@) =~= tweak_tree_spec(l as int, i as int));
    }
    r
}

/// Encoded tweak of the message-hash compression for one epoch.
pub fn encode_tweak_msg(epoch: u32) -> (r: Vec<F>)
    requires
        epoch < 0x100000,
    ensures
        r@.len() == TWEAK_FE_LEN,
        r@.map_values(|f: F| f@) == tweak_msg_spec(epoch as int),
{
    let r = vec![F::new(epoch * 4 + TWEAK_SEP_MSG), F::zero()];
    proof {
        assert(r@.map_values(|f: F| f@) =~= tweak_msg_spec(epoch as int));
    }
    r
}

/// The little-endian value of a byte string.
pub open spec fn bytes_val(s: Seq<u8>) -> int
    decreases s.len(),
{
    if s.len() == 0 {
        0
    } else {
        bytes_val(s.drop_last()) + s.last() * vstd::arithmetic::power2::pow2(
            (8 * (s.len() - 1)) as nat,
        )
    }
}

/// The little-endian value of a string of 30-bit limbs.
pub open spec fn limbs_val(s: Seq<int>) -> int
    decreases s.len(),
{
    if s.len() == 0 {
        0
    } else {
        limbs_val(s.drop_last()) + s.last() * vstd::arithmetic::power2::pow2(
            (30 * (s.len() - 1)) as nat,
        )
    }
}

/// Encode a message as field elements: the little-endian 30-bit limbs of
/// its byte value.  Every limb is below 2^30, so below the modulus, and the
/// limbs carry exactly the message's value.
pub fn encode_msg(msg: &Vec<u8>) -> (r: Vec<F>)
    requires
        msg@.len() == MSG_LEN,
    ensures
        r@.len() == MSG_FE_LEN,
        forall|i: int| 0 <= i < MSG_FE_LEN ==> 0 <= #[trigger] r@[i]@ < 0x4000_0000,
        limbs_val(r@.map_values(|f: F| f@)) == bytes_val(msg@),
{
    let mut out: Vec<F> = Vec::new();
    let mut acc: u64 = 0;
    let mut bits: u64 = 0;
    let mut c: usize = 0;
    proof {
        vstd::arithmetic::power2::lemma2_to64();
    }
    while c < MSG_LEN
        invariant
            msg@.len() == MSG_LEN,
            c <= MSG_LEN,
            bits < 30,
            8 * c == 30 * out@.len() + bits,
            acc < vstd::arithmetic::power2::pow2(bits as nat),
            forall|i: int| 0 <= i < out@.len() ==> 0 <= #[trigger] out@[i]@ < 0x4000_0000,
            limbs_val(out@.map_values(|f: F| f@)) + acc * vstd::arithmetic::power2::pow2(
                (30 * out@.len()) as nat,
            ) == bytes_val(msg@.take(c as int)),
        decreases MSG_LEN - c,
    {
        proof {
            lemma_encode_step(msg@, c as int, out@.map_values(|f: F| f@), acc as int, bits as nat);
            vstd::arithmetic::power2::lemma2_to64();
            vstd::arithmetic::power2::lemma_pow2_strictly_increases(bits as nat, 30);
            vstd::bits::lemma_u64_shl_is_mul(1u64, bits);
        }
        let w: u64 = 1u64 << bits;
        proof {
            assert((msg@[c as int] as u64) * w <= 255u64 * 0x2000_0000) by (nonlinear_arith)
                requires
                    msg@[c as int] <= 255,
                    w <= 0x2000_0000;
        }
        let ghost old_bits = bits as nat;
        let ghost old_acc = acc;
        let ghost b = msg@[c as int];
        acc = acc + (msg[c] as u64) * w;
        bits = bits + 8;
        c = c + 1;
        proof {
            vstd::arithmetic::power2::lemma_pow2_adds(old_bits, 8);
            assert(acc < 256 * w) by (nonlinear_arith)
                requires
                    acc == old_acc + (b as u64) * w,
                    old_acc < w,
                    b <= 255,
                    w >= 1;
        }
        if bits >= 30 {
            let limb: u32 = (acc % 0x4000_0000) as u32;
            let ghost prev_out = out@.map_values(|f: F| f@);
            let ghost prev_acc = acc as int;
            out.push(F::new(limb));
            acc = acc / 0x4000_0000;
            bits = bits - 30;
            proof {
                vstd::arithmetic::div_mod::lemma_small_mod(limb as nat, P as nat);
                lemma_emit_limb(msg@, c as int, prev_out, prev_acc, (bits + 30) as nat);
                assert(out@.map_values(|f: F| f@) =~= prev_out.push(limb as int));
                vstd::arithmetic::power2::lemma_pow2_adds(bits as nat, 30);
                assert(acc < vstd::arithmetic::power2::pow2(bits as nat)) by (nonlinear_arith)
                    requires
                        acc == prev_acc / 0x4000_0000,
                        prev_acc < 0x4000_0000u64 * vstd::arithmetic::power2::pow2(bits as nat),
                        prev_acc >= 0,
                        vstd::arithmetic::power2::pow2(bits as nat) > 0;
            }
        }
    }
    let ghost prev_out = out@.map_values(|f: F| f@);
    proof {
        vstd::arithmetic::power2::lemma2_to64();
        vstd::arithmetic::power2::lemma_pow2_strictly_increases(bits as nat, 30);
        vstd::arithmetic::div_mod::lemma_small_mod(acc as nat, P as nat);
        assert(msg@.take(MSG_LEN as int) =~= msg@);
    }
    let last: u32 = acc as u32;
    out.push(F::new(last));
    proof {
        assert(out@.map_values(|f: F| f@) =~= prev_out.push(last as int));
        lemma_limbs_push(prev_out, last as int);
    }
    out
}

/// Absorbing one more byte extends the prefix value by that byte's weight.
proof fn lemma_encode_step(msg: Seq<u8>, c: int, out: Seq<int>, acc: int, bits: nat)
    requires
        0 <= c < msg.len(),
        8 * c == 30 * out.len() + bits,
        limbs_val(out) + acc * vstd::arithmetic::power2::pow2((30 * out.len()) as nat)
            == bytes_val(msg.take(c)),
    ensures
        limbs_val(out) + (acc + msg[c] * vstd::arithmetic::power2::pow2(bits))
            * vstd::arithmetic::power2::pow2((30 * out.len()) as nat) == bytes_val(
            msg.take(c + 1),
        ),
{
    let w = vstd::arithmetic::power2::pow2((30 * out.len()) as nat);
    let pb = vstd::arithmetic::power2::pow2(bits);
    assert(msg.take(c + 1).drop_last() =~= msg.take(c));
    vstd::arithmetic::power2::lemma_pow2_adds(bits, (30 * out.len()) as nat);
    assert((acc + msg[c] * pb) * w == acc * w + msg[c] * (pb * w)) by (nonlinear_arith);
    assert(msg[c] * (pb * w) == msg[c] * vstd::arithmetic::power2::pow2((8 * c) as nat));
    assert(bytes_val(msg.take(c + 1)) == bytes_val(msg.take(c)) + msg[c]
        * vstd::arithmetic::power2::pow2((8 * c) as nat));
}

/// Splitting a 30-bit limb off the accumulator keeps the carried value.
proof fn lemma_emit_limb(msg: Seq<u8>, c: int, out: Seq<int>, acc: int, bits: nat)
    requires
        acc >= 0,
        limbs_val(out) + acc * vstd::arithmetic::power2::pow2((30 * out.len()) as nat)
            == bytes_val(msg.take(c)),
    ensures
        limbs_val(out.push(acc % 0x4000_0000)) + (acc / 0x4000_0000)
            * vstd::arithmetic::power2::pow2((30 * (out.len() + 1)) as nat) == bytes_val(
            msg.take(c),
        ),
{
    let w = vstd::arithmetic::power2::pow2((30 * out.len()) as nat);
    lemma_limbs_push(out, acc % 0x4000_0000);
    vstd::arithmetic::power2::lemma_pow2_adds(30, (30 * out.len()) as nat);
    vstd::arithmetic::power2::lemma2_to64();
    vstd::arithmetic::div_mod::lemma_fundamental_div_mod(acc, 0x4000_0000);
    assert((0x4000_0000 * (acc / 0x4000_0000) + acc % 0x4000_0000) * w == (acc % 0x4000_0000) * w
        + (acc / 0x4000_0000) * (0x4000_0000 * w)) by (nonlinear_arith);
}

/// Appending a limb adds its weighted value.
proof fn lemma_limbs_push(s: Seq<int>, x: int)
    ensures
        limbs_val(s.push(x)) == limbs_val(s) + x * vstd::arithmetic::power2::pow2(
            (30 * s.len()) as nat,
        ),
{
    assert(s.push(x).drop_last() =~= s);
}

/// One evaluation of the external compression permutation, as the circuit
/// consumes it: the input lanes and the output lanes.  The permutation's own
/// circuit is a pre-built sub-circuit outside this crate; only the wiring of
/// these records is checked here.
pub struct Perm {
    pub input: Vec<F>,
    pub output: Vec<F>,
}

impl Perm {
    pub open spec fn wf(&self, w: int) -> bool {
        self.input@.len() == w && self.output@.len() == w
    }

    /// The feed-forward value of lane `i`: input plus output, which is how
    /// every table reads a compression result.
    pub open spec fn ff(&self, i: int) -> int {
        fadd(fe(self.input@)[i], fe(self.output@)[i])
    }

    /// The first `n` feed-forward lanes.
    pub open spec fn ff_prefix(&self, n: int) -> Seq<int> {
        Seq::new(n as nat, |i: int| self.ff(i))
    }

    /// An all-zero record of width `w`: what padding rows carry in place of
    /// a compression evaluation.
    pub fn zeros(w: usize) -> (r: Perm)
        ensures
            r.wf(w as int),
            fe(r.input@) == Seq::new(w as nat, |i: int| 0int),
            fe(r.output@) == Seq::new(w as nat, |i: int| 0int),
    {
        let r = Perm {
            input: crate::util::zero_fvec(w),
            output: crate::util::zero_fvec(w),
        };
        proof {
            assert(fe(r.input@) =~= Seq::new(w as nat, |i: int| 0int));
            assert(fe(r.output@) =~= Seq::new(w as nat, |i: int| 0int));
        }
        r
    }

    /// The first `n` feed-forward lanes, computed.
    pub fn ff_values(&self, n: usize) -> (r: Vec<F>)
        requires
            n <= self.input@.len(),
            n <= self.output@.len(),
        ensures
            r@.len() == n,
            fe(r@) == self.ff_prefix(n as int),
    {
        let mut r: Vec<F> = Vec::new();
        let mut i: usize = 0;
        while i < n
            invariant
                n <= self.input@.len(),
                n <= self.output@.len(),
                i <= n,
                r@.len() == i,
                forall|j: int| 0 <= j < i ==> #[trigger] r@[j]@ == self.ff(j),
            decreases n - i,
        {
            r.push(self.input[i].add(self.output[i]));
            i = i + 1;
        }
        proof {
            assert(fe(r@) =~= self.ff_prefix(n as int));
        }
        r
    }

    /// An element-by-element copy of the record.
    pub fn duplicate(&self) -> (r: Perm)
        ensures
            r.input@ == self.input@,
            r.output@ == self.output@,
    {
        Perm {
            input: crate::util::clone_fvec(&self.input),
            output: crate::util::clone_fvec(&self.output),
        }
    }
}

/// A public key: the scheme parameter and the Merkle root.
pub struct PublicKey {
    pub parameter: Vec<F>,
    pub merkle_root: Vec<F>,
}

impl PublicKey {
    pub open spec fn wf(&self) -> bool {
        self.parameter@.len() == PARAM_FE_LEN && self.merkle_root@.len() == HASH_FE_LEN
    }
}

/// One hash chain's opening: the revealed value, sitting at the position the
/// chunk dictates, and the compression records that walk it to the chain end.
pub struct ChainOpening {
    pub revealed: Vec<F>,
    pub steps: Vec<Perm>,
}

/// A signature: the message-hash randomizer, one opening per chain, and the
/// Merkle authentication path.
pub struct Signature {
    pub rho: Vec<F>,
    pub chains: Vec<ChainOpening>,
    pub merkle_siblings: Vec<Vec<F>>,
}

impl Signature {
    pub open spec fn wf(&self) -> bool {
        &&& self.rho@.len() == RHO_FE_LEN
        &&& self.chains@.len() == NUM_CHUNKS
        &&& forall|i: int|
            0 <= i < NUM_CHUNKS ==> (#[trigger] self.chains@[i]).revealed@.len() == HASH_FE_LEN
        &&& self.merkle_siblings@.len() == LOG_LIFETIME
        &&& forall|i: int|
            0 <= i < LOG_LIFETIME ==> (#[trigger] self.merkle_siblings@[i])@.len() == HASH_FE_LEN
    }
}

/// The Horner value of a digest, most-significant element first.
pub open spec fn mh_int(s: Seq<int>) -> int
    decreases s.len(),
{
    if s.len() == 0 {
        0
    } else {
        mh_int(s.drop_last()) * (P as int) + s.last()
    }
}

/// Limb `j` of a digest value in base 2^12, little-endian.
pub open spec fn mh_limb(mh: Seq<int>, j: int) -> int {
    (mh_int(mh) / p2(12 * j)) % 4096
}

/// Chunk `c` of a digest value in base 4, little-endian; chunk `c` is also
/// bits `2c..2c+2` of limb `c / 6`.
pub open spec fn mh_chunk(mh: Seq<int>, c: int) -> int {
    (mh_int(mh) / p2(2 * c)) % 4
}

/// The sum of a sequence of chunks.
pub open spec fn xsum(s: Seq<u16>) -> int
    decreases s.len(),
{
    if s.len() == 0 {
        0
    } else {
        xsum(s.drop_last()) + s.last()
    }
}

/// The verification trace of one (public key, signature) pair: everything
/// the external reference verifier computes that the tables replay.  It is
/// produced outside this crate; `wf` states the exact shape and wiring that
/// generation relies on, and which the external producer guarantees for a
/// valid signature.
pub struct VerificationTrace {
    pub pk: PublicKey,
    pub sig: Signature,
    pub msg_hash: Vec<F>,
    pub x: Vec<u16>,
    pub msg_perm: Perm,
    pub leaf_perms: Vec<Perm>,
    pub path_perms: Vec<Perm>,
}

impl VerificationTrace {
    /// The end value of chain `i`: the revealed value itself when the chunk
    /// is at its maximum, else the feed-forward of the last step record.
    pub open spec fn chain_end(&self, i: int) -> Seq<int> {
        if self.x@[i] == MAX_X {
            fe(self.chains_at(i).revealed@)
        } else {
            self.chains_at(i).steps@.last().ff_prefix(HASH_FE_LEN as int)
        }
    }

    pub open spec fn chains_at(&self, i: int) -> ChainOpening {
        self.sig.chains@[i]
    }

    /// The flattened chain ends of chains `0..n`.
    pub open spec fn ends_flat(&self, n: int) -> Seq<int>
        decreases n,
    {
        if n <= 0 {
            Seq::empty()
        } else {
            self.ends_flat(n - 1) + self.chain_end(n - 1)
        }
    }

    /// The Merkle leaf preimage: one reserved chunk holding parameter and
    /// level-zero tweak, then the chain ends.
    pub open spec fn leaf_preimage(&self, epoch: int) -> Seq<int> {
        fe(self.pk.parameter@) + tweak_tree_spec(0, epoch) + self.ends_flat(NUM_CHUNKS as int)
    }

    /// Sponge block `s`: the `s`-th rate-sized window of the leaf preimage,
    /// padded with zeros.
    pub open spec fn sponge_block(&self, epoch: int, s: int) -> Seq<int> {
        Seq::new(
            SPONGE_RATE as nat,
            |j: int|
                if SPONGE_RATE * s + j < SPONGE_INPUT_SIZE {
                    self.leaf_preimage(epoch)[SPONGE_RATE * s + j]
                } else {
                    0
                },
        )
    }

    /// The state entering sponge permutation `s`: the first block over a
    /// zero state with the capacity marker, then each previous output with
    /// the next block absorbed into the rate lanes.
    pub open spec fn sponge_input(&self, epoch: int, s: int) -> Seq<int> {
        Seq::new(
            WIDTH_TREE as nat,
            |j: int|
                if s == 0 {
                    if j < SPONGE_RATE {
                        self.sponge_block(epoch, 0)[j]
                    } else if j == SPONGE_RATE {
                        SPONGE_CAPACITY_FIRST as int
                    } else {
                        0
                    }
                } else {
                    if j < SPONGE_RATE {
                        fadd(fe(self.leaf_perms@[s - 1].output@)[j], self.sponge_block(epoch, s)[j])
                    } else {
                        fe(self.leaf_perms@[s - 1].output@)[j]
                    }
                },
        )
    }

    /// The leaf hash: the first lanes of the final sponge output.
    pub open spec fn leaf_hash(&self) -> Seq<int> {
        fe(self.leaf_perms@.last().output@).take(HASH_FE_LEN as int)
    }

    /// The epoch with its low `l` bits consumed by the path walk.
    pub open spec fn epoch_dec(epoch: int, l: int) -> int {
        epoch / p2(l)
    }

    /// The tree node computed at level `l` of the path walk.
    pub open spec fn path_node(&self, l: int) -> Seq<int>
        decreases l,
    {
        if l <= 0 {
            self.leaf_hash()
        } else {
            self.path_perms@[l - 1].ff_prefix(HASH_FE_LEN as int)
        }
    }

    /// The two children compressed at level `l`: the node walks on the side
    /// the epoch bit selects, the sibling on the other.
    pub open spec fn path_children(&self, epoch: int, l: int) -> Seq<int> {
        if Self::epoch_dec(epoch, l) % 2 == 1 {
            fe(self.sig.merkle_siblings@[l]@) + self.path_node(l)
        } else {
            self.path_node(l) + fe(self.sig.merkle_siblings@[l]@)
        }
    }

    /// The input of the message-hash compression.
    pub open spec fn msg_hash_preimage(&self, epoch: int, encoded_msg: Seq<int>) -> Seq<int> {
        fe(self.sig.rho@) + fe(self.pk.parameter@) + tweak_msg_spec(epoch) + encoded_msg
            + seq![0int, 0int]
    }

    /// Shape of every component.
    pub open spec fn wf_shape(&self) -> bool {
        &&& self.pk.wf()
        &&& self.sig.wf()
        &&& self.msg_hash@.len() == MSG_HASH_FE_LEN
        &&& self.x@.len() == NUM_CHUNKS
        &&& self.msg_perm.wf(WIDTH_TREE as int)
        &&& self.leaf_perms@.len() == SPONGE_PERM
        &&& forall|s: int|
            0 <= s < SPONGE_PERM ==> (#[trigger] self.leaf_perms@[s]).wf(WIDTH_TREE as int)
        &&& self.path_perms@.len() == LOG_LIFETIME
        &&& forall|l: int|
            0 <= l < LOG_LIFETIME ==> (#[trigger] self.path_perms@[l]).wf(WIDTH_TREE as int)
        &&& forall|i: int|
            0 <= i < NUM_CHUNKS ==> (#[trigger] self.chains_at(i)).steps@.len() == (
            if self.x@[i] == MAX_X {
                0int
            } else {
                MAX_X - self.x@[i]
            })
        &&& forall|i: int, j: int|
            0 <= i < NUM_CHUNKS && 0 <= j < self.chains_at(i).steps@.len() ==> (
            #[trigger] self.chains_at(i).steps@[j]).wf(WIDTH_CHAIN as int)
    }

    /// The message-hash record hashes the right preimage, and the digest and
    /// its chunks are read off its feed-forward.
    pub open spec fn wf_msg(&self, epoch: int, encoded_msg: Seq<int>) -> bool {
        &&& fe(self.msg_perm.input@) == self.msg_hash_preimage(epoch, encoded_msg)
        &&& fe(self.msg_hash@) == self.msg_perm.ff_prefix(MSG_HASH_FE_LEN as int)
        &&& forall|c: int|
            0 <= c < NUM_CHUNKS ==> self.x@[c] as int == mh_chunk(fe(self.msg_hash@), c)
        &&& xsum(self.x@) == TARGET_SUM as int
    }

    /// Chain record `j` of chain `i` compresses the walking value at step
    /// `x_i + j` under the right tweak, starting from the revealed value,
    /// each step feeding the next.
    pub open spec fn wf_chain_step(&self, epoch: int, i: int, j: int) -> bool {
        &&& fe(self.chains_at(i).steps@[j].input@) == (
            if j == 0 {
                fe(self.chains_at(i).revealed@)
            } else {
                self.chains_at(i).steps@[j - 1].ff_prefix(HASH_FE_LEN as int)
            }) + fe(self.pk.parameter@) + tweak_chain_spec(
            epoch,
            i,
            self.x@[i] + j + 1,
        ) + seq![0int, 0int]
    }

    pub open spec fn wf_chains(&self, epoch: int) -> bool {
        forall|i: int, j: int|
            0 <= i < NUM_CHUNKS && 0 <= j < self.chains_at(i).steps@.len()
                ==> self.wf_chain_step(epoch, i, j)
    }

    /// The sponge records chain through the absorption of the leaf preimage.
    pub open spec fn wf_leaf(&self, epoch: int) -> bool {
        forall|s: int|
            0 <= s < SPONGE_PERM ==> fe(#[trigger] self.leaf_perms@[s].input@)
                == self.sponge_input(epoch, s)
    }

    /// The path records walk the leaf hash to the public root.
    pub open spec fn wf_path(&self, epoch: int) -> bool {
        &&& forall|l: int|
            0 <= l < LOG_LIFETIME ==> fe(#[trigger] self.path_perms@[l].input@)
                == fe(self.pk.parameter@) + tweak_tree_spec(l + 1, Self::epoch_dec(epoch, l + 1))
                + self.path_children(epoch, l) + seq![0int, 0int, 0int]
        &&& self.path_node(LOG_LIFETIME as int) == fe(self.pk.merkle_root@)
    }

    /// Full well-formedness against an epoch and an encoded message: what
    /// the external reference verifier guarantees of the trace of a valid
    /// signature, and what trace generation relies on.
    pub open spec fn wf(&self, epoch: int, encoded_msg: Seq<int>) -> bool {
        &&& self.wf_shape()
        &&& self.wf_msg(epoch, encoded_msg)
        &&& self.wf_chains(epoch)
        &&& self.wf_leaf(epoch)
        &&& self.wf_path(epoch)
    }
}

/// A batch to be verified: the epoch, the message, and one verification
/// trace per (public key, signature) pair, in batch order.  The traces are
/// produced outside this crate by the reference verifier, which maps each
/// (public key, signature) pair to its trace; the circuit only consumes
/// them.  A batch holds at least one signature: the anchor table's first
/// row must be active, so an empty batch can satisfy no instance of the
/// constraint system.
pub struct VerificationInput {
    pub epoch: u32,
    pub msg: Vec<u8>,
    pub traces: Vec<VerificationTrace>,
}

impl VerificationInput {
    pub open spec fn wf(&self) -> bool {
        &&& self.epoch < 0x100000
        &&& self.msg@.len() == MSG_LEN
        &&& 1 <= self.traces@.len() <= 0x100000
        &&& forall|k: int|
            0 <= k < self.traces@.len() ==> (#[trigger] self.traces@[k]).wf(
                self.epoch as int,
                encoded_msg_spec(self.msg@),
            )
    }
}

/// The encoded message determined by `encode_msg`'s contract: the unique
/// 30-bit-limb string carrying the byte value.
pub open spec fn encoded_msg_spec(msg: Seq<u8>) -> Seq<int> {
    Seq::new(MSG_FE_LEN as nat, |i: int| (bytes_val(msg) / p2(30 * i)) % 0x4000_0000)
}

/// The limbs `encode_msg` returns are the unique base-2^30 digits of the
/// message's value.
pub proof fn lemma_encode_msg_unique(msg: Seq<u8>, limbs: Seq<int>)
    requires
        limbs.len() == MSG_FE_LEN,
        forall|i: int| 0 <= i < MSG_FE_LEN ==> 0 <= #[trigger] limbs[i] < 0x4000_0000,
        limbs_val(limbs) == bytes_val(msg),
    ensures
        limbs == encoded_msg_spec(msg),
{
    assert forall|i: int| 0 <= i < MSG_FE_LEN implies limbs[i] == encoded_msg_spec(msg)[i] by {
        lemma_limbs30_front_unique(limbs, i);
    }
    assert(limbs =~= encoded_msg_spec(msg));
}

/// Front-recursion uniqueness for base-2^30 digits.
proof fn lemma_limbs30_front_unique(e: Seq<int>, j: int)
    requires
        forall|i: int| 0 <= i < e.len() ==> 0 <= #[trigger] e[i] < 0x4000_0000,
        0 <= j < e.len(),
    ensures
        (limbs_val(e) / p2(30 * j)) % 0x4000_0000 == e[j],
        limbs_val(e) >= 0,
    decreases e.len(),
{
    vstd::arithmetic::power2::lemma2_to64();
    lemma_limbs_front(e);
    lemma_limbs_bound(e);
    if j == 0 {
        vstd::arithmetic::div_mod::lemma_mod_multiples_vanish(
            limbs_val(e.drop_first()),
            e[0],
            0x4000_0000,
        );
        vstd::arithmetic::div_mod::lemma_small_mod(e[0] as nat, 0x4000_0000);
        vstd::arithmetic::div_mod::lemma_div_basics(limbs_val(e));
    } else {
        let tail = e.drop_first();
        lemma_limbs30_front_unique(tail, j - 1);
        vstd::arithmetic::div_mod::lemma_div_multiples_vanish_fancy(
            limbs_val(tail),
            e[0],
            0x4000_0000,
        );
        vstd::arithmetic::power2::lemma_pow2_adds(30, (30 * (j - 1)) as nat);
        vstd::arithmetic::power2::lemma_pow2_pos((30 * (j - 1)) as nat);
        vstd::arithmetic::div_mod::lemma_div_denominator(
            limbs_val(e),
            0x4000_0000,
            p2(30 * (j - 1)),
        );
        assert(30 * j == 30 + 30 * (j - 1));
    }
}

/// The end-recursive limb value also satisfies the front recursion.
proof fn lemma_limbs_front(e: Seq<int>)
    ensures
        e.len() > 0 ==> limbs_val(e) == e[0] + 0x4000_0000 * limbs_val(e.drop_first()),
    decreases e.len(),
{
    vstd::arithmetic::power2::lemma2_to64();
    if e.len() == 1 {
        assert(e.drop_first() =~= Seq::<int>::empty());
        assert(e.drop_last() =~= Seq::<int>::empty());
        assert(limbs_val(Seq::<int>::empty()) == 0);
        assert(e[0] * p2(0) == e[0]) by (nonlinear_arith)
            requires
                p2(0) == 1,
        ;
        assert(limbs_val(e) == e[0]);
    } else if e.len() > 1 {
        let head = e.drop_last();
        lemma_limbs_front(head);
        assert(e.drop_first().drop_last() =~= head.drop_first());
        assert(limbs_val(e) == limbs_val(head) + e.last() * p2(30 * (e.len() - 1)));
        assert(limbs_val(e.drop_first()) == limbs_val(head.drop_first()) + e.last() * p2(
            30 * (e.len() - 2),
        ));
        vstd::arithmetic::power2::lemma_pow2_adds(30, (30 * (e.len() - 2)) as nat);
        assert(0x4000_0000 * (limbs_val(head.drop_first()) + e.last() * p2(30 * (e.len() - 2)))
            == 0x4000_0000 * limbs_val(head.drop_first()) + e.last() * (0x4000_0000 * p2(
            30 * (e.len() - 2),
        ))) by (nonlinear_arith);
    }
}

/// A limb string's value is non-negative when its limbs are.
proof fn lemma_limbs_bound(e: Seq<int>)
    requires
        forall|i: int| 0 <= i < e.len() ==> 0 <= #[trigger] e[i] < 0x4000_0000,
    ensures
        limbs_val(e) >= 0,
    decreases e.len(),
{
    if e.len() > 0 {
        lemma_limbs_bound(e.drop_last());
        vstd::arithmetic::power2::lemma_pow2_pos((30 * (e.len() - 1)) as nat);
        assert(e.last() * p2(30 * (e.len() - 1) as int) >= 0) by (nonlinear_arith)
            requires
                e.last() >= 0,
                p2(30 * (e.len() - 1) as int) > 0,
        ;
    }
}

} // verus!
