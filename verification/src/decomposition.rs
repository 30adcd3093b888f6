//! The decomposition table: re-expresses each signature's message digest as
//! base-2^12 limbs via a carry-propagating Horner accumulation, re-exposes
//! the limbs as base-4 chunks, and proves the chunks sum to the scheme's
//! fixed target.  Chunks below the maximum are sent to the chain table; all
//! limbs and carries are asserted on the range-check channel.

use vstd::prelude::*;

use crate::field::{F, P, fadd, fmul, fsub, fe, p2};
use crate::gadget::IsEqual;
use crate::hash_sig::{
    CHUNK_SIZE, MAX_X, MSG_HASH_FE_LEN, NUM_CHUNKS, VerificationTrace, mh_chunk, mh_int, mh_limb,
    xsum,
};
use crate::range_check::{RANGE_CHECK_HEIGHT, RangeCheckInteraction};
use crate::util::{clone_fvec, next_pow2, next_power_of_two, zero_fvec};

verus! {

/// Bits per accumulator limb.
pub const LIMB_BITS: usize = 12;

/// Mask of a limb.
pub const LIMB_MASK: u32 = 0xfff;

/// Limbs of one digest element (31 bits in base 2^12).
pub const NUM_LIMBS: usize = 3;

/// Limbs of the whole digest value (5 x 31 bits in base 2^12).
pub const NUM_MSG_HASH_LIMBS: usize = 13;

/// The most-significant limb of the modulus: the modulus is
/// `F_MS_LIMB * 2^24 + 1`, which is what makes the per-limb Horner fold
/// below work.
pub const F_MS_LIMB: u32 = 127;

/// Bits of `F_MS_LIMB`.
pub const F_MS_LIMB_BITS: usize = 7;

/// Chunks carried by one limb: the limb's bits split into chunk-sized
/// groups.
pub const CHUNKS_PER_LIMB: usize = 6;

/// Rows one signature occupies: one per digest element while accumulating,
/// then one per accumulator limb while decomposing.
pub const NUM_ROWS_PER_SIG: usize = 18;

/// Bit `i` of a value.
pub open spec fn bit_of(v: int, i: int) -> int {
    (v / p2(i)) % 2
}

/// Base-4 chunk `j` of a value.
pub open spec fn chunk_of(v: int, j: int) -> int {
    (v / p2(2 * j)) % 4
}

/// The number of one bits among the low `k` bits of a value.
pub open spec fn bitsum(v: int, k: int) -> int
    decreases k,
{
    if k <= 0 {
        0
    } else {
        bitsum(v, k - 1) + bit_of(v, k - 1)
    }
}

/// The value of a little-endian base-2^12 digit string.
pub open spec fn digits_val(e: Seq<int>) -> int
    decreases e.len(),
{
    if e.len() == 0 {
        0
    } else {
        e[0] + 4096 * digits_val(e.drop_first())
    }
}

/// Limb `j` of one digest element.
pub open spec fn vlimb(v: int, j: int) -> int {
    (v / p2(12 * j)) % 4096
}

/// The termwise coefficient of weight 2^12j when the accumulator `d` is
/// folded once (multiplied by the modulus) and a new digest element `v` is
/// added: the modulus is `F_MS_LIMB * 2^24 + 1`, so limb `j` picks up
/// `F_MS_LIMB` times limb `j - 2`.
pub open spec fn acc_term(d: Seq<int>, v: int, j: int) -> int {
    d[j] + (if j >= 2 {
        (F_MS_LIMB as int) * d[j - 2]
    } else {
        0
    }) + (if j < 3 {
        vlimb(v, j)
    } else {
        0
    })
}

/// The carry out of position `j` of the fold.
pub open spec fn acc_carry(d: Seq<int>, v: int, j: int) -> int
    decreases j + 1,
{
    if j < 0 {
        0
    } else {
        (acc_term(d, v, j) + acc_carry(d, v, j - 1)) / 4096
    }
}

/// Digit `j` of the folded accumulator.
pub open spec fn acc_digit(d: Seq<int>, v: int, j: int) -> int {
    (acc_term(d, v, j) + acc_carry(d, v, j - 1)) % 4096
}

/// All thirteen digits of the folded accumulator.
pub open spec fn acc_fold(d: Seq<int>, v: int) -> Seq<int> {
    Seq::new(NUM_MSG_HASH_LIMBS as nat, |j: int| acc_digit(d, v, j))
}

/// Digit strings of in-range digits.
pub open spec fn digits_in_range(e: Seq<int>) -> bool {
    forall|j: int| 0 <= j < e.len() ==> 0 <= #[trigger] e[j] < 4096
}

/// A digit string's value determines each digit.
pub proof fn lemma_digits_unique(e: Seq<int>, j: int)
    requires
        digits_in_range(e),
        0 <= j < e.len(),
    ensures
        (digits_val(e) / p2(12 * j)) % 4096 == e[j],
        digits_val(e) >= 0,
    decreases j,
{
    lemma_digits_val_bounds(e);
    vstd::arithmetic::power2::lemma2_to64();
    if j == 0 {
        vstd::arithmetic::div_mod::lemma_mod_multiples_vanish(
            digits_val(e.drop_first()),
            e[0],
            4096,
        );
        vstd::arithmetic::div_mod::lemma_small_mod(e[0] as nat, 4096);
        vstd::arithmetic::div_mod::lemma_div_basics(digits_val(e));
        assert(digits_val(e) / p2(0) == digits_val(e));
    } else {
        let tail = e.drop_first();
        lemma_digits_val_bounds(tail);
        lemma_digits_unique(tail, j - 1);
        // digits_val(e) / 4096 == digits_val(tail)
        assert(digits_val(e) == 4096 * digits_val(tail) + e[0]);
        vstd::arithmetic::div_mod::lemma_div_multiples_vanish_fancy(
            digits_val(tail),
            e[0],
            4096,
        );
        // dividing by 2^12j in two stages
        vstd::arithmetic::power2::lemma_pow2_adds(12, (12 * (j - 1)) as nat);
        vstd::arithmetic::power2::lemma_pow2_pos((12 * (j - 1)) as nat);
        vstd::arithmetic::div_mod::lemma_div_denominator(
            digits_val(e),
            4096,
            p2(12 * (j - 1)),
        );
        assert(12 * j == 12 + 12 * (j - 1));
    }
}

/// A digit string's value is non-negative and below its width's range.
pub proof fn lemma_digits_val_bounds(e: Seq<int>)
    requires
        digits_in_range(e),
    ensures
        0 <= digits_val(e) < p2(12 * e.len() as int),
    decreases e.len(),
{
    vstd::arithmetic::power2::lemma2_to64();
    if e.len() == 0 {
    } else {
        let tail = e.drop_first();
        lemma_digits_val_bounds(tail);
        vstd::arithmetic::power2::lemma_pow2_adds(12, (12 * (e.len() - 1)) as nat);
        assert(digits_val(e) < p2(12 * e.len() as int)) by (nonlinear_arith)
            requires
                digits_val(e) == e[0] + 4096 * digits_val(tail),
                e[0] < 4096,
                digits_val(tail) < p2(12 * (e.len() - 1)),
                digits_val(tail) >= 0,
                e[0] >= 0,
                p2(12 * e.len() as int) == 4096 * p2(12 * (e.len() - 1)),
        ;
    }
}

/// The value of the low three limbs of a digest element, cut off at `n`.
pub open spec fn vlimbs_val(v: int, n: int) -> int
    decreases n,
{
    if n <= 0 {
        0
    } else if n > 3 {
        vlimbs_val(v, 3)
    } else {
        vlimbs_val(v, n - 1) + vlimb(v, n - 1) * p2(12 * (n - 1))
    }
}

/// The weighted sum of the first `n` fold terms.
pub open spec fn terms_val(d: Seq<int>, v: int, n: int) -> int
    decreases n,
{
    if n <= 0 {
        0
    } else {
        terms_val(d, v, n - 1) + acc_term(d, v, n - 1) * p2(12 * (n - 1))
    }
}

/// The weighted sum of the first `n` fold digits.
pub open spec fn fold_prefix_val(d: Seq<int>, v: int, n: int) -> int
    decreases n,
{
    if n <= 0 {
        0
    } else {
        fold_prefix_val(d, v, n - 1) + acc_digit(d, v, n - 1) * p2(12 * (n - 1))
    }
}

/// Appending a digit adds its weighted value.
pub proof fn lemma_digits_val_push(s: Seq<int>, x: int)
    ensures
        digits_val(s.push(x)) == digits_val(s) + x * p2(12 * s.len() as int),
    decreases s.len(),
{
    vstd::arithmetic::power2::lemma2_to64();
    if s.len() == 0 {
        assert(s.push(x).drop_first() =~= Seq::<int>::empty());
        assert(s.push(x)[0] == x);
        assert(digits_val(Seq::<int>::empty()) == 0);
        assert(digits_val(s.push(x)) == x);
        assert(s =~= Seq::<int>::empty());
        assert(digits_val(s) == 0);
        assert(p2(12 * s.len() as int) == 1);
        assert(x * p2(12 * s.len() as int) == x) by (nonlinear_arith)
            requires
                p2(12 * s.len() as int) == 1,
        ;
    } else {
        assert(s.push(x).drop_first() =~= s.drop_first().push(x));
        assert(s.push(x)[0] == s[0]);
        lemma_digits_val_push(s.drop_first(), x);
        vstd::arithmetic::power2::lemma_pow2_adds(12, (12 * (s.len() - 1)) as nat);
        assert(4096 * (x * p2(12 * (s.len() - 1))) == x * (4096 * p2(12 * (s.len() - 1))))
            by (nonlinear_arith);
    }
}

/// The carries of a fold stay small.
pub proof fn lemma_acc_carry_bound(d: Seq<int>, v: int, j: int)
    requires
        digits_in_range(d),
        d.len() == NUM_MSG_HASH_LIMBS,
        v >= 0,
        j < NUM_MSG_HASH_LIMBS,
    ensures
        0 <= acc_carry(d, v, j) <= 128,
    decreases j + 1,
{
    if j < 0 {
    } else {
        lemma_acc_carry_bound(d, v, j - 1);
        assert(0 <= vlimb(v, j) < 4096) by {
            vstd::arithmetic::power2::lemma_pow2_pos((12 * j) as nat);
            vstd::arithmetic::div_mod::lemma_mod_bound(v / p2(12 * j), 4096);
            vstd::arithmetic::div_mod::lemma_div_pos_is_pos(v, p2(12 * j));
        }
        assert(0 <= acc_term(d, v, j) + acc_carry(d, v, j - 1) <= 4095 + 127 * 4095 + 4095 + 128);
        assert(0 <= acc_carry(d, v, j) <= 128) by (nonlinear_arith)
            requires
                acc_carry(d, v, j) == (acc_term(d, v, j) + acc_carry(d, v, j - 1)) / 4096,
                0 <= acc_term(d, v, j) + acc_carry(d, v, j - 1) <= 528383,
        ;
    }
}

/// The carry chain preserves the termwise value.
proof fn lemma_fold_invariant(d: Seq<int>, v: int, n: int)
    requires
        digits_in_range(d),
        d.len() == NUM_MSG_HASH_LIMBS,
        v >= 0,
        0 <= n <= NUM_MSG_HASH_LIMBS,
    ensures
        fold_prefix_val(d, v, n) + acc_carry(d, v, n - 1) * p2(12 * n) == terms_val(d, v, n),
        fold_prefix_val(d, v, n) >= 0,
    decreases n,
{
    vstd::arithmetic::power2::lemma2_to64();
    if n == 0 {
    } else {
        lemma_fold_invariant(d, v, n - 1);
        lemma_acc_carry_bound(d, v, n - 1);
        lemma_acc_carry_bound(d, v, n - 2);
        let t = acc_term(d, v, n - 1) + acc_carry(d, v, n - 2);
        vstd::arithmetic::div_mod::lemma_fundamental_div_mod(t, 4096);
        vstd::arithmetic::div_mod::lemma_mod_bound(t, 4096);
        vstd::arithmetic::power2::lemma_pow2_adds(12, (12 * (n - 1)) as nat);
        let w = p2(12 * (n - 1));
        assert(acc_digit(d, v, n - 1) * w + acc_carry(d, v, n - 1) * (4096 * w) - acc_carry(
            d,
            v,
            n - 2,
        ) * w == acc_term(d, v, n - 1) * w) by (nonlinear_arith)
            requires
                acc_term(d, v, n - 1) + acc_carry(d, v, n - 2) == 4096 * acc_carry(d, v, n - 1)
                    + acc_digit(d, v, n - 1),
        ;
        vstd::arithmetic::div_mod::lemma_div_pos_is_pos(t, 4096);
        assert(acc_digit(d, v, n - 1) * w >= 0) by (nonlinear_arith)
            requires
                acc_digit(d, v, n - 1) >= 0,
                w >= 0,
        ;
    }
}

/// The termwise value splits into the old accumulator, its modulus-weighted
/// shift, and the new digest element.
proof fn lemma_terms_split(d: Seq<int>, v: int, n: int)
    requires
        digits_in_range(d),
        d.len() == NUM_MSG_HASH_LIMBS,
        v >= 0,
        0 <= n <= NUM_MSG_HASH_LIMBS,
    ensures
        terms_val(d, v, n) == digits_val(d.take(n)) + (F_MS_LIMB as int) * p2(24) * digits_val(
            d.take(if n >= 2 {
                n - 2
            } else {
                0
            }),
        ) + vlimbs_val(v, n),
    decreases n,
{
    vstd::arithmetic::power2::lemma2_to64();
    let fm = F_MS_LIMB as int;
    assert(d.take(0) =~= Seq::<int>::empty());
    assert(digits_val(d.take(0)) == 0);
    vstd::arithmetic::mul::lemma_mul_basics(fm * p2(24));
    if n == 0 {
    } else {
        lemma_terms_split(d, v, n - 1);
        let w = p2(12 * (n - 1));
        assert(d.take(n) =~= d.take(n - 1).push(d[n - 1]));
        lemma_digits_val_push(d.take(n - 1), d[n - 1]);
        assert(digits_val(d.take(n)) == digits_val(d.take(n - 1)) + d[n - 1] * w);
        if n >= 3 {
            assert(d.take(n - 2) =~= d.take(n - 3).push(d[n - 3]));
            lemma_digits_val_push(d.take(n - 3), d[n - 3]);
            vstd::arithmetic::power2::lemma_pow2_adds(24, (12 * (n - 3)) as nat);
            assert(fm * p2(24) * (digits_val(d.take(n - 3)) + d.index(n - 3) * p2(12 * (n - 3)))
                == fm * p2(24) * digits_val(d.take(n - 3)) + fm * d.index(n - 3) * (p2(24) * p2(
                12 * (n - 3),
            ))) by (nonlinear_arith);
            assert(fm * d.index(n - 3) * (p2(24) * p2(12 * (n - 3))) == fm * d.index(n - 3) * w)
                by (nonlinear_arith)
                requires
                    p2(24) * p2(12 * (n - 3)) == w,
            ;
            assert(fm * p2(24) * digits_val(d.take(n - 2)) == fm * p2(24) * digits_val(
                d.take(n - 3),
            ) + fm * d.index(n - 3) * w);
            let t = acc_term(d, v, n - 1);
            if n - 1 < 3 {
                assert(n == 3 && w == p2(24));
                assert(vlimbs_val(v, 3) == vlimbs_val(v, 2) + vlimb(v, 2) * p2(24));
                assert(t * w == d.index(n - 1) * w + fm * d.index(n - 3) * w + vlimb(v, n - 1)
                    * w) by (nonlinear_arith)
                    requires
                        t == d.index(n - 1) + fm * d.index(n - 3) + vlimb(v, n - 1),
                ;
            } else {
                assert(vlimbs_val(v, n) == vlimbs_val(v, n - 1)) by {
                    assert(vlimbs_val(v, n) == vlimbs_val(v, 3));
                    assert(vlimbs_val(v, n - 1) == vlimbs_val(v, 3));
                }
                assert(t * w == d.index(n - 1) * w + fm * d.index(n - 3) * w) by (nonlinear_arith)
                    requires
                        t == d.index(n - 1) + fm * d.index(n - 3),
                ;
            }
        } else {
            let t = acc_term(d, v, n - 1);
            assert(t == d.index(n - 1) + vlimb(v, n - 1));
            assert(t * w == d.index(n - 1) * w + vlimb(v, n - 1) * w) by (nonlinear_arith)
                requires
                    t == d.index(n - 1) + vlimb(v, n - 1),
            ;
            assert(vlimbs_val(v, n) == vlimbs_val(v, n - 1) + vlimb(v, n - 1) * w);
            if n == 2 {
                assert(d.take(n - 2) =~= d.take(0));
            }
        }
    }
}

/// A digest element is the value of its three limbs.
pub proof fn lemma_vlimbs_total(v: int)
    requires
        0 <= v < P,
    ensures
        vlimbs_val(v, 3) == v,
        vlimbs_val(v, NUM_MSG_HASH_LIMBS as int) == v,
{
    vstd::arithmetic::power2::lemma2_to64();
    vstd::arithmetic::div_mod::lemma_div_basics(v);
    vstd::arithmetic::div_mod::lemma_fundamental_div_mod(v, 4096);
    vstd::arithmetic::div_mod::lemma_fundamental_div_mod(v / 4096, 4096);
    vstd::arithmetic::div_mod::lemma_div_denominator(v, 4096, 4096);
    assert(v / p2(24) < 4096) by {
        vstd::arithmetic::div_mod::lemma_div_is_ordered(v, (P - 1) as int, p2(24));
        assert((0x7f000000int) / 0x1000000 == 127);
    }
    vstd::arithmetic::div_mod::lemma_div_pos_is_pos(v, p2(24));
    vstd::arithmetic::div_mod::lemma_small_mod((v / p2(24)) as nat, 4096);
    assert(vlimbs_val(v, 0) == 0);
    assert(vlimbs_val(v, 1) == vlimb(v, 0) * p2(0));
    assert(vlimbs_val(v, 2) == vlimbs_val(v, 1) + vlimb(v, 1) * p2(12));
    assert(vlimbs_val(v, 3) == vlimbs_val(v, 2) + vlimb(v, 2) * p2(24));
    assert(vlimbs_val(v, NUM_MSG_HASH_LIMBS as int) == vlimbs_val(v, 3));
    assert(v / 4096 / 4096 == v / p2(24));
    let q1 = v / 4096;
    assert(v == 4096 * q1 + vlimb(v, 0));
    assert(q1 == 4096 * (v / p2(24)) + vlimb(v, 1));
    assert(4096 * (4096 * (v / p2(24)) + vlimb(v, 1)) == p2(24) * (v / p2(24)) + 4096 * vlimb(
        v,
        1,
    )) by (nonlinear_arith)
        requires
            p2(24) == 4096 * 4096,
    ;
    assert(vlimb(v, 2) * p2(24) == p2(24) * (v / p2(24))) by (nonlinear_arith)
        requires
            vlimb(v, 2) == v / p2(24),
    ;
    assert(vlimb(v, 0) == v % 4096);
    assert(vlimb(v, 1) == q1 % 4096);
    assert(v == vlimb(v, 0) + 4096 * vlimb(v, 1) + p2(24) * (v / p2(24)));
    assert(vlimb(v, 0) * p2(0) == vlimb(v, 0)) by (nonlinear_arith)
        requires
            p2(0) == 1,
    ;
    assert(vlimb(v, 1) * p2(12) == 4096 * vlimb(v, 1)) by (nonlinear_arith)
        requires
            p2(12) == 4096,
    ;
    assert(vlimbs_val(v, 3) == v);
}

/// One fold is exact: the new digits carry the old value times the modulus
/// plus the new digest element, and every digit and carry is in range.
pub proof fn lemma_acc_fold(d: Seq<int>, v: int)
    requires
        digits_in_range(d),
        d.len() == NUM_MSG_HASH_LIMBS,
        digits_val(d) < p2(124),
        0 <= v < P,
    ensures
        digits_in_range(acc_fold(d, v)),
        acc_fold(d, v).len() == NUM_MSG_HASH_LIMBS,
        digits_val(acc_fold(d, v)) == digits_val(d) * (P as int) + v,
        forall|j: int| 0 <= j < NUM_MSG_HASH_LIMBS ==> 0 <= #[trigger] acc_carry(d, v, j) <= 128,
        acc_carry(d, v, NUM_MSG_HASH_LIMBS as int - 1) == 0,
{
    vstd::arithmetic::power2::lemma2_to64();
    let n = NUM_MSG_HASH_LIMBS as int;
    assert forall|j: int| 0 <= j < n implies 0 <= #[trigger] acc_carry(d, v, j) <= 128 by {
        lemma_acc_carry_bound(d, v, j);
    }
    assert forall|j: int| 0 <= j < n implies 0 <= #[trigger] acc_fold(d, v)[j] < 4096 by {
        lemma_acc_carry_bound(d, v, j - 1);
        let t = acc_term(d, v, j) + acc_carry(d, v, j - 1);
        vstd::arithmetic::div_mod::lemma_mod_bound(t, 4096);
    }
    lemma_fold_invariant(d, v, n);
    lemma_terms_split(d, v, n);
    lemma_vlimbs_total(v);
    assert(d.take(n) =~= d);
    // the shifted part sees only the low eleven digits; the top two are zero
    // because the value is small
    lemma_digits_unique(d, 11);
    lemma_digits_unique(d, 12);
    assert(p2(124) <= p2(132)) by {
        vstd::arithmetic::power2::lemma_pow2_strictly_increases(124, 132);
    }
    assert(d[11] == 0) by {
        vstd::arithmetic::power2::lemma_pow2_pos(132);
        vstd::arithmetic::div_mod::lemma_basic_div(digits_val(d), p2(132));
    }
    assert(d[12] == 0) by {
        vstd::arithmetic::power2::lemma_pow2_strictly_increases(132, 144);
        vstd::arithmetic::power2::lemma_pow2_pos(144);
        vstd::arithmetic::div_mod::lemma_basic_div(digits_val(d), p2(144));
    }
    assert(d.take(11) =~= d.take(12).drop_last());
    assert(d.take(12) =~= d.take(13).drop_last());
    assert(d.take(13) =~= d);
    assert(digits_val(d.take(12)) == digits_val(d.take(11))) by {
        lemma_digits_val_push(d.take(11), d[11]);
        assert(d.take(12) =~= d.take(11).push(d[11]));
    }
    assert(digits_val(d) == digits_val(d.take(12))) by {
        lemma_digits_val_push(d.take(12), d[12]);
        assert(d =~= d.take(12).push(d[12]));
    }
    // terms_val == digits_val(d) * P + v
    assert((F_MS_LIMB as int) * p2(24) * digits_val(d) + digits_val(d) == digits_val(d) * (
    P as int)) by (nonlinear_arith)
        requires
            (F_MS_LIMB as int) * p2(24) + 1 == P as int,
    ;
    // final carry vanishes because the total fits thirteen digits
    let fold = acc_fold(d, v);
    assert(fold =~= Seq::new(n as nat, |j: int| acc_digit(d, v, j)));
    assert(digits_val(fold) == fold_prefix_val(d, v, n)) by {
        lemma_fold_prefix_is_digits_val(d, v, n);
    }
    let c = acc_carry(d, v, n - 1);
    assert(p2(124) * p2(31) + p2(31) <= p2(156)) by {
        vstd::arithmetic::power2::lemma_pow2_adds(124, 31);
        vstd::arithmetic::power2::lemma_pow2_adds(155, 1);
        vstd::arithmetic::power2::lemma_pow2_strictly_increases(31, 155);
        vstd::arithmetic::power2::lemma_pow2_pos(155);
    }
    assert(P < p2(31));
    assert(terms_val(d, v, n) == digits_val(d) + (F_MS_LIMB as int) * p2(24) * digits_val(d)
        + v);
    assert((F_MS_LIMB as int) * p2(24) * digits_val(d) + digits_val(d) == digits_val(d) * (
    P as int)) by (nonlinear_arith)
        requires
            (F_MS_LIMB as int) * p2(24) + 1 == P as int,
    ;
    assert(terms_val(d, v, n) == digits_val(d) * (P as int) + v);
    assert(digits_val(acc_fold(d, v)) + c * p2(156) == digits_val(d) * (P as int) + v);
    assert(digits_val(d) * (P as int) + v < p2(156)) by (nonlinear_arith)
        requires
            0 <= digits_val(d) < p2(124),
            0 <= v < P,
            P < p2(31),
            p2(124) * p2(31) + p2(31) <= p2(156),
    ;
    assert(c >= 0) by {
        lemma_acc_carry_bound(d, v, n - 1);
    }
    if c > 0 {
        vstd::arithmetic::power2::lemma_pow2_pos(156);
        assert(c * p2(156) >= p2(156)) by (nonlinear_arith)
            requires
                c >= 1,
                p2(156) > 0,
        ;
        lemma_fold_invariant(d, v, n);
        assert(false);
    }
    assert(c == 0);
    assert(c * p2(156) == 0) by (nonlinear_arith)
        requires
            c == 0,
    ;
    assert(digits_val(acc_fold(d, v)) == digits_val(d) * (P as int) + v);
}

/// The fold-digit prefix sum at full width is the digit string's value.
proof fn lemma_fold_prefix_is_digits_val(d: Seq<int>, v: int, n: int)
    requires
        0 <= n <= NUM_MSG_HASH_LIMBS,
    ensures
        fold_prefix_val(d, v, n) == digits_val(
            Seq::new(n as nat, |j: int| acc_digit(d, v, j)),
        ),
    decreases n,
{
    if n == 0 {
    } else {
        lemma_fold_prefix_is_digits_val(d, v, n - 1);
        let s = Seq::new(n as nat, |j: int| acc_digit(d, v, j));
        assert(s.drop_last() =~= Seq::new((n - 1) as nat, |j: int| acc_digit(d, v, j)));
        lemma_digits_val_push(s.drop_last(), acc_digit(d, v, n - 1));
        assert(s =~= s.drop_last().push(acc_digit(d, v, n - 1)));
    }
}

/// The accumulator digits after digest elements `0..=s` are folded in,
/// most-significant element first.
pub open spec fn acc_after(mh: Seq<int>, s: int) -> Seq<int>
    decreases s + 1,
{
    if s < 0 {
        Seq::new(NUM_MSG_HASH_LIMBS as nat, |j: int| 0int)
    } else {
        acc_fold(acc_after(mh, s - 1), mh[s])
    }
}

/// The all-zero digit string has value zero.
proof fn lemma_digits_val_zero(n: int)
    requires
        n >= 0,
    ensures
        digits_val(Seq::new(n as nat, |j: int| 0int)) == 0,
    decreases n,
{
    if n > 0 {
        lemma_digits_val_zero(n - 1);
        let s = Seq::new(n as nat, |j: int| 0int);
        assert(s.drop_first() =~= Seq::new((n - 1) as nat, |j: int| 0int));
    }
}

/// The accumulator after `s + 1` digest elements carries exactly the Horner
/// value of the digest prefix, in range at every step.
pub proof fn lemma_acc_after(mh: Seq<int>, s: int)
    requires
        mh.len() == MSG_HASH_FE_LEN,
        forall|i: int| 0 <= i < MSG_HASH_FE_LEN ==> 0 <= #[trigger] mh[i] < P,
        -1 <= s < MSG_HASH_FE_LEN,
    ensures
        acc_after(mh, s).len() == NUM_MSG_HASH_LIMBS,
        digits_in_range(acc_after(mh, s)),
        digits_val(acc_after(mh, s)) == mh_int(mh.take(s + 1)),
        digits_val(acc_after(mh, s)) < p2(31 * (s + 1)),
    decreases s + 1,
{
    vstd::arithmetic::power2::lemma2_to64();
    if s < 0 {
        lemma_digits_val_zero(NUM_MSG_HASH_LIMBS as int);
        assert(mh.take(0) =~= Seq::<int>::empty());
        vstd::arithmetic::power2::lemma_pow2_pos(0);
    } else {
        lemma_acc_after(mh, s - 1);
        let d = acc_after(mh, s - 1);
        assert(digits_val(d) < p2(124)) by {
            if 31 * s < 124 {
                vstd::arithmetic::power2::lemma_pow2_strictly_increases((31 * s) as nat, 124);
            }
        }
        lemma_acc_fold(d, mh[s]);
        assert(mh.take(s + 1).drop_last() =~= mh.take(s));
        assert(mh.take(s + 1).last() == mh[s]);
        vstd::arithmetic::power2::lemma_pow2_adds((31 * s) as nat, 31);
        assert(p2(31 * s) >= 1) by {
            vstd::arithmetic::power2::lemma_pow2_pos((31 * s) as nat);
        }
        lemma_digits_val_bounds(d);
        assert(0 <= digits_val(d) < p2(31 * s));
        assert(digits_val(d) * (P as int) + mh[s] < p2(31 * (s + 1))) by (nonlinear_arith)
            requires
                0 <= digits_val(d) < p2(31 * s),
                0 <= mh[s] < P,
                (P as int) <= p2(31),
                p2(31 * s) * p2(31) == p2(31 * (s + 1)),
                p2(31) > 0,
                p2(31 * s) >= 1,
        ;
    }
}

/// The fully folded accumulator's digits are the digest value's limbs.
pub proof fn lemma_acc_final(mh: Seq<int>, j: int)
    requires
        mh.len() == MSG_HASH_FE_LEN,
        forall|i: int| 0 <= i < MSG_HASH_FE_LEN ==> 0 <= #[trigger] mh[i] < P,
        0 <= j < NUM_MSG_HASH_LIMBS,
    ensures
        acc_after(mh, MSG_HASH_FE_LEN as int - 1)[j] == mh_limb(mh, j),
{
    lemma_acc_after(mh, MSG_HASH_FE_LEN as int - 1);
    let d = acc_after(mh, MSG_HASH_FE_LEN as int - 1);
    assert(mh.take(MSG_HASH_FE_LEN as int) =~= mh);
    lemma_digits_unique(d, j);
}

/// A digest chunk is a chunk of the right limb.
pub proof fn lemma_chunk_of_limb(mh: Seq<int>, s: int, j: int)
    requires
        mh.len() == MSG_HASH_FE_LEN,
        forall|i: int| 0 <= i < MSG_HASH_FE_LEN ==> 0 <= #[trigger] mh[i] < P,
        0 <= s < NUM_MSG_HASH_LIMBS,
        0 <= j < CHUNKS_PER_LIMB,
    ensures
        mh_chunk(mh, CHUNKS_PER_LIMB as int * s + j) == chunk_of(mh_limb(mh, s), j),
{
    vstd::arithmetic::power2::lemma2_to64();
    lemma_acc_after(mh, MSG_HASH_FE_LEN as int - 1);
    lemma_digits_val_bounds(acc_after(mh, MSG_HASH_FE_LEN as int - 1));
    assert(mh.take(MSG_HASH_FE_LEN as int) =~= mh);
    let v = mh_int(mh);
    assert(v >= 0);
    let x = v / p2(12 * s);
    // split the divisor: 2^(12s + 2j) = 2^12s * 2^2j
    vstd::arithmetic::power2::lemma_pow2_adds((12 * s) as nat, (2 * j) as nat);
    vstd::arithmetic::power2::lemma_pow2_pos((12 * s) as nat);
    vstd::arithmetic::power2::lemma_pow2_pos((2 * j) as nat);
    vstd::arithmetic::div_mod::lemma_div_denominator(v, p2(12 * s), p2(2 * j));
    assert(2 * (CHUNKS_PER_LIMB as int * s + j) == 12 * s + 2 * j);
    // x % 4096 = limb; (x / 2^2j) % 4 == ((x % 4096) / 2^2j) % 4
    vstd::arithmetic::div_mod::lemma_fundamental_div_mod(x, 4096);
    let h = x / 4096;
    let l = x % 4096;
    vstd::arithmetic::div_mod::lemma_div_pos_is_pos(v, p2(12 * s));
    vstd::arithmetic::div_mod::lemma_mod_bound(x, 4096);
    // x / 2^2j == (4096 / 2^2j) * h + l / 2^2j
    let q = p2((12 - 2 * j) as int);
    vstd::arithmetic::power2::lemma_pow2_adds((2 * j) as nat, (12 - 2 * j) as nat);
    assert(x == p2(2 * j) * (q * h) + l) by (nonlinear_arith)
        requires
            x == 4096 * h + l,
            4096 == p2(2 * j) * q,
    ;
    vstd::arithmetic::div_mod::lemma_hoist_over_denominator(l, q * h, p2(2 * j) as nat);
    assert(l / p2(2 * j) + q * h == x / p2(2 * j)) by {
        assert(l + (q * h) * p2(2 * j) == x) by (nonlinear_arith)
            requires
                x == p2(2 * j) * (q * h) + l,
        ;
    }
    assert(l / p2(2 * j) >= 0) by {
        vstd::arithmetic::div_mod::lemma_div_pos_is_pos(l, p2(2 * j));
    }
    // q * h is a multiple of 4: q = 2^(12 - 2j) with 12 - 2j >= 2
    let q4 = p2((10 - 2 * j) as int);
    vstd::arithmetic::power2::lemma_pow2_adds(2, (10 - 2 * j) as nat);
    assert(q * h == 4 * (q4 * h)) by (nonlinear_arith)
        requires
            q == 4 * q4,
    ;
    vstd::arithmetic::div_mod::lemma_mod_multiples_vanish(q4 * h, l / p2(2 * j), 4);
}

/// Two bits recompose into their chunk.
pub proof fn lemma_bits_to_chunk(x: int, j: int)
    requires
        x >= 0,
        0 <= j,
    ensures
        chunk_of(x, j) == bit_of(x, 2 * j) + 2 * bit_of(x, 2 * j + 1),
{
    vstd::arithmetic::power2::lemma2_to64();
    let y = x / p2(2 * j);
    vstd::arithmetic::power2::lemma_pow2_pos((2 * j) as nat);
    vstd::arithmetic::div_mod::lemma_div_pos_is_pos(x, p2(2 * j));
    vstd::arithmetic::div_mod::lemma_breakdown(y, 2, 2);
    vstd::arithmetic::power2::lemma_pow2_adds((2 * j) as nat, 1);
    vstd::arithmetic::div_mod::lemma_div_denominator(x, p2(2 * j), 2);
    assert(chunk_of(x, j) == y % 4);
    assert(y % 4 == 2 * ((y / 2) % 2) + y % 2);
    assert(bit_of(x, 2 * j + 1) == (y / 2) % 2);
}

/// How often a value occurs in a list.
pub open spec fn occ(s: Seq<int>, w: int) -> int
    decreases s.len(),
{
    if s.len() == 0 {
        0
    } else {
        occ(s.drop_last(), w) + if s.last() == w {
            1int
        } else {
            0int
        }
    }
}

/// Occurrence counting respects append.
pub proof fn lemma_occ_add(a: Seq<int>, b: Seq<int>, w: int)
    ensures
        occ(a + b, w) == occ(a, w) + occ(b, w),
    decreases b.len(),
{
    if b.len() == 0 {
        assert(a + b =~= a);
    } else {
        lemma_occ_add(a, b.drop_last(), w);
        assert((a + b).drop_last() =~= a + b.drop_last());
        assert((a + b).last() == b.last());
    }
}

/// Occurrences never exceed the list's length.
pub proof fn lemma_occ_le_len(s: Seq<int>, w: int)
    ensures
        0 <= occ(s, w) <= s.len(),
    decreases s.len(),
{
    if s.len() > 0 {
        lemma_occ_le_len(s.drop_last(), w);
    }
}

/// Column count of the decomposition table.
pub const NUM_DECOMPOSITION_COLS: usize = 83;

/// One row of the decomposition table.
pub struct DecompositionCols {
    pub sig_idx: F,
    pub inds: Vec<F>,
    pub values: Vec<F>,
    pub value_ls_limbs: Vec<F>,
    pub value_ms_limb_bits: Vec<F>,
    pub value_limb_0_is_zero: IsEqual,
    pub value_limb_1_is_zero: IsEqual,
    pub is_ms_limb_max: IsEqual,
    pub acc_limbs: Vec<F>,
    pub carries: Vec<F>,
    pub decomposition_bits: Vec<F>,
    pub is_send_chain: Vec<F>,
    pub sum: F,
}

/// A one-hot row-kind indicator, or all-inactive when `at` is out of range.
pub open spec fn one_hot(at: int) -> Seq<int> {
    Seq::new(
        NUM_ROWS_PER_SIG as nat,
        |j: int|
            if j == at {
                1int
            } else {
                0int
            },
    )
}

/// The digest of a verification trace, as residues.
pub open spec fn mh_of(vt: &VerificationTrace) -> Seq<int> {
    fe(vt.msg_hash@)
}

/// The carries written on the accumulation row of digest element `s`.
pub open spec fn carries_of(mh: Seq<int>, s: int) -> Seq<int> {
    Seq::new(
        (NUM_MSG_HASH_LIMBS - 1) as nat,
        |j: int| acc_carry(acc_after(mh, s - 1), mh[s], j),
    )
}

/// The limb values one accumulation row asserts on the range-check channel,
/// in send order: the low limbs of the digest element, the new accumulator,
/// the carries.
pub open spec fn row_limb_list(mh: Seq<int>, s: int) -> Seq<int> {
    seq![vlimb(mh[s], 0), vlimb(mh[s], 1)] + acc_after(mh, s) + carries_of(mh, s)
}

/// The limb values one signature asserts, over its first `n` accumulation
/// rows.
pub open spec fn sig_limb_list(mh: Seq<int>, n: int) -> Seq<int>
    decreases n,
{
    if n <= 0 {
        Seq::empty()
    } else {
        sig_limb_list(mh, n - 1) + row_limb_list(mh, n - 1)
    }
}

/// The limb values the first `k` signatures of a batch assert.
pub open spec fn batch_limb_list(traces: Seq<VerificationTrace>, k: int) -> Seq<int>
    decreases k,
{
    if k <= 0 {
        Seq::empty()
    } else {
        batch_limb_list(traces, k - 1) + sig_limb_list(
            mh_of(&traces[k - 1]),
            MSG_HASH_FE_LEN as int,
        )
    }
}

impl DecompositionCols {
    pub open spec fn wf(&self) -> bool {
        &&& self.inds@.len() == NUM_ROWS_PER_SIG
        &&& self.values@.len() == MSG_HASH_FE_LEN
        &&& self.value_ls_limbs@.len() == NUM_LIMBS - 1
        &&& self.value_ms_limb_bits@.len() == F_MS_LIMB_BITS
        &&& self.acc_limbs@.len() == NUM_MSG_HASH_LIMBS
        &&& self.carries@.len() == NUM_MSG_HASH_LIMBS - 1
        &&& self.decomposition_bits@.len() == LIMB_BITS
        &&& self.is_send_chain@.len() == CHUNKS_PER_LIMB
    }

    /// The generated accumulation row of digest element `step` of signature
    /// `k`: it carries the digest element's limbs and bits, the folded
    /// accumulator, and the carries.
    pub open spec fn is_acc_row(&self, vt: &VerificationTrace, k: int, step: int) -> bool {
        let mh = mh_of(vt);
        let v = mh[step];
        &&& self.sig_idx@ == k
        &&& fe(self.inds@) == one_hot(step)
        &&& fe(self.values@) == mh.reverse()
        &&& fe(self.value_ls_limbs@) == seq![vlimb(v, 0), vlimb(v, 1)]
        &&& fe(self.value_ms_limb_bits@) == Seq::new(
            F_MS_LIMB_BITS as nat,
            |i: int| bit_of(vlimb(v, 2), i),
        )
        &&& self.value_limb_0_is_zero.is_populated(vlimb(v, 0))
        &&& self.value_limb_1_is_zero.is_populated(vlimb(v, 1))
        &&& self.is_ms_limb_max.is_populated(fsub(bitsum(vlimb(v, 2), F_MS_LIMB_BITS as int), 7))
        &&& fe(self.acc_limbs@) == acc_after(mh, step)
        &&& fe(self.carries@) == carries_of(mh, step)
        &&& fe(self.decomposition_bits@) == Seq::new(LIMB_BITS as nat, |b: int| 0int)
        &&& fe(self.is_send_chain@) == Seq::new(CHUNKS_PER_LIMB as nat, |j: int| 0int)
        &&& self.sum@ == 0
    }

    /// The generated decomposition row of accumulator limb `step` of
    /// signature `k`: it re-exposes the limb's bits, flags the chunks that
    /// need chain hashing, and carries the running chunk sum.
    pub open spec fn is_decomposition_row(&self, vt: &VerificationTrace, k: int, step: int) -> bool {
        let mh = mh_of(vt);
        &&& self.sig_idx@ == k
        &&& fe(self.inds@) == one_hot(MSG_HASH_FE_LEN as int + step)
        &&& fe(self.values@) == Seq::new(MSG_HASH_FE_LEN as nat, |i: int| 0int)
        &&& fe(self.value_ls_limbs@) == seq![0int, 0int]
        &&& fe(self.value_ms_limb_bits@) == Seq::new(F_MS_LIMB_BITS as nat, |i: int| 0int)
        &&& self.value_limb_0_is_zero.is_populated(0)
        &&& self.value_limb_1_is_zero.is_populated(0)
        &&& self.is_ms_limb_max.is_populated(fsub(0, 7))
        &&& fe(self.acc_limbs@) == Seq::new(
            NUM_MSG_HASH_LIMBS as nat,
            |j: int| mh_limb(mh, j),
        )
        &&& fe(self.carries@) == Seq::new((NUM_MSG_HASH_LIMBS - 1) as nat, |j: int| 0int)
        &&& fe(self.decomposition_bits@) == Seq::new(
            LIMB_BITS as nat,
            |b: int| bit_of(mh_limb(mh, step), b),
        )
        &&& fe(self.is_send_chain@) == Seq::new(
            CHUNKS_PER_LIMB as nat,
            |j: int|
                if vt.x@[CHUNKS_PER_LIMB as int * step + j] != MAX_X {
                    1int
                } else {
                    0int
                },
        )
        &&& self.sum@ == xsum(vt.x@.take(CHUNKS_PER_LIMB as int * (step + 1)))
    }

    /// The generated padding row: inactive, everything zero, the indicator
    /// gadgets filled over zeros.
    pub open spec fn is_padding_row(&self) -> bool {
        &&& self.sig_idx@ == 0
        &&& fe(self.inds@) == Seq::new(NUM_ROWS_PER_SIG as nat, |j: int| 0int)
        &&& fe(self.values@) == Seq::new(MSG_HASH_FE_LEN as nat, |i: int| 0int)
        &&& fe(self.value_ls_limbs@) == seq![0int, 0int]
        &&& fe(self.value_ms_limb_bits@) == Seq::new(F_MS_LIMB_BITS as nat, |i: int| 0int)
        &&& self.value_limb_0_is_zero.is_populated(0)
        &&& self.value_limb_1_is_zero.is_populated(0)
        &&& self.is_ms_limb_max.is_populated(fsub(0, 7))
        &&& fe(self.acc_limbs@) == Seq::new(NUM_MSG_HASH_LIMBS as nat, |j: int| 0int)
        &&& fe(self.carries@) == Seq::new((NUM_MSG_HASH_LIMBS - 1) as nat, |j: int| 0int)
        &&& fe(self.decomposition_bits@) == Seq::new(LIMB_BITS as nat, |b: int| 0int)
        &&& fe(self.is_send_chain@) == Seq::new(CHUNKS_PER_LIMB as nat, |j: int| 0int)
        &&& self.sum@ == 0
    }
}

/// A left-folded field sum of a window of cells.
pub open spec fn fsum(s: Seq<int>, a: int, b: int) -> int
    decreases b - a,
{
    if b <= a {
        0
    } else {
        fadd(fsum(s, a, b - 1), s[b - 1])
    }
}

impl DecompositionCols {
    /// The most-significant digest-element limb recomposed from its bits.
    pub open spec fn value_ms_limb_val(&self) -> int {
        let b = fe(self.value_ms_limb_bits@);
        fadd(
            fadd(
                fadd(fadd(fadd(fadd(b[0], fmul(2, b[1])), fmul(4, b[2])), fmul(8, b[3])), fmul(
                    16,
                    b[4],
                )),
                fmul(32, b[5]),
            ),
            fmul(64, b[6]),
        )
    }

    /// Chunk `j` of the exposed limb, recomposed from its bits.
    pub open spec fn chunk_val(&self, j: int) -> int {
        fadd(fe(self.decomposition_bits@)[2 * j], fmul(2, fe(self.decomposition_bits@)[2 * j + 1]))
    }

    /// The six chunk values of the row.
    pub open spec fn chunk_vals(&self) -> Seq<int> {
        Seq::new(CHUNKS_PER_LIMB as nat, |j: int| self.chunk_val(j))
    }

    /// The decomposition-phase indicator: the sum of the limb-row kinds.
    pub open spec fn is_decomposition_val(&self) -> int {
        fsum(fe(self.inds@), MSG_HASH_FE_LEN as int, NUM_ROWS_PER_SIG as int)
    }

    /// The digest element recomposed from its limbs.
    pub open spec fn value_composed(&self) -> int {
        fadd(
            fadd(fe(self.value_ls_limbs@)[0], fmul(4096, fe(self.value_ls_limbs@)[1])),
            fmul(0x100_0000, self.value_ms_limb_val()),
        )
    }

    /// The limb the row's kind indicators select out of the accumulator.
    pub open spec fn selected_limb(&self) -> int {
        fsum(
            Seq::new(
                NUM_MSG_HASH_LIMBS as nat,
                |t: int| fmul(fe(self.acc_limbs@)[t], fe(self.inds@)[MSG_HASH_FE_LEN as int + t]),
            ),
            0,
            NUM_MSG_HASH_LIMBS as int,
        )
    }

    /// The exposed limb recomposed from its twelve bits.
    pub open spec fn bits_recomposed(&self) -> int {
        let b = fe(self.decomposition_bits@);
        fadd(
            fadd(
                fadd(
                    fadd(
                        fadd(
                            fadd(
                                fadd(
                                    fadd(
                                        fadd(
                                            fadd(fadd(b[0], fmul(2, b[1])), fmul(4, b[2])),
                                            fmul(8, b[3]),
                                        ),
                                        fmul(16, b[4]),
                                    ),
                                    fmul(32, b[5]),
                                ),
                                fmul(64, b[6]),
                            ),
                            fmul(128, b[7]),
                        ),
                        fmul(256, b[8]),
                    ),
                    fmul(512, b[9]),
                ),
                fmul(1024, b[10]),
            ),
            fmul(2048, b[11]),
        )
    }

    /// The accumulator shape that opens a signature: the first digest
    /// element's limbs, gated so the same form serves the trace's first row
    /// and the signature boundaries.
    pub open spec fn acc_open_gated(&self, gate: int) -> bool {
        forall|i: int|
            0 <= i < NUM_MSG_HASH_LIMBS ==> fmul(
                gate,
                fsub(
                    #[trigger] fe(self.acc_limbs@)[i],
                    if i == 0 {
                        fe(self.value_ls_limbs@)[0]
                    } else if i == 1 {
                        fe(self.value_ls_limbs@)[1]
                    } else if i == 2 {
                        self.value_ms_limb_val()
                    } else {
                        0int
                    },
                ),
            ) == 0
    }

    /// The left side of the carry-fold identity at limb `i`.
    pub open spec fn acc_lhs(&self, i: int) -> int {
        if i < NUM_MSG_HASH_LIMBS - 1 {
            fadd(fmul(fe(self.carries@)[i], 4096), fe(self.acc_limbs@)[i])
        } else {
            fe(self.acc_limbs@)[i]
        }
    }

    /// The right side of the carry-fold identity at limb `i`: the previous
    /// accumulator folded by the modulus limb, the incoming digest limb,
    /// and the incoming carry.
    pub open spec fn acc_rhs(&self, next: &DecompositionCols, i: int) -> int {
        if i == 0 {
            fadd(fe(self.acc_limbs@)[0], fe(next.value_ls_limbs@)[0])
        } else if i == 1 {
            fadd(fadd(fe(self.acc_limbs@)[1], fe(next.value_ls_limbs@)[1]), fe(next.carries@)[0])
        } else if i == 2 {
            fadd(
                fadd(
                    fadd(fmul(fe(self.acc_limbs@)[0], F_MS_LIMB as int), fe(self.acc_limbs@)[2]),
                    next.value_ms_limb_val(),
                ),
                fe(next.carries@)[1],
            )
        } else {
            fadd(
                fadd(fmul(fe(self.acc_limbs@)[i - 2], F_MS_LIMB as int), fe(self.acc_limbs@)[i]),
                fe(next.carries@)[i - 1],
            )
        }
    }

    /// Row-local constraints of the decomposition table: boolean one-hot
    /// row-kind indicators summing to at most one, boolean limb and chunk
    /// bits, the zero indicators of the low limbs, the most-significant-limb
    /// threshold gadget with its edge-case implications, the running sum
    /// opened on the first decomposition row, and the fixed target sum
    /// closed on the last.
    pub open spec fn every_row_ok(&self) -> bool {
        let inds = fe(self.inds@);
        let s = fsum(inds, 0, NUM_ROWS_PER_SIG as int);
        let ms_diff = fsub(self.value_ms_limb_bits_sum(), F_MS_LIMB_BITS as int);
        &&& forall|t: int|
            0 <= t < NUM_ROWS_PER_SIG ==> fmul(#[trigger] inds[t], fsub(inds[t], 1)) == 0
        &&& fmul(s, fsub(s, 1)) == 0
        &&& forall|i: int|
            0 <= i < F_MS_LIMB_BITS ==> fmul(
                #[trigger] fe(self.value_ms_limb_bits@)[i],
                fsub(fe(self.value_ms_limb_bits@)[i], 1),
            ) == 0
        &&& forall|b: int|
            0 <= b < LIMB_BITS ==> fmul(
                #[trigger] fe(self.decomposition_bits@)[b],
                fsub(fe(self.decomposition_bits@)[b], 1),
            ) == 0
        &&& self.value_limb_0_is_zero.constraints_ok(fe(self.value_ls_limbs@)[0])
        &&& self.value_limb_1_is_zero.constraints_ok(fe(self.value_ls_limbs@)[1])
        &&& self.is_ms_limb_max.constraints_ok(ms_diff)
        &&& fmul(
            self.is_ms_limb_max.output@,
            fsub(self.value_limb_0_is_zero.output@, 1),
        ) == 0
        &&& fmul(
            self.is_ms_limb_max.output@,
            fsub(self.value_limb_1_is_zero.output@, 1),
        ) == 0
        &&& fmul(
            fe(self.inds@)[MSG_HASH_FE_LEN as int],
            fsub(self.sum@, fsum(self.chunk_vals(), 0, CHUNKS_PER_LIMB as int)),
        ) == 0
        &&& fmul(
            fe(self.inds@)[NUM_ROWS_PER_SIG as int - 1],
            fsub(self.sum@, crate::hash_sig::TARGET_SUM as int),
        ) == 0
        &&& forall|idx: int|
            0 <= idx < MSG_HASH_FE_LEN ==> fmul(
                #[trigger] fe(self.inds@)[idx],
                fsub(fe(self.values@)[MSG_HASH_FE_LEN as int - 1 - idx], self.value_composed()),
            ) == 0
        &&& forall|j: int|
            0 <= j < CHUNKS_PER_LIMB ==> #[trigger] fe(self.is_send_chain@)[j] == fmul(
                self.is_decomposition_val(),
                fsub(
                    1,
                    fmul(
                        fe(self.decomposition_bits@)[2 * j],
                        fe(self.decomposition_bits@)[2 * j + 1],
                    ),
                ),
            )
        &&& fmul(
            self.is_decomposition_val(),
            fsub(self.selected_limb(), self.bits_recomposed()),
        ) == 0
    }

    /// The sum of the most-significant limb's bits, as the threshold gadget
    /// reads it.
    pub open spec fn value_ms_limb_bits_sum(&self) -> int {
        fsum(fe(self.value_ms_limb_bits@), 0, F_MS_LIMB_BITS as int)
    }

    /// First-row constraints: the trace opens on the first accumulation row
    /// of signature zero, with the accumulator holding the first digest
    /// element's limbs.
    pub open spec fn first_row_ok(&self) -> bool {
        &&& fe(self.inds@)[0] == 1
        &&& self.acc_open_gated(1)
    }

    /// Transition constraints: the signature index is carried within a
    /// signature and steps up into the next active one, the row kinds
    /// progress in fixed order, the carry-propagating fold drives each
    /// accumulation step, the finished accumulator is carried across the
    /// decomposition rows, and the running sum accumulates each row's
    /// chunks.
    pub open spec fn transition_ok(&self, next: &DecompositionCols) -> bool {
        let inds = fe(self.inds@);
        let ninds = fe(next.inds@);
        let within = fsum(inds, 0, NUM_ROWS_PER_SIG as int - 1);
        let boundary = fmul(
            inds[NUM_ROWS_PER_SIG as int - 1],
            fsum(ninds, 0, NUM_ROWS_PER_SIG as int),
        );
        let acc_t = fsum(inds, 0, MSG_HASH_FE_LEN as int - 1);
        let acc_last = inds[MSG_HASH_FE_LEN as int - 1];
        let dec_t = fsum(inds, MSG_HASH_FE_LEN as int, NUM_ROWS_PER_SIG as int - 1);
        &&& fmul(within, fsub(next.sig_idx@, self.sig_idx@)) == 0
        &&& fmul(boundary, fsub(next.sig_idx@, fadd(self.sig_idx@, 1))) == 0
        &&& forall|t: int|
            0 <= t < NUM_ROWS_PER_SIG - 1 ==> fmul(
                #[trigger] inds[t],
                fsub(ninds[t + 1], 1),
            ) == 0
        &&& forall|i: int|
            0 <= i < NUM_MSG_HASH_LIMBS ==> fmul(
                acc_t,
                fsub(#[trigger] next.acc_lhs(i), self.acc_rhs(next, i)),
            ) == 0
        &&& forall|i: int|
            0 <= i < NUM_MSG_HASH_LIMBS ==> fmul(
                fadd(acc_last, dec_t),
                fsub(#[trigger] fe(next.acc_limbs@)[i], fe(self.acc_limbs@)[i]),
            ) == 0
        &&& fmul(
            dec_t,
            fsub(
                next.sum@,
                fadd(self.sum@, fsum(next.chunk_vals(), 0, CHUNKS_PER_LIMB as int)),
            ),
        ) == 0
        &&& fmul(
            inds[NUM_ROWS_PER_SIG as int - 1],
            fsub(
                fadd(
                    ninds[0],
                    fsub(1, fsum(ninds, 0, NUM_ROWS_PER_SIG as int)),
                ),
                1,
            ),
        ) == 0
        &&& fmul(
            fsub(1, fsum(inds, 0, NUM_ROWS_PER_SIG as int)),
            fsum(ninds, 0, NUM_ROWS_PER_SIG as int),
        ) == 0
        &&& next.acc_open_gated(fmul(inds[NUM_ROWS_PER_SIG as int - 1], ninds[0]))
    }
}

/// The digest values of one trace as machine words, which are canonical
/// residues.
fn digest_words(vt: &VerificationTrace) -> (r: Vec<u32>)
    requires
        vt.wf_shape(),
    ensures
        crate::util::ints(r@) == mh_of(vt),
        forall|i: int| 0 <= i < r@.len() ==> #[trigger] r@[i] < P,
{
    let mut r: Vec<u32> = Vec::new();
    let mut i: usize = 0;
    while i < vt.msg_hash.len()
        invariant
            vt.msg_hash@.len() == MSG_HASH_FE_LEN,
            i <= MSG_HASH_FE_LEN,
            r@.len() == i,
            forall|j: int| 0 <= j < i ==> #[trigger] r@[j] < P,
            forall|j: int| 0 <= j < i ==> #[trigger] r@[j] as int == fe(vt.msg_hash@)[j],
        decreases vt.msg_hash@.len() - i,
    {
        r.push(vt.msg_hash[i].as_u32());
        i = i + 1;
    }
    proof {
        assert(crate::util::ints(r@) =~= mh_of(vt));
    }
    r
}

/// The three base-2^12 limbs of one digest element.
fn digest_element_limbs(v: u32) -> (r: (u32, u32, u32))
    requires
        v < P,
    ensures
        r.0 as int == vlimb(v as int, 0),
        r.1 as int == vlimb(v as int, 1),
        r.2 as int == vlimb(v as int, 2),
        r.0 < 4096 && r.1 < 4096 && r.2 < 128,
{
    let l0 = v % 4096;
    let l1 = (v / 4096) % 4096;
    let l2 = v / 16777216;
    proof {
        vstd::arithmetic::power2::lemma2_to64();
        vstd::arithmetic::div_mod::lemma_div_basics(v as int);
        vstd::arithmetic::div_mod::lemma_div_is_ordered(v as int, (P - 1) as int, p2(24));
        assert((0x7f000000int) / 0x1000000 == 127);
        vstd::arithmetic::div_mod::lemma_div_pos_is_pos(v as int, p2(24));
        vstd::arithmetic::div_mod::lemma_small_mod((v / 16777216) as nat, 4096);
    }
    (l0, l1, l2)
}

/// The low `n` bits of a value, as field elements.
pub fn bits_of(v: u32, n: usize) -> (r: Vec<F>)
    requires
        n <= 32,
    ensures
        r@.len() == n,
        forall|i: int| 0 <= i < n ==> #[trigger] r@[i]@ == bit_of(v as int, i),
{
    let mut r: Vec<F> = Vec::new();
    let mut cur: u32 = v;
    let mut i: usize = 0;
    proof {
        vstd::arithmetic::power2::lemma2_to64();
        vstd::arithmetic::div_mod::lemma_div_basics(v as int);
    }
    while i < n
        invariant
            n <= 32,
            i <= n,
            r@.len() == i,
            cur as int == v as int / p2(i as int),
            forall|j: int| 0 <= j < i ==> #[trigger] r@[j]@ == bit_of(v as int, j),
        decreases n - i,
    {
        r.push(F::from_bool(cur % 2 == 1));
        proof {
            vstd::arithmetic::power2::lemma2_to64();
            vstd::arithmetic::power2::lemma_pow2_pos(i as nat);
            vstd::arithmetic::power2::lemma_pow2_adds(i as nat, 1);
            vstd::arithmetic::div_mod::lemma_div_denominator(v as int, p2(i as int), 2);
            assert(bit_of(v as int, i as int) == cur as int % 2);
        }
        cur = cur / 2;
        i = i + 1;
    }
    r
}

/// The number of one bits among the low `n` bits of a value.
fn count_ones(v: u32, n: usize) -> (r: u32)
    requires
        n <= 32,
    ensures
        r as int == bitsum(v as int, n as int),
        r <= n,
{
    let mut r: u32 = 0;
    let mut cur: u32 = v;
    let mut i: usize = 0;
    proof {
        vstd::arithmetic::power2::lemma2_to64();
        vstd::arithmetic::div_mod::lemma_div_basics(v as int);
    }
    while i < n
        invariant
            n <= 32,
            i <= n,
            r <= i,
            cur as int == v as int / p2(i as int),
            r as int == bitsum(v as int, i as int),
        decreases n - i,
    {
        r = r + cur % 2;
        proof {
            vstd::arithmetic::power2::lemma2_to64();
            vstd::arithmetic::power2::lemma_pow2_pos(i as nat);
            vstd::arithmetic::power2::lemma_pow2_adds(i as nat, 1);
            vstd::arithmetic::div_mod::lemma_div_denominator(v as int, p2(i as int), 2);
            assert(bit_of(v as int, i as int) == cur as int % 2);
        }
        cur = cur / 2;
        i = i + 1;
    }
    r
}

/// One carry-propagating fold of the accumulator: multiply by the modulus
/// limb-wise and add the next digest element.
fn acc_step(acc: &Vec<u32>, v: u32) -> (r: (Vec<u32>, Vec<u32>))
    requires
        acc@.len() == NUM_MSG_HASH_LIMBS,
        forall|j: int| 0 <= j < NUM_MSG_HASH_LIMBS ==> #[trigger] acc@[j] < 4096,
        v < P,
    ensures
        r.0@.len() == NUM_MSG_HASH_LIMBS,
        r.1@.len() == NUM_MSG_HASH_LIMBS - 1,
        crate::util::ints(r.0@) == acc_fold(crate::util::ints(acc@), v as int),
        crate::util::ints(r.1@) == Seq::new(
            (NUM_MSG_HASH_LIMBS - 1) as nat,
            |j: int| acc_carry(crate::util::ints(acc@), v as int, j),
        ),
        forall|j: int| 0 <= j < NUM_MSG_HASH_LIMBS ==> #[trigger] r.0@[j] < 4096,
        forall|j: int| 0 <= j < NUM_MSG_HASH_LIMBS - 1 ==> #[trigger] r.1@[j] < 4096,
{
    let ghost d = crate::util::ints(acc@);
    let (v0, v1, v2) = digest_element_limbs(v);
    let mut digits: Vec<u32> = Vec::new();
    let mut carries: Vec<u32> = Vec::new();
    let mut carry: u32 = 0;
    let mut j: usize = 0;
    while j < NUM_MSG_HASH_LIMBS
        invariant
            acc@.len() == NUM_MSG_HASH_LIMBS,
            forall|i: int| 0 <= i < NUM_MSG_HASH_LIMBS ==> #[trigger] acc@[i] < 4096,
            v < P,
            v0 as int == vlimb(v as int, 0),
            v1 as int == vlimb(v as int, 1),
            v2 as int == vlimb(v as int, 2),
            v0 < 4096 && v1 < 4096 && v2 < 128,
            d == crate::util::ints(acc@),
            j <= NUM_MSG_HASH_LIMBS,
            digits@.len() == j,
            carries@.len() == if j < NUM_MSG_HASH_LIMBS {
                j as int
            } else {
                j - 1
            },
            carry as int == acc_carry(d, v as int, j as int - 1),
            carry <= 128,
            forall|i: int| 0 <= i < digits@.len() ==> #[trigger] digits@[i] as int == acc_digit(
                d,
                v as int,
                i,
            ) && digits@[i] < 4096,
            forall|i: int| 0 <= i < carries@.len() ==> #[trigger] carries@[i] as int == acc_carry(
                d,
                v as int,
                i,
            ) && carries@[i] < 4096,
        decreases NUM_MSG_HASH_LIMBS - j,
    {
        let vl: u32 = if j == 0 {
            v0
        } else if j == 1 {
            v1
        } else if j == 2 {
            v2
        } else {
            0
        };
        let shift: u32 = if j >= 2 {
            F_MS_LIMB * acc[j - 2]
        } else {
            0
        };
        let t: u32 = acc[j] + shift + vl + carry;
        proof {
            assert(t as int == acc_term(d, v as int, j as int) + acc_carry(d, v as int, j as int
                - 1));
            assert(t < 528384);
            assert(t as int / 4096 <= 128 && t as int % 4096 < 4096) by (nonlinear_arith)
                requires
                    0 <= t < 528384,
            ;
        }
        let digit = t % 4096;
        let c = t / 4096;
        digits.push(digit);
        if j < NUM_MSG_HASH_LIMBS - 1 {
            carries.push(c);
        }
        carry = c;
        j = j + 1;
    }
    proof {
        assert(crate::util::ints(digits@) =~= acc_fold(d, v as int));
        assert(crate::util::ints(carries@) =~= Seq::new(
            (NUM_MSG_HASH_LIMBS - 1) as nat,
            |i: int| acc_carry(d, v as int, i),
        ));
    }
    (digits, carries)
}

/// The one-hot indicator columns for a row kind, all-inactive when `at` is
/// past the signature's rows.
fn one_hot_fvec(at: usize) -> (r: Vec<F>)
    ensures
        r@.len() == NUM_ROWS_PER_SIG,
        fe(r@) == one_hot(at as int),
{
    let mut r: Vec<F> = Vec::new();
    let mut j: usize = 0;
    while j < NUM_ROWS_PER_SIG
        invariant
            j <= NUM_ROWS_PER_SIG,
            r@.len() == j,
            forall|i: int| 0 <= i < j ==> #[trigger] r@[i]@ == one_hot(at as int)[i],
        decreases NUM_ROWS_PER_SIG - j,
    {
        r.push(F::from_bool(j == at));
        j = j + 1;
    }
    proof {
        assert(fe(r@) =~= one_hot(at as int));
    }
    r
}

/// Assert a list of limb values on the range-check channel, counting each.
fn send_values(mult: &mut RangeCheckInteraction, vals: &Vec<u32>)
    requires
        old(mult).wf(),
        forall|i: int| 0 <= i < vals@.len() ==> #[trigger] vals@[i] < 4096,
        forall|w: int|
            0 <= w < RANGE_CHECK_HEIGHT ==> #[trigger] old(mult).counts@[w] + vals@.len()
                < 0xffff_ffff,
    ensures
        final(mult).wf(),
        forall|w: int|
            0 <= w < RANGE_CHECK_HEIGHT ==> #[trigger] final(mult).counts@[w] == old(
                mult,
            ).counts@[w] + occ(crate::util::ints(vals@), w),
{
    let ghost base = old(mult).counts@;
    let ghost whole = crate::util::ints(vals@);
    let mut i: usize = 0;
    while i < vals.len()
        invariant
            mult.wf(),
            i <= vals@.len(),
            whole == crate::util::ints(vals@),
            forall|k: int| 0 <= k < vals@.len() ==> #[trigger] vals@[k] < 4096,
            forall|w: int|
                0 <= w < RANGE_CHECK_HEIGHT ==> #[trigger] base[w] + vals@.len() < 0xffff_ffff,
            forall|w: int|
                0 <= w < RANGE_CHECK_HEIGHT ==> #[trigger] mult.counts@[w] == base[w] + occ(
                    whole.take(i as int),
                    w,
                ),
        decreases vals@.len() - i,
    {
        let v = vals[i];
        proof {
            lemma_occ_le_len(whole.take(i as int), v as int);
        }
        mult.send(v as usize);
        proof {
            assert forall|w: int| 0 <= w < RANGE_CHECK_HEIGHT implies #[trigger] mult.counts@[w]
                == base[w] + occ(whole.take(i + 1), w) by {
                assert(whole.take(i + 1).drop_last() =~= whole.take(i as int));
                assert(whole.take(i + 1).last() == v as int);
            }
        }
        i = i + 1;
    }
    proof {
        assert(whole.take(vals@.len() as int) =~= whole);
    }
}

/// Build the accumulation row of digest element `step`, folding the
/// accumulator and asserting every limb and carry on the range-check
/// channel.
fn generate_acc_row(
    vt: &VerificationTrace,
    sig_idx: usize,
    step: usize,
    values_rev: &Vec<F>,
    acc: &Vec<u32>,
    v: u32,
    mult: &mut RangeCheckInteraction,
) -> (r: (DecompositionCols, Vec<u32>))
    requires
        vt.wf_shape(),
        sig_idx < 0x100000,
        step < MSG_HASH_FE_LEN,
        values_rev@.len() == MSG_HASH_FE_LEN,
        fe(values_rev@) == mh_of(vt).reverse(),
        crate::util::ints(acc@) == acc_after(mh_of(vt), step as int - 1),
        acc@.len() == NUM_MSG_HASH_LIMBS,
        forall|j: int| 0 <= j < NUM_MSG_HASH_LIMBS ==> #[trigger] acc@[j] < 4096,
        v as int == mh_of(vt)[step as int],
        v < P,
        old(mult).wf(),
        forall|w: int|
            0 <= w < RANGE_CHECK_HEIGHT ==> #[trigger] old(mult).counts@[w] + 27 < 0xffff_ffff,
    ensures
        r.0.wf(),
        r.0.is_acc_row(vt, sig_idx as int, step as int),
        crate::util::ints(r.1@) == acc_after(mh_of(vt), step as int),
        r.1@.len() == NUM_MSG_HASH_LIMBS,
        forall|j: int| 0 <= j < NUM_MSG_HASH_LIMBS ==> #[trigger] r.1@[j] < 4096,
        final(mult).wf(),
        forall|w: int|
            0 <= w < RANGE_CHECK_HEIGHT ==> #[trigger] final(mult).counts@[w] == old(
                mult,
            ).counts@[w] + occ(row_limb_list(mh_of(vt), step as int), w),
{
    let ghost mh = mh_of(vt);
    let (l0, l1, l2) = digest_element_limbs(v);
    let (new_acc, carries) = acc_step(acc, v);
    let bits = bits_of(l2, F_MS_LIMB_BITS);
    let pc = count_ones(l2, F_MS_LIMB_BITS);
    let mut sends: Vec<u32> = Vec::new();
    sends.push(l0);
    sends.push(l1);
    let mut i: usize = 0;
    while i < NUM_MSG_HASH_LIMBS
        invariant
            new_acc@.len() == NUM_MSG_HASH_LIMBS,
            forall|j: int| 0 <= j < NUM_MSG_HASH_LIMBS ==> #[trigger] new_acc@[j] < 4096,
            l0 < 4096 && l1 < 4096,
            i <= NUM_MSG_HASH_LIMBS,
            sends@.len() == 2 + i,
            sends@[0] == l0 && sends@[1] == l1,
            forall|j: int| 2 <= j < sends@.len() ==> #[trigger] sends@[j] == new_acc@[j - 2],
            forall|j: int| 0 <= j < sends@.len() ==> #[trigger] sends@[j] < 4096,
        decreases NUM_MSG_HASH_LIMBS - i,
    {
        sends.push(new_acc[i]);
        i = i + 1;
    }
    let mut i2: usize = 0;
    while i2 < NUM_MSG_HASH_LIMBS - 1
        invariant
            carries@.len() == NUM_MSG_HASH_LIMBS - 1,
            forall|j: int| 0 <= j < NUM_MSG_HASH_LIMBS - 1 ==> #[trigger] carries@[j] < 4096,
            new_acc@.len() == NUM_MSG_HASH_LIMBS,
            l0 < 4096 && l1 < 4096,
            i2 <= NUM_MSG_HASH_LIMBS - 1,
            sends@.len() == 2 + NUM_MSG_HASH_LIMBS + i2,
            sends@[0] == l0 && sends@[1] == l1,
            forall|j: int|
                2 <= j < 2 + NUM_MSG_HASH_LIMBS ==> #[trigger] sends@[j] == new_acc@[j - 2],
            forall|j: int|
                2 + NUM_MSG_HASH_LIMBS <= j < sends@.len() ==> #[trigger] sends@[j] == carries@[j
                    - 2 - NUM_MSG_HASH_LIMBS],
            forall|j: int| 0 <= j < sends@.len() ==> #[trigger] sends@[j] < 4096,
        decreases NUM_MSG_HASH_LIMBS - 1 - i2,
    {
        sends.push(carries[i2]);
        i2 = i2 + 1;
    }
    proof {
        assert(crate::util::ints(sends@) =~= row_limb_list(mh, step as int));
    }
    send_values(mult, &sends);
    let mut ls: Vec<u32> = Vec::new();
    ls.push(l0);
    ls.push(l1);
    let row = DecompositionCols {
        sig_idx: F::new(sig_idx as u32),
        inds: one_hot_fvec(step),
        values: clone_fvec(values_rev),
        value_ls_limbs: crate::util::fvec_of_u32s(&ls),
        value_ms_limb_bits: bits,
        value_limb_0_is_zero: IsEqual::populate_zero(F::new(l0)),
        value_limb_1_is_zero: IsEqual::populate_zero(F::new(l1)),
        is_ms_limb_max: IsEqual::populate(F::new(pc), F::new(F_MS_LIMB_BITS as u32)),
        acc_limbs: crate::util::fvec_of_u32s(&new_acc),
        carries: crate::util::fvec_of_u32s(&carries),
        decomposition_bits: zero_fvec(LIMB_BITS),
        is_send_chain: zero_fvec(CHUNKS_PER_LIMB),
        sum: F::zero(),
    };
    proof {
        vstd::arithmetic::div_mod::lemma_small_mod(sig_idx as nat, P as nat);
        vstd::arithmetic::div_mod::lemma_small_mod(l0 as nat, P as nat);
        vstd::arithmetic::div_mod::lemma_small_mod(l1 as nat, P as nat);
        vstd::arithmetic::div_mod::lemma_small_mod(pc as nat, P as nat);
        vstd::arithmetic::div_mod::lemma_small_mod(F_MS_LIMB_BITS as nat, P as nat);
        assert(fe(row.value_ls_limbs@) =~= seq![vlimb(mh[step as int], 0), vlimb(
            mh[step as int],
            1,
        )]);
        assert(fe(row.value_ms_limb_bits@) =~= Seq::new(
            F_MS_LIMB_BITS as nat,
            |i: int| bit_of(vlimb(mh[step as int], 2), i),
        ));
        assert(fe(row.decomposition_bits@) =~= Seq::new(LIMB_BITS as nat, |b: int| 0int));
        assert(fe(row.is_send_chain@) =~= Seq::new(CHUNKS_PER_LIMB as nat, |j: int| 0int));
        assert(fe(row.carries@) =~= carries_of(mh, step as int));
    }
    (row, new_acc)
}

/// Build the decomposition row of accumulator limb `step`: the limb's bits,
/// the chunk flags, and the running chunk sum.
fn generate_decomposition_row(
    vt: &VerificationTrace,
    sig_idx: usize,
    step: usize,
    acc_f: &Vec<F>,
    limb: u32,
    sum_before: u32,
) -> (r: (DecompositionCols, u32))
    requires
        vt.wf_shape(),
        sig_idx < 0x100000,
        step < NUM_MSG_HASH_LIMBS,
        acc_f@.len() == NUM_MSG_HASH_LIMBS,
        fe(acc_f@) == Seq::new(NUM_MSG_HASH_LIMBS as nat, |j: int| mh_limb(mh_of(vt), j)),
        limb as int == mh_limb(mh_of(vt), step as int),
        limb < 4096,
        sum_before as int == xsum(vt.x@.take(CHUNKS_PER_LIMB as int * step as int)),
        sum_before <= 0x100_0000,
    ensures
        r.0.wf(),
        r.0.is_decomposition_row(vt, sig_idx as int, step as int),
        r.1 as int == xsum(vt.x@.take(CHUNKS_PER_LIMB as int * (step as int + 1))),
        r.1 <= sum_before + 0x6_0000,
{
    let ghost mh = mh_of(vt);
    let mut sum: u32 = sum_before;
    let mut flags: Vec<F> = Vec::new();
    let mut j: usize = 0;
    while j < CHUNKS_PER_LIMB
        invariant
            vt.wf_shape(),
            step < NUM_MSG_HASH_LIMBS,
            j <= CHUNKS_PER_LIMB,
            flags@.len() == j,
            sum_before <= 0x100_0000,
            sum <= sum_before + j * 0x1_0000,
            sum as int == xsum(vt.x@.take(CHUNKS_PER_LIMB as int * step as int + j as int)),
            forall|i: int|
                0 <= i < j ==> #[trigger] flags@[i]@ == (
                if vt.x@[CHUNKS_PER_LIMB as int * step as int + i] != MAX_X {
                    1int
                } else {
                    0int
                }),
        decreases CHUNKS_PER_LIMB - j,
    {
        let c = CHUNKS_PER_LIMB * step + j;
        let xc = vt.x[c];
        flags.push(F::from_bool(xc != MAX_X));
        proof {
            assert(vt.x@.take(c as int + 1).drop_last() =~= vt.x@.take(c as int));
            assert(vt.x@.take(c as int + 1).last() == vt.x@[c as int]);
        }
        sum = sum + xc as u32;
        j = j + 1;
    }
    let row = DecompositionCols {
        sig_idx: F::new(sig_idx as u32),
        inds: one_hot_fvec(MSG_HASH_FE_LEN + step),
        values: zero_fvec(MSG_HASH_FE_LEN),
        value_ls_limbs: zero_fvec(NUM_LIMBS - 1),
        value_ms_limb_bits: zero_fvec(F_MS_LIMB_BITS),
        value_limb_0_is_zero: IsEqual::populate_zero(F::zero()),
        value_limb_1_is_zero: IsEqual::populate_zero(F::zero()),
        is_ms_limb_max: IsEqual::populate(F::zero(), F::new(F_MS_LIMB_BITS as u32)),
        acc_limbs: clone_fvec(acc_f),
        carries: zero_fvec(NUM_MSG_HASH_LIMBS - 1),
        decomposition_bits: bits_of(limb, LIMB_BITS),
        is_send_chain: flags,
        sum: F::new(sum),
    };
    proof {
        vstd::arithmetic::div_mod::lemma_small_mod(sig_idx as nat, P as nat);
        vstd::arithmetic::div_mod::lemma_small_mod(sum as nat, P as nat);
        vstd::arithmetic::div_mod::lemma_small_mod(F_MS_LIMB_BITS as nat, P as nat);
        assert(fe(row.values@) =~= Seq::new(MSG_HASH_FE_LEN as nat, |i: int| 0int));
        assert(fe(row.value_ls_limbs@) =~= seq![0int, 0int]);
        assert(fe(row.value_ms_limb_bits@) =~= Seq::new(F_MS_LIMB_BITS as nat, |i: int| 0int));
        assert(fe(row.carries@) =~= Seq::new((NUM_MSG_HASH_LIMBS - 1) as nat, |i: int| 0int));
        assert(fe(row.decomposition_bits@) =~= Seq::new(
            LIMB_BITS as nat,
            |b: int| bit_of(mh_limb(mh, step as int), b),
        ));
        assert(fe(row.is_send_chain@) =~= Seq::new(
            CHUNKS_PER_LIMB as nat,
            |i: int|
                if vt.x@[CHUNKS_PER_LIMB as int * step as int + i] != MAX_X {
                    1int
                } else {
                    0int
                },
        ));
    }
    (row, sum)
}

/// Build the padding row template.
fn generate_padding_row() -> (r: DecompositionCols)
    ensures
        r.wf(),
        r.is_padding_row(),
{
    let row = DecompositionCols {
        sig_idx: F::zero(),
        inds: one_hot_fvec(NUM_ROWS_PER_SIG),
        values: zero_fvec(MSG_HASH_FE_LEN),
        value_ls_limbs: zero_fvec(NUM_LIMBS - 1),
        value_ms_limb_bits: zero_fvec(F_MS_LIMB_BITS),
        value_limb_0_is_zero: IsEqual::populate_zero(F::zero()),
        value_limb_1_is_zero: IsEqual::populate_zero(F::zero()),
        is_ms_limb_max: IsEqual::populate(F::zero(), F::new(F_MS_LIMB_BITS as u32)),
        acc_limbs: zero_fvec(NUM_MSG_HASH_LIMBS),
        carries: zero_fvec(NUM_MSG_HASH_LIMBS - 1),
        decomposition_bits: zero_fvec(LIMB_BITS),
        is_send_chain: zero_fvec(CHUNKS_PER_LIMB),
        sum: F::zero(),
    };
    proof {
        vstd::arithmetic::div_mod::lemma_small_mod(F_MS_LIMB_BITS as nat, P as nat);
        assert(fe(row.inds@) =~= Seq::new(NUM_ROWS_PER_SIG as nat, |j: int| 0int));
        assert(fe(row.values@) =~= Seq::new(MSG_HASH_FE_LEN as nat, |i: int| 0int));
        assert(fe(row.value_ls_limbs@) =~= seq![0int, 0int]);
        assert(fe(row.value_ms_limb_bits@) =~= Seq::new(F_MS_LIMB_BITS as nat, |i: int| 0int));
        assert(fe(row.acc_limbs@) =~= Seq::new(NUM_MSG_HASH_LIMBS as nat, |i: int| 0int));
        assert(fe(row.carries@) =~= Seq::new((NUM_MSG_HASH_LIMBS - 1) as nat, |i: int| 0int));
        assert(fe(row.decomposition_bits@) =~= Seq::new(LIMB_BITS as nat, |b: int| 0int));
        assert(fe(row.is_send_chain@) =~= Seq::new(CHUNKS_PER_LIMB as nat, |i: int| 0int));
    }
    row
}

/// A row of the generated decomposition trace, by signature and offset.
pub open spec fn sig_row(rows: Seq<DecompositionCols>, k: int, s: int) -> DecompositionCols {
    rows[k * NUM_ROWS_PER_SIG + s]
}

/// The fully pinned generated decomposition trace: per signature, five
/// accumulation rows then thirteen decomposition rows, then padding rows to
/// the power-of-two height.
pub open spec fn decomposition_trace_is(
    traces: Seq<VerificationTrace>,
    rows: Seq<DecompositionCols>,
) -> bool {
    &&& rows.len() == next_pow2(NUM_ROWS_PER_SIG as int * traces.len() as int)
    &&& forall|r: int| 0 <= r < rows.len() ==> (#[trigger] rows[r]).wf()
    &&& forall|k: int, s: int|
        0 <= k < traces.len() && 0 <= s < MSG_HASH_FE_LEN ==> (#[trigger] sig_row(
            rows,
            k,
            s,
        )).is_acc_row(&traces[k], k, s)
    &&& forall|k: int, s: int|
        0 <= k < traces.len() && 0 <= s < NUM_MSG_HASH_LIMBS ==> (#[trigger] sig_row(
            rows,
            k,
            MSG_HASH_FE_LEN as int + s,
        )).is_decomposition_row(&traces[k], k, s)
    &&& forall|r: int|
        NUM_ROWS_PER_SIG as int * traces.len() as int <= r < rows.len() ==> (
        #[trigger] rows[r]).is_padding_row()
}

/// Height of the decomposition table.
pub fn trace_height(traces: &Vec<VerificationTrace>) -> (h: usize)
    requires
        traces@.len() <= 0x100000,
    ensures
        h == next_pow2(NUM_ROWS_PER_SIG as int * traces@.len() as int),
{
    next_power_of_two(NUM_ROWS_PER_SIG * traces.len())
}

/// Generate the decomposition trace, accumulating the range-check
/// multiplicities on the way.  The counter array must be fresh: it is
/// allocated per batch.  The capacity hint only reserves memory for the
/// outer prover.
pub fn generate_trace(
    extra_capacity_bits: usize,
    traces: &Vec<VerificationTrace>,
    mult: &mut RangeCheckInteraction,
) -> (rows: Vec<DecompositionCols>)
    requires
        1 <= traces@.len() <= 0x100000,
        forall|k: int| 0 <= k < traces@.len() ==> (#[trigger] traces@[k]).wf_shape(),
        old(mult).wf(),
        forall|w: int| 0 <= w < RANGE_CHECK_HEIGHT ==> #[trigger] old(mult).counts@[w] == 0,
    ensures
        decomposition_trace_is(traces@, rows@),
        final(mult).wf(),
        forall|w: int|
            0 <= w < RANGE_CHECK_HEIGHT ==> #[trigger] final(mult).counts@[w] == occ(
                batch_limb_list(traces@, traces@.len() as int),
                w,
            ),
        forall|w: int|
            0 <= w < RANGE_CHECK_HEIGHT ==> #[trigger] final(mult).counts@[w] <= 135 * traces@.len(),
{
    let n = traces.len();
    let height = next_power_of_two(NUM_ROWS_PER_SIG * n);
    let mut rows: Vec<DecompositionCols> = Vec::new();
    let mut k: usize = 0;
    while k < n
        invariant
            n == traces@.len(),
            1 <= n <= 0x100000,
            forall|i: int| 0 <= i < n ==> (#[trigger] traces@[i]).wf_shape(),
            k <= n,
            rows@.len() == NUM_ROWS_PER_SIG * k,
            mult.wf(),
            forall|w: int|
                0 <= w < RANGE_CHECK_HEIGHT ==> #[trigger] mult.counts@[w] == occ(
                    batch_limb_list(traces@, k as int),
                    w,
                ),
            forall|w: int|
                0 <= w < RANGE_CHECK_HEIGHT ==> #[trigger] mult.counts@[w] <= 135 * k,
            forall|r: int| 0 <= r < rows@.len() ==> (#[trigger] rows@[r]).wf(),
            forall|i: int, s: int|
                0 <= i < k && 0 <= s < MSG_HASH_FE_LEN ==> (#[trigger] sig_row(
                    rows@,
                    i,
                    s,
                )).is_acc_row(&traces@[i], i, s),
            forall|i: int, s: int|
                0 <= i < k && 0 <= s < NUM_MSG_HASH_LIMBS ==> (#[trigger] sig_row(
                    rows@,
                    i,
                    MSG_HASH_FE_LEN as int + s,
                )).is_decomposition_row(&traces@[i], i, s),
        decreases n - k,
    {
        let vt = &traces[k];
        let ghost mh = mh_of(vt);
        let ghost rows_before = rows@;
        let ghost counts_before = mult.counts@;
        let values_rev = crate::util::rev_fvec(&vt.msg_hash);
        let mhv = digest_words(vt);
        let mut acc: Vec<u32> = Vec::new();
        let mut z: usize = 0;
        while z < NUM_MSG_HASH_LIMBS
            invariant
                z <= NUM_MSG_HASH_LIMBS,
                acc@.len() == z,
                forall|j: int| 0 <= j < z ==> #[trigger] acc@[j] == 0u32,
            decreases NUM_MSG_HASH_LIMBS - z,
        {
            acc.push(0);
            z = z + 1;
        }
        proof {
            assert(crate::util::ints(acc@) =~= acc_after(mh, -1));
        }
        let mut step: usize = 0;
        while step < MSG_HASH_FE_LEN
            invariant
                n == traces@.len(),
                k < n <= 0x100000,
                traces@[k as int].wf_shape(),
                vt == &traces@[k as int],
                mh == mh_of(vt),
                values_rev@.len() == MSG_HASH_FE_LEN,
                fe(values_rev@) == mh.reverse(),
                crate::util::ints(mhv@) == mh,
                mhv@.len() == MSG_HASH_FE_LEN,
                forall|i: int| 0 <= i < MSG_HASH_FE_LEN ==> #[trigger] mhv@[i] < P,
                step <= MSG_HASH_FE_LEN,
                acc@.len() == NUM_MSG_HASH_LIMBS,
                forall|j: int| 0 <= j < NUM_MSG_HASH_LIMBS ==> #[trigger] acc@[j] < 4096,
                crate::util::ints(acc@) == acc_after(mh, step as int - 1),
                rows@.len() == rows_before.len() + step,
                rows_before =~= rows@.take(rows_before.len() as int),
                forall|r: int|
                    0 <= r < rows_before.len() ==> #[trigger] rows@[r] == rows_before[r],
                forall|s: int|
                    0 <= s < step ==> (#[trigger] rows@[rows_before.len() + s]).is_acc_row(
                        &traces@[k as int],
                        k as int,
                        s,
                    ) && rows@[rows_before.len() + s].wf(),
                mult.wf(),
                forall|w: int|
                    0 <= w < RANGE_CHECK_HEIGHT ==> #[trigger] mult.counts@[w] == counts_before[w]
                        + occ(sig_limb_list(mh, step as int), w),
                forall|w: int| 0 <= w < RANGE_CHECK_HEIGHT ==> #[trigger] counts_before[w] <= 135
                    * k,
            decreases MSG_HASH_FE_LEN - step,
        {
            proof {
                assert forall|w: int| 0 <= w < RANGE_CHECK_HEIGHT implies #[trigger] mult.counts@[w]
                    + 27 < 0xffff_ffff by {
                    lemma_occ_le_len(sig_limb_list(mh, step as int), w);
                    lemma_sig_limb_list_len(mh, step as int);
                }
            }
            let v = mhv[step];
            let (row, new_acc) = generate_acc_row(vt, k, step, &values_rev, &acc, v, mult);
            acc = new_acc;
            rows.push(row);
            proof {
                lemma_occ_appended(sig_limb_list(mh, step as int), row_limb_list(
                    mh,
                    step as int,
                ));
                assert(sig_limb_list(mh, step as int + 1) == sig_limb_list(mh, step as int)
                    + row_limb_list(mh, step as int));
                assert(rows_before =~= rows@.take(rows_before.len() as int));
            }
            step = step + 1;
        }
        let acc_f = crate::util::fvec_of_u32s(&acc);
        proof {
            assert forall|j: int| 0 <= j < NUM_MSG_HASH_LIMBS implies #[trigger] fe(acc_f@)[j]
                == mh_limb(mh, j) by {
                assert(forall|i: int|
                    0 <= i < MSG_HASH_FE_LEN ==> 0 <= #[trigger] mh[i] < P);
                lemma_acc_final(mh, j);
            }
            assert(fe(acc_f@) =~= Seq::new(NUM_MSG_HASH_LIMBS as nat, |j: int| mh_limb(mh, j)));
            assert(vt.x@.take(0) =~= Seq::<u16>::empty());
        }
        let mut sum: u32 = 0;
        let mut step2: usize = 0;
        while step2 < NUM_MSG_HASH_LIMBS
            invariant
                n == traces@.len(),
                k < n <= 0x100000,
                traces@[k as int].wf_shape(),
                vt == &traces@[k as int],
                mh == mh_of(vt),
                acc@.len() == NUM_MSG_HASH_LIMBS,
                forall|j: int| 0 <= j < NUM_MSG_HASH_LIMBS ==> #[trigger] acc@[j] < 4096,
                crate::util::ints(acc@) == acc_after(mh, MSG_HASH_FE_LEN as int - 1),
                acc_f@.len() == NUM_MSG_HASH_LIMBS,
                fe(acc_f@) == Seq::new(NUM_MSG_HASH_LIMBS as nat, |j: int| mh_limb(mh, j)),
                forall|i: int| 0 <= i < MSG_HASH_FE_LEN ==> 0 <= #[trigger] mh[i] < P,
                step2 <= NUM_MSG_HASH_LIMBS,
                sum as int == xsum(vt.x@.take(CHUNKS_PER_LIMB as int * step2 as int)),
                sum <= 0x100_0000,
                rows@.len() == rows_before.len() + MSG_HASH_FE_LEN + step2,
                forall|r: int|
                    0 <= r < rows_before.len() ==> #[trigger] rows@[r] == rows_before[r],
                forall|s: int|
                    0 <= s < MSG_HASH_FE_LEN ==> (#[trigger] rows@[rows_before.len()
                        + s]).is_acc_row(&traces@[k as int], k as int, s) && rows@[rows_before.len()
                        + s].wf(),
                forall|s: int|
                    0 <= s < step2 ==> (#[trigger] rows@[rows_before.len() + MSG_HASH_FE_LEN
                        + s]).is_decomposition_row(&traces@[k as int], k as int, s)
                        && rows@[rows_before.len() + MSG_HASH_FE_LEN + s].wf(),
                mult.wf(),
                forall|w: int|
                    0 <= w < RANGE_CHECK_HEIGHT ==> #[trigger] mult.counts@[w] == counts_before[w]
                        + occ(sig_limb_list(mh, MSG_HASH_FE_LEN as int), w),
                forall|w: int| 0 <= w < RANGE_CHECK_HEIGHT ==> #[trigger] counts_before[w] <= 135
                    * k,
            decreases NUM_MSG_HASH_LIMBS - step2,
        {
            let limb = acc[step2];
            proof {
                lemma_acc_final(mh, step2 as int);
            }
            let (row, new_sum) = generate_decomposition_row(vt, k, step2, &acc_f, limb, sum);
            sum = new_sum;
            rows.push(row);
            proof {
                lemma_xsum_le(vt.x@, CHUNKS_PER_LIMB as int * (step2 as int + 1));
            }
            step2 = step2 + 1;
        }
        proof {
            assert(batch_limb_list(traces@, k as int + 1) == batch_limb_list(traces@, k as int)
                + sig_limb_list(mh, MSG_HASH_FE_LEN as int));
            assert forall|w: int| 0 <= w < RANGE_CHECK_HEIGHT implies #[trigger] mult.counts@[w]
                == occ(batch_limb_list(traces@, k as int + 1), w) && mult.counts@[w] <= 135 * (
            k + 1) by {
                lemma_occ_add(
                    batch_limb_list(traces@, k as int),
                    sig_limb_list(mh, MSG_HASH_FE_LEN as int),
                    w,
                );
                lemma_occ_le_len(sig_limb_list(mh, MSG_HASH_FE_LEN as int), w);
                lemma_sig_limb_list_len(mh, MSG_HASH_FE_LEN as int);
            }
            assert forall|i: int, s: int|
                0 <= i < k + 1 && 0 <= s < MSG_HASH_FE_LEN implies (#[trigger] sig_row(
                rows@,
                i,
                s,
            )).is_acc_row(&traces@[i], i, s) by {
                if i < k {
                    assert(sig_row(rows@, i, s) == rows_before[i * NUM_ROWS_PER_SIG + s]);
                    assert(sig_row(rows_before, i, s).is_acc_row(&traces@[i], i, s));
                } else {
                    assert(i * NUM_ROWS_PER_SIG == rows_before.len());
                    assert(rows@[rows_before.len() + s].is_acc_row(&traces@[i], i, s));
                }
            }
            assert forall|i: int, s: int|
                0 <= i < k + 1 && 0 <= s < NUM_MSG_HASH_LIMBS implies (#[trigger] sig_row(
                rows@,
                i,
                MSG_HASH_FE_LEN as int + s,
            )).is_decomposition_row(&traces@[i], i, s) by {
                if i < k {
                    assert(sig_row(rows@, i, MSG_HASH_FE_LEN as int + s) == rows_before[i
                        * NUM_ROWS_PER_SIG + (MSG_HASH_FE_LEN as int + s)]);
                    assert(sig_row(rows_before, i, MSG_HASH_FE_LEN as int + s).is_decomposition_row(
                        &traces@[i],
                        i,
                        s,
                    ));
                } else {
                    assert(i * NUM_ROWS_PER_SIG == rows_before.len());
                    assert(rows@[rows_before.len() + MSG_HASH_FE_LEN + s].is_decomposition_row(
                        &traces@[i],
                        i,
                        s,
                    ));
                }
            }
            assert forall|q: int| 0 <= q < rows@.len() implies (#[trigger] rows@[q]).wf() by {
                if q < rows_before.len() {
                    assert(rows@[q] == rows_before[q]);
                } else if q < rows_before.len() + MSG_HASH_FE_LEN {
                    assert(rows@[rows_before.len() + (q - rows_before.len())].wf());
                } else {
                    assert(rows@[rows_before.len() + MSG_HASH_FE_LEN + (q - rows_before.len()
                        - MSG_HASH_FE_LEN)].wf());
                }
            }
        }
        k = k + 1;
    }
    let mut r: usize = rows.len();
    while r < height
        invariant
            n == traces@.len(),
            height == next_pow2(NUM_ROWS_PER_SIG as int * n as int),
            NUM_ROWS_PER_SIG * n <= height,
            NUM_ROWS_PER_SIG * n <= r <= height,
            rows@.len() == r,
            forall|q: int| 0 <= q < rows@.len() ==> (#[trigger] rows@[q]).wf(),
            forall|i: int, s: int|
                0 <= i < n && 0 <= s < MSG_HASH_FE_LEN ==> (#[trigger] sig_row(
                    rows@,
                    i,
                    s,
                )).is_acc_row(&traces@[i], i, s),
            forall|i: int, s: int|
                0 <= i < n && 0 <= s < NUM_MSG_HASH_LIMBS ==> (#[trigger] sig_row(
                    rows@,
                    i,
                    MSG_HASH_FE_LEN as int + s,
                )).is_decomposition_row(&traces@[i], i, s),
            forall|q: int|
                NUM_ROWS_PER_SIG as int * n as int <= q < rows@.len() ==> (
                #[trigger] rows@[q]).is_padding_row(),
            mult.wf(),
            forall|w: int|
                0 <= w < RANGE_CHECK_HEIGHT ==> #[trigger] mult.counts@[w] == occ(
                    batch_limb_list(traces@, n as int),
                    w,
                ),
            forall|w: int| 0 <= w < RANGE_CHECK_HEIGHT ==> #[trigger] mult.counts@[w] <= 135 * n,
        decreases height - r,
    {
        let ghost prev = rows@;
        rows.push(generate_padding_row());
        proof {
            assert forall|i: int, s: int|
                0 <= i < n && 0 <= s < MSG_HASH_FE_LEN implies (#[trigger] sig_row(
                rows@,
                i,
                s,
            )).is_acc_row(&traces@[i], i, s) by {
                assert(i * NUM_ROWS_PER_SIG + s < prev.len());
                assert(sig_row(rows@, i, s) == sig_row(prev, i, s));
            }
            assert forall|i: int, s: int|
                0 <= i < n && 0 <= s < NUM_MSG_HASH_LIMBS implies (#[trigger] sig_row(
                rows@,
                i,
                MSG_HASH_FE_LEN as int + s,
            )).is_decomposition_row(&traces@[i], i, s) by {
                assert(i * NUM_ROWS_PER_SIG + (MSG_HASH_FE_LEN as int + s) < prev.len());
                assert(sig_row(rows@, i, MSG_HASH_FE_LEN as int + s) == sig_row(
                    prev,
                    i,
                    MSG_HASH_FE_LEN as int + s,
                ));
            }
        }
        r = r + 1;
    }
    rows
}

/// A chunk-sum prefix is bounded by its length times the largest word.
proof fn lemma_xsum_le(x: Seq<u16>, m: int)
    requires
        0 <= m <= x.len(),
    ensures
        0 <= xsum(x.take(m)) <= m * 0x1_0000,
    decreases m,
{
    if m == 0 {
        assert(x.take(0) =~= Seq::<u16>::empty());
    } else {
        lemma_xsum_le(x, m - 1);
        assert(x.take(m).drop_last() =~= x.take(m - 1));
    }
}

/// Each accumulation row asserts twenty-seven limb values.
proof fn lemma_sig_limb_list_len(mh: Seq<int>, n: int)
    requires
        0 <= n <= MSG_HASH_FE_LEN,
    ensures
        sig_limb_list(mh, n).len() == 27 * n,
    decreases n,
{
    if n > 0 {
        lemma_sig_limb_list_len(mh, n - 1);
    }
}

/// Occurrence counting over an appended block.
pub proof fn lemma_occ_appended(a: Seq<int>, b: Seq<int>)
    ensures
        forall|w: int| #[trigger] occ(a + b, w) == occ(a, w) + occ(b, w),
{
    assert forall|w: int| #[trigger] occ(a + b, w) == occ(a, w) + occ(b, w) by {
        lemma_occ_add(a, b, w);
    }
}

/// The decomposition table's constraint system.
#[derive(Clone, Copy, PartialEq, Eq, Structural, Debug)]
pub struct DecompositionAir;

impl DecompositionAir {
    pub fn width(&self) -> (r: usize)
        ensures
            r == NUM_DECOMPOSITION_COLS,
    {
        NUM_DECOMPOSITION_COLS
    }

    pub fn num_public_values(&self) -> (r: usize)
        ensures
            r == 0,
    {
        0
    }
}

/// A chip bundling the decomposition table's pieces for one batch.
pub struct DecompositionChip<'a> {
    pub extra_capacity_bits: usize,
    pub traces: &'a Vec<VerificationTrace>,
}

impl<'a> DecompositionChip<'a> {
    pub fn new(extra_capacity_bits: usize, traces: &'a Vec<VerificationTrace>) -> (r: Self)
        ensures
            r.extra_capacity_bits == extra_capacity_bits,
            r.traces == traces,
    {
        DecompositionChip { extra_capacity_bits, traces }
    }

    pub fn air(&self) -> (r: DecompositionAir)
        ensures
            r == DecompositionAir,
    {
        DecompositionAir
    }

    pub fn trace_height(&self) -> (h: usize)
        requires
            self.traces@.len() <= 0x100000,
        ensures
            h == next_pow2(NUM_ROWS_PER_SIG as int * self.traces@.len() as int),
    {
        trace_height(self.traces)
    }

    pub fn generate_trace(&self, interaction: &mut RangeCheckInteraction) -> (rows: Vec<
        DecompositionCols,
    >)
        requires
            1 <= self.traces@.len() <= 0x100000,
            forall|k: int|
                0 <= k < self.traces@.len() ==> (#[trigger] self.traces@[k]).wf_shape(),
            old(interaction).wf(),
            forall|w: int|
                0 <= w < RANGE_CHECK_HEIGHT ==> #[trigger] old(interaction).counts@[w] == 0,
        ensures
            decomposition_trace_is(self.traces@, rows@),
            final(interaction).wf(),
            forall|w: int|
                0 <= w < RANGE_CHECK_HEIGHT ==> #[trigger] final(interaction).counts@[w] == occ(
                    batch_limb_list(self.traces@, self.traces@.len() as int),
                    w,
                ),
            forall|w: int|
                0 <= w < RANGE_CHECK_HEIGHT ==> #[trigger] final(interaction).counts@[w] <= 135
                    * self.traces@.len(),
    {
        generate_trace(self.extra_capacity_bits, self.traces, interaction)
    }
}

} // verus!
