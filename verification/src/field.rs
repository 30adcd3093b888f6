//! The 31-bit prime field the tables are arithmetized over.
//!
//! A field element is a canonical residue below the modulus `P`
//! (2^31 - 2^24 + 1).  All operations reduce modulo `P`; the view of an
//! element is its residue as a mathematical integer.

use vstd::prelude::*;

verus! {

/// The field modulus, a 31-bit prime: 2^31 - 2^24 + 1.
pub const P: u32 = 0x7f00_0001;

/// A field element: a canonical residue in `[0, P)`.
#[derive(Clone, Copy, PartialEq, Eq, Structural, Debug)]
pub struct F {
    v: u32,
}

/// Addition of residues, as specifications state it.
pub open spec fn fadd(a: int, b: int) -> int {
    (a + b) % (P as int)
}

/// Subtraction of residues, kept non-negative before reduction.
pub open spec fn fsub(a: int, b: int) -> int {
    (a + (P as int) - b) % (P as int)
}

/// Multiplication of residues.
pub open spec fn fmul(a: int, b: int) -> int {
    (a * b) % (P as int)
}

/// That every nonzero residue's advice value is a genuine inverse.  This
/// holds because the modulus is prime, a fact about the fixed constant `P`
/// that the arithmetic here does not derive; the constraint-satisfaction
/// lemmas that touch inverse-witnessed indicator cells take it as a
/// hypothesis.
pub open spec fn residues_invert() -> bool {
    forall|a: int| 0 < a < P ==> fmul(a, #[trigger] inv_of(a)) == 1
}

/// One step of the extended Euclidean recursion, carrying the Bezout
/// coefficient of the original second argument reduced to a residue.
pub open spec fn euclid_inv_rec(r0: int, r1: int, t0: int, t1: int) -> int
    decreases r1 when r1 >= 0
{
    if r1 <= 0 {
        t0
    } else {
        euclid_inv_rec(r1, r0 % r1, t1, fsub(t0, fmul((r0 / r1) % (P as int), t1)))
    }
}

/// The multiplicative-inverse advice value for a residue: the Bezout
/// coefficient of `a` against the modulus, as a canonical residue.  For
/// nonzero `a` this is the inverse of `a`, the modulus being prime; for zero
/// it is zero.
pub open spec fn inv_of(a: int) -> int {
    if a == 0 {
        0
    } else {
        euclid_inv_rec(P as int, a, 0, 1)
    }
}

impl View for F {
    type V = int;

    closed spec fn view(&self) -> int {
        self.v as int
    }
}

#[verifier::type_invariant]
spec fn f_inv(f: F) -> bool {
    f.v < P
}

impl F {
    /// The canonical residue as a machine integer.
    pub fn as_u32(self) -> (r: u32)
        ensures
            r as int == self@,
            r < P,
    {
        proof {
            use_type_invariant(&self);
        }
        self.v
    }

    /// The element with residue `x % P`.
    pub fn new(x: u32) -> (r: F)
        ensures
            r@ == x as int % (P as int),
    {
        F { v: x % P }
    }

    pub fn zero() -> (r: F)
        ensures
            r@ == 0,
    {
        F { v: 0 }
    }

    pub fn one() -> (r: F)
        ensures
            r@ == 1,
    {
        F { v: 1 }
    }

    pub fn from_bool(b: bool) -> (r: F)
        ensures
            r@ == if b {
                1int
            } else {
                0int
            },
    {
        F { v: if b { 1 } else { 0 } }
    }

    pub fn add(self, o: F) -> (r: F)
        ensures
            r@ == fadd(self@, o@),
    {
        proof {
            use_type_invariant(&self);
            use_type_invariant(&o);
        }
        let s: u64 = self.v as u64 + o.v as u64;
        let r = if s >= P as u64 {
            (s - P as u64) as u32
        } else {
            s as u32
        };
        proof {
            if s >= P as u64 {
                vstd::arithmetic::div_mod::lemma_mod_add_multiples_vanish(r as int, P as int);
            }
            vstd::arithmetic::div_mod::lemma_small_mod(r as nat, P as nat);
        }
        F { v: r }
    }

    pub fn sub(self, o: F) -> (r: F)
        ensures
            r@ == fsub(self@, o@),
    {
        proof {
            use_type_invariant(&self);
            use_type_invariant(&o);
        }
        let r = if self.v >= o.v {
            self.v - o.v
        } else {
            self.v + (P - o.v)
        };
        proof {
            if self.v >= o.v {
                vstd::arithmetic::div_mod::lemma_mod_add_multiples_vanish(r as int, P as int);
            }
            vstd::arithmetic::div_mod::lemma_small_mod(r as nat, P as nat);
        }
        F { v: r }
    }

    pub fn mul(self, o: F) -> (r: F)
        ensures
            r@ == fmul(self@, o@),
    {
        proof {
            use_type_invariant(&self);
            use_type_invariant(&o);
        }
        proof {
            assert((self.v as u64) * (o.v as u64) < 0x4000_0000_0000_0000) by (nonlinear_arith)
                requires
                    self.v < 0x8000_0000,
                    o.v < 0x8000_0000;
        }
        let prod: u64 = (self.v as u64) * (o.v as u64);
        let r = (prod % P as u64) as u32;
        F { v: r }
    }

    /// The inverse-advice value of this element, found by the extended
    /// Euclidean algorithm against the modulus.
    pub fn inv(self) -> (r: F)
        ensures
            r@ == inv_of(self@),
    {
        proof {
            use_type_invariant(&self);
        }
        if self.v == 0 {
            return F { v: 0 };
        }
        let mut r0: u32 = P;
        let mut r1: u32 = self.v;
        let mut t0: u32 = 0;
        let mut t1: u32 = 1;
        while r1 > 0
            invariant
                t0 < P,
                t1 < P,
                euclid_inv_rec(P as int, self@, 0, 1) == euclid_inv_rec(
                    r0 as int,
                    r1 as int,
                    t0 as int,
                    t1 as int,
                ),
            decreases r1,
        {
            let q: u32 = r0 / r1;
            let r2: u32 = r0 % r1;
            let qm: u64 = (q % P) as u64;
            proof {
                assert(qm * (t1 as u64) < 0x4000_0000_0000_0000) by (nonlinear_arith)
                    requires
                        qm < 0x8000_0000,
                        t1 < 0x8000_0000;
            }
            let prod: u32 = ((qm * (t1 as u64)) % (P as u64)) as u32;
            let t2: u32 = if t0 >= prod {
                t0 - prod
            } else {
                t0 + (P - prod)
            };
            proof {
                if t0 >= prod {
                    vstd::arithmetic::div_mod::lemma_mod_add_multiples_vanish(
                        t2 as int,
                        P as int,
                    );
                }
                vstd::arithmetic::div_mod::lemma_small_mod(t2 as nat, P as nat);
            }
            r0 = r1;
            r1 = r2;
            t0 = t1;
            t1 = t2;
        }
        F { v: t0 }
    }
}

/// The views of a sequence of field elements: their residues.
pub open spec fn fe(s: Seq<F>) -> Seq<int> {
    s.map_values(|f: F| f@)
}

/// Two to a non-negative power, as an integer.
pub open spec fn p2(e: int) -> int {
    vstd::arithmetic::power2::pow2(e as nat) as int
}

/// Residue operations on values small enough not to wrap.
pub proof fn lemma_fadd_no_wrap(a: int, b: int)
    requires
        0 <= a,
        0 <= b,
        a + b < P,
    ensures
        fadd(a, b) == a + b,
{
    vstd::arithmetic::div_mod::lemma_small_mod((a + b) as nat, P as nat);
}

pub proof fn lemma_fmul_no_wrap(a: int, b: int)
    requires
        0 <= a,
        0 <= b,
        a * b < P,
    ensures
        fmul(a, b) == a * b,
{
    assert(a * b >= 0) by (nonlinear_arith)
        requires
            a >= 0,
            b >= 0,
    ;
    vstd::arithmetic::div_mod::lemma_small_mod((a * b) as nat, P as nat);
}

pub proof fn lemma_fsub_no_wrap(a: int, b: int)
    requires
        0 <= b <= a < P,
    ensures
        fsub(a, b) == a - b,
{
    vstd::arithmetic::div_mod::lemma_mod_add_multiples_vanish(a - b, P as int);
    vstd::arithmetic::div_mod::lemma_small_mod((a - b) as nat, P as nat);
}

/// Multiplying by zero gives zero, on either side.
pub proof fn lemma_fmul_by_zero(x: int)
    ensures
        fmul(0, x) == 0,
        fmul(x, 0) == 0,
{
    assert(0 * x == 0) by (nonlinear_arith);
    assert(x * 0 == 0) by (nonlinear_arith);
    vstd::arithmetic::div_mod::lemma_small_mod(0nat, P as nat);
}

/// Multiplying a canonical residue by one keeps it.
pub proof fn lemma_fmul_by_one(x: int)
    requires
        0 <= x < P,
    ensures
        fmul(1, x) == x,
        fmul(x, 1) == x,
{
    assert(1 * x == x) by (nonlinear_arith);
    assert(x * 1 == x) by (nonlinear_arith);
    vstd::arithmetic::div_mod::lemma_small_mod(x as nat, P as nat);
}

/// A boolean residue annihilates its own negation.
pub proof fn lemma_bool_constraint(a: int)
    requires
        a == 0 || a == 1,
    ensures
        fmul(a, fsub(a, 1)) == 0,
        fmul(a, fsub(1, a)) == 0,
{
    if a == 0 {
        lemma_fmul_by_zero(fsub(0, 1));
        lemma_fmul_by_zero(fsub(1, 0));
    } else {
        lemma_fsub_no_wrap(1, 1);
        lemma_fmul_by_zero(1);
        lemma_fmul_by_one(0);
    }
}

/// A residue subtracted from itself vanishes, whatever its size.
pub proof fn lemma_fsub_self(a: int)
    ensures
        fsub(a, a) == 0,
{
    assert(a + (P as int) - a == P as int);
    vstd::arithmetic::div_mod::lemma_mod_self_0(P as int);
}

/// Ambient facts the constraint-satisfaction proofs lean on: a zero factor
/// annihilates a product and equal operands cancel.
pub broadcast proof fn lemma_fmul_zero_left(x: int)
    ensures
        #[trigger] fmul(0, x) == 0,
{
    lemma_fmul_by_zero(x);
}

pub broadcast proof fn lemma_fmul_zero_right(x: int)
    ensures
        #[trigger] fmul(x, 0) == 0,
{
    lemma_fmul_by_zero(x);
}

pub broadcast proof fn lemma_fsub_cancel(a: int)
    ensures
        #[trigger] fsub(a, a) == 0,
{
    lemma_fsub_self(a);
}

} // verus!
