//! Reusable per-row arithmetic devices shared by the tables: boolean
//! negation and selection, and the inverse-witnessed equality indicator with
//! its cyclic-counter wrapper.

use vstd::prelude::*;

use crate::field::{F, P, fadd, fmul, fsub, inv_of};

verus! {

/// Boolean negation of a field value: one minus it.
pub fn not(value: F) -> (r: F)
    ensures
        r@ == fsub(1, value@),
{
    F::one().sub(value)
}

/// Boolean selection: `when_false` where the condition is zero, `when_true`
/// where it is one.
pub fn select(cond: F, when_false: F, when_true: F) -> (r: F)
    ensures
        r@ == fadd(fmul(fsub(1, cond@), when_false@), fmul(cond@, when_true@)),
{
    not(cond).mul(when_false).add(cond.mul(when_true))
}

/// Spec mirror of `select`: the value of the selection polynomial.
pub open spec fn select_spec(cond: int, when_false: int, when_true: int) -> int {
    fadd(fmul(fsub(1, cond), when_false), fmul(cond, when_true))
}

/// On a boolean condition and canonical branches, the selection polynomial
/// picks the branch.
pub proof fn lemma_select_bool(cond: int, when_false: int, when_true: int)
    requires
        cond == 0 || cond == 1,
        0 <= when_false < P,
        0 <= when_true < P,
    ensures
        select_spec(cond, when_false, when_true) == if cond == 1 {
            when_true
        } else {
            when_false
        },
{
    if cond == 1 {
        crate::field::lemma_fsub_no_wrap(1, 1);
        crate::field::lemma_fmul_by_zero(when_false);
        crate::field::lemma_fmul_by_one(when_true);
        crate::field::lemma_fadd_no_wrap(0, when_true);
    } else {
        crate::field::lemma_fsub_no_wrap(1, 0);
        crate::field::lemma_fmul_by_one(when_false);
        crate::field::lemma_fmul_by_zero(when_true);
        crate::field::lemma_fadd_no_wrap(when_false, 0);
    }
}

/// An equality indicator: `output` claims whether two values are equal, and
/// `inv` witnesses a nonzero difference.  The row constraints are
/// `output * diff == 0` and `diff * inv == 1 - output`.
pub struct IsEqual {
    pub inv: F,
    pub output: F,
}

impl IsEqual {
    /// The values generation writes: the honest indicator and the
    /// inverse-advice value of the difference.
    pub open spec fn is_populated(&self, diff: int) -> bool {
        &&& self.output@ == if diff == 0 {
            1int
        } else {
            0int
        }
        &&& self.inv@ == inv_of(diff)
    }

    /// Fill the indicator against zero: the difference is the value itself.
    pub fn populate_zero(a: F) -> (r: IsEqual)
        ensures
            r.is_populated(a@),
    {
        // reading the residue puts its canonical bound in scope
        let residue = a.as_u32();
        proof {
            assert(residue < P);
            lemma_fsub_zero(a@);
        }
        IsEqual::populate(a, F::zero())
    }

    /// Fill the indicator for the difference of two values.
    pub fn populate(a: F, b: F) -> (r: IsEqual)
        ensures
            r.is_populated(fsub(a@, b@)),
    {
        let diff = a.sub(b);
        let output = if diff.as_u32() == 0 {
            F::one()
        } else {
            F::zero()
        };
        IsEqual { inv: diff.inv(), output }
    }
}

/// A canonical residue reduced against zero is itself.
pub proof fn lemma_fsub_zero(a: int)
    requires
        0 <= a < P,
    ensures
        fsub(a, 0) == a,
{
    vstd::arithmetic::div_mod::lemma_mod_add_multiples_vanish(a, P as int);
    vstd::arithmetic::div_mod::lemma_small_mod(a as nat, P as nat);
}

/// The polynomial constraints of an equality indicator over the difference
/// `diff`: the claim is boolean, annihilates the difference, and the
/// inverse witness forces the claim wherever the difference vanishes.
impl IsEqual {
    pub open spec fn constraints_ok(&self, diff: int) -> bool {
        &&& fmul(self.output@, fsub(self.output@, 1)) == 0
        &&& fmul(self.output@, diff) == 0
        &&& fmul(diff, self.inv@) == fsub(1, self.output@)
    }
}

/// A populated indicator satisfies its constraints, given that nonzero
/// residues' advice values are genuine inverses (the modulus is prime).
pub proof fn lemma_is_equal_constraints(g: IsEqual, diff: int)
    requires
        g.is_populated(diff),
        0 <= diff < P,
        crate::field::residues_invert(),
    ensures
        g.constraints_ok(diff),
{
    if diff == 0 {
        crate::field::lemma_bool_constraint(1);
        crate::field::lemma_fmul_by_one(0);
        crate::field::lemma_fmul_by_zero(inv_of(0));
        crate::field::lemma_fsub_no_wrap(1, 1);
        assert(inv_of(0) == 0);
    } else {
        crate::field::lemma_bool_constraint(0);
        crate::field::lemma_fmul_by_zero(diff);
        crate::field::lemma_fsub_no_wrap(1, 0);
        assert(fmul(diff, inv_of(diff)) == 1);
    }
}

/// A cyclic step counter with period fixed by each table: the step value
/// and an equality indicator against the last step of the period.
pub struct CycleInt {
    pub step: F,
    pub is_last_step: IsEqual,
}

impl CycleInt {
    /// The values generation writes for step `s` of a cycle of `period`.
    pub open spec fn is_populated(&self, s: int, period: int) -> bool {
        &&& self.step@ == s
        &&& self.is_last_step.is_populated(fsub(s, period - 1))
    }

    /// Whether the indicator flags the last step.
    pub open spec fn at_last(&self) -> int {
        self.is_last_step.output@
    }

    /// The row-local constraints of the counter: the last-step indicator's
    /// constraints over the distance to the period's end.
    pub open spec fn constraints_ok(&self, period: int) -> bool {
        self.is_last_step.constraints_ok(fsub(self.step@, period - 1))
    }

    /// Fill the counter at step `s` of a cycle of `period`.
    pub fn populate(s: usize, period: usize) -> (r: CycleInt)
        requires
            0 < period <= 0x10000000,
            s < 0x10000000,
        ensures
            r.is_populated(s as int, period as int),
            r.step@ == s,
            r.at_last() == if s == period - 1 {
                1int
            } else {
                0int
            },
    {
        let step = F::new(s as u32);
        let last = F::new((period - 1) as u32);
        proof {
            vstd::arithmetic::div_mod::lemma_small_mod(s as nat, P as nat);
            vstd::arithmetic::div_mod::lemma_small_mod((period - 1) as nat, P as nat);
            if s != period - 1 {
                lemma_fsub_nonzero(s as int, period - 1);
            }
        }
        CycleInt { step, is_last_step: IsEqual::populate(step, last) }
    }
}

/// The reduced difference of two distinct canonical residues is nonzero.
pub proof fn lemma_fsub_nonzero(a: int, b: int)
    requires
        0 <= a < P,
        0 <= b < P,
        a != b,
    ensures
        fsub(a, b) != 0,
        fsub(a, a) == 0,
{
    if a >= b {
        vstd::arithmetic::div_mod::lemma_mod_add_multiples_vanish(a - b, P as int);
        vstd::arithmetic::div_mod::lemma_small_mod((a - b) as nat, P as nat);
    } else {
        vstd::arithmetic::div_mod::lemma_small_mod((a + P - b) as nat, P as nat);
    }
    vstd::arithmetic::div_mod::lemma_mod_add_multiples_vanish(0, P as int);
    vstd::arithmetic::div_mod::lemma_small_mod(0nat, P as nat);
}

/// A populated counter satisfies its row-local constraints, given genuine
/// inverses.
pub proof fn lemma_cycle_constraints(c: CycleInt, s: int, period: int)
    requires
        c.is_populated(s, period),
        0 <= s < P,
        0 < period <= P,
        crate::field::residues_invert(),
    ensures
        c.constraints_ok(period),
{
    vstd::arithmetic::div_mod::lemma_mod_bound(s + (P as int) - (period - 1), P as int);
    lemma_is_equal_constraints(c.is_last_step, fsub(s, period - 1));
}

/// The selection polynomial agrees, modulo the field, with the picked
/// branch — with no bound on the branch values.
pub proof fn lemma_select_pick(c: int, l: int, r: int)
    requires
        c == 0 || c == 1,
    ensures
        fsub(
            if c == 1 {
                r
            } else {
                l
            },
            select_spec(c, l, r),
        ) == 0,
{
    let picked: int = if c == 1 {
        r
    } else {
        l
    };
    let pp = P as int;
    assert(select_spec(c, l, r) == picked % pp) by {
        if c == 1 {
            crate::field::lemma_fsub_no_wrap(1, 1);
            crate::field::lemma_fmul_by_zero(l);
            assert(fmul(1, r) == r % pp) by {
                assert(1 * r == r) by (nonlinear_arith);
            }
            vstd::arithmetic::div_mod::lemma_mod_bound(r, pp);
            vstd::arithmetic::div_mod::lemma_small_mod((r % pp) as nat, P as nat);
        } else {
            crate::field::lemma_fsub_no_wrap(1, 0);
            crate::field::lemma_fmul_by_zero(r);
            assert(fmul(1, l) == l % pp) by {
                assert(1 * l == l) by (nonlinear_arith);
            }
            vstd::arithmetic::div_mod::lemma_mod_bound(l, pp);
            vstd::arithmetic::div_mod::lemma_small_mod((l % pp) as nat, P as nat);
        }
    }
    // the picked value and its residue differ by a multiple of the modulus
    vstd::arithmetic::div_mod::lemma_fundamental_div_mod(picked, pp);
    assert(picked + pp - picked % pp == pp * (picked / pp) + pp);
    assert(pp * (picked / pp) + pp == pp * (picked / pp + 1)) by (nonlinear_arith);
    assert((pp * (picked / pp + 1)) % pp == 0) by {
        vstd::arithmetic::div_mod::lemma_mod_multiples_basic(picked / pp + 1, pp);
    }
}

} // verus!
