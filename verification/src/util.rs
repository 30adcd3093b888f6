//! Small helpers shared by the table generators.

use vstd::prelude::*;

verus! {

/// The smallest power of two no smaller than `n`, reached from `h` by
/// doubling.
pub open spec fn next_pow2_from(h: int, n: int) -> int
    decreases 2 * n - h when h >= 1
{
    if h >= n {
        h
    } else {
        next_pow2_from(2 * h, n)
    }
}

/// The smallest power of two no smaller than `n` (and no smaller than one).
pub open spec fn next_pow2(n: int) -> int {
    next_pow2_from(1, n)
}

/// The next power of two is no smaller than its argument.
pub proof fn lemma_next_pow2_ge(h: int, n: int)
    requires
        h >= 1,
    ensures
        next_pow2_from(h, n) >= n,
        next_pow2_from(h, n) >= h,
    decreases 2 * n - h,
{
    if h < n {
        lemma_next_pow2_ge(2 * h, n);
    }
}

/// The next power of two at most doubles its argument.
pub proof fn lemma_next_pow2_le(h: int, n: int)
    requires
        h >= 1,
    ensures
        next_pow2_from(h, n) <= (if n <= h {
            h
        } else {
            2 * n
        }),
    decreases 2 * n - h,
{
    if h < n {
        lemma_next_pow2_le(2 * h, n);
    }
}

/// Trace heights are powers of two: the smallest one that holds `n` rows.
pub fn next_power_of_two(n: usize) -> (h: usize)
    requires
        n <= 0x1000_0000,
    ensures
        h == next_pow2(n as int),
        h >= n,
        h >= 1,
        h <= 0x2000_0000,
{
    let mut h: usize = 1;
    while h < n
        invariant
            1 <= h,
            h < 2 * n || h >= n,
            h <= 0x2000_0000,
            n <= 0x1000_0000,
            next_pow2_from(h as int, n as int) == next_pow2(n as int),
        decreases 2 * n - h,
    {
        h = h * 2;
    }
    h
}

/// An element-by-element copy of a vector of field elements.
pub fn clone_fvec(v: &Vec<crate::field::F>) -> (r: Vec<crate::field::F>)
    ensures
        r@ == v@,
{
    let mut r: Vec<crate::field::F> = Vec::new();
    let mut i: usize = 0;
    while i < v.len()
        invariant
            i <= v@.len(),
            r@ == v@.take(i as int),
        decreases v@.len() - i,
    {
        let x = v[i];
        r.push(x);
        proof {
            assert(r@ =~= v@.take(i + 1));
        }
        i = i + 1;
    }
    proof {
        assert(v@.take(v@.len() as int) =~= v@);
    }
    r
}

/// A vector of `n` zero field elements.
pub fn zero_fvec(n: usize) -> (r: Vec<crate::field::F>)
    ensures
        r@.len() == n,
        forall|i: int| 0 <= i < n ==> #[trigger] r@[i]@ == 0,
{
    let mut r: Vec<crate::field::F> = Vec::new();
    let mut i: usize = 0;
    while i < n
        invariant
            i <= n,
            r@.len() == i,
            forall|j: int| 0 <= j < i ==> #[trigger] r@[j]@ == 0,
        decreases n - i,
    {
        r.push(crate::field::F::zero());
        i = i + 1;
    }
    r
}

/// The integer views of a sequence of machine words.
pub open spec fn ints(s: Seq<u32>) -> Seq<int> {
    s.map_values(|x: u32| x as int)
}

/// The reversal of a vector of field elements.
pub fn rev_fvec(v: &Vec<crate::field::F>) -> (r: Vec<crate::field::F>)
    ensures
        r@.len() == v@.len(),
        crate::field::fe(r@) == crate::field::fe(v@).reverse(),
{
    let mut r: Vec<crate::field::F> = Vec::new();
    let mut i: usize = v.len();
    while i > 0
        invariant
            i <= v@.len(),
            r@.len() == v@.len() - i,
            forall|j: int|
                0 <= j < r@.len() ==> #[trigger] r@[j]@ == v@[v@.len() - 1 - j]@,
        decreases i,
    {
        i = i - 1;
        let x = v[i];
        r.push(x);
    }
    proof {
        assert(crate::field::fe(r@) =~= crate::field::fe(v@).reverse());
    }
    r
}

/// Field elements carrying the given small machine words.
pub fn fvec_of_u32s(v: &Vec<u32>) -> (r: Vec<crate::field::F>)
    requires
        forall|j: int| 0 <= j < v@.len() ==> #[trigger] v@[j] < crate::field::P,
    ensures
        r@.len() == v@.len(),
        crate::field::fe(r@) == ints(v@),
{
    let mut r: Vec<crate::field::F> = Vec::new();
    let mut i: usize = 0;
    while i < v.len()
        invariant
            i <= v@.len(),
            r@.len() == i,
            forall|j: int| 0 <= j < v@.len() ==> #[trigger] v@[j] < crate::field::P,
            forall|j: int| 0 <= j < i ==> #[trigger] r@[j]@ == v@[j] as int,
        decreases v@.len() - i,
    {
        r.push(crate::field::F::new(v[i]));
        proof {
            vstd::arithmetic::div_mod::lemma_small_mod(
                v@[i as int] as nat,
                crate::field::P as nat,
            );
        }
        i = i + 1;
    }
    proof {
        assert(crate::field::fe(r@) =~= ints(v@));
    }
    r
}

/// A copy of `len` elements of a vector of field elements, from `start`.
pub fn sub_fvec(v: &Vec<crate::field::F>, start: usize, len: usize) -> (r: Vec<crate::field::F>)
    requires
        start + len <= v@.len(),
    ensures
        r@ == v@.subrange(start as int, start as int + len as int),
{
    let mut r: Vec<crate::field::F> = Vec::new();
    let vlen = v.len();
    let mut i: usize = 0;
    while i < len
        invariant
            start + len <= v@.len(),
            vlen == v@.len(),
            i <= len,
            r@.len() == i,
            forall|j: int| 0 <= j < i ==> #[trigger] r@[j] == v@[start + j],
        decreases len - i,
    {
        let x = v[start + i];
        r.push(x);
        i = i + 1;
    }
    proof {
        assert(r@ =~= v@.subrange(start as int, start as int + len as int));
    }
    r
}

} // verus!
