//! Powers of two and the floor base-two logarithm, with the small set of
//! facts about them that the tree arithmetic needs.

use vstd::prelude::*;
use vstd::arithmetic::power2::{
    pow2, lemma_pow2_adds, lemma_pow2_pos, lemma_pow2_unfold, lemma2_to64,
};

verus! {

/// Floor of the base-two logarithm; `lg(0)` is taken to be 0.
pub open spec fn lg(n: nat) -> nat
    decreases n,
{
    if n <= 1 {
        0
    } else {
        1 + lg(n / 2)
    }
}

/// `pow2` is monotone.
pub proof fn lemma_pow2_le(e1: nat, e2: nat)
    requires
        e1 <= e2,
    ensures
        pow2(e1) <= pow2(e2),
{
    lemma_pow2_adds(e1, (e2 - e1) as nat);
    lemma_pow2_pos((e2 - e1) as nat);
    assert(pow2(e1) * pow2((e2 - e1) as nat) >= pow2(e1) * 1) by (nonlinear_arith)
        requires
            pow2((e2 - e1) as nat) >= 1,
            pow2(e1) >= 0,
    ;
}

/// `pow2(e1) < pow2(e2)` forces `e1 < e2`.
pub proof fn lemma_pow2_lt_inverse(e1: nat, e2: nat)
    requires
        pow2(e1) < pow2(e2),
    ensures
        e1 < e2,
{
    if e1 >= e2 {
        lemma_pow2_le(e2, e1);
    }
}

/// The defining bounds of the floor logarithm.
pub proof fn lemma_lg_bounds(n: nat)
    requires
        n >= 1,
    ensures
        pow2(lg(n)) <= n < pow2(lg(n) + 1),
    decreases n,
{
    lemma2_to64();
    if n <= 1 {
        assert(pow2(0) == 1 && pow2(1) == 2);
    } else {
        lemma_lg_bounds(n / 2);
        lemma_pow2_unfold(lg(n));
        lemma_pow2_adds(lg(n / 2) + 1, 1);
        assert(pow2(lg(n)) == 2 * pow2(lg(n / 2)));
        assert(pow2(lg(n) + 1) == 2 * pow2(lg(n / 2) + 1));
    }
}

/// The floor logarithm is the unique exponent meeting those bounds.
pub proof fn lemma_lg_from_bounds(n: nat, l: nat)
    requires
        pow2(l) <= n < pow2(l + 1),
    ensures
        lg(n) == l,
{
    lemma_pow2_pos(l);
    lemma_lg_bounds(n);
    if lg(n) < l {
        lemma_pow2_le(lg(n) + 1, l);
    }
    if lg(n) > l {
        lemma_pow2_le(l + 1, lg(n));
    }
}

/// Computes `pow2(e)` on machine words.
pub fn pow2_usize(e: usize) -> (r: usize)
    requires
        pow2(e as nat) <= usize::MAX,
    ensures
        r == pow2(e as nat),
{
    let mut r: usize = 1;
    let mut i: usize = 0;
    proof {
        assert(pow2(0) == 1) by {
            lemma2_to64();
        }
    }
    while i < e
        invariant
            i <= e,
            r == pow2(i as nat),
            pow2(e as nat) <= usize::MAX,
        decreases e - i,
    {
        proof {
            lemma_pow2_unfold(i as nat + 1);
            lemma_pow2_le(i as nat + 1, e as nat);
        }
        r = r * 2;
        i = i + 1;
    }
    r
}

} // verus!
