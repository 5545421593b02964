//! Format-independent helpers for the two 8-bit formats: the floor of the
//! base-2 logarithm, which names a magnitude's binade, and rounding to the
//! nearest multiple of a spacing with ties to the even multiple.

use vstd::arithmetic::div_mod::lemma_div_is_ordered;
use vstd::arithmetic::div_mod::lemma_fundamental_div_mod;
use vstd::arithmetic::div_mod::lemma_mod_division_less_than_divisor;
use vstd::arithmetic::div_mod::lemma_mod_multiples_basic;
use vstd::arithmetic::div_mod::lemma_multiply_divide_lt;
use vstd::arithmetic::power2::lemma2_to64;
use vstd::arithmetic::power2::lemma_pow2_strictly_increases;
use vstd::arithmetic::power2::lemma_pow2_unfold;
use vstd::arithmetic::power2::pow2;
use vstd::prelude::*;

verus! {

/// The floor of the base-2 logarithm of `m` (at least 1).
pub open spec fn log2(m: int) -> nat
    decreases m,
{
    if m < 2 {
        0
    } else {
        1 + log2(m / 2)
    }
}

/// `m` (at least 0) rounded to the nearest multiple of `q` (at least 1);
/// a tie goes to the even multiple.
pub open spec fn round_even(m: int, q: int) -> int
    recommends
        m >= 0,
        q >= 1,
{
    let rem = m % q;
    let lo = m - rem;
    if 2 * rem < q {
        lo
    } else if 2 * rem > q {
        lo + q
    } else if (lo / q) % 2 == 0 {
        lo
    } else {
        lo + q
    }
}

/// `log2` is the floor of the base-2 logarithm.
pub proof fn lemma_log2_bounds(m: int)
    requires
        m >= 1,
    ensures
        pow2(log2(m)) <= m < pow2(log2(m) + 1),
    decreases m,
{
    lemma2_to64();
    if m < 2 {
        assert(log2(m) == 0);
    } else {
        lemma_log2_bounds(m / 2);
        let l = log2(m / 2);
        lemma_pow2_unfold(l + 1);
        lemma_pow2_unfold(l + 2);
        assert(m == 2 * (m / 2) + m % 2) by (nonlinear_arith);
        assert(0 <= m % 2 < 2) by (nonlinear_arith);
    }
}

/// Any binade bound pins `log2` down.
pub proof fn lemma_log2_unique(m: int, j: nat)
    requires
        m >= 1,
        pow2(j) <= m < pow2(j + 1),
    ensures
        log2(m) == j,
{
    lemma_log2_bounds(m);
    if log2(m) < j {
        if log2(m) + 1 < j {
            lemma_pow2_strictly_increases(log2(m) + 1, j);
        }
        assert(pow2(log2(m) + 1) <= pow2(j));
        assert(false);
    }
    if log2(m) > j {
        if j + 1 < log2(m) {
            lemma_pow2_strictly_increases(j + 1, log2(m));
        }
        assert(pow2(j + 1) <= pow2(log2(m)));
        assert(false);
    }
}

/// `round_even` lands on a multiple of `q` next to `m`, exactly on `m` when
/// `m` is one already, and never leaves an interval of multiples of `q`
/// around `m`.
pub proof fn lemma_round_even_props(m: int, q: int, lo_b: int, hi_b: int)
    requires
        0 <= m,
        1 <= q,
        0 <= lo_b <= m < hi_b,
        lo_b % q == 0,
        hi_b % q == 0,
    ensures
        round_even(m, q) % q == 0,
        m % q == 0 ==> round_even(m, q) == m,
        lo_b <= round_even(m, q) <= hi_b,
{
    let rem = m % q;
    let lo = m - rem;
    let k = m / q;
    lemma_fundamental_div_mod(m, q);
    lemma_mod_division_less_than_divisor(m, q);
    assert(lo == q * k);
    lemma_mod_multiples_basic(k, q);
    lemma_mod_multiples_basic(k + 1, q);
    assert(q * k == k * q) by (nonlinear_arith);
    assert(q * (k + 1) == q * k + q) by (nonlinear_arith);
    assert(q * (k + 1) == (k + 1) * q) by (nonlinear_arith);
    assert(lo % q == (k * q) % q);
    assert((lo + q) % q == ((k + 1) * q) % q);
    let kb = lo_b / q;
    lemma_fundamental_div_mod(lo_b, q);
    assert(lo_b == q * kb);
    let kh = hi_b / q;
    lemma_fundamental_div_mod(hi_b, q);
    assert(hi_b == q * kh);
    lemma_div_is_ordered(lo_b, m, q);
    assert(kb <= k);
    assert(q * kb <= q * k) by (nonlinear_arith)
        requires
            kb <= k,
            q >= 1,
    ;
    assert(lo_b <= lo);
    lemma_multiply_divide_lt(m, q, kh);
    assert(k < kh);
    assert(q * (k + 1) <= q * kh) by (nonlinear_arith)
        requires
            k + 1 <= kh,
            q >= 1,
    ;
    assert(lo + q <= hi_b);
}

} // verus!
