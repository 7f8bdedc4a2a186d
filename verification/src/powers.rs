//! Powers of two and binary logarithms.
use vstd::prelude::*;

verus! {

/// Two to the power `k`.
pub open spec fn pow2(k: nat) -> nat
    decreases k,
{
    if k == 0 {
        1
    } else {
        2 * pow2((k - 1) as nat)
    }
}

/// The exponent of the largest power of two that is at most `n`, for
/// `n >= 1`.
pub open spec fn top_exp(n: nat) -> nat
    decreases n,
{
    if n < 2 {
        0
    } else {
        1 + top_exp(n / 2)
    }
}

/// The smallest `k` with `n <= 2^k`, for `n >= 1`.
pub open spec fn ceil_log2(n: nat) -> nat {
    if pow2(top_exp(n)) < n {
        top_exp(n) + 1
    } else {
        top_exp(n)
    }
}

/// Powers of two are positive.
pub proof fn lemma_pow2_pos(k: nat)
    ensures
        pow2(k) >= 1,
    decreases k,
{
    if k > 0 {
        lemma_pow2_pos((k - 1) as nat);
    }
}

/// Powers of two grow with the exponent.
pub proof fn lemma_pow2_mono(j: nat, k: nat)
    requires
        j <= k,
    ensures
        pow2(j) <= pow2(k),
    decreases k,
{
    if j < k {
        lemma_pow2_mono(j, (k - 1) as nat);
    }
}

/// `top_exp(n)` is the one `k` with `2^k <= n < 2^(k+1)`.
pub proof fn lemma_top_exp(n: nat, k: nat)
    requires
        pow2(k) <= n < pow2(k + 1),
    ensures
        top_exp(n) == k,
    decreases k,
{
    if k > 0 {
        lemma_pow2_pos((k - 1) as nat);
        lemma_top_exp(n / 2, (k - 1) as nat);
    }
}

/// `2^top_exp(n) <= n < 2^(top_exp(n) + 1)` for `n >= 1`.
pub proof fn lemma_top_exp_bounds(n: nat)
    requires
        n >= 1,
    ensures
        pow2(top_exp(n)) <= n < pow2(top_exp(n) + 1),
    decreases n,
{
    if n >= 2 {
        lemma_top_exp_bounds(n / 2);
    }
}

/// Below `2^k` the top exponent is below `k`.
pub proof fn lemma_top_exp_below(n: nat, k: nat)
    requires
        1 <= n < pow2(k),
    ensures
        top_exp(n) < k,
{
    lemma_top_exp_bounds(n);
    if top_exp(n) >= k {
        lemma_pow2_mono(k, top_exp(n));
    }
}

/// `ceil_log2(n)` is the smallest `k` with `n <= 2^k`.
pub proof fn lemma_ceil_log2(n: nat)
    requires
        n >= 1,
    ensures
        n <= pow2(ceil_log2(n)),
        ceil_log2(n) > 0 ==> pow2((ceil_log2(n) - 1) as nat) < n,
{
    lemma_top_exp_bounds(n);
    if pow2(top_exp(n)) == n && top_exp(n) > 0 {
        lemma_pow2_pos((top_exp(n) - 1) as nat);
    }
}

} // verus!
