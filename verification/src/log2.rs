//! The ceiling of the base-two logarithm, as a mathematical function.

use vstd::arithmetic::power2::*;
use vstd::prelude::*;

verus! {

/// `c` is the least exponent whose power of two reaches `n`.
pub open spec fn is_ceil_log2(n: nat, c: nat) -> bool {
    &&& n <= pow2(c)
    &&& c > 0 ==> pow2((c - 1) as nat) < n
}

/// The least `c` with `n <= 2^c`: the number of bits needed to address `n`
/// distinct values. It is 0 for `n == 0` and for `n == 1`.
pub open spec fn ceil_log2(n: nat) -> nat {
    choose|c: nat| is_ceil_log2(n, c)
}

/// `n` is `2^k` for some `k`.
pub open spec fn is_power_of_two(n: nat) -> bool {
    exists|k: nat| pow2(k) == n
}

proof fn lemma_ceil_log2_witness(n: nat) -> (c: nat)
    ensures
        is_ceil_log2(n, c),
    decreases n,
{
    lemma2_to64();
    if n <= 1 {
        0
    } else {
        let c = lemma_ceil_log2_witness((n + 1) / 2);
        lemma_pow2_unfold(c + 1);
        if c > 0 {
            lemma_pow2_unfold(c);
        }
        c + 1
    }
}

/// Powers of two grow with the exponent.
pub proof fn lemma_pow2_monotonic(a: nat, b: nat)
    requires
        a <= b,
    ensures
        pow2(a) <= pow2(b),
{
    if a < b {
        lemma_pow2_strictly_increases(a, b);
    }
}

/// At most one exponent is the ceiling logarithm of `n`.
pub proof fn lemma_is_ceil_log2_unique(n: nat, c: nat, d: nat)
    requires
        is_ceil_log2(n, c),
        is_ceil_log2(n, d),
    ensures
        c == d,
{
    if c < d {
        lemma_pow2_monotonic(c, (d - 1) as nat);
    }
    if d < c {
        lemma_pow2_monotonic(d, (c - 1) as nat);
    }
}

/// `ceil_log2(n)` reaches `n`, and no smaller exponent does.
pub proof fn lemma_ceil_log2(n: nat)
    ensures
        is_ceil_log2(n, ceil_log2(n)),
        forall|d: nat| n <= pow2(d) ==> ceil_log2(n) <= d,
{
    let w = lemma_ceil_log2_witness(n);
    let c = ceil_log2(n);
    assert forall|d: nat| n <= pow2(d) implies c <= d by {
        if d < c {
            lemma_pow2_monotonic(d, (c - 1) as nat);
        }
    }
}

/// An exponent that satisfies the defining property is the ceiling logarithm.
pub proof fn lemma_ceil_log2_is(n: nat, c: nat)
    requires
        is_ceil_log2(n, c),
    ensures
        ceil_log2(n) == c,
{
    lemma_ceil_log2(n);
    lemma_is_ceil_log2_unique(n, c, ceil_log2(n));
}

/// Halving, rounding up, lowers the ceiling logarithm by one.
pub proof fn lemma_ceil_log2_halves(n: nat)
    requires
        n >= 2,
    ensures
        ceil_log2(n) == 1 + ceil_log2((n + 1) / 2),
{
    let h = (n + 1) / 2;
    lemma_ceil_log2(h);
    let c = ceil_log2(h);
    lemma2_to64();
    lemma_pow2_unfold(c + 1);
    if c > 0 {
        lemma_pow2_unfold(c);
    }
    lemma_ceil_log2_is(n, c + 1);
}

/// The ceiling logarithm of `2^k` is `k`.
pub proof fn lemma_ceil_log2_pow2(k: nat)
    ensures
        ceil_log2(pow2(k)) == k,
{
    if k > 0 {
        lemma_pow2_strictly_increases((k - 1) as nat, k);
    }
    lemma_ceil_log2_is(pow2(k), k);
}

/// A number is a power of two exactly when the power of its ceiling
/// logarithm gives it back.
pub proof fn lemma_power_of_two_iff(n: nat)
    ensures
        is_power_of_two(n) <==> pow2(ceil_log2(n)) == n,
{
    if is_power_of_two(n) {
        let k = choose|k: nat| pow2(k) == n;
        lemma_ceil_log2_pow2(k);
    }
}

} // verus!
