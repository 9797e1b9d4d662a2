//! Powers of two: the length condition under which the sorter runs.
use vstd::prelude::*;

verus! {

/// `n` is `2^k` for some `k >= 0`.
pub open spec fn is_pow2(n: nat) -> bool
    decreases n,
{
    if n == 1 {
        true
    } else if n == 0 || n % 2 == 1 {
        false
    } else {
        is_pow2(n / 2)
    }
}

/// Halving a power of two above one gives a power of two, and both halves are equal.
pub proof fn lemma_pow2_halves(n: nat)
    requires
        is_pow2(n),
        n > 1,
    ensures
        n % 2 == 0,
        is_pow2(n / 2),
        n / 2 + n / 2 == n,
        n / 2 > 0,
{
}

/// Whether `n` is a power of two (zero is not).
pub fn is_power_of_two(n: usize) -> (r: bool)
    ensures
        r == is_pow2(n as nat),
{
    let mut m: usize = n;
    while m > 1 && m % 2 == 0
        invariant
            is_pow2(m as nat) == is_pow2(n as nat),
        decreases m,
    {
        m = m / 2;
    }
    m == 1
}

} // verus!
