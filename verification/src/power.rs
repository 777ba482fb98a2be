//! Powers of two.

use vstd::arithmetic::power2;
use vstd::prelude::*;

verus! {

/// Whether `n` is a power of two.
pub open spec fn power_of_two(n: nat) -> bool {
    exists|k: nat| n == #[trigger] power2::pow2(k)
}

/// Whether `n` is a power of two: halving it leaves no remainder until one
/// is left.
pub fn is_power_of_two(n: usize) -> (r: bool)
    ensures
        r == power_of_two(n as nat),
        r == exists|k: nat| n == #[trigger] power2::pow2(k),
{
    if n == 0 {
        assert forall|k: nat| 0 != #[trigger] power2::pow2(k) by {
            power2::lemma_pow2_pos(k);
        }
        return false;
    }
    let mut m: usize = n;
    while m % 2 == 0
        invariant
            m > 0,
            power_of_two(m as nat) == power_of_two(n as nat),
        decreases m,
    {
        proof {
            lemma_halve((m / 2) as nat);
        }
        m = m / 2;
    }
    proof {
        lemma_odd_power(m as nat);
    }
    m == 1
}

/// A power of two is some power of two and nothing else is.
pub proof fn law_power_of_two_is_a_power(n: nat)
    ensures
        power_of_two(n) <==> exists|k: nat| n == #[trigger] power2::pow2(k),
{
}

/// Powers of two are positive.
pub proof fn lemma_power_is_positive(n: nat)
    requires
        power_of_two(n),
    ensures
        n > 0,
{
    let k = choose|k: nat| n == #[trigger] power2::pow2(k);
    power2::lemma_pow2_pos(k);
}

/// Doubling keeps powers of two and makes no others.
proof fn lemma_halve(half: nat)
    ensures
        power_of_two(half) == power_of_two(2 * half),
{
    if power_of_two(half) {
        let k = choose|k: nat| half == #[trigger] power2::pow2(k);
        power2::lemma_pow2_unfold(k + 1);
        assert(2 * half == power2::pow2(k + 1));
    }
    if power_of_two(2 * half) {
        let k = choose|k: nat| 2 * half == #[trigger] power2::pow2(k);
        if k == 0 {
            power2::lemma2_to64();
        } else {
            power2::lemma_pow2_unfold(k);
            assert(half == power2::pow2((k - 1) as nat));
        }
    }
}

/// One is the only odd power of two.
proof fn lemma_odd_power(m: nat)
    requires
        m % 2 == 1,
    ensures
        power_of_two(m) == (m == 1),
{
    power2::lemma2_to64();
    assert(power2::pow2(0) == 1);
    if power_of_two(m) {
        let k = choose|k: nat| m == #[trigger] power2::pow2(k);
        if k > 0 {
            power2::lemma_pow2_unfold(k);
        }
    }
}

} // verus!
