use vstd::prelude::*;
use vstd::arithmetic::power2::pow2;

verus! {

/// Number of binary digits of `n` (0 for 0).
pub open spec fn bit_len(n: nat) -> nat
    decreases n,
{
    if n == 0 {
        0
    } else {
        1 + bit_len(n / 2)
    }
}

/// Result of `log2(num)`: 0 for 0, the index of the highest set bit for a number below
/// 2^63, and 64 for a number with 64 binary digits.
pub open spec fn log2_spec(num: nat) -> nat {
    if num == 0 {
        0
    } else if bit_len(num) >= 64 {
        64
    } else {
        (bit_len(num) - 1) as nat
    }
}

/// Index of the highest set bit of `num`, that is the floor of its base-2 logarithm; 0 for 0,
/// and 64 when bit 63 is set.
pub fn log2(num: usize) -> (r: usize)
    ensures
        r == log2_spec(num as nat),
{
    let mut x = num;
    let ghost n0 = num as nat;
    if x == 0 {
        return 0;
    }
    let mut i: usize = 0;
    while i < 64
        invariant
            i <= 64,
            n0 > 0,
            i > 0 ==> bit_len(n0) >= i,
            n0 == num as nat,
            bit_len(n0) == i + bit_len(x as nat),
            i == 0 ==> x as nat == n0,
        decreases 64 - i,
    {
        if x > 0 {
            let ghost before = x;
            proof {
                crate::bits::lemma_usize_masks(x, 0);
            }
            x = x >> 1;
            assert(bit_len(before as nat) == 1 + bit_len(x as nat));
        } else {
            assert(bit_len(x as nat) == 0);
            return i - 1;
        }
        i = i + 1;
    }
    64
}

/// For a positive number below 2^63, `log2` gives the exponent of the largest power of two
/// not above it: 2^r <= num < 2^(r + 1).
pub proof fn lemma_log2_bounds(num: nat)
    requires
        0 < num,
        bit_len(num) < 64,
    ensures
        pow2(log2_spec(num)) <= num < pow2(log2_spec(num) + 1),
{
    lemma_bit_len_bounds(num);
}

/// A positive number with `b` binary digits lies in [2^(b-1), 2^b).
pub proof fn lemma_bit_len_bounds(n: nat)
    requires
        n > 0,
    ensures
        pow2((bit_len(n) - 1) as nat) <= n < pow2(bit_len(n)),
    decreases n,
{
    vstd::arithmetic::power2::lemma_pow2_unfold(bit_len(n));
    if n / 2 == 0 {
        assert(n == 1);
        assert(bit_len(0) == 0);
        vstd::arithmetic::power2::lemma2_to64();
    } else {
        lemma_bit_len_bounds(n / 2);
        vstd::arithmetic::power2::lemma_pow2_unfold((bit_len(n) - 1) as nat);
    }
}

} // verus!
