//! Hamming weight and distance of 128-bit positions.

use vstd::prelude::*;

verus! {

/// A position is a 128-bit word.
pub type Position = u128;

/// A distance between two positions: a number of bits, at most 128.
pub type Distance = u8;

/// Number of set bits among the lowest `n` bits of `x`.
pub open spec fn bits_set_below(x: u128, n: nat) -> nat
    decreases n,
{
    if n == 0 {
        0
    } else {
        bits_set_below(x, (n - 1) as nat) + if (x >> ((n - 1) as u128)) & 1 == 1 {
            1nat
        } else {
            0nat
        }
    }
}

/// Number of set bits of `x`.
pub open spec fn popcount(x: u128) -> nat {
    bits_set_below(x, 128)
}

proof fn lemma_bits_set_below_bounded(x: u128, n: nat)
    ensures
        bits_set_below(x, n) <= n,
    decreases n,
{
    if n > 0 {
        lemma_bits_set_below_bounded(x, (n - 1) as nat);
    }
}

/// Hamming weight: the number of set bits of `x`.
pub fn weight(x: Position) -> (r: Distance)
    ensures
        r as nat == popcount(x),
{
    let mut count: u8 = 0;
    let mut i: u32 = 0;
    while i < 128
        invariant
            i <= 128,
            count as nat == bits_set_below(x, i as nat),
        decreases 128 - i,
    {
        proof {
            lemma_bits_set_below_bounded(x, i as nat);
        }
        if (x >> i) & 1 == 1 {
            count = count + 1;
        }
        i = i + 1;
    }
    count
}

/// Hamming distance: the number of bits in which `x` and `y` differ.
pub fn distance(x: &Position, y: &Position) -> (r: Distance)
    ensures
        r as nat == popcount(*x ^ *y),
{
    weight(*x ^ *y)
}

} // verus!
