//! Walking the set bits of a word, lowest first.
use vstd::prelude::*;

verus! {

/// The set bits of a word, handed out lowest first.
#[derive(Debug, Clone, PartialEq, Eq, Structural)]
pub struct IterBits {
    bitboard: u64,
}

/// A value whose set bits can be walked.
pub trait BitIterable {
    fn iter_bits(self) -> IterBits;
}

impl BitIterable for u8 {
    fn iter_bits(self) -> IterBits {
        IterBits::new(self as u64)
    }
}

/// The number of set bits of `x`.
pub open spec fn ones(x: nat) -> nat
    decreases x,
{
    if x == 0 {
        0
    } else {
        x % 2 + ones(x / 2)
    }
}

/// The number of binary digits of `x`.
pub open spec fn bit_length(x: nat) -> nat
    decreases x,
{
    if x == 0 {
        0
    } else {
        1 + bit_length(x / 2)
    }
}

proof fn lemma_ones_le_length(x: nat)
    ensures
        ones(x) <= bit_length(x),
    decreases x,
{
    if x > 0 {
        lemma_ones_le_length(x / 2);
    }
}

proof fn lemma_bit_length_u64(x: u64)
    ensures
        bit_length(x as nat) <= 64,
{
    reveal_with_fuel(crate::fixed::two_to, 65);
    assert(crate::fixed::two_to(64) == 0x1_0000_0000_0000_0000);
    lemma_bit_length_bound(x as nat, 64);
}

proof fn lemma_bit_length_bound(x: nat, k: nat)
    requires
        x < crate::fixed::two_to(k),
    ensures
        bit_length(x) <= k,
    decreases k,
{
    if x > 0 && k > 0 {
        lemma_bit_length_bound(x / 2, (k - 1) as nat);
    }
}

impl IterBits {
    /// The bits not yet handed out.
    pub closed spec fn bits(&self) -> u64 {
        self.bitboard
    }

    pub fn new(bitboard: u64) -> (r: Self)
        ensures
            r.bits() == bitboard,
    {
        IterBits { bitboard }
    }

    /// The lowest bit not yet handed out, which is then cleared.
    pub fn next(&mut self) -> (r: Option<usize>)
        ensures
            old(self).bits() == 0 ==> r is None && final(self).bits() == 0,
            old(self).bits() != 0 ==> r == Some(old(self).bits().trailing_zeros() as usize)
                && final(self).bits() == old(self).bits() & ((old(self).bits() - 1) as u64),
    {
        if self.bitboard == 0 {
            None
        } else {
            let bit = self.bitboard.trailing_zeros();
            self.bitboard = self.bitboard & (self.bitboard - 1);
            Some(bit as usize)
        }
    }

    /// The number of bits not yet handed out.
    pub fn remaining(&self) -> (r: usize)
        ensures
            r == ones(self.bits() as nat),
    {
        let mut x = self.bitboard;
        let mut n: usize = 0;
        proof {
            lemma_bit_length_u64(x);
        }
        while x != 0
            invariant
                n + ones(x as nat) == ones(self.bitboard as nat),
                n <= 64 - bit_length(x as nat),
                bit_length(x as nat) <= 64,
            decreases x,
        {
            proof {
                lemma_ones_le_length((x / 2) as nat);
            }
            n = n + (x % 2) as usize;
            x = x / 2;
        }
        n
    }
}

} // verus!
