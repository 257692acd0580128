//! Keys of Hamming space: bit vectors, whose distance is the number of bit positions
//! in which they differ.

use crate::metric::MetricPoint;
use space::Hamming;
use vstd::prelude::*;

verus! {

/// The number of ones among the lowest `width` bits of `x`.
pub open spec fn ones(x: u128, width: nat) -> nat
    decreases width,
{
    if width == 0 {
        0
    } else {
        (x % 2) as nat + ones(x / 2, (width - 1) as nat)
    }
}

/// No more bits are one than there are bits.
pub proof fn lemma_ones_bound(x: u128, width: nat)
    ensures
        ones(x, width) <= width,
    decreases width,
{
    if width > 0 {
        lemma_ones_bound(x / 2, (width - 1) as nat);
    }
}

/// Zero has no ones.
pub proof fn lemma_ones_zero(width: nat)
    ensures
        ones(0, width) == 0,
    decreases width,
{
    if width > 0 {
        lemma_ones_zero((width - 1) as nat);
    }
}

/// `MetricPoint::distance` of `space::Hamming<u128>`: the number of ones in the
/// exclusive or of the two words.
#[verifier::external_body]
fn hamming_distance(a: u128, b: u128) -> (d: u64)
    ensures
        d == ones(a ^ b, 128),
{
    space::MetricPoint::distance(&Hamming(a), &Hamming(b))
}

/// A vector of 128 bits in Hamming space.
#[derive(Clone, Copy, Debug, PartialEq, Eq, Structural)]
pub struct Bits128(pub u128);

/// A vector of 256 bits in Hamming space.
#[derive(Clone, Copy, Debug, PartialEq, Eq, Structural)]
pub struct Bits256 {
    pub low: u128,
    pub high: u128,
}

impl MetricPoint for Bits128 {
    open spec fn dist(&self, rhs: &Self) -> u64 {
        ones(self.0 ^ rhs.0, 128) as u64
    }

    fn distance(&self, rhs: &Self) -> (d: u64) {
        proof {
            lemma_ones_bound(self.0 ^ rhs.0, 128);
        }
        hamming_distance(self.0, rhs.0)
    }

    proof fn lemma_dist_symmetric(&self, rhs: &Self) {
        let a = self.0;
        let b = rhs.0;
        assert(a ^ b == b ^ a) by (bit_vector);
    }

    proof fn lemma_dist_self(&self) {
        let a = self.0;
        assert(a ^ a == 0) by (bit_vector);
        lemma_ones_zero(128);
    }
}

impl MetricPoint for Bits256 {
    open spec fn dist(&self, rhs: &Self) -> u64 {
        (ones(self.low ^ rhs.low, 128) + ones(self.high ^ rhs.high, 128)) as u64
    }

    fn distance(&self, rhs: &Self) -> (d: u64) {
        proof {
            lemma_ones_bound(self.low ^ rhs.low, 128);
            lemma_ones_bound(self.high ^ rhs.high, 128);
        }
        hamming_distance(self.low, rhs.low) + hamming_distance(self.high, rhs.high)
    }

    proof fn lemma_dist_symmetric(&self, rhs: &Self) {
        let a = self.low;
        let b = rhs.low;
        let c = self.high;
        let d = rhs.high;
        assert(a ^ b == b ^ a) by (bit_vector);
        assert(c ^ d == d ^ c) by (bit_vector);
    }

    proof fn lemma_dist_self(&self) {
        let a = self.low;
        let c = self.high;
        assert(a ^ a == 0) by (bit_vector);
        assert(c ^ c == 0) by (bit_vector);
        lemma_ones_zero(128);
    }
}

} // verus!
