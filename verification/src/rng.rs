//! SplitMix64: small, fixed, and enough for seeding a clustering.
use crate::score::{lemma_rounded_bound, rounded_to, round_to, saturated};
use vstd::arithmetic::power2::pow2;
use vstd::prelude::*;

verus! {

/// A SplitMix64 generator.
pub struct SplitMix64(pub u64);

/// The state after the next number.
pub open spec fn next_state(state: u64) -> u64 {
    state.wrapping_add(0x9E37_79B9_7F4A_7C15)
}

/// The number that a state gives.
pub open spec fn mixed(state: u64) -> u64 {
    let a = (state ^ (state >> 30)).wrapping_mul(0xBF58_476D_1CE4_E5B9);
    let b = (a ^ (a >> 27)).wrapping_mul(0x94D0_49BB_1331_11EB);
    b ^ (b >> 31)
}

/// The numerator, over `2^53`, of the fraction that comes after `state`.
pub open spec fn unit_of(state: u64) -> u64 {
    mixed(next_state(state)) / 2048
}

/// A number below `n` from the fraction `unit / 2^53`: their product in double precision
/// without its fraction.
///
/// Both `n` and the product are rounded to the 53 significant bits that a double-precision
/// number has.
pub open spec fn below_of(unit: nat, n: usize) -> usize {
    let product = rounded_to(unit * rounded_to(n as nat, 53), 53);
    let most = if n == 0 {
        1
    } else {
        n
    };
    saturated(product / pow2(53)) % most
}

impl SplitMix64 {
    /// The next number.
    pub fn next(&mut self) -> (r: u64)
        ensures
            final(self).0 == next_state(old(self).0),
            r == mixed(next_state(old(self).0)),
    {
        self.0 = self.0.wrapping_add(0x9E37_79B9_7F4A_7C15);
        let mut z: u64 = self.0;
        z = (z ^ (z >> 30)).wrapping_mul(0xBF58_476D_1CE4_E5B9);
        z = (z ^ (z >> 27)).wrapping_mul(0x94D0_49BB_1331_11EB);
        z ^ (z >> 31)
    }

    /// The next fraction, as its numerator over `2^53`.
    pub fn unit(&mut self) -> (r: u64)
        ensures
            final(self).0 == next_state(old(self).0),
            r == unit_of(old(self).0),
            r < 0x20_0000_0000_0000,
    {
        self.next() / 2048
    }

    /// A number below `n`, or zero where `n` is zero.
    pub fn below(&mut self, n: usize) -> (r: usize)
        ensures
            final(self).0 == next_state(old(self).0),
            r == below_of(unit_of(old(self).0) as nat, n),
            n > 0 ==> r < n,
            n == 0 ==> r == 0,
    {
        let unit: u64 = self.unit();
        proof {
            vstd::arithmetic::power2::lemma2_to64();
            vstd::arithmetic::power2::lemma2_to64_rest();
            lemma_rounded_bound(n as nat, 53);
        }
        let scale: u128 = round_to(n as u128, 53);
        proof {
            assert(unit * scale <= 0x20_0000_0000_0000 * 0x2_0000_0000_0000_0000) by (nonlinear_arith)
                requires
                    unit < 0x20_0000_0000_0000,
                    scale <= 0x2_0000_0000_0000_0000,
            ;
        }
        let product: u128 = round_to((unit as u128) * scale, 53);
        let whole: u128 = product / 0x20_0000_0000_0000;
        let value: usize = if whole > usize::MAX as u128 {
            usize::MAX
        } else {
            whole as usize
        };
        let most: usize = if n == 0 {
            1
        } else {
            n
        };
        value % most
    }
}

} // verus!
