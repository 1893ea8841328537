//! What the random numbers keep of the state they come from.
use crate::rng::{mixed, next_state};
use vstd::arithmetic::div_mod::{lemma_mul_mod_noop_left, lemma_mul_mod_noop_right};
use vstd::prelude::*;

verus! {

/// The state that a number came from: every step of the mixing undone, the last one first.
///
/// A shift of the high bits onto the low ones is undone by shifting them there again as often
/// as it takes, and a multiplication by the factor that makes one with it.
pub open spec fn unmixed(number: u64) -> u64 {
    let b = number ^ (number >> 31) ^ (number >> 62);
    let c = b.wrapping_mul(0x3196_42B2_D24D_8EC3);
    let a = c ^ (c >> 27) ^ (c >> 54);
    let z = a.wrapping_mul(0x96DE_1B17_3F11_9089);
    z ^ (z >> 30) ^ (z >> 60)
}

/// Multiplying by a number and by the one that makes one with it changes nothing.
proof fn lemma_multiplied_back(x: u64, factor: u64, inverse: u64)
    requires
        (factor * inverse) % 0x1_0000_0000_0000_0000 == 1,
    ensures
        x.wrapping_mul(factor).wrapping_mul(inverse) == x,
{
    let all: int = 0x1_0000_0000_0000_0000;
    let once = x.wrapping_mul(factor);
    assert(once == (x * factor) % all);
    assert(once.wrapping_mul(inverse) == (once * inverse) % all);
    lemma_mul_mod_noop_left(x * factor, inverse as int, all);
    assert((x * factor) * inverse == x * (factor * inverse)) by (nonlinear_arith);
    lemma_mul_mod_noop_right(x as int, factor * inverse, all);
    assert(x * 1 == x);
    assert(x as int % all == x);
}

/// Every number gives the state back that it came from, so no two states give the same number
/// and no two numbers of one run are equal before the states come round.
pub proof fn law_numbers_give_their_state_back(state: u64, other: u64)
    ensures
        unmixed(mixed(state)) == state,
        mixed(state) == mixed(other) ==> state == other,
        next_state(state) == next_state(other) ==> state == other,
{
    lemma_unmixed(state);
    lemma_unmixed(other);
}

/// Mixing is undone.
proof fn lemma_unmixed(state: u64)
    ensures
        unmixed(mixed(state)) == state,
{
    let first = state ^ (state >> 30);
    let a = first.wrapping_mul(0xBF58_476D_1CE4_E5B9);
    let second = a ^ (a >> 27);
    let b = second.wrapping_mul(0x94D0_49BB_1331_11EB);
    let number = b ^ (b >> 31);
    assert(number == mixed(state));
    assert(number ^ (number >> 31) ^ (number >> 62) == b) by (bit_vector)
        requires
            number == b ^ (b >> 31),
    ;
    assert((0x94D0_49BB_1331_11EB * 0x3196_42B2_D24D_8EC3int) % 0x1_0000_0000_0000_0000 == 1);
    lemma_multiplied_back(second, 0x94D0_49BB_1331_11EB, 0x3196_42B2_D24D_8EC3);
    assert(second ^ (second >> 27) ^ (second >> 54) == a) by (bit_vector)
        requires
            second == a ^ (a >> 27),
    ;
    assert((0xBF58_476D_1CE4_E5B9 * 0x96DE_1B17_3F11_9089int) % 0x1_0000_0000_0000_0000 == 1);
    lemma_multiplied_back(first, 0xBF58_476D_1CE4_E5B9, 0x96DE_1B17_3F11_9089);
    assert(first ^ (first >> 30) ^ (first >> 60) == state) by (bit_vector)
        requires
            first == state ^ (state >> 30),
    ;
}

} // verus!
