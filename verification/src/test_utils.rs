//! Random values for tests, drawn from a generator that the caller seeds and owns.

use rand::prng::XorShiftRng;
use rand::RngCore;
use vstd::prelude::*;

verus! {

/// `rand::prng::XorShiftRng`, of whose state nothing is known here.
#[verifier::external_type_specification]
#[verifier::external_body]
pub struct ExXorShiftRng(XorShiftRng);

/// A type of which a random value can be drawn from a generator of type `T`.
///
/// The integers draw from `rand`'s `XorShiftRng`. Every other type draws through the
/// integers, whatever the generator is.
pub trait TestRandom<T>: Sized {
    /// Whether `value` can be what one draw yields that finds the generator as `before` and
    /// leaves it as `after`. A type that draws its parts one after the other says so here;
    /// one that says nothing leaves every draw open.
    open spec fn draws(before: T, after: T, value: Self) -> bool {
        true
    }

    /// A value drawn from `rng`, which moves on.
    fn random_for_test(rng: &mut T) -> (value: Self)
        ensures
            Self::draws(*old(rng), *final(rng), value),
    ;
}

/// Calls `RngCore::next_u32` of `XorShiftRng`, which steps the generator and hands out a
/// word of its state. Nothing is claimed of the result.
#[verifier::external_body]
fn next_u32(rng: &mut XorShiftRng) -> u32 {
    rng.next_u32()
}

/// Calls `RngCore::next_u64` of `XorShiftRng`, which joins two steps of the generator.
/// Nothing is claimed of the result.
#[verifier::external_body]
fn next_u64(rng: &mut XorShiftRng) -> u64 {
    rng.next_u64()
}

impl TestRandom<XorShiftRng> for u64 {
    /// Any number may come, and the generator may be left in any state.
    open spec fn draws(before: XorShiftRng, after: XorShiftRng, value: u64) -> bool {
        true
    }

    /// The next 64 bits of the generator.
    fn random_for_test(rng: &mut XorShiftRng) -> Self {
        next_u64(rng)
    }
}

impl TestRandom<XorShiftRng> for u32 {
    /// Any number may come, and the generator may be left in any state.
    open spec fn draws(before: XorShiftRng, after: XorShiftRng, value: u32) -> bool {
        true
    }

    /// The next 32 bits of the generator.
    fn random_for_test(rng: &mut XorShiftRng) -> Self {
        next_u32(rng)
    }
}

impl TestRandom<XorShiftRng> for usize {
    /// Any number of no more than 32 bits may come, and the generator may be left in any
    /// state.
    open spec fn draws(before: XorShiftRng, after: XorShiftRng, value: usize) -> bool {
        value <= u32::MAX
    }

    /// A word of the generator: no more than 32 bits, whatever the width of `usize`.
    fn random_for_test(rng: &mut XorShiftRng) -> (drawn: Self)
        ensures
            drawn <= u32::MAX,
    {
        next_u32(rng) as usize
    }
}

impl<T, U> TestRandom<T> for Vec<U> where U: TestRandom<T> {
    /// Three items, drawn one after the other: each draw finds the generator as the draw
    /// before it left it.
    open spec fn draws(before: T, after: T, value: Vec<U>) -> bool {
        &&& value@.len() == 3
        &&& exists|second: T, third: T|
            {
                &&& #[trigger] U::draws(before, second, value@[0])
                &&& U::draws(second, third, value@[1])
                &&& #[trigger] U::draws(third, after, value@[2])
            }
    }

    /// Three values drawn one after the other.
    fn random_for_test(rng: &mut T) -> (drawn: Self)
        ensures
            drawn@.len() == 3,
    {
        let ghost first = *rng;
        let mut drawn: Vec<U> = Vec::new();
        drawn.push(U::random_for_test(rng));
        let ghost second = *rng;
        drawn.push(U::random_for_test(rng));
        let ghost third = *rng;
        drawn.push(U::random_for_test(rng));
        assert(U::draws(first, second, drawn@[0]) && U::draws(second, third, drawn@[1])
            && U::draws(third, *rng, drawn@[2]));
        drawn
    }
}

impl<T, U, V> TestRandom<T> for (U, V) where U: TestRandom<T>, V: TestRandom<T> {
    /// The first item is drawn first, and the second from the generator as that draw left
    /// it.
    open spec fn draws(before: T, after: T, value: (U, V)) -> bool {
        exists|between: T|
            #[trigger] U::draws(before, between, value.0) && V::draws(between, after, value.1)
    }

    /// Two values drawn one after the other, the first one first.
    fn random_for_test(rng: &mut T) -> Self {
        let ghost before = *rng;
        let first = U::random_for_test(rng);
        let ghost between = *rng;
        let second = V::random_for_test(rng);
        let pair = (first, second);
        assert(U::draws(before, between, pair.0) && V::draws(between, *rng, pair.1));
        pair
    }
}

} // verus!
