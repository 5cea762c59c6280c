//! Small numeric helpers.

use core::cmp::Ordering;
use vstd::prelude::*;
use vstd::std_specs::cmp::PartialOrdSpec;

verus! {

/// `input`, or the bound that it lies beyond: `min` where `input` is less than `min`, else
/// `max` where it is greater than `max`.
pub open spec fn clamped<T: PartialOrd>(input: T, min: T, max: T) -> T {
    if input.partial_cmp_spec(&min) == Some(Ordering::Less) {
        min
    } else if input.partial_cmp_spec(&max) == Some(Ordering::Greater) {
        max
    } else {
        input
    }
}

/// Returns input such that it is no lower than min and no higher than max.
pub fn clamp<T: PartialOrd>(input: T, min: T, max: T) -> (bounded: T)
    ensures
        bounded == input || bounded == min || bounded == max,
        T::obeys_partial_cmp_spec() ==> bounded == clamped(input, min, max),
{
    if input < min {
        min
    } else if input > max {
        max
    } else {
        input
    }
}

/// Whether `root` is the integer square root of `input`: the largest number whose square is
/// not above `input`.
pub open spec fn is_integer_square_root(root: int, input: int) -> bool {
    0 <= root && root * root <= input < (root + 1) * (root + 1)
}

/// One step of Newton's iteration from an estimate that is not below the root gives an
/// estimate that is not below the root; an estimate that the step does not lower is not
/// above the root.
proof fn lemma_newton_step(input: int, estimate: int, next: int)
    by (nonlinear_arith)
    requires
        0 < estimate,
        0 <= input < (estimate + 1) * (estimate + 1),
        next == (estimate + input / estimate) / 2,
    ensures
        input < (next + 1) * (next + 1),
        next >= estimate ==> estimate * estimate <= input,
{
    let quotient = input / estimate;
    assert(quotient * estimate <= input < (quotient + 1) * estimate);
    // `2 * next >= estimate + quotient - 1`, and by the inequality of the means the square
    // of `estimate + quotient + 1` is above `4 * input`.
    assert((estimate - quotient - 1) * (estimate - quotient - 1) >= 0);
    assert((estimate + quotient + 1) * (estimate + quotient + 1) >= 4 * estimate * (quotient + 1));
    assert(2 * next + 2 >= estimate + quotient + 1);
    assert((2 * next + 2) * (2 * next + 2) >= (estimate + quotient + 1) * (estimate + quotient
        + 1));
    assert(4 * ((next + 1) * (next + 1)) > 4 * input);
}

/// Half of the sum of `a` and `b`, rounded down; the sum itself may be beyond `u64`.
fn half_sum(a: u64, b: u64) -> (half: u64)
    ensures
        half == (a + b) / 2,
{
    a / 2 + b / 2 + (a % 2 + b % 2) / 2
}

/// The largest integer `x` such that `x**2` is not above `input`.
pub fn integer_square_root(input: u64) -> (root: u64)
    ensures
        is_integer_square_root(root as int, input as int),
{
    let mut x: u64 = input;
    let mut y: u64 = half_sum(x, 1);
    if x == 0 {
        return 0;
    }
    assert(input < (x + 1) * (x + 1)) by (nonlinear_arith)
        requires
            x == input,
    ;
    while y < x
        invariant
            0 < x <= input,
            input < (x + 1) * (x + 1),
            y == (x + input / x) / 2,
        decreases x,
    {
        proof {
            lemma_newton_step(input as int, x as int, y as int);
        }
        x = y;
        assert(x > 0) by (nonlinear_arith)
            requires
                input > 0,
                input < (x + 1) * (x + 1),
        ;
        y = half_sum(x, input / x);
    }
    proof {
        lemma_newton_step(input as int, x as int, y as int);
    }
    x
}

} // verus!
