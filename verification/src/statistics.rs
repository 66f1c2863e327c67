//! Sums, means and extremes of temperatures.

use crate::accuracy;
use crate::binary64;
use crate::binary64::{Binary64, IMPLICIT, MANTISSA_END};
use crate::rounding;
use vstd::prelude::*;

verus! {

/// The numbers added up from zero, one after the other.
pub open spec fn running_sum(numbers: Seq<Binary64>) -> Binary64
    decreases numbers.len(),
{
    if numbers.len() == 0 {
        Binary64 { bits: 0 }
    } else {
        binary64::sum_of(running_sum(numbers.drop_last()), numbers.last())
    }
}

/// The sum of the numbers divided by how many there are.
pub open spec fn mean(numbers: Seq<Binary64>) -> Binary64 {
    binary64::quotient_of(running_sum(numbers), binary64::whole(false, numbers.len()))
}

/// The infinity above all numbers.
pub open spec fn above_all() -> Binary64 {
    Binary64 { bits: 0x7ff0_0000_0000_0000 }
}

/// The infinity below all numbers.
pub open spec fn below_all() -> Binary64 {
    Binary64 { bits: 0xfff0_0000_0000_0000 }
}

/// The lowest of the numbers, the first of equal ones. What is no number is passed over, and where
/// nothing is left it is the infinity above.
pub open spec fn lowest(numbers: Seq<Binary64>) -> Binary64
    decreases numbers.len(),
{
    if numbers.len() == 0 {
        above_all()
    } else {
        let rest = lowest(numbers.drop_last());
        if binary64::below(numbers.last(), rest) {
            numbers.last()
        } else {
            rest
        }
    }
}

/// The highest of the numbers, the first of equal ones. What is no number is passed over, and where
/// nothing is left it is the infinity below.
pub open spec fn highest(numbers: Seq<Binary64>) -> Binary64
    decreases numbers.len(),
{
    if numbers.len() == 0 {
        below_all()
    } else {
        let rest = highest(numbers.drop_last());
        if binary64::below(rest, numbers.last()) {
            numbers.last()
        } else {
            rest
        }
    }
}

/// Every number lies between the lowest and the highest one.
pub proof fn law_numbers_lie_between_the_extremes(numbers: Seq<Binary64>, i: int)
    requires
        0 <= i < numbers.len(),
        !numbers[i].is_nan(),
    ensures
        binary64::at_most(lowest(numbers), numbers[i]),
        binary64::at_most(numbers[i], highest(numbers)),
    decreases numbers.len(),
{
    law_extremes_are_numbers(numbers);
    law_extremes_are_numbers(numbers.drop_last());
    if i < numbers.len() - 1 {
        law_numbers_lie_between_the_extremes(numbers.drop_last(), i);
    }
}

/// The lowest and the highest number are among the numbers, unless they are infinities.
pub proof fn law_extremes_are_numbers(numbers: Seq<Binary64>)
    ensures
        !lowest(numbers).is_nan(),
        !highest(numbers).is_nan(),
        lowest(numbers) == above_all() || numbers.contains(lowest(numbers)),
        highest(numbers) == below_all() || numbers.contains(highest(numbers)),
    decreases numbers.len(),
{
    if numbers.len() > 0 {
        let rest = numbers.drop_last();
        law_extremes_are_numbers(rest);
        assert forall|x: Binary64| rest.contains(x) implies numbers.contains(x) by {
            let i = choose|i: int| 0 <= i < rest.len() && rest[i] == x;
            assert(numbers[i] == x);
        }
        assert(numbers[numbers.len() - 1] == numbers.last());
    }
}

/// The extremes of finite numbers are finite, and the lowest is at most the highest.
pub proof fn law_finite_extremes(numbers: Seq<Binary64>)
    requires
        forall|i: int| 0 <= i < numbers.len() ==> (#[trigger] numbers[i]).is_finite(),
        numbers.len() > 0,
    ensures
        lowest(numbers).is_finite(),
        highest(numbers).is_finite(),
        binary64::at_most(lowest(numbers), highest(numbers)),
    decreases numbers.len(),
{
    crate::binary64::lemma_parts(numbers.last().pattern());
    crate::rounding::lemma_patterns_by_magnitude(
        crate::binary64::INFINITE as nat,
        numbers.last().pattern(),
    );
    law_numbers_lie_between_the_extremes(numbers, numbers.len() - 1);
    if numbers.len() > 1 {
        law_finite_extremes(numbers.drop_last());
    } else {
        assert(numbers.drop_last().len() == 0);
    }
}

/// What the numbers add up to without rounding.
pub open spec fn exact_sum(numbers: Seq<Binary64>) -> int
    decreases numbers.len(),
{
    if numbers.len() == 0 {
        0
    } else {
        exact_sum(numbers.drop_last()) + numbers.last().value()
    }
}

/// An exact sum can be taken from its front too.
pub(crate) proof fn lemma_exact_sum_from_the_front(numbers: Seq<Binary64>)
    requires
        numbers.len() > 0,
    ensures
        exact_sum(numbers) == numbers[0].value() + exact_sum(numbers.drop_first()),
    decreases numbers.len(),
{
    let shorter = numbers.drop_last();
    let rest = numbers.drop_first();
    assert(exact_sum(numbers) == exact_sum(shorter) + numbers.last().value());
    if numbers.len() == 1 {
        assert(exact_sum(shorter) == 0);
        assert(exact_sum(rest) == 0);
    } else {
        lemma_exact_sum_from_the_front(shorter);
        assert(rest.drop_last() =~= shorter.drop_first());
        assert(rest.last() == numbers.last());
        assert(exact_sum(rest) == exact_sum(rest.drop_last()) + rest.last().value());
        assert(shorter[0] == numbers[0]);
    }
}

/// Whether all numbers are finite and of at most some size.
pub open spec fn are_within(numbers: Seq<Binary64>, bound: int) -> bool {
    forall|i: int|
        0 <= i < numbers.len() ==> (#[trigger] numbers[i]).is_finite() && accuracy::size(
            numbers[i].value(),
        ) <= bound
}

/// How far a running sum is from the exact one.
proof fn lemma_running_sum(numbers: Seq<Binary64>, bound: int)
    requires
        numbers.len() <= 0x10_0000,
        are_within(numbers, bound),
        0 <= bound,
        0x20_0000 * bound <= accuracy::limit(),
    ensures
        running_sum(numbers).is_finite(),
        accuracy::size(exact_sum(numbers)) <= numbers.len() * bound,
        0x1_0000_0000 * accuracy::size(running_sum(numbers).value() - exact_sum(numbers))
            <= numbers.len() * bound,
    decreases numbers.len(),
{
    let n = numbers.len() as int;
    if n == 0 {
        let zero = Binary64 { bits: 0 };
        binary64::lemma_parts(0);
        assert(n * bound == 0) by (nonlinear_arith)
            requires
                n == 0,
        ;
    } else {
        let shorter = numbers.drop_last();
        assert forall|i: int| 0 <= i < shorter.len() implies (#[trigger] shorter[i]).is_finite()
            && accuracy::size(shorter[i].value()) <= bound by {
            assert(shorter[i] == numbers[i]);
        }
        lemma_running_sum(shorter, bound);
        assert(numbers[n - 1] == numbers.last());
        let before = running_sum(shorter);
        let sum = running_sum(numbers);
        assert(n * bound == (n - 1) * bound + bound) by (nonlinear_arith);
        assert((n - 1) * bound <= 0x10_0000 * bound) by (nonlinear_arith)
            requires
                n - 1 <= 0x10_0000,
                0 <= bound,
        ;
        assert(n * bound <= 0x10_0000 * bound) by (nonlinear_arith)
            requires
                n <= 0x10_0000,
                0 <= bound,
        ;
        let exact = before.value() + numbers.last().value();
        accuracy::law_sum_error(before, numbers.last());
        assert(accuracy::size(exact) <= 0x20_0000 * bound);
        let error = accuracy::size(sum.value() - exact);
        assert(0x1_0000_0000 * error <= bound);
    }
}

/// The mean of some numbers is what they add up to divided by how many there are, but for a part in
/// 2 to the power of 31 of the largest of them.
pub proof fn law_mean_is_nearly_exact(numbers: Seq<Binary64>, bound: int)
    requires
        0 < numbers.len() <= 0x10_0000,
        are_within(numbers, bound),
        MANTISSA_END <= bound,
        0x20_0000 * bound <= accuracy::limit(),
    ensures
        mean(numbers).is_finite(),
        0x8000_0000 * accuracy::size(mean(numbers).value() * numbers.len() - exact_sum(numbers))
            <= numbers.len() * bound,
{
    let n = numbers.len() as int;
    let u = binary64::one() as int;
    lemma_running_sum(numbers, bound);
    accuracy::lemma_one_is_large();
    rounding::law_whole_numbers_are_held(false, n as nat);
    let (sum, count) = (running_sum(numbers), binary64::whole(false, n as nat));
    assert(n * u >= u) by (nonlinear_arith)
        requires
            n >= 1,
            u > 0,
    ;
    binary64::lemma_parts(0);
    rounding::lemma_patterns_by_magnitude(count.pattern(), 0);
    accuracy::law_quotient_error(sum, count);
    let s = accuracy::size(sum.value());
    let nb = n * bound;
    assert(s <= 2 * nb);
    assert(nb <= 0x10_0000 * bound) by (nonlinear_arith)
        requires
            nb == n * bound,
            n <= 0x10_0000,
            0 <= bound,
    ;
    assert(s * u <= accuracy::limit() * (n * u)) by (nonlinear_arith)
        requires
            0 <= s <= accuracy::limit(),
            n * u >= u,
            u > 0,
    ;
    let m = mean(numbers).value();
    let e = m * n - sum.value();
    assert(m * (n * u) - sum.value() * u == e * u) by (nonlinear_arith)
        requires
            e == m * n - sum.value(),
    ;
    assert(accuracy::size(e * u) == accuracy::size(e) * u) by (nonlinear_arith)
        requires
            u > 0,
            accuracy::size(e) == (if e < 0 {
                -e
            } else {
                e
            }),
            accuracy::size(e * u) == (if e * u < 0 {
                -(e * u)
            } else {
                e * u
            }),
    ;
    assert(MANTISSA_END * accuracy::size(e) <= s + IMPLICIT * n) by (nonlinear_arith)
        requires
            MANTISSA_END * (accuracy::size(e) * u) <= s * u + IMPLICIT * (n * u),
            u > 0,
    ;
    assert(IMPLICIT * n <= nb) by (nonlinear_arith)
        requires
            nb == n * bound,
            bound >= IMPLICIT,
            n > 0,
    ;
}

/// The mean of one number over and over is that number, but for a part in 2 to the power of 31.
pub proof fn law_mean_of_equal_numbers(numbers: Seq<Binary64>, number: Binary64)
    requires
        0 < numbers.len() <= 0x10_0000,
        forall|i: int| 0 <= i < numbers.len() ==> #[trigger] numbers[i] == number,
        number.is_finite(),
        0x40_0000 * accuracy::size(number.value()) <= accuracy::limit(),
    ensures
        mean(numbers).is_finite(),
        0x8000_0000 * accuracy::size(mean(numbers).value() - number.value()) <= accuracy::size(
            number.value(),
        ) + MANTISSA_END,
{
    let n = numbers.len() as int;
    let v = number.value();
    let bound = accuracy::size(v) + MANTISSA_END;
    accuracy::lemma_one_is_large();
    lemma_equal_sum(numbers, number);
    law_mean_is_nearly_exact(numbers, bound);
    let d = mean(numbers).value() - v;
    assert(mean(numbers).value() * n - n * v == d * n) by (nonlinear_arith)
        requires
            d == mean(numbers).value() - v,
    ;
    assert(accuracy::size(d * n) == accuracy::size(d) * n) by (nonlinear_arith)
        requires
            n > 0,
            accuracy::size(d) == (if d < 0 {
                -d
            } else {
                d
            }),
            accuracy::size(d * n) == (if d * n < 0 {
                -(d * n)
            } else {
                d * n
            }),
    ;
    assert(0x8000_0000 * accuracy::size(d) <= bound) by (nonlinear_arith)
        requires
            0x8000_0000 * (accuracy::size(d) * n) <= n * bound,
            n > 0,
    ;
}

proof fn lemma_equal_sum(numbers: Seq<Binary64>, number: Binary64)
    requires
        forall|i: int| 0 <= i < numbers.len() ==> #[trigger] numbers[i] == number,
    ensures
        exact_sum(numbers) == numbers.len() * number.value(),
    decreases numbers.len(),
{
    let (n, v) = (numbers.len() as int, number.value());
    if n == 0 {
        assert(n * v == 0) by (nonlinear_arith)
            requires
                n == 0,
        ;
    } else {
        let shorter = numbers.drop_last();
        assert forall|i: int| 0 <= i < shorter.len() implies #[trigger] shorter[i] == number by {
            assert(shorter[i] == numbers[i]);
        }
        lemma_equal_sum(shorter, number);
        assert(numbers[n - 1] == number);
        assert(n * v == (n - 1) * v + v) by (nonlinear_arith);
    }
}

} // verus!
