//! Arithmetic on pairs of integers `[x, y]`, with a product like that of complex
//! numbers and a quotient taken part by part.

use vstd::prelude::*;

verus! {

/// The largest absolute value of a part for which a pair still counts as bounded.
pub const BOUND: isize = 1000000;

/// Whether `v` fits the machine's signed word.
pub open spec fn fits(v: int) -> bool {
    isize::MIN <= v <= isize::MAX
}

/// The quotient of `a` by `b`, rounded towards zero.
pub open spec fn quotient(a: int, b: int) -> int {
    if a >= 0 && b > 0 {
        a / b
    } else if a < 0 && b > 0 {
        -((-a) / b)
    } else if a >= 0 && b < 0 {
        -(a / (-b))
    } else {
        (-a) / (-b)
    }
}

/// Whether both parts lie within the bound, on either side of zero.
pub fn within_bounds_part_2(number: &(isize, isize)) -> (inside: bool)
    ensures
        inside == (-BOUND <= number.0 <= BOUND && -BOUND <= number.1 <= BOUND),
{
    if number.0 > 1000000 || number.1 > 1000000 || number.0 < -1000000 || number.1 < -1000000 {
        false
    } else {
        true
    }
}

/// `[x1, y1] * [x2, y2] = [x1 * x2 - y1 * y2, x1 * y2 + y1 * x2]`.
pub fn multiply(num_1: (isize, isize), num_2: (isize, isize)) -> (product: (isize, isize))
    requires
        fits(num_1.0 * num_2.0),
        fits(num_1.1 * num_2.1),
        fits(num_1.0 * num_2.1),
        fits(num_1.1 * num_2.0),
        fits(num_1.0 * num_2.0 - num_1.1 * num_2.1),
        fits(num_1.0 * num_2.1 + num_1.1 * num_2.0),
    ensures
        product.0 == num_1.0 * num_2.0 - num_1.1 * num_2.1,
        product.1 == num_1.0 * num_2.1 + num_1.1 * num_2.0,
{
    let x1 = num_1.0;
    let y1 = num_1.1;
    let x2 = num_2.0;
    let y2 = num_2.1;

    let x = x1 * x2 - y1 * y2;
    let y = x1 * y2 + y1 * x2;
    (x, y)
}

/// `[x1, y1] + [x2, y2] = [x1 + x2, y1 + y2]`.
pub fn sum(num_1: (isize, isize), num_2: (isize, isize)) -> (total: (isize, isize))
    requires
        fits(num_1.0 + num_2.0),
        fits(num_1.1 + num_2.1),
    ensures
        total.0 == num_1.0 + num_2.0,
        total.1 == num_1.1 + num_2.1,
{
    (num_1.0 + num_2.0, num_1.1 + num_2.1)
}

/// `[x1, y1] / [x2, y2] = [x1 / x2, y1 / y2]`, each quotient rounded towards zero.
pub fn divide(num_1: (isize, isize), num_2: (isize, isize)) -> (ratio: (isize, isize))
    requires
        num_2.0 != 0,
        num_2.1 != 0,
        !(num_1.0 == isize::MIN && num_2.0 == -1),
        !(num_1.1 == isize::MIN && num_2.1 == -1),
    ensures
        ratio.0 == quotient(num_1.0 as int, num_2.0 as int),
        ratio.1 == quotient(num_1.1 as int, num_2.1 as int),
{
    let x1 = num_1.0;
    let y1 = num_1.1;
    let x2 = num_2.0;
    let y2 = num_2.1;
    proof {
        lemma_quotient(x1 as int, x2 as int);
        lemma_quotient(y1 as int, y2 as int);
    }
    (x1 / x2, y1 / y2)
}

/// Rounding towards zero, written with the division that rounds down.
pub proof fn lemma_quotient(a: int, b: int)
    requires
        b != 0,
    ensures
        quotient(a, b) == (if a >= 0 {
            a / b
        } else {
            -((-a) / b)
        }),
        a >= 0 ==> -a <= quotient(a, b) <= a,
        a < 0 ==> a <= quotient(a, b) <= -a,
        a < 0 && b != -1 ==> quotient(a, b) < -a,
{
    if a < 0 && b != -1 && b != 1 {
        let n = -a;
        let d = if b > 0 { b } else { -b };
        assert(n / d < n) by (nonlinear_arith)
            requires
                n > 0,
                d >= 2,
        {
            assert(n == (n / d) * d + n % d && 0 <= n % d < d);
            assert(n / d >= 0);
            assert((n / d) * d >= (n / d) * 2);
        }
    }
    let n = if a >= 0 { a } else { -a };
    let d = if b > 0 { b } else { -b };
    assert(n / (-d) == -(n / d)) by (nonlinear_arith)
        requires
            n >= 0,
            d > 0,
    {
        let q = n / d;
        let r = n % d;
        assert(n == q * d + r && 0 <= r < d);
        assert(n == (-q) * (-d) + r);
        assert(n == (n / (-d)) * (-d) + n % (-d) && 0 <= n % (-d) < d);
        assert(((n / (-d)) - (-q)) * (-d) == r - n % (-d));
    }
    assert(0 <= n / d <= n) by (nonlinear_arith)
        requires
            n >= 0,
            d > 0,
    {
    }
}

} // verus!
