//! Integer helpers: products that stay in range, quotients rounded towards
//! zero, interpolation between two coordinates, and decimal text.
use vstd::prelude::*;
use vstd::arithmetic::div_mod::{
    lemma_div_is_ordered, lemma_div_multiples_vanish, lemma_div_nonincreasing,
    lemma_div_pos_is_pos, lemma_fundamental_div_mod, lemma_mod_bound,
};
use vstd::arithmetic::mul::{lemma_mul_inequality, lemma_mul_is_commutative};
use vstd::string::StringExecFns;
use crate::geometry::N;

verus! {

/// The largest whole of which `slide` takes a fraction.
pub const PRODUCT_LIMIT: N = 0x400_0000_0000_0000_0000_0000;

/// The absolute value.
pub open spec fn magnitude(x: int) -> int {
    if x < 0 {
        -x
    } else {
        x
    }
}

/// The quotient rounded towards zero.
pub open spec fn spec_quotient(n: int, d: int) -> int
    recommends
        d > 0,
{
    if n < 0 {
        -((-n) / d)
    } else {
        n / d
    }
}

/// The coordinate that lies the fraction `t / whole` of the way from `from`
/// to `to`, rounded towards `from`.
pub open spec fn spec_slide(from: i32, to: i32, t: int, whole: int) -> i32
    recommends
        0 <= t <= whole,
        0 < whole,
{
    (from + spec_quotient((to - from) * t, whole)) as i32
}

/// A product is bounded by the product of the bounds of its factors.
pub proof fn lemma_product_bound(a: int, b: int, a_bound: int, b_bound: int)
    requires
        magnitude(a) <= a_bound,
        magnitude(b) <= b_bound,
    ensures
        magnitude(a * b) <= a_bound * b_bound,
        a >= 0 && b >= 0 ==> a * b >= 0,
{
    assert(magnitude(a * b) <= a_bound * b_bound && (a >= 0 && b >= 0 ==> a * b >= 0))
        by (nonlinear_arith)
        requires
            magnitude(a) <= a_bound,
            magnitude(b) <= b_bound,
    ;
}

/// Rounding towards zero treats both signs alike: the quotient of the
/// opposite is the opposite of the quotient, and no quotient is larger than
/// what was divided.
pub proof fn lemma_quotient_negates(n: int, d: int)
    requires
        0 < d,
    ensures
        spec_quotient(-n, d) == -spec_quotient(n, d),
        magnitude(spec_quotient(n, d)) <= magnitude(n),
{
    lemma_div_pos_is_pos(magnitude(n), d);
    lemma_div_nonincreasing(magnitude(n), d);
    if n == 0 {
        assert(0int / d == 0) by {
            lemma_div_pos_is_pos(0, d);
            lemma_div_nonincreasing(0, d);
        }
    }
}

/// Two quotients of multiples of one quantity differ by the quotient of
/// the difference, up to less than one: times the divisor, by less than the
/// divisor.
pub proof fn lemma_quotient_step(quantity: int, low: int, high: int, whole: int)
    requires
        0 <= low <= high,
        0 < whole,
    ensures
        ({
            let step = spec_quotient(quantity * high, whole) - spec_quotient(
                quantity * low,
                whole,
            );
            -whole < whole * step - quantity * (high - low) < whole
        }),
{
    let size = magnitude(quantity);
    let above = size * high;
    let below = size * low;
    lemma_product_bound(size, high, size, high);
    lemma_product_bound(size, low, size, low);
    lemma_fundamental_div_mod(above, whole);
    lemma_fundamental_div_mod(below, whole);
    lemma_mod_bound(above, whole);
    lemma_mod_bound(below, whole);
    let upper = above / whole;
    let lower = below / whole;
    let step = upper - lower;
    assert(whole * step == whole * upper - whole * lower) by (nonlinear_arith)
        requires
            step == upper - lower,
    ;
    assert(above - below == size * (high - low)) by (nonlinear_arith)
        requires
            above == size * high,
            below == size * low,
    ;
    assert(-whole < whole * step - size * (high - low) < whole);
    if quantity >= 0 {
        assert(quantity * high == above);
        assert(quantity * low == below);
    } else {
        assert(quantity * high == -above) by (nonlinear_arith)
            requires
                above == (-quantity) * high,
        ;
        assert(quantity * low == -below) by (nonlinear_arith)
            requires
                below == (-quantity) * low,
        ;
        assert(quantity * (high - low) == -(size * (high - low))) by (nonlinear_arith)
            requires
                size == -quantity,
        ;
        lemma_quotient_negates(above, whole);
        lemma_quotient_negates(below, whole);
        assert(spec_quotient(above, whole) == above / whole);
        assert(spec_quotient(below, whole) == below / whole);
        let turned = spec_quotient(-above, whole) - spec_quotient(-below, whole);
        assert(turned == -step);
        assert(whole * turned == -(whole * step)) by (nonlinear_arith)
            requires
                turned == -step,
        ;
    }
}

/// Taking the fraction `t / whole` of a quantity, for `t` up to `whole`,
/// gives nothing at `t = 0`, all of it at `t = whole`, and never more than
/// all of it.
pub proof fn lemma_fraction(quantity: int, t: int, whole: int)
    requires
        0 <= quantity,
        0 <= t <= whole,
        0 < whole,
    ensures
        0 <= (quantity * t) / whole <= quantity,
        (quantity * 0) / whole == 0,
        (quantity * whole) / whole == quantity,
{
    lemma_mul_inequality(t, whole, quantity);
    lemma_mul_is_commutative(t, quantity);
    lemma_mul_is_commutative(whole, quantity);
    lemma_product_bound(quantity, t, quantity, whole);
    lemma_div_is_ordered(quantity * t, quantity * whole, whole);
    lemma_div_multiples_vanish(quantity, whole);
    lemma_div_pos_is_pos(quantity * t, whole);
    assert(quantity * 0 == 0) by (nonlinear_arith);
}

/// Sliding stays between the two coordinates and reaches both of them.
pub proof fn lemma_slide(from: i32, to: i32, t: int, whole: int)
    requires
        0 <= t <= whole,
        0 < whole,
    ensures
        spec_slide(from, to, t, whole) == from + spec_quotient((to - from) * t, whole),
        spec_slide(from, to, 0, whole) == from,
        spec_slide(from, to, whole, whole) == to,
        from <= to ==> from <= spec_slide(from, to, t, whole) <= to,
        to <= from ==> to <= spec_slide(from, to, t, whole) <= from,
{
    if to >= from {
        lemma_fraction(to - from, t, whole);
    } else {
        lemma_fraction(from - to, t, whole);
        assert(-((to - from) * t) == (from - to) * t) by (nonlinear_arith);
        assert(-((to - from) * whole) == (from - to) * whole) by (nonlinear_arith);
        assert((to - from) * 0 == 0) by (nonlinear_arith);
        assert((to - from) * t <= 0) by (nonlinear_arith)
            requires
                to - from < 0,
                t >= 0,
        ;
        assert((to - from) * whole < 0) by (nonlinear_arith)
            requires
                to - from < 0,
                whole > 0,
        ;
        if (to - from) * t == 0 {
            assert((from - to) * t == 0);
        }
    }
}

/// The quotient rounded towards zero.
pub fn quotient(n: N, d: N) -> (r: N)
    requires
        0 < d,
        N::MIN < n,
    ensures
        r == spec_quotient(n as int, d as int),
        magnitude(r as int) <= magnitude(n as int),
{
    if n < 0 {
        let positive: N = -n;
        proof {
            lemma_div_pos_is_pos(positive as int, d as int);
            lemma_div_nonincreasing(positive as int, d as int);
        }
        -(positive / d)
    } else {
        proof {
            lemma_div_pos_is_pos(n as int, d as int);
            lemma_div_nonincreasing(n as int, d as int);
        }
        n / d
    }
}

/// The coordinate that lies the fraction `t / whole` of the way from `from`
/// to `to`, rounded towards `from`.
pub fn slide(from: i32, to: i32, t: N, whole: N) -> (r: i32)
    requires
        0 <= t <= whole,
        0 < whole <= PRODUCT_LIMIT,
    ensures
        r == spec_slide(from, to, t as int, whole as int),
{
    let span: N = to as N - from as N;
    proof {
        lemma_product_bound(span as int, t as int, 0x1_0000_0000, PRODUCT_LIMIT as int);
        lemma_slide(from, to, t as int, whole as int);
    }
    let moved = quotient(span * t, whole);
    (from as N + moved) as i32
}

/// The character of a decimal digit.
pub open spec fn digit(d: int) -> char {
    if d == 0 {
        '0'
    } else if d == 1 {
        '1'
    } else if d == 2 {
        '2'
    } else if d == 3 {
        '3'
    } else if d == 4 {
        '4'
    } else if d == 5 {
        '5'
    } else if d == 6 {
        '6'
    } else if d == 7 {
        '7'
    } else if d == 8 {
        '8'
    } else {
        '9'
    }
}

/// The decimal digits of a natural number, without leading zeros.
pub open spec fn decimal_digits(n: nat) -> Seq<char>
    decreases n,
{
    if n < 10 {
        seq![digit(n as int)]
    } else {
        decimal_digits(n / 10).push(digit((n % 10) as int))
    }
}

/// An integer in decimal, with a minus sign where it is negative.
pub open spec fn decimal(n: int) -> Seq<char> {
    if n < 0 {
        seq!['-'] + decimal_digits((-n) as nat)
    } else {
        decimal_digits(n as nat)
    }
}

fn digit_text(d: u64) -> (r: &'static str)
    requires
        d < 10,
    ensures
        r@ == seq![digit(d as int)],
{
    proof {
        reveal_strlit("0");
        reveal_strlit("1");
        reveal_strlit("2");
        reveal_strlit("3");
        reveal_strlit("4");
        reveal_strlit("5");
        reveal_strlit("6");
        reveal_strlit("7");
        reveal_strlit("8");
        reveal_strlit("9");
    }
    let text = if d == 0 {
        "0"
    } else if d == 1 {
        "1"
    } else if d == 2 {
        "2"
    } else if d == 3 {
        "3"
    } else if d == 4 {
        "4"
    } else if d == 5 {
        "5"
    } else if d == 6 {
        "6"
    } else if d == 7 {
        "7"
    } else if d == 8 {
        "8"
    } else {
        "9"
    };
    assert(text@ =~= seq![digit(d as int)]);
    text
}

fn append_digits(text: &mut String, n: u64)
    ensures
        final(text)@ == old(text)@ + decimal_digits(n as nat),
    decreases n,
{
    if n >= 10 {
        append_digits(text, n / 10);
    }
    text.append(digit_text(n % 10));
    proof {
        assert(final(text)@ =~= old(text)@ + decimal_digits(n as nat));
    }
}

/// Appends an integer in decimal.
pub fn append_decimal(text: &mut String, n: i32)
    ensures
        final(text)@ == old(text)@ + decimal(n as int),
{
    if n < 0 {
        proof {
            reveal_strlit("-");
        }
        text.append("-");
        append_digits(text, (-(n as i64)) as u64);
        proof {
            assert(final(text)@ =~= old(text)@ + decimal(n as int));
        }
    } else {
        append_digits(text, n as u64);
    }
}

} // verus!
