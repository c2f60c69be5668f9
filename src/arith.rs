//! Exact comparisons of integer products that may not fit in 128 bits.
use vstd::prelude::*;
use vstd::arithmetic::div_mod::lemma_fundamental_div_mod;

verus! {

proof fn lemma_gt_iff_quotient(a: int, b: int, c: int)
    requires
        a >= 0,
        b > 0,
        c >= 0,
    ensures
        (a * b > c) <==> (a > c / b),
{
    lemma_fundamental_div_mod(c, b);
    let q = c / b;
    let r = c % b;
    assert(0 <= r < b);
    assert(c == q * b + r) by (nonlinear_arith)
        requires c == b * q + r;
    if a > q {
        assert(a * b >= (q + 1) * b) by (nonlinear_arith)
            requires a >= q + 1, b > 0;
        assert((q + 1) * b == q * b + b) by (nonlinear_arith);
    } else {
        assert(a * b <= q * b) by (nonlinear_arith)
            requires a <= q, b > 0;
    }
}

/// Products of bounded non-negative factors stay bounded.
pub proof fn lemma_mul_bound(a: int, b: int, x: int, y: int)
    requires
        0 <= a <= x,
        0 <= b <= y,
    ensures
        0 <= a * b <= x * y,
{
    assert(0 <= a * b <= x * y) by (nonlinear_arith)
        requires 0 <= a <= x, 0 <= b <= y;
}

/// Whether `a * b > c`, computed without overflow.
pub fn mul_gt(a: u128, b: u128, c: u128) -> (r: bool)
    ensures
        r == (a * b > c),
{
    if b == 0 {
        assert(a * b == 0) by (nonlinear_arith)
            requires b == 0;
        false
    } else {
        proof {
            lemma_gt_iff_quotient(a as int, b as int, c as int);
        }
        a > c / b
    }
}

/// Whether `a * b < c`, computed without overflow.
pub fn mul_lt(a: u128, b: u128, c: u128) -> (r: bool)
    ensures
        r == (a * b < c),
{
    if c == 0 {
        assert(a * b >= 0) by (nonlinear_arith)
            requires a >= 0, b >= 0;
        false
    } else if b == 0 {
        assert(a * b == 0) by (nonlinear_arith)
            requires b == 0;
        true
    } else {
        // a * b < c  <==>  !(a * b > c - 1)
        proof {
            lemma_gt_iff_quotient(a as int, b as int, c - 1);
        }
        !(a > (c - 1) / b)
    }
}

/// The magnitude of a signed value as an unsigned one.
pub open spec fn abs(x: int) -> int {
    if x < 0 { -x } else { x }
}

fn magnitude(x: i128) -> (r: u128)
    requires
        x > i128::MIN,
    ensures
        r == abs(x as int),
{
    if x < 0 { (-x) as u128 } else { x as u128 }
}

proof fn lemma_product_sign(x: int, y: int)
    ensures
        (x >= 0) == (y >= 0) || x == 0 || y == 0 ==> x * y == abs(x) * abs(y),
        !((x >= 0) == (y >= 0) || x == 0 || y == 0) ==> x * y == -(abs(x) * abs(y))
            && abs(x) * abs(y) > 0,
{
    if x == 0 || y == 0 {
        assert(x * y == 0) by (nonlinear_arith)
            requires x == 0 || y == 0;
        assert(abs(x) * abs(y) == 0) by (nonlinear_arith)
            requires abs(x) == 0 || abs(y) == 0;
    } else if x < 0 && y < 0 {
        assert(x * y == (-x) * (-y)) by (nonlinear_arith);
    } else if x < 0 && y > 0 {
        assert(x * y == -((-x) * y)) by (nonlinear_arith);
        assert((-x) * y > 0) by (nonlinear_arith)
            requires x < 0, y > 0;
    } else if x > 0 && y < 0 {
        assert(x * y == -(x * (-y))) by (nonlinear_arith);
        assert(x * (-y) > 0) by (nonlinear_arith)
            requires x > 0, y < 0;
    }
}

/// The magnitude of a negative value.
fn negated(a: i128) -> (r: u128)
    requires
        a < 0,
    ensures
        r == -a,
{
    (-(a + 1)) as u128 + 1
}

/// Whether `a > x * y`, computed without overflow.
pub fn product_below(x: i128, y: i128, a: i128) -> (r: bool)
    requires
        x > i128::MIN,
        y > i128::MIN,
    ensures
        r == (a > x * y),
{
    let mx = magnitude(x);
    let my = magnitude(y);
    proof {
        lemma_product_sign(x as int, y as int);
    }
    if (x >= 0) == (y >= 0) || x == 0 || y == 0 {
        if a <= 0 {
            assert(mx * my >= 0) by (nonlinear_arith)
                requires mx >= 0, my >= 0;
            false
        } else {
            mul_lt(mx, my, a as u128)
        }
    } else {
        if a >= 0 {
            true
        } else {
            mul_gt(mx, my, negated(a))
        }
    }
}

/// Whether `a < x * y`, computed without overflow.
pub fn product_above(x: i128, y: i128, a: i128) -> (r: bool)
    requires
        x > i128::MIN,
        y > i128::MIN,
    ensures
        r == (a < x * y),
{
    let mx = magnitude(x);
    let my = magnitude(y);
    proof {
        lemma_product_sign(x as int, y as int);
    }
    if (x >= 0) == (y >= 0) || x == 0 || y == 0 {
        if a < 0 {
            assert(mx * my >= 0) by (nonlinear_arith)
                requires mx >= 0, my >= 0;
            true
        } else {
            mul_gt(mx, my, a as u128)
        }
    } else {
        if a >= 0 {
            false
        } else {
            mul_lt(mx, my, negated(a))
        }
    }
}

} // verus!
