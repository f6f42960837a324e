//! Exact comparison of averages held as a sum and a count.
use vstd::prelude::*;
use vstd::arithmetic::div_mod::lemma_fundamental_div_mod;

verus! {

/// Whether the average `a / b` is below the average `c / d`, where an
/// average over nothing counts as zero.
pub open spec fn avg_lt(a: int, b: int, c: int, d: int) -> bool {
    if b == 0 && d == 0 {
        false
    } else if b == 0 {
        0 < c
    } else if d == 0 {
        a < 0
    } else {
        a * d < c * b
    }
}

proof fn lemma_quotient_order(a: int, b: int, c: int, d: int, q1: int, r1: int, q2: int, r2: int)
    requires
        b > 0,
        d > 0,
        a == q1 * b + r1,
        c == q2 * d + r2,
        0 <= r1 < b,
        0 <= r2 < d,
        q1 >= 0,
        q2 >= 0,
    ensures
        q1 < q2 ==> a * d < c * b,
        q1 > q2 ==> !(a * d < c * b),
        q1 == q2 ==> (a * d < c * b <==> r1 * d < r2 * b),
{
    assert(a * d == q1 * (b * d) + r1 * d) by (nonlinear_arith)
        requires
            a == q1 * b + r1,
    ;
    assert(c * b == q2 * (b * d) + r2 * b) by (nonlinear_arith)
        requires
            c == q2 * d + r2,
    ;
    assert(r1 * d < b * d) by (nonlinear_arith)
        requires
            0 <= r1 < b,
            d > 0,
    ;
    assert(r2 * b < b * d) by (nonlinear_arith)
        requires
            0 <= r2 < d,
            b > 0,
    ;
    assert(0 <= r1 * d && 0 <= r2 * b) by (nonlinear_arith)
        requires
            0 <= r1,
            0 <= r2,
            b > 0,
            d > 0,
    ;
    if q1 < q2 {
        assert(q1 * (b * d) + b * d <= q2 * (b * d)) by (nonlinear_arith)
            requires
                q1 < q2,
                b > 0,
                d > 0,
        ;
    }
    if q1 > q2 {
        assert(q2 * (b * d) + b * d <= q1 * (b * d)) by (nonlinear_arith)
            requires
                q1 > q2,
                b > 0,
                d > 0,
        ;
    }
}

/// Whether the average `a / b` is below the average `c / d`; an average
/// over nothing counts as zero.
pub fn avg_less(a: u128, b: u64, c: u128, d: u64) -> (r: bool)
    ensures
        r == avg_lt(a as int, b as int, c as int, d as int),
{
    if b == 0 && d == 0 {
        return false;
    }
    if b == 0 {
        return 0 < c;
    }
    if d == 0 {
        return false;
    }
    let q1 = a / (b as u128);
    let r1 = a % (b as u128);
    let q2 = c / (d as u128);
    let r2 = c % (d as u128);
    proof {
        lemma_fundamental_div_mod(a as int, b as int);
        lemma_fundamental_div_mod(c as int, d as int);
        assert((b as int) * (q1 as int) == (q1 as int) * (b as int)) by (nonlinear_arith);
        assert((d as int) * (q2 as int) == (q2 as int) * (d as int)) by (nonlinear_arith);
        lemma_quotient_order(
            a as int,
            b as int,
            c as int,
            d as int,
            q1 as int,
            r1 as int,
            q2 as int,
            r2 as int,
        );
    }
    if q1 != q2 {
        return q1 < q2;
    }
    assert(r1 * d < u128::MAX && r2 * b < u128::MAX) by (nonlinear_arith)
        requires
            r1 < b,
            r2 < d,
            b <= u64::MAX,
            d <= u64::MAX,
    ;
    r1 * (d as u128) < r2 * (b as u128)
}

} // verus!
