//! Exact comparison of two fractions of 128-bit integers, without the
//! products that could overflow.
use vstd::prelude::*;

verus! {

proof fn lemma_smaller_quotient(a: int, b: int, c: int, d: int, qa: int, ra: int, qc: int, rc: int)
    by (nonlinear_arith)
    requires
        b > 0,
        d > 0,
        a == qa * b + ra,
        c == qc * d + rc,
        0 <= ra < b,
        0 <= rc < d,
        qa < qc,
    ensures
        a * d < c * b,
{
    assert(a < (qa + 1) * b);
    assert((qa + 1) * b <= qc * b);
    assert(a * d < qc * b * d);
    assert(qc * d <= c);
    assert(qc * d * b <= c * b);
}

proof fn lemma_equal_quotient(a: int, b: int, c: int, d: int, q: int, ra: int, rc: int)
    by (nonlinear_arith)
    requires
        a == q * b + ra,
        c == q * d + rc,
    ensures
        a * d - c * b == ra * d - rc * b,
{
}

/// Tells whether `a / b <= c / d`, that is whether `a * d <= c * b`.
pub(crate) fn ratio_le(a: u128, b: u128, c: u128, d: u128) -> (le: bool)
    requires
        b > 0,
        d > 0,
    ensures
        le == (a * d <= c * b),
    decreases b + d,
{
    let qa = a / b;
    let ra = a % b;
    let qc = c / d;
    let rc = c % d;
    proof {
        vstd::arithmetic::div_mod::lemma_fundamental_div_mod(a as int, b as int);
        vstd::arithmetic::div_mod::lemma_fundamental_div_mod(c as int, d as int);
        assert(a == qa * b + ra) by (nonlinear_arith)
            requires a == b * (a / b) + a % b, qa == a / b, ra == a % b;
        assert(c == qc * d + rc) by (nonlinear_arith)
            requires c == d * (c / d) + c % d, qc == c / d, rc == c % d;
    }
    if qa < qc {
        proof {
            lemma_smaller_quotient(a as int, b as int, c as int, d as int, qa as int, ra as int, qc as int, rc as int);
            assert(a * d <= c * b);
        }
        true
    } else if qc < qa {
        proof {
            lemma_smaller_quotient(c as int, d as int, a as int, b as int, qc as int, rc as int, qa as int, ra as int);
            assert(!(a * d <= c * b));
        }
        false
    } else {
        proof {
            lemma_equal_quotient(a as int, b as int, c as int, d as int, qa as int, ra as int, rc as int);
        }
        if ra == 0 {
            assert(a * d <= c * b) by (nonlinear_arith)
                requires a * d - c * b == ra * d - rc * b, ra == 0, rc >= 0, b > 0;
            true
        } else if rc == 0 {
            assert(ra * d > 0) by (nonlinear_arith)
                requires ra > 0, d > 0;
            assert(!(a * d <= c * b));
            false
        } else {
            let le = ratio_le(d, rc, b, ra);
            assert(d * ra == ra * d && b * rc == rc * b) by (nonlinear_arith);
            assert(le == (a * d <= c * b));
            le
        }
    }
}

} // verus!
