//! Division rounded toward minus infinity on machine integers.
use vstd::prelude::*;
use vstd::arithmetic::div_mod::{lemma_fundamental_div_mod, lemma_fundamental_div_mod_converse, lemma_mod_pos_bound};

verus! {

/// The quotient of `n` by a positive `d`, rounded toward minus infinity.
pub fn floor_div(n: i128, d: i128) -> (q: i128)
    requires
        d > 0,
        n > i128::MIN,
    ensures
        q == n / d,
        q * d <= n < q * d + d,
{
    proof {
        lemma_fundamental_div_mod(n as int, d as int);
        lemma_mod_pos_bound_any(n as int, d as int);
        assert(d * (n / d) == (n / d) * d) by (nonlinear_arith);
    }
    if n >= 0 {
        n / d
    } else {
        let m: i128 = -n;
        let q0: i128 = m / d;
        let r0: i128 = m % d;
        proof {
            lemma_fundamental_div_mod(m as int, d as int);
            lemma_mod_pos_bound(m as int, d as int);
            assert(d * q0 == q0 * d) by (nonlinear_arith);
            assert(0 <= q0 <= m) by (nonlinear_arith)
                requires
                    m == d * q0 + r0,
                    0 <= r0 < d,
                    m > 0,
                    d > 0,
            ;
            if r0 == 0 {
                assert((-q0) * d == -(q0 * d)) by (nonlinear_arith);
                lemma_fundamental_div_mod_converse(n as int, d as int, -q0 as int, 0);
            } else {
                assert((-q0 - 1) * d == -(q0 * d) - d) by (nonlinear_arith);
                lemma_fundamental_div_mod_converse(n as int, d as int, -q0 - 1, d - r0);
            }
        }
        if r0 == 0 {
            -q0
        } else {
            -q0 - 1
        }
    }
}

/// The remainder of a division by a positive number lies below the divisor,
/// whatever the sign of the dividend.
pub proof fn lemma_mod_pos_bound_any(n: int, d: int)
    requires
        d > 0,
    ensures
        0 <= n % d < d,
{
    vstd::arithmetic::div_mod::lemma_mod_bound(n, d);
}

} // verus!
