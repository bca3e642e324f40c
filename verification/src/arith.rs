//! Arithmetic that several modules share.

use vstd::prelude::*;

verus! {

/// The product of two 64-bit numbers, which always fits in 128 bits.
pub(crate) fn wide_mul(a: u64, b: u64) -> (product: u128)
    ensures
        product == a * b,
        product <= 0xffff_ffff_ffff_fffe_0000_0000_0000_0001,
{
    assert(a * b <= 0xffff_ffff_ffff_fffe_0000_0000_0000_0001) by (nonlinear_arith)
        requires
            a <= 0xffff_ffff_ffff_ffff,
            b <= 0xffff_ffff_ffff_ffff,
    ;
    a as u128 * b as u128
}

/// A quotient lies below a bound exactly when the dividend lies below the
/// bound's multiple.
pub proof fn lemma_div_below(x: int, d: int, bound: int)
    requires
        0 <= x,
        0 < d,
    ensures
        x / d < bound <==> x < bound * d,
{
    vstd::arithmetic::div_mod::lemma_fundamental_div_mod(x, d);
    vstd::arithmetic::div_mod::lemma_mod_bound(x, d);
    let q = x / d;
    if q < bound {
        assert(d * q + d <= bound * d) by (nonlinear_arith)
            requires
                q + 1 <= bound,
                0 < d,
        ;
    } else {
        assert(bound * d <= d * q) by (nonlinear_arith)
            requires
                bound <= q,
                0 < d,
        ;
    }
}

} // verus!
