//! Roots of unity of the scalar field.

use vstd::prelude::*;
use vstd::arithmetic::power2::pow2;
use crate::field::{fmul, two_adic_root, Scalar};

verus! {

/// The two-adicity of the field: the modulus less one is `2^32` times an odd
/// number.
pub const TWO_ADICITY: u32 = 32;

/// The least `e` with `2^e >= x`.
pub open spec fn ceil_log2(x: nat) -> nat
    decreases x,
{
    if x <= 1 {
        0
    } else {
        1 + ceil_log2((x + 1) / 2)
    }
}

/// `a` squared `k` times over.
pub open spec fn squarings(a: nat, k: nat) -> nat
    decreases k,
{
    if k == 0 {
        a
    } else {
        let s = squarings(a, (k - 1) as nat);
        fmul(s, s)
    }
}

/// Whether `x` is a power of two.
pub open spec fn is_power_of_two(x: nat) -> bool {
    exists|e: nat| pow2(e) == x
}

/// How often the root of order `2^32` is squared for a domain of `len`
/// elements.
pub open spec fn omega_rounds(len: nat) -> nat {
    if ceil_log2(len) < 32 {
        (32 - ceil_log2(len)) as nat
    } else {
        0
    }
}

/// `ark_std::log2`: the least `e` with `2^e >= x`, and zero for zero.
#[verifier::external_body]
fn log2_ceil(x: usize) -> (r: u32)
    ensures
        r == ceil_log2(x as nat),
{
    ark_std::log2(x)
}

/// The root of unity for the domain that fits the coefficients: the root of
/// order `2^32` squared until its order is the least power of two that is not
/// below the number of coefficients.
///
/// There is at least one coefficient, and their number, or that number less
/// one, is a power of two.
pub fn get_omega(coefficients: &[Scalar]) -> (r: Scalar)
    requires
        coefficients.len() >= 1,
        is_power_of_two((coefficients.len() - 1) as nat) || is_power_of_two(
            coefficients.len() as nat,
        ),
    ensures
        r@ == squarings(two_adic_root(), omega_rounds(coefficients.len() as nat)),
{
    let exp = log2_ceil(coefficients.len());
    let mut omega = Scalar::two_adic_root();
    let mut i: u32 = exp;
    while i < TWO_ADICITY
        invariant
            exp == ceil_log2(coefficients.len() as nat),
            exp <= i,
            exp < 32 ==> i <= 32,
            exp >= 32 ==> i == exp,
            omega@ == squarings(two_adic_root(), (i - exp) as nat),
        decreases TWO_ADICITY - i,
    {
        omega = omega.mul(&omega);
        i += 1;
    }
    omega
}

} // verus!
