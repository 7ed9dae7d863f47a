//! Elements of the BLS12-381 scalar field, held as four little-endian limbs.

use vstd::prelude::*;
use vstd::arithmetic::div_mod::*;
use vstd::arithmetic::mul::*;
use ark_bls12_381::Fr;
use ark_ff::{BigInt, FftField, Field, PrimeField};

verus! {

/// Least significant limb of the field's modulus.
pub const MODULUS_L0: u64 = 0xffff_ffff_0000_0001;
/// Second limb of the field's modulus.
pub const MODULUS_L1: u64 = 0x53bd_a402_fffe_5bfe;
/// Third limb of the field's modulus.
pub const MODULUS_L2: u64 = 0x3339_d808_09a1_d805;
/// Most significant limb of the field's modulus.
pub const MODULUS_L3: u64 = 0x73ed_a753_299d_7d48;

/// The number that four little-endian 64-bit limbs stand for.
pub open spec fn limbs_value(l0: u64, l1: u64, l2: u64, l3: u64) -> nat {
    (l0 as nat) + (l1 as nat) * 18446744073709551616 + (l2 as nat)
        * 340282366920938463463374607431768211456 + (l3 as nat)
        * 6277101735386680763835789423207666416102355444464034512896
}

/// The prime order of the scalar field.
pub open spec fn modulus() -> nat {
    limbs_value(MODULUS_L0, MODULUS_L1, MODULUS_L2, MODULUS_L3)
}

/// Sum in the field.
pub open spec fn fadd(a: nat, b: nat) -> nat {
    (a + b) % modulus()
}

/// Additive inverse in the field.
pub open spec fn fneg(a: nat) -> nat {
    ((modulus() - a % modulus()) % (modulus() as int)) as nat
}

/// Difference in the field.
pub open spec fn fsub(a: nat, b: nat) -> nat {
    fadd(a, fneg(b))
}

/// Product in the field.
pub open spec fn fmul(a: nat, b: nat) -> nat {
    (a * b) % modulus()
}

/// `a` raised to the power `e` in the field.
pub open spec fn fpow(a: nat, e: nat) -> nat
    decreases e,
{
    if e == 0 {
        1
    } else {
        fmul(a, fpow(a, (e - 1) as nat))
    }
}

/// The odd part of `modulus - 1`, which is `2^32` times it.
pub open spec fn trace() -> nat {
    ((modulus() - 1) / 4294967296) as nat
}

/// The field's root of unity of order `2^32`: its generator 7 raised to the
/// odd part of `modulus - 1`.
pub open spec fn two_adic_root() -> nat {
    fpow(7, trace())
}

/// Whether `x` is a reduced multiplicative inverse of `a`.
pub open spec fn is_inverse(a: nat, x: nat) -> bool {
    x < modulus() && fmul(a, x) == 1
}

/// The multiplicative inverse of `a`, where it has one.
pub open spec fn finv(a: nat) -> nat {
    choose|x: nat| is_inverse(a, x)
}

/// Quotient in the field: `a` times the inverse of `b`.
pub open spec fn fdiv(a: nat, b: nat) -> nat {
    fmul(a, finv(b))
}

/// The modulus is positive and fits the limbs it is written in.
pub proof fn lemma_modulus_positive()
    ensures
        modulus() > 1,
{
}

/// A reduced element has at most one reduced inverse.
pub proof fn lemma_inverse_unique(a: nat, x: nat, y: nat)
    requires
        is_inverse(a, x),
        is_inverse(a, y),
    ensures
        x == y,
{
    let m = modulus() as int;
    lemma_modulus_positive();
    // x = x * (a * y) = (x * a) * y = y, all modulo m
    assert(((x as int) * ((a * y) as int % m)) % m == ((x as int) * ((a * y) as int)) % m) by {
        lemma_mul_mod_noop_right(x as int, (a * y) as int, m);
    }
    assert((((a * x) as int % m) * (y as int)) % m == (((a * x) as int) * (y as int)) % m) by {
        lemma_mul_mod_noop_left((a * x) as int, y as int, m);
    }
    assert((x as int) * ((a * y) as int) == ((a * x) as int) * (y as int)) by (nonlinear_arith);
    assert((x as int) * 1 == x as int);
    assert(1 * (y as int) == y as int);
    lemma_small_mod(x, m as nat);
    lemma_small_mod(y, m as nat);
}

/// Sums and products in the field are reduced.
pub proof fn lemma_reduced(a: nat, b: nat)
    ensures
        fadd(a, b) < modulus(),
        fmul(a, b) < modulus(),
        fsub(a, b) < modulus(),
        fneg(a) < modulus(),
{
    lemma_modulus_positive();
    let m = modulus() as int;
    lemma_mod_bound((a + b) as int, m);
    lemma_mod_bound((a * b) as int, m);
    lemma_mod_bound((a + fneg(b)) as int, m);
    lemma_mod_bound(m - (a % modulus()) as int, m);
}

/// Adding zero, or multiplying by zero.
pub proof fn lemma_zero(a: nat)
    ensures
        a < modulus() ==> fadd(a, 0) == a && fadd(0, a) == a,
        fmul(a, 0) == 0,
        fmul(0, a) == 0,
{
    lemma_modulus_positive();
    assert(a * 0 == 0);
    assert(0 * a == 0);
    lemma_small_mod(0, modulus());
    if a < modulus() {
        lemma_small_mod(a, modulus());
    }
}

/// Two terms added to a sum can be added in either order.
pub proof fn lemma_add_swap(a: nat, x: nat, t: nat)
    ensures
        fadd(fadd(a, x), t) == fadd(fadd(a, t), x),
{
    lemma_modulus_positive();
    let m = modulus() as int;
    lemma_add_mod_noop_right(t as int, (a + x) as int, m);
    lemma_add_mod_noop_right(x as int, (a + t) as int, m);
}

/// A term added and then taken away again leaves the sum of the rest.
pub proof fn lemma_add_sub_cancel(a: nat, r: nat, t: nat)
    requires
        t < modulus(),
    ensures
        fadd(fadd(a, t), fsub(r, t)) == fadd(a, r),
{
    lemma_modulus_positive();
    let m = modulus() as int;
    lemma_small_mod(t, modulus());
    let neg = fneg(t);
    assert(neg as int == (m - t) % m);
    // fsub(r, t) = (r + (m - t)) % m
    lemma_add_mod_noop_right(r as int, m - t, m);
    assert(fsub(r, t) as int == (r + (m - t)) % m);
    lemma_add_mod_noop((a + t) as int, r + (m - t), m);
    assert(fadd(fadd(a, t), fsub(r, t)) as int == ((a + t) + (r + (m - t))) % m);
    assert((a + t) + (r + (m - t)) == m + (a + r));
    lemma_mod_add_multiples_vanish((a + r) as int, m);
}

/// Dividing by an invertible element and multiplying by it again gives the
/// reduced element back.
pub proof fn lemma_div_mul_cancel(a: nat, b: nat)
    requires
        a < modulus(),
        is_inverse(b, finv(b)),
    ensures
        fmul(fdiv(a, b), b) == a,
        fmul(b, fdiv(a, b)) == a,
{
    lemma_modulus_positive();
    let m = modulus() as int;
    let i = finv(b);
    lemma_mul_mod_noop_left((a * i) as int, b as int, m);
    assert(((a * i) as int) * (b as int) == (a as int) * ((b * i) as int)) by (nonlinear_arith);
    lemma_mul_mod_noop_right(a as int, (b * i) as int, m);
    assert((a as int) * 1 == a as int);
    lemma_small_mod(a, modulus());
    assert(fdiv(a, b) * b == b * fdiv(a, b)) by (nonlinear_arith);
}

/// Whether the field element `a` and the integer `i` agree modulo the modulus.
pub open spec fn congruent(a: nat, i: int) -> bool {
    (a as int) % (modulus() as int) == i % (modulus() as int)
}

/// A sum in the field agrees with the sum of integers that its operands
/// agree with.
pub proof fn lemma_congruent_add(a: nat, b: nat, i: int, j: int)
    requires
        congruent(a, i),
        congruent(b, j),
    ensures
        congruent(fadd(a, b), i + j),
{
    lemma_modulus_positive();
    let m = modulus() as int;
    lemma_add_mod_noop(a as int, b as int, m);
    lemma_add_mod_noop(i, j, m);
    lemma_mod_bound((a + b) as int, m);
    lemma_small_mod(fadd(a, b), modulus());
}

/// A product in the field agrees with the product of integers that its
/// operands agree with.
pub proof fn lemma_congruent_mul(a: nat, b: nat, i: int, j: int)
    requires
        congruent(a, i),
        congruent(b, j),
    ensures
        congruent(fmul(a, b), i * j),
{
    lemma_modulus_positive();
    let m = modulus() as int;
    lemma_mul_mod_noop_general(a as int, b as int, m);
    lemma_mul_mod_noop_general(i, j, m);
    lemma_mod_bound((a * b) as int, m);
    lemma_small_mod(fmul(a, b), modulus());
}

/// A negation in the field agrees with the negated integer.
pub proof fn lemma_congruent_neg(a: nat, i: int)
    requires
        congruent(a, i),
    ensures
        congruent(fneg(a), -i),
{
    lemma_modulus_positive();
    let m = modulus() as int;
    let r = (a % modulus()) as int;
    lemma_mod_add_multiples_vanish(-r, m);
    lemma_sub_mod_noop_right(0, a as int, m);
    lemma_sub_mod_noop_right(0, i, m);
    lemma_mod_bound(m - r, m);
    lemma_small_mod(fneg(a), modulus());
}

/// A difference in the field agrees with the difference of integers that its
/// operands agree with.
pub proof fn lemma_congruent_sub(a: nat, b: nat, i: int, j: int)
    requires
        congruent(a, i),
        congruent(b, j),
    ensures
        congruent(fsub(a, b), i - j),
{
    lemma_congruent_neg(b, j);
    lemma_congruent_add(a, fneg(b), i, -j);
}

/// Two reduced elements that agree with the same integer are equal.
pub proof fn lemma_congruent_equal(a: nat, b: nat, i: int)
    requires
        congruent(a, i),
        congruent(b, i),
        a < modulus(),
        b < modulus(),
    ensures
        a == b,
{
    lemma_small_mod(a, modulus());
    lemma_small_mod(b, modulus());
}

/// A power in the field is reduced.
pub proof fn lemma_pow_reduced(a: nat, e: nat)
    ensures
        fpow(a, e) < modulus(),
{
    lemma_modulus_positive();
    if e > 0 {
        lemma_reduced(a, fpow(a, (e - 1) as nat));
    }
}

/// Products can be regrouped.
pub proof fn lemma_mul_assoc(a: nat, b: nat, c: nat)
    ensures
        fmul(fmul(a, b), c) == fmul(a, fmul(b, c)),
{
    let (i, j, k) = (a as int, b as int, c as int);
    lemma_congruent_mul(a, b, i, j);
    lemma_congruent_mul(fmul(a, b), c, i * j, k);
    lemma_congruent_mul(b, c, j, k);
    lemma_congruent_mul(a, fmul(b, c), i, j * k);
    assert((i * j) * k == i * (j * k)) by (nonlinear_arith);
    lemma_reduced(fmul(a, b), c);
    lemma_reduced(a, fmul(b, c));
    lemma_congruent_equal(fmul(fmul(a, b), c), fmul(a, fmul(b, c)), (i * j) * k);
}

/// The last two factors of a product can change places.
pub proof fn lemma_mul_swap(a: nat, b: nat, c: nat)
    ensures
        fmul(fmul(a, b), c) == fmul(fmul(a, c), b),
{
    let (i, j, k) = (a as int, b as int, c as int);
    lemma_congruent_mul(a, b, i, j);
    lemma_congruent_mul(fmul(a, b), c, i * j, k);
    lemma_congruent_mul(a, c, i, k);
    lemma_congruent_mul(fmul(a, c), b, i * k, j);
    assert((i * j) * k == (i * k) * j) by (nonlinear_arith);
    lemma_reduced(fmul(a, b), c);
    lemma_reduced(fmul(a, c), b);
    lemma_congruent_equal(fmul(fmul(a, b), c), fmul(fmul(a, c), b), (i * j) * k);
}

/// A product distributes over a sum.
pub proof fn lemma_distributive(a: nat, b: nat, c: nat)
    ensures
        fadd(fmul(a, c), fmul(b, c)) == fmul(fadd(a, b), c),
{
    let (i, j, k) = (a as int, b as int, c as int);
    lemma_congruent_mul(a, c, i, k);
    lemma_congruent_mul(b, c, j, k);
    lemma_congruent_add(fmul(a, c), fmul(b, c), i * k, j * k);
    lemma_congruent_add(a, b, i, j);
    lemma_congruent_mul(fadd(a, b), c, i + j, k);
    assert(i * k + j * k == (i + j) * k) by (nonlinear_arith);
    lemma_reduced(fmul(a, c), fmul(b, c));
    lemma_reduced(fadd(a, b), c);
    lemma_congruent_equal(fadd(fmul(a, c), fmul(b, c)), fmul(fadd(a, b), c), i * k + j * k);
}

/// A product with an invertible element is zero only when the other factor
/// is.
pub proof fn lemma_cancel(a: nat, b: nat)
    requires
        a < modulus(),
        is_inverse(b, finv(b)),
        fmul(a, b) == 0,
    ensures
        a == 0,
{
    let inv = finv(b);
    let (i, j, k) = (a as int, b as int, inv as int);
    lemma_modulus_positive();
    lemma_small_mod(1, modulus());
    lemma_small_mod(a, modulus());
    lemma_small_mod(0, modulus());
    lemma_congruent_mul(a, b, i, j);
    lemma_congruent_mul(fmul(a, b), inv, i * j, k);
    lemma_congruent_mul(b, inv, j, k);
    assert(congruent(1, j * k));
    lemma_congruent_mul(a, 1, i, j * k);
    assert(a * 1 == a);
    assert(fmul(a, 1) == a);
    assert(0 * inv == 0);
    assert(fmul(0, inv) == 0);
    assert((i * j) * k == i * (j * k)) by (nonlinear_arith);
    lemma_congruent_equal(a, 0, (i * j) * k);
}

/// An element of the scalar field, kept reduced below the modulus.
#[derive(Clone, Copy, Debug, PartialEq, Eq)]
pub struct Scalar {
    l0: u64,
    l1: u64,
    l2: u64,
    l3: u64,
}

impl Scalar {
    /// The element as a natural number below the modulus.
    pub closed spec fn view(&self) -> nat {
        limbs_value(self.l0, self.l1, self.l2, self.l3)
    }

    /// Every scalar is reduced.
    #[verifier::type_invariant]
    pub open spec fn reduced(&self) -> bool {
        self@ < modulus()
    }

    /// The additive identity.
    pub fn zero() -> (r: Scalar)
        ensures
            r@ == 0,
    {
        Scalar { l0: 0, l1: 0, l2: 0, l3: 0 }
    }

    /// The multiplicative identity.
    pub fn one() -> (r: Scalar)
        ensures
            r@ == 1,
    {
        Scalar { l0: 1, l1: 0, l2: 0, l3: 0 }
    }

    /// The field's root of unity of order `2^32`.
    pub fn two_adic_root() -> (r: Scalar)
        ensures
            r@ == two_adic_root(),
    {
        fr_two_adic_root()
    }

    /// The scalar with the value of `x`.
    pub fn from_u64(x: u64) -> (r: Scalar)
        ensures
            r@ == x,
    {
        Scalar { l0: x, l1: 0, l2: 0, l3: 0 }
    }

    /// The scalar with the given little-endian limbs, if they are below the modulus.
    pub fn from_limbs(l0: u64, l1: u64, l2: u64, l3: u64) -> (r: Option<Scalar>)
        ensures
            r.is_some() <==> limbs_value(l0, l1, l2, l3) < modulus(),
            r.is_some() ==> r.unwrap()@ == limbs_value(l0, l1, l2, l3),
            r.is_some() ==> r.unwrap().limbs() == (l0, l1, l2, l3),
    {
        let below = if l3 != MODULUS_L3 {
            l3 < MODULUS_L3
        } else if l2 != MODULUS_L2 {
            l2 < MODULUS_L2
        } else if l1 != MODULUS_L1 {
            l1 < MODULUS_L1
        } else {
            l0 < MODULUS_L0
        };
        if below {
            Some(Scalar { l0, l1, l2, l3 })
        } else {
            None
        }
    }

    /// The four little-endian limbs, least significant first.
    pub closed spec fn limbs(&self) -> (u64, u64, u64, u64) {
        (self.l0, self.l1, self.l2, self.l3)
    }

    /// The four little-endian limbs of the reduced value.
    pub fn to_limbs(&self) -> (r: (u64, u64, u64, u64))
        ensures
            r == self.limbs(),
            limbs_value(r.0, r.1, r.2, r.3) == self@,
    {
        (self.l0, self.l1, self.l2, self.l3)
    }

    /// Whether this is the additive identity.
    pub fn is_zero(&self) -> (b: bool)
        ensures
            b == (self@ == 0),
    {
        self.l0 == 0 && self.l1 == 0 && self.l2 == 0 && self.l3 == 0
    }

    /// Whether two scalars are the same field element.
    pub fn equals(&self, other: &Scalar) -> (b: bool)
        ensures
            b == (self@ == other@),
    {
        self.l0 == other.l0 && self.l1 == other.l1 && self.l2 == other.l2 && self.l3 == other.l3
    }

    /// Sum of two scalars.
    pub fn add(&self, other: &Scalar) -> (r: Scalar)
        ensures
            r@ == fadd(self@, other@),
    {
        fr_add(self, other)
    }

    /// Difference of two scalars.
    pub fn sub(&self, other: &Scalar) -> (r: Scalar)
        ensures
            r@ == fsub(self@, other@),
            r@ == 0 <==> self@ == other@,
    {
        let r = fr_sub(self, other);
        proof {
            use_type_invariant(self);
            use_type_invariant(other);
            lemma_sub_zero(self@, other@);
        }
        r
    }

    /// Product of two scalars.
    pub fn mul(&self, other: &Scalar) -> (r: Scalar)
        ensures
            r@ == fmul(self@, other@),
            r@ == 0 ==> self@ == 0 || other@ == 0,
    {
        fr_mul(self, other)
    }

    /// Additive inverse.
    pub fn neg(&self) -> (r: Scalar)
        ensures
            r@ == fneg(self@),
    {
        fr_neg(self)
    }

    /// Multiplicative inverse: `None` exactly for zero.
    pub fn inverse(&self) -> (r: Option<Scalar>)
        ensures
            r.is_none() <==> self@ == 0,
            r.is_some() ==> r.unwrap()@ == finv(self@) && is_inverse(self@, finv(self@)),
    {
        let r = fr_inverse(self);
        proof {
            if let Some(x) = r {
                use_type_invariant(&x);
                lemma_inverse_unique(self@, x@, finv(self@));
            }
        }
        r
    }

    /// The scalar raised to the power `e`.
    pub fn pow(&self, e: u64) -> (r: Scalar)
        ensures
            r@ == fpow(self@, e as nat),
    {
        fr_pow(self, e)
    }
}

/// Two reduced elements differ by zero exactly when they are equal.
pub proof fn lemma_sub_zero(a: nat, b: nat)
    requires
        a < modulus(),
        b < modulus(),
    ensures
        fsub(a, b) == 0 <==> a == b,
{
    let m = modulus();
    lemma_small_mod(b, m);
    if b == 0 {
        lemma_mod_self_0(m as int);
        lemma_small_mod(a, m);
    } else {
        lemma_small_mod((m - b) as nat, m);
        let s = (a + (m - b)) as nat;
        if a == b {
            lemma_mod_self_0(m as int);
        } else if a < b {
            lemma_small_mod(s, m);
        } else {
            assert(s == m + (a - b));
            lemma_mod_add_multiples_vanish((a - b) as int, m as int);
            lemma_small_mod((a - b) as nat, m);
        }
    }
}

/// Field addition of `ark_ff`: the `+` of `Fr`, on the canonical integers that
/// `into_bigint` returns. The result is the reduced sum.
#[verifier::external_body]
fn fr_add(a: &Scalar, b: &Scalar) -> (r: Scalar)
    ensures
        r@ == fadd(a@, b@),
{
    let x = Fr::from(BigInt::new([a.l0, a.l1, a.l2, a.l3]));
    let y = Fr::from(BigInt::new([b.l0, b.l1, b.l2, b.l3]));
    let s = (x + y).into_bigint().0;
    Scalar { l0: s[0], l1: s[1], l2: s[2], l3: s[3] }
}

/// Field subtraction of `ark_ff`: the `-` of `Fr`. The result is the reduced
/// difference.
#[verifier::external_body]
fn fr_sub(a: &Scalar, b: &Scalar) -> (r: Scalar)
    ensures
        r@ == fsub(a@, b@),
{
    let x = Fr::from(BigInt::new([a.l0, a.l1, a.l2, a.l3]));
    let y = Fr::from(BigInt::new([b.l0, b.l1, b.l2, b.l3]));
    let s = (x - y).into_bigint().0;
    Scalar { l0: s[0], l1: s[1], l2: s[2], l3: s[3] }
}

/// Field multiplication of `ark_ff`: the `*` of `Fr`. The result is the reduced
/// product; the modulus being prime, it is zero only when a factor is.
#[verifier::external_body]
fn fr_mul(a: &Scalar, b: &Scalar) -> (r: Scalar)
    ensures
        r@ == fmul(a@, b@),
        r@ == 0 ==> a@ == 0 || b@ == 0,
{
    let x = Fr::from(BigInt::new([a.l0, a.l1, a.l2, a.l3]));
    let y = Fr::from(BigInt::new([b.l0, b.l1, b.l2, b.l3]));
    let s = (x * y).into_bigint().0;
    Scalar { l0: s[0], l1: s[1], l2: s[2], l3: s[3] }
}

/// Field negation of `ark_ff`: the unary `-` of `Fr`. The result is the reduced
/// additive inverse.
#[verifier::external_body]
fn fr_neg(a: &Scalar) -> (r: Scalar)
    ensures
        r@ == fneg(a@),
{
    let x = Fr::from(BigInt::new([a.l0, a.l1, a.l2, a.l3]));
    let s = (-x).into_bigint().0;
    Scalar { l0: s[0], l1: s[1], l2: s[2], l3: s[3] }
}

/// `Field::inverse` of `ark_ff` on `Fr`: `None` for zero, otherwise the reduced
/// element whose product with the argument is one.
#[verifier::external_body]
fn fr_inverse(a: &Scalar) -> (r: Option<Scalar>)
    ensures
        r.is_none() <==> a@ == 0,
        r.is_some() ==> is_inverse(a@, r.unwrap()@),
{
    let x = Fr::from(BigInt::new([a.l0, a.l1, a.l2, a.l3]));
    match x.inverse() {
        Some(y) => {
            let s = y.into_bigint().0;
            Some(Scalar { l0: s[0], l1: s[1], l2: s[2], l3: s[3] })
        },
        None => None,
    }
}

/// `Field::pow` of `ark_ff` on `Fr` with a one-limb exponent: the argument
/// multiplied with itself `e` times, reduced.
#[verifier::external_body]
fn fr_pow(a: &Scalar, e: u64) -> (r: Scalar)
    ensures
        r@ == fpow(a@, e as nat),
{
    let x = Fr::from(BigInt::new([a.l0, a.l1, a.l2, a.l3]));
    let s = x.pow([e]).into_bigint().0;
    Scalar { l0: s[0], l1: s[1], l2: s[2], l3: s[3] }
}

/// `FftField::TWO_ADIC_ROOT_OF_UNITY` of `ark_ff` on `Fr`: the generator 7
/// of the field raised to the odd part of `modulus - 1`, reduced.
#[verifier::external_body]
fn fr_two_adic_root() -> (r: Scalar)
    ensures
        r@ == two_adic_root(),
{
    let s = Fr::TWO_ADIC_ROOT_OF_UNITY.into_bigint().0;
    Scalar { l0: s[0], l1: s[1], l2: s[2], l3: s[3] }
}

} // verus!
