//! The two source groups of the pairing and its target values.
//!
//! Group elements are held as their canonical compressed encodings. The group
//! law and the pairing are computed by the arkworks crates; their results are
//! named here and not defined.

use vstd::prelude::*;
use crate::field::{limbs_value, modulus, Scalar};
use ark_bls12_381::{Bls12_381, Fr, G1Projective, G2Projective};
use ark_ec::pairing::Pairing;
use ark_ff::BigInt;
use ark_serialize::{CanonicalDeserialize, CanonicalSerialize};

verus! {

/// A copy of a byte vector.
pub fn copy_bytes(v: &Vec<u8>) -> (r: Vec<u8>)
    ensures
        r@ == v@,
{
    let mut r: Vec<u8> = Vec::new();
    let mut i: usize = 0;
    while i < v.len()
        invariant
            i <= v.len(),
            r@ == v@.take(i as int),
        decreases v.len() - i,
    {
        r.push(v[i]);
        assert(r@ =~= v@.take(i + 1));
        i += 1;
    }
    assert(v@.take(v.len() as int) =~= v@);
    r
}

/// Whether two byte vectors hold the same bytes.
pub fn bytes_equal(a: &Vec<u8>, b: &Vec<u8>) -> (r: bool)
    ensures
        r == (a@ == b@),
{
    if a.len() != b.len() {
        return false;
    }
    let mut i: usize = 0;
    while i < a.len()
        invariant
            i <= a.len(),
            a.len() == b.len(),
            forall|t: int| 0 <= t < i ==> a[t] == b[t],
        decreases a.len() - i,
    {
        if a[i] != b[i] {
            return false;
        }
        i += 1;
    }
    assert(a@ =~= b@);
    true
}

/// The canonical compressed encoding of the G1 element that `bytes` decodes
/// to, if it decodes to one.
pub uninterp spec fn g1_canonical(bytes: Seq<u8>) -> Option<Seq<u8>>;

/// The encoding of the sum of the G1 elements encoded by `a` and `b`.
pub uninterp spec fn g1_sum(a: Seq<u8>, b: Seq<u8>) -> Seq<u8>;

/// The encoding of the G1 element encoded by `a` minus the one encoded by `b`.
pub uninterp spec fn g1_difference(a: Seq<u8>, b: Seq<u8>) -> Seq<u8>;

/// The encoding of `k` times the G1 element encoded by `p`.
pub uninterp spec fn g1_multiple(p: Seq<u8>, k: nat) -> Seq<u8>;

/// `CanonicalDeserialize::deserialize_compressed` on `G1Projective`, followed by
/// `serialize_compressed`: `None` when the bytes are refused (too few bytes,
/// wrong flags, no point with that coordinate, or a point outside the
/// prime-order subgroup), otherwise the canonical encoding of the point, which
/// decodes to itself and has 48 bytes. Only the first 48 bytes are read.
#[verifier::external_body]
fn g1_decode(bytes: &[u8]) -> (r: Option<Vec<u8>>)
    ensures
        r.is_some() == g1_canonical(bytes@).is_some(),
        r.is_some() ==> r.unwrap()@ == g1_canonical(bytes@).unwrap(),
        r.is_some() ==> g1_canonical(r.unwrap()@) == Some(r.unwrap()@),
        r.is_some() ==> r.unwrap()@.len() == 48,
{
    match G1Projective::deserialize_compressed(bytes) {
        Ok(p) => {
            let mut out: Vec<u8> = Vec::new();
            p.serialize_compressed(&mut out).unwrap();
            Some(out)
        },
        Err(_) => None,
    }
}

/// The `+` of `G1Projective` between two decoded elements. The result is the
/// canonical encoding of their sum, of 48 bytes.
#[verifier::external_body]
fn g1_add(a: &Vec<u8>, b: &Vec<u8>) -> (r: Vec<u8>)
    requires
        g1_canonical(a@) == Some(a@),
        g1_canonical(b@) == Some(b@),
    ensures
        r@ == g1_sum(a@, b@),
        g1_canonical(r@) == Some(r@),
        r@.len() == 48,
{
    let x = G1Projective::deserialize_compressed_unchecked(a.as_slice()).unwrap();
    let y = G1Projective::deserialize_compressed_unchecked(b.as_slice()).unwrap();
    let mut out: Vec<u8> = Vec::new();
    (x + y).serialize_compressed(&mut out).unwrap();
    out
}

/// The `-` of `G1Projective` between two decoded elements. The result is the
/// canonical encoding of their difference, of 48 bytes.
#[verifier::external_body]
fn g1_sub(a: &Vec<u8>, b: &Vec<u8>) -> (r: Vec<u8>)
    requires
        g1_canonical(a@) == Some(a@),
        g1_canonical(b@) == Some(b@),
    ensures
        r@ == g1_difference(a@, b@),
        g1_canonical(r@) == Some(r@),
        r@.len() == 48,
{
    let x = G1Projective::deserialize_compressed_unchecked(a.as_slice()).unwrap();
    let y = G1Projective::deserialize_compressed_unchecked(b.as_slice()).unwrap();
    let mut out: Vec<u8> = Vec::new();
    (x - y).serialize_compressed(&mut out).unwrap();
    out
}

/// The `*` of `G1Projective` by an `Fr` given by its reduced limbs. The result
/// is the canonical encoding of that multiple of the decoded element, of 48
/// bytes.
#[verifier::external_body]
fn g1_mul(p: &Vec<u8>, l0: u64, l1: u64, l2: u64, l3: u64) -> (r: Vec<u8>)
    requires
        g1_canonical(p@) == Some(p@),
        limbs_value(l0, l1, l2, l3) < modulus(),
    ensures
        r@ == g1_multiple(p@, limbs_value(l0, l1, l2, l3)),
        g1_canonical(r@) == Some(r@),
        r@.len() == 48,
{
    let x = G1Projective::deserialize_compressed_unchecked(p.as_slice()).unwrap();
    let k = Fr::from(BigInt::new([l0, l1, l2, l3]));
    let mut out: Vec<u8> = Vec::new();
    (x * k).serialize_compressed(&mut out).unwrap();
    out
}

/// The uncompressed encoding of the G1 element whose canonical compressed
/// encoding is `p`.
pub uninterp spec fn g1_expanded(p: Seq<u8>) -> Seq<u8>;

/// The compressed encoding of what the uncompressed decoder reads from
/// `bytes`, if it accepts them.
pub uninterp spec fn g1_compressed_from(bytes: Seq<u8>) -> Option<Seq<u8>>;

/// `CanonicalSerialize::serialize_uncompressed` on a decoded `G1Projective`. The
/// result has 96 bytes, and the uncompressed decoder reads the same element
/// back from it.
#[verifier::external_body]
fn g1_expand(p: &Vec<u8>) -> (r: Vec<u8>)
    requires
        g1_canonical(p@) == Some(p@),
    ensures
        r@ == g1_expanded(p@),
        r@.len() == 96,
        g1_compressed_from(r@) == Some(p@),
{
    let x = G1Projective::deserialize_compressed_unchecked(p.as_slice()).unwrap();
    let mut out: Vec<u8> = Vec::new();
    x.serialize_uncompressed(&mut out).unwrap();
    out
}

/// `CanonicalDeserialize::deserialize_uncompressed` on `G1Projective`, followed
/// by `serialize_compressed`: `None` when the bytes are refused. The decoder
/// tests the subgroup but not the curve equation, so nothing is claimed of
/// the bytes that come back but that they are a function of the input.
#[verifier::external_body]
fn g1_compress_from(bytes: &[u8]) -> (r: Option<Vec<u8>>)
    ensures
        r.is_some() == g1_compressed_from(bytes@).is_some(),
        r.is_some() ==> r.unwrap()@ == g1_compressed_from(bytes@).unwrap(),
{
    match G1Projective::deserialize_uncompressed(bytes) {
        Ok(p) => {
            let mut out: Vec<u8> = Vec::new();
            p.serialize_compressed(&mut out).unwrap();
            Some(out)
        },
        Err(_) => None,
    }
}

/// An element of the group G1, held as its canonical compressed encoding.
#[derive(Debug, PartialEq, Eq)]
pub struct G1Point {
    bytes: Vec<u8>,
}

impl Clone for G1Point {
    fn clone(&self) -> (r: Self)
        ensures
            r@ == self@,
    {
        self.duplicate()
    }
}

impl G1Point {
    /// The canonical compressed encoding.
    pub closed spec fn view(&self) -> Seq<u8> {
        self.bytes@
    }

    /// The bytes held are the canonical encoding of a group element, and
    /// there are 48 of them.
    #[verifier::type_invariant]
    pub open spec fn canonical(&self) -> bool {
        g1_canonical(self@) == Some(self@) && self@.len() == 48
    }

    /// Decodes a compressed encoding, read from the first 48 bytes; `None`
    /// when they encode no element.
    pub fn from_bytes(bytes: &[u8]) -> (r: Option<G1Point>)
        ensures
            r.is_some() == g1_canonical(bytes@).is_some(),
            r.is_some() ==> r.unwrap()@ == g1_canonical(bytes@).unwrap(),
    {
        match g1_decode(bytes) {
            Some(b) => Some(G1Point { bytes: b }),
            None => None,
        }
    }

    /// The canonical compressed encoding, of 48 bytes.
    pub fn to_bytes(&self) -> (r: Vec<u8>)
        ensures
            r@ == self@,
            r@.len() == 48,
            g1_canonical(r@) == Some(r@),
    {
        proof {
            use_type_invariant(self);
        }
        copy_bytes(&self.bytes)
    }

    /// The uncompressed encoding, of 96 bytes; `from_uncompressed` gives the
    /// element back from it.
    pub fn to_uncompressed(&self) -> (r: Vec<u8>)
        ensures
            r@ == g1_expanded(self@),
            r@.len() == 96,
            g1_compressed_from(r@) == Some(self@),
            g1_canonical(self@) == Some(self@),
    {
        proof {
            use_type_invariant(self);
        }
        g1_expand(&self.bytes)
    }

    /// Decodes an uncompressed encoding, read from the first 96 bytes; `None`
    /// when the decoder refuses them or what it read is no element of the
    /// group.
    pub fn from_uncompressed(bytes: &[u8]) -> (r: Option<G1Point>)
        ensures
            r.is_some() <==> g1_compressed_from(bytes@).is_some() && g1_canonical(
                g1_compressed_from(bytes@).unwrap(),
            ).is_some(),
            r.is_some() ==> r.unwrap()@ == g1_canonical(
                g1_compressed_from(bytes@).unwrap(),
            ).unwrap(),
    {
        match g1_compress_from(bytes) {
            Some(c) => G1Point::from_bytes(c.as_slice()),
            None => None,
        }
    }

    /// A copy of the element.
    pub fn duplicate(&self) -> (r: G1Point)
        ensures
            r@ == self@,
    {
        proof {
            use_type_invariant(self);
        }
        G1Point { bytes: copy_bytes(&self.bytes) }
    }

    /// Whether two elements are the same.
    pub fn equals(&self, other: &G1Point) -> (b: bool)
        ensures
            b == (self@ == other@),
    {
        bytes_equal(&self.bytes, &other.bytes)
    }

    /// The sum of two elements.
    pub fn add(&self, other: &G1Point) -> (r: G1Point)
        ensures
            r@ == g1_sum(self@, other@),
    {
        proof {
            use_type_invariant(self);
            use_type_invariant(other);
        }
        G1Point { bytes: g1_add(&self.bytes, &other.bytes) }
    }

    /// This element minus `other`.
    pub fn sub(&self, other: &G1Point) -> (r: G1Point)
        ensures
            r@ == g1_difference(self@, other@),
    {
        proof {
            use_type_invariant(self);
            use_type_invariant(other);
        }
        G1Point { bytes: g1_sub(&self.bytes, &other.bytes) }
    }

    /// The element multiplied by the scalar `k`.
    pub fn scale(&self, k: &Scalar) -> (r: G1Point)
        ensures
            r@ == g1_multiple(self@, k@),
    {
        proof {
            use_type_invariant(self);
            use_type_invariant(k);
        }
        let l = k.to_limbs();
        G1Point { bytes: g1_mul(&self.bytes, l.0, l.1, l.2, l.3) }
    }
}

/// The canonical compressed encoding of the G2 element that `bytes` decodes
/// to, if it decodes to one.
pub uninterp spec fn g2_canonical(bytes: Seq<u8>) -> Option<Seq<u8>>;

/// The encoding of the sum of the G2 elements encoded by `a` and `b`.
pub uninterp spec fn g2_sum(a: Seq<u8>, b: Seq<u8>) -> Seq<u8>;

/// The encoding of the G2 element encoded by `a` minus the one encoded by `b`.
pub uninterp spec fn g2_difference(a: Seq<u8>, b: Seq<u8>) -> Seq<u8>;

/// The encoding of `k` times the G2 element encoded by `p`.
pub uninterp spec fn g2_multiple(p: Seq<u8>, k: nat) -> Seq<u8>;

/// `CanonicalDeserialize::deserialize_compressed` on `G2Projective`, followed by
/// `serialize_compressed`: `None` when the bytes are refused (too few bytes,
/// wrong flags, no point with that coordinate, or a point outside the
/// prime-order subgroup), otherwise the canonical encoding of the point, which
/// decodes to itself and has 96 bytes. Only the first 96 bytes are read.
#[verifier::external_body]
fn g2_decode(bytes: &[u8]) -> (r: Option<Vec<u8>>)
    ensures
        r.is_some() == g2_canonical(bytes@).is_some(),
        r.is_some() ==> r.unwrap()@ == g2_canonical(bytes@).unwrap(),
        r.is_some() ==> g2_canonical(r.unwrap()@) == Some(r.unwrap()@),
        r.is_some() ==> r.unwrap()@.len() == 96,
{
    match G2Projective::deserialize_compressed(bytes) {
        Ok(p) => {
            let mut out: Vec<u8> = Vec::new();
            p.serialize_compressed(&mut out).unwrap();
            Some(out)
        },
        Err(_) => None,
    }
}

/// The `+` of `G2Projective` between two decoded elements. The result is the
/// canonical encoding of their sum, of 96 bytes.
#[verifier::external_body]
fn g2_add(a: &Vec<u8>, b: &Vec<u8>) -> (r: Vec<u8>)
    requires
        g2_canonical(a@) == Some(a@),
        g2_canonical(b@) == Some(b@),
    ensures
        r@ == g2_sum(a@, b@),
        g2_canonical(r@) == Some(r@),
        r@.len() == 96,
{
    let x = G2Projective::deserialize_compressed_unchecked(a.as_slice()).unwrap();
    let y = G2Projective::deserialize_compressed_unchecked(b.as_slice()).unwrap();
    let mut out: Vec<u8> = Vec::new();
    (x + y).serialize_compressed(&mut out).unwrap();
    out
}

/// The `-` of `G2Projective` between two decoded elements. The result is the
/// canonical encoding of their difference, of 96 bytes.
#[verifier::external_body]
fn g2_sub(a: &Vec<u8>, b: &Vec<u8>) -> (r: Vec<u8>)
    requires
        g2_canonical(a@) == Some(a@),
        g2_canonical(b@) == Some(b@),
    ensures
        r@ == g2_difference(a@, b@),
        g2_canonical(r@) == Some(r@),
        r@.len() == 96,
{
    let x = G2Projective::deserialize_compressed_unchecked(a.as_slice()).unwrap();
    let y = G2Projective::deserialize_compressed_unchecked(b.as_slice()).unwrap();
    let mut out: Vec<u8> = Vec::new();
    (x - y).serialize_compressed(&mut out).unwrap();
    out
}

/// The `*` of `G2Projective` by an `Fr` given by its reduced limbs. The result
/// is the canonical encoding of that multiple of the decoded element, of 96
/// bytes.
#[verifier::external_body]
fn g2_mul(p: &Vec<u8>, l0: u64, l1: u64, l2: u64, l3: u64) -> (r: Vec<u8>)
    requires
        g2_canonical(p@) == Some(p@),
        limbs_value(l0, l1, l2, l3) < modulus(),
    ensures
        r@ == g2_multiple(p@, limbs_value(l0, l1, l2, l3)),
        g2_canonical(r@) == Some(r@),
        r@.len() == 96,
{
    let x = G2Projective::deserialize_compressed_unchecked(p.as_slice()).unwrap();
    let k = Fr::from(BigInt::new([l0, l1, l2, l3]));
    let mut out: Vec<u8> = Vec::new();
    (x * k).serialize_compressed(&mut out).unwrap();
    out
}

/// The uncompressed encoding of the G2 element whose canonical compressed
/// encoding is `p`.
pub uninterp spec fn g2_expanded(p: Seq<u8>) -> Seq<u8>;

/// The compressed encoding of what the uncompressed decoder reads from
/// `bytes`, if it accepts them.
pub uninterp spec fn g2_compressed_from(bytes: Seq<u8>) -> Option<Seq<u8>>;

/// `CanonicalSerialize::serialize_uncompressed` on a decoded `G2Projective`. The
/// result has 192 bytes, and the uncompressed decoder reads the same element
/// back from it.
#[verifier::external_body]
fn g2_expand(p: &Vec<u8>) -> (r: Vec<u8>)
    requires
        g2_canonical(p@) == Some(p@),
    ensures
        r@ == g2_expanded(p@),
        r@.len() == 192,
        g2_compressed_from(r@) == Some(p@),
{
    let x = G2Projective::deserialize_compressed_unchecked(p.as_slice()).unwrap();
    let mut out: Vec<u8> = Vec::new();
    x.serialize_uncompressed(&mut out).unwrap();
    out
}

/// `CanonicalDeserialize::deserialize_uncompressed` on `G2Projective`, followed
/// by `serialize_compressed`: `None` when the bytes are refused. The decoder
/// tests the subgroup but not the curve equation, so nothing is claimed of
/// the bytes that come back but that they are a function of the input.
#[verifier::external_body]
fn g2_compress_from(bytes: &[u8]) -> (r: Option<Vec<u8>>)
    ensures
        r.is_some() == g2_compressed_from(bytes@).is_some(),
        r.is_some() ==> r.unwrap()@ == g2_compressed_from(bytes@).unwrap(),
{
    match G2Projective::deserialize_uncompressed(bytes) {
        Ok(p) => {
            let mut out: Vec<u8> = Vec::new();
            p.serialize_compressed(&mut out).unwrap();
            Some(out)
        },
        Err(_) => None,
    }
}

/// An element of the group G2, held as its canonical compressed encoding.
#[derive(Debug, PartialEq, Eq)]
pub struct G2Point {
    bytes: Vec<u8>,
}

impl Clone for G2Point {
    fn clone(&self) -> (r: Self)
        ensures
            r@ == self@,
    {
        self.duplicate()
    }
}

impl G2Point {
    /// The canonical compressed encoding.
    pub closed spec fn view(&self) -> Seq<u8> {
        self.bytes@
    }

    /// The bytes held are the canonical encoding of a group element, and
    /// there are 96 of them.
    #[verifier::type_invariant]
    pub open spec fn canonical(&self) -> bool {
        g2_canonical(self@) == Some(self@) && self@.len() == 96
    }

    /// Decodes a compressed encoding, read from the first 96 bytes; `None`
    /// when they encode no element.
    pub fn from_bytes(bytes: &[u8]) -> (r: Option<G2Point>)
        ensures
            r.is_some() == g2_canonical(bytes@).is_some(),
            r.is_some() ==> r.unwrap()@ == g2_canonical(bytes@).unwrap(),
    {
        match g2_decode(bytes) {
            Some(b) => Some(G2Point { bytes: b }),
            None => None,
        }
    }

    /// The canonical compressed encoding, of 96 bytes.
    pub fn to_bytes(&self) -> (r: Vec<u8>)
        ensures
            r@ == self@,
            r@.len() == 96,
            g2_canonical(r@) == Some(r@),
    {
        proof {
            use_type_invariant(self);
        }
        copy_bytes(&self.bytes)
    }

    /// The uncompressed encoding, of 192 bytes; `from_uncompressed` gives the
    /// element back from it.
    pub fn to_uncompressed(&self) -> (r: Vec<u8>)
        ensures
            r@ == g2_expanded(self@),
            r@.len() == 192,
            g2_compressed_from(r@) == Some(self@),
            g2_canonical(self@) == Some(self@),
    {
        proof {
            use_type_invariant(self);
        }
        g2_expand(&self.bytes)
    }

    /// Decodes an uncompressed encoding, read from the first 192 bytes; `None`
    /// when the decoder refuses them or what it read is no element of the
    /// group.
    pub fn from_uncompressed(bytes: &[u8]) -> (r: Option<G2Point>)
        ensures
            r.is_some() <==> g2_compressed_from(bytes@).is_some() && g2_canonical(
                g2_compressed_from(bytes@).unwrap(),
            ).is_some(),
            r.is_some() ==> r.unwrap()@ == g2_canonical(
                g2_compressed_from(bytes@).unwrap(),
            ).unwrap(),
    {
        match g2_compress_from(bytes) {
            Some(c) => G2Point::from_bytes(c.as_slice()),
            None => None,
        }
    }

    /// A copy of the element.
    pub fn duplicate(&self) -> (r: G2Point)
        ensures
            r@ == self@,
    {
        proof {
            use_type_invariant(self);
        }
        G2Point { bytes: copy_bytes(&self.bytes) }
    }

    /// Whether two elements are the same.
    pub fn equals(&self, other: &G2Point) -> (b: bool)
        ensures
            b == (self@ == other@),
    {
        bytes_equal(&self.bytes, &other.bytes)
    }

    /// The sum of two elements.
    pub fn add(&self, other: &G2Point) -> (r: G2Point)
        ensures
            r@ == g2_sum(self@, other@),
    {
        proof {
            use_type_invariant(self);
            use_type_invariant(other);
        }
        G2Point { bytes: g2_add(&self.bytes, &other.bytes) }
    }

    /// This element minus `other`.
    pub fn sub(&self, other: &G2Point) -> (r: G2Point)
        ensures
            r@ == g2_difference(self@, other@),
    {
        proof {
            use_type_invariant(self);
            use_type_invariant(other);
        }
        G2Point { bytes: g2_sub(&self.bytes, &other.bytes) }
    }

    /// The element multiplied by the scalar `k`.
    pub fn scale(&self, k: &Scalar) -> (r: G2Point)
        ensures
            r@ == g2_multiple(self@, k@),
    {
        proof {
            use_type_invariant(self);
            use_type_invariant(k);
        }
        let l = k.to_limbs();
        G2Point { bytes: g2_mul(&self.bytes, l.0, l.1, l.2, l.3) }
    }
}

/// The canonical encoding of the pairing of the G1 element encoded by `p` with
/// the G2 element encoded by `q`.
pub uninterp spec fn pairing_value(p: Seq<u8>, q: Seq<u8>) -> Seq<u8>;

/// `Pairing::pairing` of `Bls12_381` on two decoded elements. The result is the
/// canonical encoding of the target-group value.
#[verifier::external_body]
fn pairing_bytes(p: &Vec<u8>, q: &Vec<u8>) -> (r: Vec<u8>)
    requires
        g1_canonical(p@) == Some(p@),
        g2_canonical(q@) == Some(q@),
    ensures
        r@ == pairing_value(p@, q@),
{
    let x = G1Projective::deserialize_compressed_unchecked(p.as_slice()).unwrap();
    let y = G2Projective::deserialize_compressed_unchecked(q.as_slice()).unwrap();
    let mut out: Vec<u8> = Vec::new();
    Bls12_381::pairing(x, y).serialize_compressed(&mut out).unwrap();
    out
}

/// A value of the pairing's target group, held as its canonical encoding.
#[derive(Debug, PartialEq, Eq)]
pub struct PairingValue {
    bytes: Vec<u8>,
}

impl PairingValue {
    /// The canonical encoding.
    pub closed spec fn view(&self) -> Seq<u8> {
        self.bytes@
    }

    /// Whether two values are the same.
    pub fn equals(&self, other: &PairingValue) -> (b: bool)
        ensures
            b == (self@ == other@),
    {
        bytes_equal(&self.bytes, &other.bytes)
    }

    /// The canonical encoding.
    pub fn to_bytes(&self) -> (r: Vec<u8>)
        ensures
            r@ == self@,
    {
        copy_bytes(&self.bytes)
    }
}

/// The pairing of a G1 element with a G2 element.
pub fn pairing(p: &G1Point, q: &G2Point) -> (r: PairingValue)
    ensures
        r@ == pairing_value(p@, q@),
{
    proof {
        use_type_invariant(p);
        use_type_invariant(q);
    }
    PairingValue { bytes: pairing_bytes(&p.bytes, &q.bytes) }
}

} // verus!
