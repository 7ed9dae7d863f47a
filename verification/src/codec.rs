//! Byte encodings of the values that cross a trust boundary.
//!
//! A scalar is encoded as its four limbs, each as eight little-endian bytes. A
//! sequence of scalars is framed by its length as eight little-endian bytes.
//! Group elements travel in their uncompressed or their compressed encoding,
//! each of one fixed size.

use vstd::prelude::*;
use vstd::bytes::{
    lemma_auto_spec_u64_to_from_le_bytes, spec_u64_from_le_bytes, spec_u64_to_le_bytes,
    u64_from_le_bytes, u64_to_le_bytes,
};
use vstd::slice::slice_subrange;
use crate::error::KzgError;
use crate::field::{limbs_value, modulus, Scalar};
use crate::group::{
    g1_canonical, g1_compressed_from, g1_expanded, g2_canonical, g2_compressed_from, g2_expanded,
    G1Point, G2Point,
};

verus! {

/// The number of bytes that encode one scalar.
pub const SCALAR_BYTES: usize = 32;

/// The number of bytes that encode the length of a sequence.
pub const LENGTH_BYTES: usize = 8;

/// The limbs of each scalar of a sequence.
pub open spec fn limbs_of(v: Seq<Scalar>) -> Seq<(u64, u64, u64, u64)> {
    Seq::new(v.len(), |i: int| v[i].limbs())
}

/// The 32 bytes that encode the scalar with limbs `l`.
pub open spec fn scalar_encoding(l: (u64, u64, u64, u64)) -> Seq<u8> {
    spec_u64_to_le_bytes(l.0) + spec_u64_to_le_bytes(l.1) + spec_u64_to_le_bytes(l.2)
        + spec_u64_to_le_bytes(l.3)
}

/// The limbs that 32 bytes encode.
pub open spec fn scalar_decoding(b: Seq<u8>) -> (u64, u64, u64, u64) {
    (
        spec_u64_from_le_bytes(b.subrange(0, 8)),
        spec_u64_from_le_bytes(b.subrange(8, 16)),
        spec_u64_from_le_bytes(b.subrange(16, 24)),
        spec_u64_from_le_bytes(b.subrange(24, 32)),
    )
}

/// The encodings of the first `n` scalars, one after the other.
pub open spec fn scalars_encoding(v: Seq<(u64, u64, u64, u64)>, n: nat) -> Seq<u8>
    decreases n,
{
    if n == 0 {
        Seq::empty()
    } else {
        scalars_encoding(v, (n - 1) as nat) + scalar_encoding(v[n - 1])
    }
}

/// The encoding of a sequence of scalars: its length, then its scalars.
pub open spec fn framed(v: Seq<(u64, u64, u64, u64)>) -> Seq<u8> {
    spec_u64_to_le_bytes(v.len() as u64) + scalars_encoding(v, v.len())
}

/// The `i`-th 32-byte chunk after the length.
pub open spec fn chunk(bytes: Seq<u8>, i: int) -> Seq<u8> {
    bytes.subrange(8 + 32 * i, 8 + 32 * i + 32)
}

/// The number of scalars that the first eight bytes announce.
pub open spec fn announced(bytes: Seq<u8>) -> u64 {
    spec_u64_from_le_bytes(bytes.subrange(0, 8))
}

/// Whether the bytes are the framed encoding of reduced scalars: the announced
/// number of chunks fills them exactly and every chunk is below the modulus.
pub open spec fn well_framed(bytes: Seq<u8>) -> bool {
    &&& bytes.len() >= 8
    &&& bytes.len() == 8 + 32 * announced(bytes)
    &&& forall|i: int|
        0 <= i < announced(bytes) ==> {
            let l = #[trigger] scalar_decoding(chunk(bytes, i));
            limbs_value(l.0, l.1, l.2, l.3) < modulus()
        }
}

/// The scalars that well-framed bytes encode, as limbs.
pub open spec fn unframed(bytes: Seq<u8>) -> Seq<(u64, u64, u64, u64)> {
    Seq::new(announced(bytes) as nat, |i: int| scalar_decoding(chunk(bytes, i)))
}

/// Encoding a scalar and decoding the bytes gives its limbs back.
pub proof fn lemma_scalar_roundtrip(l: (u64, u64, u64, u64))
    ensures
        scalar_encoding(l).len() == 32,
        scalar_decoding(scalar_encoding(l)) == l,
{
    lemma_auto_spec_u64_to_from_le_bytes();
    let e = scalar_encoding(l);
    assert(e.subrange(0, 8) =~= spec_u64_to_le_bytes(l.0));
    assert(e.subrange(8, 16) =~= spec_u64_to_le_bytes(l.1));
    assert(e.subrange(16, 24) =~= spec_u64_to_le_bytes(l.2));
    assert(e.subrange(24, 32) =~= spec_u64_to_le_bytes(l.3));
}

/// The encodings of `n` scalars take `32 * n` bytes, and each chunk of them
/// decodes to its scalar.
pub proof fn lemma_scalars_encoding(v: Seq<(u64, u64, u64, u64)>, n: nat)
    requires
        n <= v.len(),
    ensures
        scalars_encoding(v, n).len() == 32 * n,
        forall|i: int|
            0 <= i < n ==> scalar_decoding(
                #[trigger] scalars_encoding(v, n).subrange(32 * i, 32 * i + 32),
            ) == v[i],
    decreases n,
{
    if n > 0 {
        let m = (n - 1) as nat;
        lemma_scalars_encoding(v, m);
        lemma_scalar_roundtrip(v[n - 1]);
        let whole = scalars_encoding(v, n);
        let front = scalars_encoding(v, m);
        assert forall|i: int| 0 <= i < n implies scalar_decoding(
            #[trigger] whole.subrange(32 * i, 32 * i + 32),
        ) == v[i] by {
            if i < m {
                assert(whole.subrange(32 * i, 32 * i + 32) =~= front.subrange(32 * i, 32 * i + 32));
            } else {
                assert(whole.subrange(32 * i, 32 * i + 32) =~= scalar_encoding(v[n - 1]));
            }
        }
    }
}

/// Encode-then-decode: the framed encoding of reduced scalars is well framed
/// and decodes to the same scalars.
pub proof fn lemma_framed_roundtrip(v: Seq<(u64, u64, u64, u64)>)
    requires
        v.len() <= u64::MAX,
        forall|i: int| 0 <= i < v.len() ==> limbs_value(v[i].0, v[i].1, v[i].2, v[i].3) < modulus(),
    ensures
        well_framed(framed(v)),
        unframed(framed(v)) == v,
{
    lemma_auto_spec_u64_to_from_le_bytes();
    lemma_scalars_encoding(v, v.len());
    let bytes = framed(v);
    let body = scalars_encoding(v, v.len());
    assert(bytes.subrange(0, 8) =~= spec_u64_to_le_bytes(v.len() as u64));
    assert(announced(bytes) == v.len());
    assert forall|i: int| 0 <= i < v.len() implies #[trigger] scalar_decoding(chunk(bytes, i))
        == v[i] by {
        assert(chunk(bytes, i) =~= body.subrange(32 * i, 32 * i + 32));
    }
    assert(unframed(bytes) =~= v);
}

/// The 32 bytes that encode a scalar.
pub fn encode_scalar(s: &Scalar) -> (r: Vec<u8>)
    ensures
        r@ == scalar_encoding(s.limbs()),
        r.len() == 32,
        limbs_value(s.limbs().0, s.limbs().1, s.limbs().2, s.limbs().3) < modulus(),
{
    proof {
        use_type_invariant(s);
    }
    let l = s.to_limbs();
    let mut out = u64_to_le_bytes(l.0);
    let mut b1 = u64_to_le_bytes(l.1);
    let mut b2 = u64_to_le_bytes(l.2);
    let mut b3 = u64_to_le_bytes(l.3);
    out.append(&mut b1);
    out.append(&mut b2);
    out.append(&mut b3);
    out
}

/// The scalar that 32 bytes encode; `None` when there are not 32 bytes or
/// they encode a number that is not below the modulus.
pub fn decode_scalar(bytes: &[u8]) -> (r: Option<Scalar>)
    ensures
        ({
            let l = scalar_decoding(bytes@);
            &&& r.is_some() <==> bytes.len() == 32 && limbs_value(l.0, l.1, l.2, l.3) < modulus()
            &&& r.is_some() ==> r.unwrap().limbs() == l && r.unwrap()@ == limbs_value(
                l.0,
                l.1,
                l.2,
                l.3,
            )
        }),
{
    if bytes.len() != 32 {
        return None;
    }
    let l0 = u64_from_le_bytes(slice_subrange(bytes, 0, 8));
    let l1 = u64_from_le_bytes(slice_subrange(bytes, 8, 16));
    let l2 = u64_from_le_bytes(slice_subrange(bytes, 16, 24));
    let l3 = u64_from_le_bytes(slice_subrange(bytes, 24, 32));
    Scalar::from_limbs(l0, l1, l2, l3)
}

/// The framed encoding of a sequence of scalars. It is well framed and
/// decodes to the same scalars.
pub fn encode_scalars(v: &[Scalar]) -> (r: Vec<u8>)
    ensures
        r@ == framed(limbs_of(v@)),
        well_framed(r@),
        unframed(r@) == limbs_of(v@),
{
    let mut out = u64_to_le_bytes(v.len() as u64);
    let ghost head = out@;
    let ghost limbs = limbs_of(v@);
    let mut i: usize = 0;
    while i < v.len()
        invariant
            i <= v.len(),
            limbs == limbs_of(v@),
            out@ == head + scalars_encoding(limbs, i as nat),
            forall|t: int|
                0 <= t < i ==> limbs_value(limbs[t].0, limbs[t].1, limbs[t].2, limbs[t].3)
                    < modulus(),
        decreases v.len() - i,
    {
        let mut piece = encode_scalar(&v[i]);
        out.append(&mut piece);
        assert(out@ =~= head + scalars_encoding(limbs, (i + 1) as nat));
        i += 1;
    }
    proof {
        lemma_framed_roundtrip(limbs);
    }
    out
}

/// The scalars that a framed encoding holds.
///
/// Refused with `SerializationError` unless the bytes are well framed: the
/// announced number of 32-byte chunks fills them exactly, and every chunk is
/// below the modulus.
pub fn decode_scalars(bytes: &[u8]) -> (r: Result<Vec<Scalar>, KzgError>)
    ensures
        !well_framed(bytes@) ==> r == Err::<Vec<Scalar>, KzgError>(KzgError::SerializationError),
        well_framed(bytes@) ==> r is Ok && limbs_of(r->Ok_0@) == unframed(bytes@),
{
    if bytes.len() < 8 {
        return Err(KzgError::SerializationError);
    }
    let count = u64_from_le_bytes(slice_subrange(bytes, 0, 8));
    let room: usize = bytes.len() - 8;
    if room % 32 != 0 || (room / 32) as u64 != count {
        return Err(KzgError::SerializationError);
    }
    let n: usize = room / 32;
    let mut out: Vec<Scalar> = Vec::new();
    let mut i: usize = 0;
    while i < n
        invariant
            i <= n,
            n == announced(bytes@),
            bytes.len() == 8 + 32 * n,
            out.len() == i,
            forall|t: int|
                0 <= t < i ==> {
                    let l = #[trigger] scalar_decoding(chunk(bytes@, t));
                    &&& limbs_value(l.0, l.1, l.2, l.3) < modulus()
                    &&& out[t].limbs() == l
                },
        decreases n - i,
    {
        let start: usize = 8 + 32 * i;
        let piece = slice_subrange(bytes, start, start + 32);
        assert(piece@ =~= chunk(bytes@, i as int));
        match decode_scalar(piece) {
            Some(s) => {
                out.push(s);
            },
            None => {
                return Err(KzgError::SerializationError);
            },
        }
        i += 1;
    }
    assert(limbs_of(out@) =~= unframed(bytes@));
    Ok(out)
}

/// Evaluation points, ready to be encoded.
#[derive(Clone, Debug)]
pub struct SerializablePoints(pub Vec<Scalar>);

/// The bytes of encoded evaluation points.
#[derive(Clone, Debug, PartialEq, Eq)]
pub struct SerdeSerializablePoints(pub Vec<u8>);

/// A polynomial's coefficients, ready to be encoded.
#[derive(Clone, Debug)]
pub struct SerializablePolynomial(pub Vec<Scalar>);

/// The bytes of an encoded polynomial.
#[derive(Clone, Debug, PartialEq, Eq)]
pub struct SerdeSerializablePolynomial(pub Vec<u8>);

/// An interpolation polynomial's coefficients, ready to be encoded.
#[derive(Clone, Debug)]
pub struct SerializableLagrangePolynomial(pub Vec<Scalar>);

/// The bytes of an encoded interpolation polynomial.
#[derive(Clone, Debug, PartialEq, Eq)]
pub struct SerdeSerializableLagrangePolynomial(pub Vec<u8>);

/// A commitment in the first group, ready to be encoded.
#[derive(Clone, Debug)]
pub struct SerializableCommitment(pub G1Point);

/// The bytes of an encoded commitment in the first group.
#[derive(Clone, Debug, PartialEq, Eq)]
pub struct SerdeSerializableCommitment(pub Vec<u8>);

/// A commitment in the second group, ready to be encoded.
#[derive(Clone, Debug)]
pub struct SerializableG2Commitment(pub G2Point);

/// The bytes of an encoded commitment in the second group.
#[derive(Clone, Debug, PartialEq, Eq)]
pub struct SerdeSerializableG2Commitment(pub Vec<u8>);

impl SerializablePoints {
    /// The framed encoding of the points.
    pub fn encode(&self) -> (r: SerdeSerializablePoints)
        ensures
            r.0@ == framed(limbs_of(self.0@)),
            well_framed(r.0@),
            unframed(r.0@) == limbs_of(self.0@),
    {
        SerdeSerializablePoints(encode_scalars(self.0.as_slice()))
    }

    /// The points that the bytes encode, or `SerializationError`.
    pub fn decode(bytes: &SerdeSerializablePoints) -> (r: Result<SerializablePoints, KzgError>)
        ensures
            !well_framed(bytes.0@) ==> r == Err::<SerializablePoints, KzgError>(
                KzgError::SerializationError,
            ),
            well_framed(bytes.0@) ==> r is Ok && limbs_of(r->Ok_0.0@) == unframed(bytes.0@),
    {
        match decode_scalars(bytes.0.as_slice()) {
            Ok(v) => Ok(SerializablePoints(v)),
            Err(e) => Err(e),
        }
    }
}

impl SerializablePolynomial {
    /// The framed encoding of the coefficients.
    pub fn encode(&self) -> (r: SerdeSerializablePolynomial)
        ensures
            r.0@ == framed(limbs_of(self.0@)),
            well_framed(r.0@),
            unframed(r.0@) == limbs_of(self.0@),
    {
        SerdeSerializablePolynomial(encode_scalars(self.0.as_slice()))
    }

    /// The coefficients that the bytes encode, or `SerializationError`.
    pub fn decode(bytes: &SerdeSerializablePolynomial) -> (r: Result<
        SerializablePolynomial,
        KzgError,
    >)
        ensures
            !well_framed(bytes.0@) ==> r == Err::<SerializablePolynomial, KzgError>(
                KzgError::SerializationError,
            ),
            well_framed(bytes.0@) ==> r is Ok && limbs_of(r->Ok_0.0@) == unframed(bytes.0@),
    {
        match decode_scalars(bytes.0.as_slice()) {
            Ok(v) => Ok(SerializablePolynomial(v)),
            Err(e) => Err(e),
        }
    }
}

impl SerializableLagrangePolynomial {
    /// The framed encoding of the coefficients.
    pub fn encode(&self) -> (r: SerdeSerializableLagrangePolynomial)
        ensures
            r.0@ == framed(limbs_of(self.0@)),
            well_framed(r.0@),
            unframed(r.0@) == limbs_of(self.0@),
    {
        SerdeSerializableLagrangePolynomial(encode_scalars(self.0.as_slice()))
    }

    /// The coefficients that the bytes encode, or `SerializationError`.
    pub fn decode(bytes: &SerdeSerializableLagrangePolynomial) -> (r: Result<
        SerializableLagrangePolynomial,
        KzgError,
    >)
        ensures
            !well_framed(bytes.0@) ==> r == Err::<SerializableLagrangePolynomial, KzgError>(
                KzgError::SerializationError,
            ),
            well_framed(bytes.0@) ==> r is Ok && limbs_of(r->Ok_0.0@) == unframed(bytes.0@),
    {
        match decode_scalars(bytes.0.as_slice()) {
            Ok(v) => Ok(SerializableLagrangePolynomial(v)),
            Err(e) => Err(e),
        }
    }
}

impl SerializableCommitment {
    /// The uncompressed encoding of the commitment, of 96 bytes; `decode`
    /// gives the commitment back from it.
    pub fn encode(&self) -> (r: SerdeSerializableCommitment)
        ensures
            r.0@ == g1_expanded(self.0@),
            r.0@.len() == 96,
            g1_compressed_from(r.0@) == Some(self.0@),
            g1_canonical(self.0@) == Some(self.0@),
    {
        SerdeSerializableCommitment(self.0.to_uncompressed())
    }

    /// The commitment that uncompressed bytes encode, or `SerializationError`
    /// when they encode no element of the group.
    pub fn decode(bytes: &SerdeSerializableCommitment) -> (r: Result<SerializableCommitment, KzgError>)
        ensures
            r is Ok <==> g1_compressed_from(bytes.0@).is_some() && g1_canonical(
                g1_compressed_from(bytes.0@).unwrap(),
            ).is_some(),
            r is Ok ==> r->Ok_0.0@ == g1_canonical(
                g1_compressed_from(bytes.0@).unwrap(),
            ).unwrap(),
            r is Err ==> r->Err_0 == KzgError::SerializationError,
    {
        match G1Point::from_uncompressed(bytes.0.as_slice()) {
            Some(p) => Ok(SerializableCommitment(p)),
            None => Err(KzgError::SerializationError),
        }
    }

    /// The canonical compressed encoding of the commitment, of 48 bytes;
    /// `decode_compressed` gives the commitment back from it.
    pub fn encode_compressed(&self) -> (r: SerdeSerializableCommitment)
        ensures
            r.0@ == self.0@,
            r.0@.len() == 48,
            g1_canonical(r.0@) == Some(self.0@),
    {
        SerdeSerializableCommitment(self.0.to_bytes())
    }

    /// The commitment that compressed bytes encode, or `SerializationError`
    /// when they encode no element of the group.
    pub fn decode_compressed(bytes: &SerdeSerializableCommitment) -> (r: Result<SerializableCommitment, KzgError>)
        ensures
            g1_canonical(bytes.0@) is None ==> r == Err::<SerializableCommitment, KzgError>(
                KzgError::SerializationError,
            ),
            g1_canonical(bytes.0@) matches Some(c) ==> r is Ok && r->Ok_0.0@ == c,
    {
        match G1Point::from_bytes(bytes.0.as_slice()) {
            Some(p) => Ok(SerializableCommitment(p)),
            None => Err(KzgError::SerializationError),
        }
    }
}

impl SerializableG2Commitment {
    /// The uncompressed encoding of the commitment, of 192 bytes; `decode`
    /// gives the commitment back from it.
    pub fn encode(&self) -> (r: SerdeSerializableG2Commitment)
        ensures
            r.0@ == g2_expanded(self.0@),
            r.0@.len() == 192,
            g2_compressed_from(r.0@) == Some(self.0@),
            g2_canonical(self.0@) == Some(self.0@),
    {
        SerdeSerializableG2Commitment(self.0.to_uncompressed())
    }

    /// The commitment that uncompressed bytes encode, or `SerializationError`
    /// when they encode no element of the group.
    pub fn decode(bytes: &SerdeSerializableG2Commitment) -> (r: Result<SerializableG2Commitment, KzgError>)
        ensures
            r is Ok <==> g2_compressed_from(bytes.0@).is_some() && g2_canonical(
                g2_compressed_from(bytes.0@).unwrap(),
            ).is_some(),
            r is Ok ==> r->Ok_0.0@ == g2_canonical(
                g2_compressed_from(bytes.0@).unwrap(),
            ).unwrap(),
            r is Err ==> r->Err_0 == KzgError::SerializationError,
    {
        match G2Point::from_uncompressed(bytes.0.as_slice()) {
            Some(p) => Ok(SerializableG2Commitment(p)),
            None => Err(KzgError::SerializationError),
        }
    }

    /// The canonical compressed encoding of the commitment, of 96 bytes;
    /// `decode_compressed` gives the commitment back from it.
    pub fn encode_compressed(&self) -> (r: SerdeSerializableG2Commitment)
        ensures
            r.0@ == self.0@,
            r.0@.len() == 96,
            g2_canonical(r.0@) == Some(self.0@),
    {
        SerdeSerializableG2Commitment(self.0.to_bytes())
    }

    /// The commitment that compressed bytes encode, or `SerializationError`
    /// when they encode no element of the group.
    pub fn decode_compressed(bytes: &SerdeSerializableG2Commitment) -> (r: Result<SerializableG2Commitment, KzgError>)
        ensures
            g2_canonical(bytes.0@) is None ==> r == Err::<SerializableG2Commitment, KzgError>(
                KzgError::SerializationError,
            ),
            g2_canonical(bytes.0@) matches Some(c) ==> r is Ok && r->Ok_0.0@ == c,
    {
        match G2Point::from_bytes(bytes.0.as_slice()) {
            Some(p) => Ok(SerializableG2Commitment(p)),
            None => Err(KzgError::SerializationError),
        }
    }
}

} // verus!
