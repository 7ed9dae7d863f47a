//! KZG polynomial commitments over the BLS12-381 pairing.
//!
//! Scalars, polynomials and the commitment scheme are verified against
//! mathematical models; curve and field arithmetic is delegated to the
//! arkworks crates through a small set of trusted wrappers.

pub mod codec;
pub mod error;
pub mod evaluation;
pub mod exactness;
pub mod field;
pub mod group;
pub mod kzg;
pub mod laws;
pub mod poly;
pub mod roots;
