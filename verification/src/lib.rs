//! Commitment packing and composite-polynomial assembly for provable SQL
//! query results.
//!
//! The crate covers two independent pieces of a prover's pipeline:
//!
//! * packing a batch of heterogeneous typed columns into a single byte
//!   buffer, together with the bit table that tells a batched
//!   multi-scalar-multiplication backend how to slice that buffer
//!   ([`pack_scalars`]), built on the fixed-width sign-biased encodings of
//!   [`offset_to_bytes`]; and
//!
//! * assembling the composite multivariate polynomial consumed by a
//!   sum-check proof, with deduplication of repeated evaluation vectors and
//!   degree-1 splitting ([`composite_polynomial_builder`]).

pub mod committable_column;
pub mod composite_polynomial_builder;
pub mod offset_to_bytes;
pub mod pack_scalars;
pub mod scalar;
