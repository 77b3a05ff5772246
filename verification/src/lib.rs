//! Decoder for the EBML variable-length-integer scheme used by
//! Matroska/WebM containers, together with the validity rules for
//! element identifiers and element data sizes.

pub mod bignum;
pub mod bits;
pub mod id;
pub mod size;
pub mod source;
pub mod varint;
