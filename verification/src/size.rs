//! EBML element data sizes: an exact payload length, or the format's
//! unknown-size sentinel.

use vstd::prelude::*;

verus! {

use crate::source::ByteSource;
use crate::varint::{
    first_marker_index, max_val_spec, vint_complete, vint_exceeds, vint_value, vint_width, VarInt,
    VarIntError,
};

/// The declared payload length of an element: an exact magnitude, or
/// `Unknown` when the encoding is the reserved all-ones pattern, which
/// tells the caller to find the element's end by other means.
pub enum ElementDataSize {
    Known(VarInt),
    Unknown,
}

impl ElementDataSize {
    /// Decode one VINT and classify it: the all-ones magnitude for the
    /// consumed width is the unknown-size sentinel, anything else is an
    /// exact length. Zero and non-minimal encodings are legal here.
    pub fn from_reader(src: &mut ByteSource, max_octets: Option<usize>) -> (r: Result<
        ElementDataSize,
        VarIntError,
    >)
        requires
            old(src).wf(),
        ensures
            final(src).wf(),
            ({
                let s = old(src).remaining();
                match r {
                    Ok(ElementDataSize::Unknown) => {
                        &&& vint_complete(s)
                        &&& !vint_exceeds(s, max_octets)
                        &&& vint_value(s) == max_val_spec(vint_width(s) as nat)
                        &&& final(src).remaining() == s.skip(vint_width(s))
                    },
                    Ok(ElementDataSize::Known(v)) => {
                        &&& vint_complete(s)
                        &&& !vint_exceeds(s, max_octets)
                        &&& vint_value(s) != max_val_spec(vint_width(s) as nat)
                        &&& v.value() == vint_value(s)
                        &&& (v is Native <==> vint_width(s) <= 8)
                        &&& final(src).remaining() == s.skip(vint_width(s))
                    },
                    Err(VarIntError::ExceededSize) => {
                        &&& vint_exceeds(s, max_octets)
                        &&& final(src).remaining() == s.skip(first_marker_index(s) + 1)
                    },
                    Err(VarIntError::UnexpectedEnd) => {
                        &&& !vint_complete(s)
                        &&& !vint_exceeds(s, max_octets)
                        &&& final(src).remaining().len() == 0
                    },
                }
            }),
    {
        match VarInt::from_reader_with_octets(src, max_octets) {
            Err(e) => Err(e),
            Ok((var_int, bytes_taken)) => {
                if var_int.is_full(bytes_taken) {
                    Ok(ElementDataSize::Unknown)
                } else {
                    Ok(ElementDataSize::Known(var_int))
                }
            },
        }
    }
}

} // verus!
