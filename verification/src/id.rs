//! EBML element identifiers: VINTs constrained by the format's ID rules.

use vstd::prelude::*;

verus! {

use crate::source::ByteSource;
use crate::varint::{
    first_marker_index, max_val_spec, octets_needed_spec, vint_complete, vint_exceeds, vint_value,
    vint_width, VarInt, VarIntError,
};

/// Failure of an element-identifier decode.
pub enum ElementIdError {
    /// The underlying VINT decode failed.
    Parse(VarIntError),
    /// A zero-valued identifier is forbidden at every width.
    AllZero,
    /// An identifier whose value bits are all ones is reserved.
    AllOnes,
    /// The identifier was not minimally encoded; carries the rejected
    /// identifier so callers can still report it.
    ReprTooBig(ElementId),
}

impl From<VarIntError> for ElementIdError {
    fn from(e: VarIntError) -> (r: Self) {
        ElementIdError::Parse(e)
    }
}

impl vstd::std_specs::convert::FromSpecImpl<VarIntError> for ElementIdError {
    open spec fn obeys_from_spec() -> bool {
        true
    }

    open spec fn from_spec(e: VarIntError) -> Self {
        ElementIdError::Parse(e)
    }
}

/// An EBML element identifier: a decoded VINT that satisfies the ID
/// validity rules for the width it was encoded in.
pub struct ElementId(pub VarInt);

/// The identifier rules for a magnitude decoded from `w` octets:
/// nonzero, not the reserved all-ones value of that width, and
/// minimally encoded unless the shorter form would itself be the
/// reserved all-ones pattern.
pub open spec fn id_valid(mag: nat, w: nat) -> bool {
    &&& mag != 0
    &&& mag != max_val_spec(w)
    &&& (octets_needed_spec(mag) < w ==> mag == max_val_spec((w - 1) as nat))
}

impl ElementId {
    /// Decode one VINT and hold it to the identifier rules.
    pub fn from_reader(src: &mut ByteSource, max_octets: Option<usize>) -> (r: Result<
        ElementId,
        ElementIdError,
    >)
        requires
            old(src).wf(),
        ensures
            final(src).wf(),
            ({
                let s = old(src).remaining();
                match r {
                    Ok(id) => {
                        &&& vint_complete(s)
                        &&& !vint_exceeds(s, max_octets)
                        &&& id_valid(vint_value(s) as nat, vint_width(s) as nat)
                        &&& id.0.value() == vint_value(s)
                        &&& (id.0 is Native <==> vint_width(s) <= 8)
                        &&& final(src).remaining() == s.skip(vint_width(s))
                    },
                    Err(ElementIdError::Parse(VarIntError::ExceededSize)) => {
                        &&& vint_exceeds(s, max_octets)
                        &&& final(src).remaining() == s.skip(first_marker_index(s) + 1)
                    },
                    Err(ElementIdError::Parse(VarIntError::UnexpectedEnd)) => {
                        &&& !vint_complete(s)
                        &&& !vint_exceeds(s, max_octets)
                        &&& final(src).remaining().len() == 0
                    },
                    Err(ElementIdError::AllZero) => {
                        &&& vint_complete(s)
                        &&& !vint_exceeds(s, max_octets)
                        &&& vint_value(s) == 0
                        &&& final(src).remaining() == s.skip(vint_width(s))
                    },
                    Err(ElementIdError::AllOnes) => {
                        &&& vint_complete(s)
                        &&& !vint_exceeds(s, max_octets)
                        &&& vint_value(s) == max_val_spec(vint_width(s) as nat)
                        &&& final(src).remaining() == s.skip(vint_width(s))
                    },
                    Err(ElementIdError::ReprTooBig(id)) => {
                        &&& vint_complete(s)
                        &&& !vint_exceeds(s, max_octets)
                        &&& vint_value(s) != 0
                        &&& vint_value(s) != max_val_spec(vint_width(s) as nat)
                        &&& octets_needed_spec(vint_value(s) as nat) < vint_width(s)
                        &&& vint_value(s) != max_val_spec((vint_width(s) - 1) as nat)
                        &&& id.0.value() == vint_value(s)
                        &&& (id.0 is Native <==> vint_width(s) <= 8)
                        &&& final(src).remaining() == s.skip(vint_width(s))
                    },
                }
            }),
    {
        match VarInt::from_reader_with_octets(src, max_octets) {
            Err(e) => Err(ElementIdError::from(e)),
            Ok((var_int, bytes_taken)) => {
                if var_int.is_zero() {
                    Err(ElementIdError::AllZero)
                } else if var_int.is_full(bytes_taken) {
                    Err(ElementIdError::AllOnes)
                } else if var_int.octets_needed() < bytes_taken && !var_int.is_full(
                    bytes_taken - 1,
                ) {
                    Err(ElementIdError::ReprTooBig(ElementId(var_int)))
                } else {
                    Ok(ElementId(var_int))
                }
            },
        }
    }
}

} // verus!
