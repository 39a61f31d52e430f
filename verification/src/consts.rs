//! Constant values
//!
//! These encode the header byte of an [`Elem`](crate::elem::Elem), which uses the upper
//! four bits for the version (only [`ELEM_VERSION_V0`] is supported) and the lower four
//! bits for the discriminant.
use vstd::prelude::*;

verus! {

/// Mask for the "Version" portion of the element byte
pub const ELEM_VERSION_MASK: u8 = 0b1111_0000;

/// Mask for the "Discriminant" portion of the element byte
pub const ELEM_DISCRIMINANT_MASK: u8 = 0b0000_1111;

/// Current Elem version
pub const ELEM_VERSION_V0: u8 = 0b0000_0000;

/// Discriminant used to mark Start elements on disk
pub const ELEM_DISCRIMINANT_START: u8 = 0b0000_0000;

/// Discriminant used to mark Data elements on disk
pub const ELEM_DISCRIMINANT_DATA: u8 = 0b0000_0001;

/// Discriminant used to mark End elements on disk
pub const ELEM_DISCRIMINANT_END: u8 = 0b0000_0010;

/// The header byte of a Start element in the only supported version.
pub const V0_START: u8 = 0b0000_0000;

/// The header byte of a Data element in the only supported version.
pub const V0_DATA: u8 = 0b0000_0001;

/// The header byte of an End element in the only supported version.
pub const V0_END: u8 = 0b0000_0010;

/// The header bytes are the version and the discriminant, each under its mask.
pub proof fn law_headers_combine_version_and_discriminant()
    ensures
        V0_START == ELEM_VERSION_V0 | ELEM_DISCRIMINANT_START,
        V0_DATA == ELEM_VERSION_V0 | ELEM_DISCRIMINANT_DATA,
        V0_END == ELEM_VERSION_V0 | ELEM_DISCRIMINANT_END,
        V0_START & ELEM_VERSION_MASK == ELEM_VERSION_V0,
        V0_DATA & ELEM_VERSION_MASK == ELEM_VERSION_V0,
        V0_END & ELEM_VERSION_MASK == ELEM_VERSION_V0,
        V0_START & ELEM_DISCRIMINANT_MASK == ELEM_DISCRIMINANT_START,
        V0_DATA & ELEM_DISCRIMINANT_MASK == ELEM_DISCRIMINANT_DATA,
        V0_END & ELEM_DISCRIMINANT_MASK == ELEM_DISCRIMINANT_END,
{
    assert(0b0000_0000u8 == 0b0000_0000u8 | 0b0000_0000u8) by (bit_vector);
    assert(0b0000_0001u8 == 0b0000_0000u8 | 0b0000_0001u8) by (bit_vector);
    assert(0b0000_0010u8 == 0b0000_0000u8 | 0b0000_0010u8) by (bit_vector);
    assert(0b0000_0000u8 & 0b1111_0000u8 == 0b0000_0000u8) by (bit_vector);
    assert(0b0000_0001u8 & 0b1111_0000u8 == 0b0000_0000u8) by (bit_vector);
    assert(0b0000_0010u8 & 0b1111_0000u8 == 0b0000_0000u8) by (bit_vector);
    assert(0b0000_0000u8 & 0b0000_1111u8 == 0b0000_0000u8) by (bit_vector);
    assert(0b0000_0001u8 & 0b0000_1111u8 == 0b0000_0001u8) by (bit_vector);
    assert(0b0000_0010u8 & 0b0000_1111u8 == 0b0000_0010u8) by (bit_vector);
}

} // verus!
