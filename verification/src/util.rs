//! Field-size selection: the smallest integer width able to carry a value.

use vstd::prelude::*;

verus! {

/// The wire widths an encoder can choose from for a variable-width field.
#[derive(Debug, Clone, Copy, PartialEq, Eq, Structural)]
pub enum OFSize {
    U8,
    U16,
    U32,
    U48,
    U64,
}

/// The width `optimal_field_size` picks: the first class whose exclusive
/// ceiling lies above `num`.
pub open spec fn spec_optimal_field_size(num: u64) -> OFSize {
    if num < 0xff {
        OFSize::U8
    } else if num < 0xffff {
        OFSize::U16
    } else if num < 0xffff_ffff {
        OFSize::U32
    } else if num < 0xffff_ffff_ffff {
        OFSize::U48
    } else {
        OFSize::U64
    }
}

/// Number of bytes a field of the given size class occupies on the wire.
pub open spec fn spec_size_bytes(sz: OFSize) -> int {
    match sz {
        OFSize::U8 => 1,
        OFSize::U16 => 2,
        OFSize::U32 => 4,
        OFSize::U48 => 6,
        OFSize::U64 => 8,
    }
}

/// Picks the smallest width class that can represent `num` compactly.
pub fn optimal_field_size(num: u64) -> (r: OFSize)
    ensures
        r == spec_optimal_field_size(num),
{
    if num < 0xff {
        OFSize::U8
    } else if num < 0xffff {
        OFSize::U16
    } else if num < 0xffff_ffff {
        OFSize::U32
    } else if num < 0xffff_ffff_ffff {
        OFSize::U48
    } else {
        OFSize::U64
    }
}

} // verus!
