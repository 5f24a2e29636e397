//! The zero-value contract: a canonical all-zero instance for every
//! codecable type.

use vstd::prelude::*;

verus! {

/// A type that can be zeroed.
///
/// The zero value is a pure, argument-free construction: for the numeric
/// primitives it is `0`, for `bool` it is `false`, and for an array it is
/// the array of element zero values.
pub trait Zeroable: Sized {
    /// The zero value, as a specification-level object.
    spec fn spec_zeroed() -> Self;

    /// A zeroed instance.
    fn zeroed() -> (r: Self)
        ensures
            r == Self::spec_zeroed(),
    ;
}

impl Zeroable for bool {
    open spec fn spec_zeroed() -> bool {
        false
    }

    fn zeroed() -> bool {
        false
    }
}

impl Zeroable for u8 {
    open spec fn spec_zeroed() -> u8 {
        0u8
    }

    fn zeroed() -> u8 {
        0u8
    }
}

impl Zeroable for u16 {
    open spec fn spec_zeroed() -> u16 {
        0u16
    }

    fn zeroed() -> u16 {
        0u16
    }
}

impl Zeroable for u32 {
    open spec fn spec_zeroed() -> u32 {
        0u32
    }

    fn zeroed() -> u32 {
        0u32
    }
}

impl Zeroable for u64 {
    open spec fn spec_zeroed() -> u64 {
        0u64
    }

    fn zeroed() -> u64 {
        0u64
    }
}

impl Zeroable for u128 {
    open spec fn spec_zeroed() -> u128 {
        0u128
    }

    fn zeroed() -> u128 {
        0u128
    }
}

impl Zeroable for usize {
    open spec fn spec_zeroed() -> usize {
        0usize
    }

    fn zeroed() -> usize {
        0usize
    }
}

impl Zeroable for i8 {
    open spec fn spec_zeroed() -> i8 {
        0i8
    }

    fn zeroed() -> i8 {
        0i8
    }
}

impl Zeroable for i16 {
    open spec fn spec_zeroed() -> i16 {
        0i16
    }

    fn zeroed() -> i16 {
        0i16
    }
}

impl Zeroable for i32 {
    open spec fn spec_zeroed() -> i32 {
        0i32
    }

    fn zeroed() -> i32 {
        0i32
    }
}

impl Zeroable for i64 {
    open spec fn spec_zeroed() -> i64 {
        0i64
    }

    fn zeroed() -> i64 {
        0i64
    }
}

impl Zeroable for i128 {
    open spec fn spec_zeroed() -> i128 {
        0i128
    }

    fn zeroed() -> i128 {
        0i128
    }
}

impl Zeroable for isize {
    open spec fn spec_zeroed() -> isize {
        0isize
    }

    fn zeroed() -> isize {
        0isize
    }
}

} // verus!
