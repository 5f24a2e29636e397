//! Fixed-size binary codec core.
//!
//! Every codecable type has a statically known byte size, a canonical zero
//! value, and four conversion operations: decode and encode, each in
//! little-endian and big-endian byte order.  The [`Zeroable`] and [`Pod`]
//! traits state that contract for primitive scalars and fixed-length arrays,
//! and the layout modules derive the same contract for composite shapes:
//! ordered-field products and closed tagged unions.

use vstd::prelude::*;

pub mod zeroable;
pub mod pod;
pub mod wire;
mod prim;
pub mod array_pod;
pub mod repr;
pub mod tagged;
pub mod compose;

pub use zeroable::Zeroable;
pub use pod::Pod;
pub use pod::PodError;
pub use repr::Repr;
pub use tagged::ConfigError;
pub use tagged::UnionLayout;
pub use compose::Prim;
pub use compose::TypeDesc;
pub use compose::Value;

verus! {

} // verus!
