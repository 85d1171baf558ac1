//! Seals `InOrOut`: only the directions of this crate implement it.
use vstd::prelude::*;

verus! {

/// Implemented only by `In` and `Out`.
pub trait SealedInOrOut {}

impl SealedInOrOut for super::In {}

impl SealedInOrOut for super::Out {}

} // verus!
