use vstd::prelude::*;

verus! {

/// Marker bound that keeps [`crate::storage::StorageFile`] a closed
/// capability: only backing stores provided by this crate may claim it, so
/// every implementation is held to the trait's contract.
pub trait Sealed {
}

} // verus!
