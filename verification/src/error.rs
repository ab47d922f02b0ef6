use vstd::prelude::*;

verus! {

/// The error of `rkyv`'s serialization.
#[verifier::external_type_specification]
#[verifier::external_body]
pub struct ExRancorError(rkyv::rancor::Error);

/// The errors of the storage steps that the library performs itself.
pub enum StoreError {
    /// Serialization failed.
    Rkyv(rkyv::rancor::Error),
}

} // verus!
