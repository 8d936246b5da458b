use vstd::prelude::*;

verus! {

/// Relies on `uuid::Uuid::new_v4` (and `Uuid::as_u128` to read the value):
/// draws a random version-4 identifier. The value depends on the process's
/// entropy source, so nothing is promised of it; distinctness across calls
/// is only probabilistic, and the store's uniqueness constraint is what
/// refuses the rare collision. The call aborts if the operating system's
/// entropy source is unavailable — an environmental failure that no input
/// of this crate reaches or could exclude.
#[verifier::external_body]
pub(crate) fn fresh_uuid() -> u128 {
    uuid::Uuid::new_v4().as_u128()
}

} // verus!
