//! Fresh identifiers for the session types.

use vstd::prelude::*;

verus! {

/// Relies on `uuid::Uuid::new_v4` and its `Display` form: a fresh random
/// identifier rendered as the 36-character hyphenated lowercase hex form.
/// Nothing is assumed about the value beyond its length.
#[verifier::external_body]
pub fn new_guid() -> (r: String)
    ensures
        r@.len() == 36,
{
    uuid::Uuid::new_v4().to_string()
}

} // verus!
