//! The outside type that the library carries through from the JSON decoder.
use serde_json::Error as JsonError;
use vstd::prelude::*;

verus! {

/// The error type of `serde_json`, carried unchanged from the decoder to the
/// caller.
#[verifier::external_type_specification]
#[verifier::external_body]
pub struct ExJsonError(JsonError);

} // verus!
