//! The shared-secret check that guards the API surface.

use vstd::prelude::*;

use crate::text::str_eq;

verus! {

/// Holds the configured API key for the request-checking layer.
pub struct ApiKeyLayer {
    pub api_key: String,
}

impl ApiKeyLayer {
    pub fn new(api_key: String) -> (r: ApiKeyLayer)
        ensures
            r.api_key@ == api_key@,
    {
        ApiKeyLayer { api_key }
    }

    /// A request passes exactly when its presented key equals the
    /// configured secret; a missing header is presented as the empty
    /// string.
    pub fn is_authorized(&self, provided: &str) -> (r: bool)
        ensures
            r == (provided@ == self.api_key@),
    {
        str_eq(provided, self.api_key.as_str())
    }
}

} // verus!
