//! Configuration for request-id assignment.
//!
//! The identifier generation itself (drawing a fresh UUID per request) and
//! the middleware that stamps it onto responses are I/O concerns of the
//! embedding program; this module holds the policy data they consult.

use vstd::prelude::*;

verus! {

/// How request identifiers are generated.
enum RequestIdMode {
    Uuid,
}

/// Policy for the request-id middleware.
pub struct RequestIdConfiguration {
    mode: RequestIdMode,
}

impl RequestIdConfiguration {
    /// True when identifiers are drawn as version-4 UUIDs.
    pub closed spec fn uses_uuid(&self) -> bool {
        self.mode is Uuid
    }

    /// Select version-4 UUIDs as the identifier source.
    pub fn uuid_v4(self) -> (r: Self)
        ensures
            r.uses_uuid(),
    {
        RequestIdConfiguration { mode: RequestIdMode::Uuid }
    }

    /// Whether identifiers are drawn as version-4 UUIDs.
    pub fn is_uuid(&self) -> (r: bool)
        ensures
            r == self.uses_uuid(),
    {
        match self.mode {
            RequestIdMode::Uuid => true,
        }
    }
}

impl Default for RequestIdConfiguration {
    /// The default configuration generates version-4 UUIDs.
    fn default() -> (r: Self)
        ensures
            r.uses_uuid(),
    {
        RequestIdConfiguration { mode: RequestIdMode::Uuid }
    }
}

/// A request-local context able to carry the generated request identifier.
pub trait RequestIdContext {
    /// The identifier assigned to the current request, empty if none yet.
    fn request_id(&self) -> String;

    /// Store the identifier assigned to the current request.
    fn set_request_id(&mut self, id: String);
}

} // verus!
