//! Identifiers shared by client and server.

use vstd::prelude::*;

verus! {

/// Identifies a connected client.
#[derive(Debug, Clone, Copy, PartialEq, Eq, Hash, Structural)]
pub struct ClientId(pub u32);

impl ClientId {
    /// The first client id.
    pub fn default() -> (r: ClientId)
        ensures
            r == ClientId(0),
    {
        ClientId(0)
    }

    /// The id `rhs` places after this one.
    pub fn add(self, rhs: u32) -> (r: ClientId)
        requires
            self.0 + rhs <= u32::MAX,
        ensures
            r.0 == self.0 + rhs,
    {
        ClientId(self.0 + rhs)
    }
}

} // verus!
