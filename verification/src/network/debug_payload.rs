//! What travels with requests and responses to help follow an exchange.
//! It holds nothing: the exchange works the same without it.

use vstd::prelude::*;

verus! {

/// Travels with a request.
#[derive(Clone, Copy, Debug, PartialEq, Eq, Structural)]
pub struct DebugRequest {}

/// Travels with a response.
#[derive(Clone, Copy, Debug, PartialEq, Eq, Structural)]
pub struct DebugResponse {}

/// What is kept of a `DebugResponse` once the response was received.
#[derive(Clone, Copy, Debug, PartialEq, Eq, Structural)]
pub struct DebugReceivedResponse {}

impl DebugRequest {
    /// For a request that starts an exchange.
    pub fn start() -> (d: DebugRequest)
        ensures
            d == (DebugRequest {  }),
    {
        DebugRequest {  }
    }

    /// For the response to this request.
    pub fn reply(&self) -> (d: DebugResponse)
        ensures
            d == (DebugResponse {  }),
    {
        DebugResponse {  }
    }

    /// What to send with the request.
    pub fn send(&self) -> (d: DebugRequest)
        ensures
            d == *self,
    {
        *self
    }
}

impl DebugResponse {
    /// For a response that no request asked for.
    pub fn unsolicited() -> (d: DebugResponse)
        ensures
            d == (DebugResponse {  }),
    {
        DebugResponse {  }
    }

    /// What to keep of the response once it was received.
    pub fn received(&self) -> (d: DebugReceivedResponse)
        ensures
            d == (DebugReceivedResponse {  }),
    {
        DebugReceivedResponse {  }
    }

    /// For the request that follows up on this response.
    pub fn follow_up(&self) -> (d: DebugRequest)
        ensures
            d == (DebugRequest {  }),
    {
        DebugRequest {  }
    }
}

impl DebugReceivedResponse {
    /// For the request that follows up on the response.
    pub fn follow_up(&self) -> (d: DebugRequest)
        ensures
            d == (DebugRequest {  }),
    {
        DebugRequest {  }
    }
}

} // verus!
