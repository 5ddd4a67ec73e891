//! Fast CGI server/application side
use vstd::prelude::*;

verus! {

/// A `Codec` implementation that parses FCGI requests for FCGI servers like backend services.
#[derive(Clone, Copy, Debug, Eq, PartialEq)]
pub struct FCGICodec {}

impl FCGICodec {
    /// Returns a client `FCGICodec` for accepting and parsing FCGI-format requests by FCGI
    /// servers like backend services.
    pub fn new() -> (r: FCGICodec)
        ensures
            r == (FCGICodec {  }),
    {
        FCGICodec {  }
    }
}

} // verus!
