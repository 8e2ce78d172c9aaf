//! Values shared by all services of the poll.

use vstd::prelude::*;

verus! {

/// The empty JSON object, sent where a request or an answer carries nothing.
#[derive(Clone, Copy, Debug, PartialEq, Eq, Structural)]
pub struct EmptyJSON {}

impl EmptyJSON {
    /// The empty JSON object.
    pub fn new() -> (e: EmptyJSON)
        ensures
            e == (EmptyJSON {  }),
    {
        EmptyJSON {  }
    }
}

} // verus!
