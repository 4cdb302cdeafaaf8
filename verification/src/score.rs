//! Scorers that need no floating point: the identity scorer takes a raw
//! term frequency as the posting's impact.

use vstd::prelude::*;

verus! {

/// The identity scorer: a posting's impact is its term frequency.
#[derive(Clone, Copy, Debug, PartialEq, Eq, Structural)]
pub struct Identity {
}

impl Identity {
    pub fn new() -> (r: Identity)
        ensures
            r == (Identity {  }),
    {
        Identity {  }
    }

    /// The impact the identity scorer assigns to a term frequency.
    pub fn impact_of(&self, term_freq: u32) -> (r: u16)
        requires
            term_freq <= u16::MAX,
        ensures
            r == term_freq,
    {
        term_freq as u16
    }
}

impl Default for Identity {
    fn default() -> (r: Self)
        ensures
            r == (Identity {  }),
    {
        Identity {  }
    }
}

} // verus!
