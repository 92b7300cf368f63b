//! Identifiers of the nodes of the graph.
use vstd::prelude::*;

verus! {

pub type Id = u32;

/// Hands out fresh identifiers, one more than the last one each time.
pub struct IdGenerator {
    prec_id: Id,
}

impl IdGenerator {
    /// The last identifier handed out (0 before the first).
    pub closed spec fn last_id(&self) -> nat {
        self.prec_id as nat
    }

    pub fn new() -> (r: Self)
        ensures
            r.last_id() == 0,
    {
        Self { prec_id: 0 }
    }

    /// The next identifier. The counter must not be exhausted.
    pub fn new_id(&mut self) -> (r: Id)
        requires
            old(self).last_id() < u32::MAX,
        ensures
            r == old(self).last_id() + 1,
            final(self).last_id() == r,
    {
        self.prec_id = self.prec_id + 1;
        self.prec_id
    }

    /// True when another identifier can be handed out.
    pub fn can_generate(&self) -> (r: bool)
        ensures
            r == (self.last_id() < u32::MAX),
    {
        self.prec_id < u32::MAX
    }
}

} // verus!
