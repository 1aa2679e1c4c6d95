//! Identifiers that tie variable-referencing expressions to their resolution.
use vstd::prelude::*;

verus! {

pub type ExprId = usize;

/// Hands out expression identifiers: 0, 1, 2, ...
pub struct ExprIdGenerator {
    next: ExprId,
}

impl View for ExprIdGenerator {
    /// The identifier the next call to `next` hands out.
    type V = nat;

    closed spec fn view(&self) -> nat {
        self.next as nat
    }
}

impl ExprIdGenerator {
    pub fn new() -> (g: Self)
        ensures
            g@ == 0,
    {
        Self { next: 0 }
    }

    /// Whether another identifier can be handed out.
    pub fn can_allocate(&self) -> (r: bool)
        ensures
            r == (self@ < usize::MAX),
    {
        self.next < usize::MAX
    }

    /// Hands out the next identifier.
    pub fn next(&mut self) -> (id: ExprId)
        requires
            old(self)@ < usize::MAX,
        ensures
            id == old(self)@,
            final(self)@ == old(self)@ + 1,
    {
        let id = self.next;
        self.next = self.next + 1;
        id
    }
}


} // verus!
