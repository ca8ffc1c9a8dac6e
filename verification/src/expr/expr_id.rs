//! Stable per-node identities for expression nodes, used to key the
//! type cache.

use vstd::prelude::*;

verus! {

/// The identity of an expression node.  Zero is the dummy identity of
/// a node that has not been numbered yet; `assign_ids` hands out
/// identities starting from one.
#[derive(Debug, Clone, Copy, PartialEq, Eq, Structural)]
pub struct ExprId {
    id: u32,
}

impl View for ExprId {
    type V = u32;

    closed spec fn view(&self) -> u32 {
        self.id
    }
}

impl ExprId {
    /// The identity with the given non-zero number.
    pub fn from_u32(id: u32) -> (r: ExprId)
        requires
            id != 0,
        ensures
            r@ == id,
    {
        ExprId { id }
    }

    /// The dummy identity of an unnumbered node.
    pub fn dummy() -> (r: ExprId)
        ensures
            r@ == 0,
    {
        ExprId { id: 0 }
    }

    /// Decides whether two identities are the same.
    pub fn same_as(&self, other: &ExprId) -> (r: bool)
        ensures
            r == (self@ == other@),
    {
        self.id == other.id
    }
}

} // verus!
