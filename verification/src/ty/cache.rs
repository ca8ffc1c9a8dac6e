//! The type cache: the monotype last computed for each expression
//! node, keyed by node identity.  A node inferred twice overwrites its
//! entry with the latest type; an absent entry means the node was
//! never inferred.

use vstd::prelude::*;

use crate::assoc::assoc_map;
use crate::assoc::keys_unique;
use crate::assoc::lemma_assoc_map_dom;
use crate::assoc::lemma_assoc_map_index;
use crate::assoc::lemma_assoc_map_push;
use crate::assoc::lemma_assoc_map_remove;
use crate::expr::expr_id::ExprId;
use crate::ty::SpecTy;
use crate::ty::Ty;

verus! {

/// A finite mapping from node identities to monotypes.
pub struct TyCache {
    cache: Vec<(ExprId, Ty)>,
}

impl View for TyCache {
    type V = Map<u32, SpecTy>;

    closed spec fn view(&self) -> Map<u32, SpecTy> {
        assoc_map(self.cache@)
    }
}

impl TyCache {
    /// The stored entries carry pairwise distinct node identities.
    pub closed spec fn wf(&self) -> bool {
        keys_unique(self.cache@)
    }

    /// Creates an empty cache.
    pub fn new() -> (r: TyCache)
        ensures
            r.wf(),
            r@ == Map::<u32, SpecTy>::empty(),
    {
        TyCache { cache: Vec::new() }
    }

    /// The position of the entry for a node identity, if there is one.
    fn find(&self, expr_id: &ExprId) -> (r: Option<usize>)
        ensures
            match r {
                Some(i) => i < self.cache@.len() && self.cache@[i as int].0@ == expr_id@,
                None => forall|j: int| 0 <= j < self.cache@.len() ==> self.cache@[j].0@ != expr_id@,
            },
    {
        let n = self.cache.len();
        let mut i: usize = 0;
        while i < n
            invariant
                n == self.cache@.len(),
                i <= n,
                forall|j: int| 0 <= j < i ==> self.cache@[j].0@ != expr_id@,
            decreases n - i,
        {
            if self.cache[i].0.same_as(expr_id) {
                return Some(i);
            }
            i += 1;
        }
        None
    }

    /// Records the monotype computed for a node, overwriting any
    /// earlier record for the same node.
    pub fn write(&mut self, expr_id: ExprId, ty: Ty)
        requires
            old(self).wf(),
        ensures
            final (self).wf(),
            final (self)@ == old(self)@.insert(expr_id@, ty@),
    {
        match self.find(&expr_id) {
            Some(i) => {
                let ghost s0 = self.cache@;
                proof {
                    lemma_assoc_map_remove(self.cache@, i as int);
                }
                self.cache.remove(i);
                proof {
                    assert forall|a: int, b: int|
                        0 <= a < b < self.cache@.len() implies self.cache@[a].0@
                        != self.cache@[b].0@ by {
                        let a0 = if a < i { a } else { a + 1 };
                        let b0 = if b < i { b } else { b + 1 };
                        assert(self.cache@[a] == s0[a0]);
                        assert(self.cache@[b] == s0[b0]);
                    }
                    assert forall|j: int|
                        0 <= j < self.cache@.len() implies self.cache@[j].0@ != expr_id@ by {
                        let j0 = if j < i { j } else { j + 1 };
                        assert(self.cache@[j] == s0[j0]);
                    }
                    lemma_assoc_map_push(self.cache@, (expr_id, ty));
                }
                let ghost s1 = self.cache@;
                self.cache.push((expr_id, ty));
                proof {
                    assert(self@ =~= old(self)@.insert(expr_id@, ty@));
                    assert forall|a: int, b: int|
                        0 <= a < b < self.cache@.len() implies self.cache@[a].0@
                        != self.cache@[b].0@ by {
                        if b < self.cache@.len() - 1 {
                            assert(self.cache@[a] == s1[a]);
                            assert(self.cache@[b] == s1[b]);
                        } else {
                            assert(self.cache@[a] == s1[a]);
                        }
                    }
                }
            },
            None => {
                proof {
                    lemma_assoc_map_push(self.cache@, (expr_id, ty));
                }
                let ghost s1 = self.cache@;
                self.cache.push((expr_id, ty));
                proof {
                    assert forall|a: int, b: int|
                        0 <= a < b < self.cache@.len() implies self.cache@[a].0@
                        != self.cache@[b].0@ by {
                        if b < self.cache@.len() - 1 {
                            assert(self.cache@[a] == s1[a]);
                            assert(self.cache@[b] == s1[b]);
                        } else {
                            assert(self.cache@[a] == s1[a]);
                        }
                    }
                }
            },
        }
    }

    /// The monotype last recorded for a node, if any.
    pub fn read(&self, expr_id: ExprId) -> (r: Option<&Ty>)
        requires
            self.wf(),
        ensures
            match r {
                Some(t) => self@.dom().contains(expr_id@) && t@ == self@[expr_id@],
                None => !self@.dom().contains(expr_id@),
            },
    {
        proof {
            lemma_assoc_map_dom::<ExprId, Ty>(self.cache@);
        }
        match self.find(&expr_id) {
            Some(i) => {
                proof {
                    lemma_assoc_map_index(self.cache@, i as int);
                }
                Some(&self.cache[i].1)
            },
            None => None,
        }
    }
}

} // verus!
