//! The flat typing context: a mapping from identifiers to type
//! schemes, passed by value through the inference recursion so that
//! entering a binder shadows by overwriting a copy.

use vstd::prelude::*;

use crate::assoc::assoc_map;
use crate::assoc::keys_unique;
use crate::assoc::lemma_assoc_map_dom;
use crate::assoc::lemma_assoc_map_index;
use crate::assoc::lemma_assoc_map_push;
use crate::assoc::lemma_assoc_map_remove;
use crate::expr::Ident;
use crate::expr::ident_eq;
use crate::ty::SpecTy;
use crate::ty::SpecTyVar;
use crate::ty::TyVar;
use crate::ty::contains_var;
use crate::ty::distinct_vars;
use crate::ty::subst::Subst;
use crate::ty::vars_view;
use crate::ty::ty_scheme::SpecScheme;
use crate::ty::ty_scheme::TyScheme;
use crate::ty::ty_scheme::apply_scheme;
use crate::ty::ty_scheme::scheme_ftv;

verus! {

/// The type variables free in any scheme bound by the context.
pub open spec fn ctxt_ftv(m: Map<Seq<char>, SpecScheme>) -> Set<SpecTyVar> {
    Set::new(
        |v: SpecTyVar|
            exists|k: Seq<char>|
                #![auto]
                m.dom().contains(k) && scheme_ftv(m[k]).contains(v),
    )
}

/// What applying a substitution to a context yields: every bound
/// scheme is rewritten in place.
pub open spec fn apply_ctxt(
    s: Map<SpecTyVar, SpecTy>,
    m: Map<Seq<char>, SpecScheme>,
) -> Map<Seq<char>, SpecScheme> {
    Map::new(|k: Seq<char>| m.dom().contains(k), |k: Seq<char>| apply_scheme(s, m[k]))
}

/// Law: applying the identity substitution to a context is a no-op.
pub proof fn lemma_apply_identity_ctxt(m: Map<Seq<char>, SpecScheme>)
    ensures
        apply_ctxt(Map::<SpecTyVar, SpecTy>::empty(), m) == m,
{
    assert forall|k: Seq<char>| #[trigger] m.dom().contains(k) implies apply_scheme(
        Map::<SpecTyVar, SpecTy>::empty(),
        m[k],
    ) == m[k] by {
        crate::ty::ty_scheme::lemma_apply_identity_scheme(m[k]);
    }
    assert(apply_ctxt(Map::<SpecTyVar, SpecTy>::empty(), m) =~= m);
}

/// Appends to `acc` the variables of `more` not already present.
fn absorb_vars(acc: &mut Vec<TyVar>, more: &Vec<TyVar>)
    requires
        distinct_vars(old(acc)@),
    ensures
        distinct_vars(final (acc)@),
        forall|v: SpecTyVar| #[trigger]
            vars_view(final (acc)@).contains(v) <==> vars_view(old(acc)@).contains(v) || vars_view(
                more@,
            ).contains(v),
{
    let n = more.len();
    let mut i: usize = 0;
    while i < n
        invariant
            n == more@.len(),
            i <= n,
            distinct_vars(acc@),
            forall|v: SpecTyVar| #[trigger]
                vars_view(acc@).contains(v) <==> vars_view(old(acc)@).contains(v) || vars_view(
                    more@.take(i as int),
                ).contains(v),
        decreases n - i,
    {
        let present = contains_var(acc, &more[i]);
        let ghost prev = acc@;
        if !present {
            acc.push(more[i].duplicate());
        }
        proof {
            let x = more@[i as int]@;
            assert(vars_view(more@.take(i + 1int)) =~= vars_view(more@.take(i as int)).push(x));
            assert forall|v: SpecTyVar| #[trigger]
                vars_view(more@.take(i + 1int)).contains(v) implies (vars_view(
                more@.take(i as int),
            ).contains(v) || v == x) by {
                let k = choose|k: int|
                    0 <= k < i + 1 && (#[trigger] vars_view(more@.take(i + 1int))[k]) == v;
                if k < i {
                    assert(vars_view(more@.take(i as int))[k] == v);
                }
            }
            assert forall|v: SpecTyVar| #[trigger]
                vars_view(more@.take(i as int)).contains(v) implies vars_view(
                more@.take(i + 1int),
            ).contains(v) by {
                let k = choose|k: int| #![auto]
                    0 <= k < i && vars_view(more@.take(i as int))[k] == v;
                assert(vars_view(more@.take(i + 1int))[k] == v);
            }
            assert(vars_view(more@.take(i + 1int))[i as int] == x);
            assert(vars_view(more@.take(i + 1int)).contains(x));
            if !present {
                assert(vars_view(acc@) =~= vars_view(prev).push(x));
                assert forall|v: SpecTyVar| #[trigger]
                    vars_view(acc@).contains(v) implies vars_view(prev).contains(v) || v == x by {
                    let k = choose|k: int| #![auto]
                        0 <= k < vars_view(acc@).len() && vars_view(acc@)[k] == v;
                    if k < prev.len() {
                        assert(vars_view(prev)[k] == v);
                    }
                }
                assert forall|v: SpecTyVar| #[trigger]
                    vars_view(prev).contains(v) implies vars_view(acc@).contains(v) by {
                    let k = choose|k: int| #![auto]
                        0 <= k < vars_view(prev).len() && vars_view(prev)[k] == v;
                    assert(vars_view(acc@)[k] == v);
                }
                assert(vars_view(acc@)[prev.len() as int] == x);
                assert(vars_view(acc@).contains(x));
                assert forall|a: int, b: int|
                    0 <= a < b < acc@.len() implies acc@[a]@ != acc@[b]@ by {
                    if b == prev.len() {
                        assert(vars_view(prev)[a] == prev[a]@);
                        if prev[a]@ == x {
                            assert(vars_view(prev).contains(x));
                        }
                    } else {
                        assert(prev[a]@ != prev[b]@);
                    }
                }
            }
            assert forall|v: SpecTyVar|
                #[trigger] vars_view(acc@).contains(v) <==> (vars_view(old(acc)@).contains(v)
                    || vars_view(more@.take(i + 1int)).contains(v)) by {
                if vars_view(acc@).contains(v) {
                    if !present {
                        assert(vars_view(prev).contains(v) || v == x);
                    } else {
                        assert(vars_view(prev).contains(v));
                    }
                    if vars_view(prev).contains(v) {
                        if vars_view(more@.take(i as int)).contains(v) {
                            assert(vars_view(more@.take(i + 1int)).contains(v));
                        }
                    }
                }
                if vars_view(old(acc)@).contains(v) || vars_view(more@.take(i + 1int)).contains(
                    v,
                ) {
                    if vars_view(old(acc)@).contains(v) {
                        assert(vars_view(prev).contains(v));
                        if !present {
                            assert(vars_view(acc@).contains(v));
                        }
                    } else {
                        assert(vars_view(more@.take(i as int)).contains(v) || v == x);
                        if v == x {
                            if present {
                                assert(vars_view(prev).contains(x));
                            } else {
                                assert(vars_view(acc@).contains(x));
                            }
                        } else {
                            assert(vars_view(prev).contains(v));
                            if !present {
                                assert(vars_view(acc@).contains(v));
                            }
                        }
                    }
                }
            }
        }
        i += 1;
    }
    proof {
        assert(more@.take(n as int) =~= more@);
    }
}

/// A typing context: a finite mapping from identifiers to the type
/// schemes they are bound to.
#[derive(Debug, PartialEq)]
pub struct TyCtxt {
    types: Vec<(Ident, TyScheme)>,
}

impl View for TyCtxt {
    type V = Map<Seq<char>, SpecScheme>;

    closed spec fn view(&self) -> Map<Seq<char>, SpecScheme> {
        assoc_map(self.types@)
    }
}

impl TyCtxt {
    /// The stored entries bind pairwise distinct identifiers.
    pub closed spec fn wf(&self) -> bool {
        keys_unique(self.types@)
    }

    /// Creates the empty context.
    pub fn new() -> (r: TyCtxt)
        ensures
            r.wf(),
            r@ == Map::<Seq<char>, SpecScheme>::empty(),
    {
        TyCtxt { types: Vec::new() }
    }

    /// The position of the entry binding an identifier with the view
    /// of `var`, if there is one.
    fn find(&self, var: &Ident) -> (r: Option<usize>)
        ensures
            match r {
                Some(i) => i < self.types@.len() && self.types@[i as int].0@ == var@,
                None => forall|j: int| 0 <= j < self.types@.len() ==> self.types@[j].0@ != var@,
            },
    {
        let n = self.types.len();
        let mut i: usize = 0;
        while i < n
            invariant
                n == self.types@.len(),
                i <= n,
                forall|j: int| 0 <= j < i ==> self.types@[j].0@ != var@,
            decreases n - i,
        {
            if ident_eq(&self.types[i].0, var) {
                return Some(i);
            }
            i += 1;
        }
        None
    }

    /// Binds an identifier to a scheme, overwriting any previous
    /// binding (lexical shadowing on a copied context).
    pub fn insert(&mut self, var: Ident, ty_scheme: TyScheme)
        requires
            old(self).wf(),
        ensures
            final (self).wf(),
            final (self)@ == old(self)@.insert(var@, ty_scheme@),
    {
        match self.find(&var) {
            Some(i) => {
                let ghost s0 = self.types@;
                proof {
                    lemma_assoc_map_remove(self.types@, i as int);
                }
                self.types.remove(i);
                proof {
                    assert forall|a: int, b: int|
                        0 <= a < b < self.types@.len() implies self.types@[a].0@
                        != self.types@[b].0@ by {
                        let a0 = if a < i { a } else { a + 1 };
                        let b0 = if b < i { b } else { b + 1 };
                        assert(self.types@[a] == s0[a0]);
                        assert(self.types@[b] == s0[b0]);
                    }
                    assert forall|j: int|
                        0 <= j < self.types@.len() implies self.types@[j].0@ != var@ by {
                        let j0 = if j < i { j } else { j + 1 };
                        assert(self.types@[j] == s0[j0]);
                    }
                    lemma_assoc_map_push(self.types@, (var, ty_scheme));
                }
                let ghost s1 = self.types@;
                self.types.push((var, ty_scheme));
                proof {
                    assert(self@ =~= old(self)@.insert(var@, ty_scheme@));
                    assert forall|a: int, b: int|
                        0 <= a < b < self.types@.len() implies self.types@[a].0@
                        != self.types@[b].0@ by {
                        if b < self.types@.len() - 1 {
                            assert(self.types@[a] == s1[a]);
                            assert(self.types@[b] == s1[b]);
                        } else {
                            assert(self.types@[a] == s1[a]);
                        }
                    }
                }
            },
            None => {
                proof {
                    lemma_assoc_map_push(self.types@, (var, ty_scheme));
                }
                let ghost s1 = self.types@;
                self.types.push((var, ty_scheme));
                proof {
                    assert forall|a: int, b: int|
                        0 <= a < b < self.types@.len() implies self.types@[a].0@
                        != self.types@[b].0@ by {
                        if b < self.types@.len() - 1 {
                            assert(self.types@[a] == s1[a]);
                            assert(self.types@[b] == s1[b]);
                        } else {
                            assert(self.types@[a] == s1[a]);
                        }
                    }
                }
            },
        }
    }

    /// Removes the binding of an identifier, returning the scheme it
    /// was bound to.
    pub fn remove(&mut self, var: &Ident) -> (r: Option<TyScheme>)
        requires
            old(self).wf(),
        ensures
            final (self).wf(),
            final (self)@ == old(self)@.remove(var@),
            match r {
                Some(t) => old(self)@.dom().contains(var@) && t@ == old(self)@[var@],
                None => !old(self)@.dom().contains(var@),
            },
    {
        proof {
            lemma_assoc_map_dom::<Ident, TyScheme>(self.types@);
        }
        match self.find(var) {
            Some(i) => {
                let ghost s0 = self.types@;
                proof {
                    lemma_assoc_map_index(self.types@, i as int);
                    lemma_assoc_map_remove(self.types@, i as int);
                }
                let entry = self.types.remove(i);
                proof {
                    assert forall|a: int, b: int|
                        0 <= a < b < self.types@.len() implies self.types@[a].0@
                        != self.types@[b].0@ by {
                        let a0 = if a < i { a } else { a + 1 };
                        let b0 = if b < i { b } else { b + 1 };
                        assert(self.types@[a] == s0[a0]);
                        assert(self.types@[b] == s0[b0]);
                    }
                }
                Some(entry.1)
            },
            None => {
                proof {
                    assert(self@ =~= self@.remove(var@));
                }
                None
            },
        }
    }

    /// Looks up the scheme an identifier is bound to.
    pub fn get(&self, var: &Ident) -> (r: Option<&TyScheme>)
        requires
            self.wf(),
        ensures
            match r {
                Some(t) => self@.dom().contains(var@) && t@ == self@[var@],
                None => !self@.dom().contains(var@),
            },
    {
        proof {
            lemma_assoc_map_dom::<Ident, TyScheme>(self.types@);
        }
        match self.find(var) {
            Some(i) => {
                proof {
                    lemma_assoc_map_index(self.types@, i as int);
                }
                Some(&self.types[i].1)
            },
            None => None,
        }
    }

    /// An owned copy denoting the same context.
    pub fn duplicate(&self) -> (r: TyCtxt)
        requires
            self.wf(),
        ensures
            r.wf(),
            r@ == self@,
    {
        let mut types: Vec<(Ident, TyScheme)> = Vec::new();
        let n = self.types.len();
        let mut i: usize = 0;
        while i < n
            invariant
                n == self.types@.len(),
                i <= n,
                types@.len() == i,
                forall|j: int|
                    0 <= j < i ==> types@[j].0@ == self.types@[j].0@ && types@[j].1@
                        == self.types@[j].1@,
            decreases n - i,
        {
            let pair = (self.types[i].0.duplicate(), self.types[i].1.duplicate());
            types.push(pair);
            i += 1;
        }
        let r = TyCtxt { types };
        proof {
            crate::assoc::lemma_assoc_map_congruence(r.types@, self.types@);
        }
        r
    }

    /// The type variables free anywhere in the context, without
    /// duplicates: the union of the bound schemes' free variables.
    pub fn ftv(&self) -> (r: Vec<TyVar>)
        requires
            self.wf(),
        ensures
            distinct_vars(r@),
            forall|v: SpecTyVar| #[trigger]
                vars_view(r@).contains(v) <==> ctxt_ftv(self@).contains(v),
    {
        let mut acc: Vec<TyVar> = Vec::new();
        let n = self.types.len();
        let mut i: usize = 0;
        while i < n
            invariant
                self.wf(),
                n == self.types@.len(),
                i <= n,
                distinct_vars(acc@),
                forall|v: SpecTyVar| #[trigger]
                    vars_view(acc@).contains(v) <==> exists|j: int|
                        0 <= j < i && #[trigger] scheme_ftv(self.types@[j].1@).contains(v),
            decreases n - i,
        {
            let fv = self.types[i].1.ftv();
            absorb_vars(&mut acc, &fv);
            proof {
                assert forall|v: SpecTyVar| #[trigger]
                    vars_view(acc@).contains(v) implies exists|j: int|
                    0 <= j < i + 1 && #[trigger] scheme_ftv(self.types@[j].1@).contains(v) by {
                    if vars_view(fv@).contains(v) {
                        assert(scheme_ftv(self.types@[i as int].1@).contains(v));
                    } else {
                        let j = choose|j: int|
                            0 <= j < i && #[trigger] scheme_ftv(self.types@[j].1@).contains(v);
                        assert(scheme_ftv(self.types@[j].1@).contains(v));
                    }
                }
            }
            i += 1;
        }
        proof {
            assert forall|v: SpecTyVar| #[trigger]
                vars_view(acc@).contains(v) implies ctxt_ftv(self@).contains(v) by {
                let j = choose|j: int|
                    0 <= j < n && #[trigger] scheme_ftv(self.types@[j].1@).contains(v);
                lemma_assoc_map_index(self.types@, j);
                assert(self@.dom().contains(self.types@[j].0@) && scheme_ftv(
                    self@[self.types@[j].0@],
                ).contains(v));
            }
            assert forall|v: SpecTyVar|
                ctxt_ftv(self@).contains(v) implies #[trigger] vars_view(acc@).contains(v) by {
                let k = choose|k: Seq<char>|
                    #![auto]
                    self@.dom().contains(k) && scheme_ftv(self@[k]).contains(v);
                lemma_assoc_map_dom::<Ident, TyScheme>(self.types@);
                let j = choose|j: int| 0 <= j < self.types@.len() && self.types@[j].0@ == k;
                lemma_assoc_map_index(self.types@, j);
                assert(scheme_ftv(self.types@[j].1@).contains(v));
            }
        }
        acc
    }

    /// Applies a substitution to the context: every bound scheme is
    /// rewritten in place.
    pub fn apply(&self, subst: &Subst) -> (r: TyCtxt)
        requires
            self.wf(),
            subst.wf(),
        ensures
            r.wf(),
            r@ == apply_ctxt(subst@, self@),
    {
        let mut types: Vec<(Ident, TyScheme)> = Vec::new();
        let n = self.types.len();
        let mut i: usize = 0;
        while i < n
            invariant
                self.wf(),
                subst.wf(),
                n == self.types@.len(),
                i <= n,
                types@.len() == i,
                forall|j: int|
                    0 <= j < i ==> types@[j].0@ == self.types@[j].0@ && types@[j].1@
                        == apply_scheme(subst@, self.types@[j].1@),
            decreases n - i,
        {
            let pair = (self.types[i].0.duplicate(), self.types[i].1.apply(subst));
            types.push(pair);
            i += 1;
        }
        let r = TyCtxt { types };
        proof {
            assert(keys_unique(r.types@));
            lemma_assoc_map_dom::<Ident, TyScheme>(self.types@);
            lemma_assoc_map_dom::<Ident, TyScheme>(r.types@);
            assert forall|k: Seq<char>| #[trigger]
                r@.dom().contains(k) implies self@.dom().contains(k) by {
                let j = choose|j: int| 0 <= j < r.types@.len() && r.types@[j].0@ == k;
                assert(self.types@[j].0@ == k);
            }
            assert forall|k: Seq<char>| #[trigger]
                self@.dom().contains(k) implies r@.dom().contains(k) && r@[k] == apply_scheme(
                subst@,
                self@[k],
            ) by {
                let j = choose|j: int| 0 <= j < self.types@.len() && self.types@[j].0@ == k;
                assert(r.types@[j].0@ == k);
                lemma_assoc_map_index(self.types@, j);
                lemma_assoc_map_index(r.types@, j);
            }
            assert(r@ =~= apply_ctxt(subst@, self@));
        }
        r
    }
}

} // verus!
