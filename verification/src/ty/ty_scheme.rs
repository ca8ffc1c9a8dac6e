//! Type schemes: universally quantified types.  A scheme lists its
//! bound variables and a monotype body; its free variables are the
//! body's less the bound list, and applying a substitution protects
//! the bound variables.

use vstd::prelude::*;
use vstd::string::StringExecFns;

use crate::ty::SpecTy;
use crate::ty::SpecTyVar;
use crate::ty::Ty;
use crate::ty::TyVar;
use crate::ty::contains_var;
use crate::ty::distinct_vars;
use crate::ty::ftv_of_ty;
use crate::ty::subst::Subst;
use crate::ty::subst::apply_subst;
use crate::ty::subst::lemma_apply_empty;
use crate::ty::vars_view;

verus! {

/// Model of a type scheme: for all the listed variables, the body
/// holds.
pub struct SpecScheme {
    pub vars: Seq<SpecTyVar>,
    pub ty: SpecTy,
}

/// The set a sequence of bound variables denotes.
pub open spec fn bound_set(vars: Seq<SpecTyVar>) -> Set<SpecTyVar> {
    Set::new(|v: SpecTyVar| vars.contains(v))
}

/// The free variables of a scheme: those of its body, less the bound
/// list.
pub open spec fn scheme_ftv(sch: SpecScheme) -> Set<SpecTyVar> {
    ftv_of_ty(sch.ty).difference(bound_set(sch.vars))
}

/// What applying a substitution to a scheme yields: the bound
/// variables are protected, the rest of the body is rewritten.
pub open spec fn apply_scheme(s: Map<SpecTyVar, SpecTy>, sch: SpecScheme) -> SpecScheme {
    SpecScheme { vars: sch.vars, ty: apply_subst(s.remove_keys(bound_set(sch.vars)), sch.ty) }
}

/// How a list of bound variables reads: their renderings, separated
/// by single spaces.
pub open spec fn render_vars_spaced(vars: Seq<SpecTyVar>) -> Seq<char>
    decreases vars.len(),
{
    if vars.len() == 0 {
        Seq::empty()
    } else if vars.len() == 1 {
        crate::ty::render_var(vars[0])
    } else {
        render_vars_spaced(vars.drop_last()) + seq![' '] + crate::ty::render_var(vars.last())
    }
}

/// How a scheme reads: `forall v1 v2 . body`.
pub open spec fn render_scheme(sch: SpecScheme) -> Seq<char> {
    seq!['f', 'o', 'r', 'a', 'l', 'l', ' '] + render_vars_spaced(sch.vars) + seq![' ', '.', ' ']
        + crate::ty::render_ty(sch.ty)
}

/// Law: applying the identity substitution to a scheme is a no-op.
pub proof fn lemma_apply_identity_scheme(sch: SpecScheme)
    ensures
        apply_scheme(Map::<SpecTyVar, SpecTy>::empty(), sch) == sch,
{
    let pruned = Map::<SpecTyVar, SpecTy>::empty().remove_keys(bound_set(sch.vars));
    assert(pruned =~= Map::<SpecTyVar, SpecTy>::empty());
    lemma_apply_empty(sch.ty, pruned.dom().len());
}

/// A universally quantified type: an ordered list of bound variables
/// and a monotype body.
#[derive(Debug, PartialEq)]
pub struct TyScheme {
    pub vars: Vec<TyVar>,
    pub ty: Ty,
}

impl View for TyScheme {
    type V = SpecScheme;

    open spec fn view(&self) -> SpecScheme {
        SpecScheme { vars: vars_view(self.vars@), ty: self.ty@ }
    }
}

impl TyScheme {
    /// The scheme quantifying `vars` over `ty`.
    pub fn mk_forall(vars: Vec<TyVar>, ty: Ty) -> (r: TyScheme)
        ensures
            r@ == (SpecScheme { vars: vars_view(vars@), ty: ty@ }),
    {
        TyScheme { vars, ty }
    }

    /// An owned copy with the same view.
    pub fn duplicate(&self) -> (r: TyScheme)
        ensures
            r@ == self@,
    {
        let mut vars: Vec<TyVar> = Vec::new();
        let n = self.vars.len();
        let mut i: usize = 0;
        while i < n
            invariant
                n == self.vars@.len(),
                i <= n,
                vars@.len() == i,
                forall|j: int| 0 <= j < i ==> vars@[j]@ == self.vars@[j]@,
            decreases n - i,
        {
            vars.push(self.vars[i].duplicate());
            i += 1;
        }
        let r = TyScheme { vars, ty: self.ty.duplicate() };
        proof {
            assert(vars_view(r.vars@) =~= vars_view(self.vars@));
        }
        r
    }

    /// This scheme, in its human-readable rendering.
    pub fn render(&self) -> (r: String)
        ensures
            r@ == render_scheme(self@),
    {
        let mut out = String::from_str("forall ");
        proof {
            reveal_strlit("forall ");
            reveal_strlit(" ");
            reveal_strlit(" . ");
            assert(out@ =~= seq!['f', 'o', 'r', 'a', 'l', 'l', ' ']);
            assert(" "@ =~= seq![' ']);
            assert(" . "@ =~= seq![' ', '.', ' ']);
            assert(vars_view(self.vars@.take(0int)) =~= Seq::<SpecTyVar>::empty());
        }
        let n = self.vars.len();
        let mut i: usize = 0;
        while i < n
            invariant
                n == self.vars@.len(),
                i <= n,
                " "@ == seq![' '],
                out@ == seq!['f', 'o', 'r', 'a', 'l', 'l', ' '] + render_vars_spaced(
                    vars_view(self.vars@.take(i as int)),
                ),
            decreases n - i,
        {
            if i > 0 {
                out.append(" ");
            }
            let piece = self.vars[i].render();
            out.append(piece.as_str());
            proof {
                let pv = vars_view(self.vars@.take(i as int));
                let pv1 = vars_view(self.vars@.take(i + 1int));
                assert(pv1 =~= pv.push(self.vars@[i as int]@));
                assert(pv1.drop_last() =~= pv);
                assert(pv1.last() == self.vars@[i as int]@);
                assert(pv1.len() == i + 1);
                if i == 0 {
                    assert(render_vars_spaced(pv1) == crate::ty::render_var(pv1[0]));
                    assert(out@ =~= seq!['f', 'o', 'r', 'a', 'l', 'l', ' ']
                        + render_vars_spaced(pv1));
                } else {
                    assert(render_vars_spaced(pv1) == render_vars_spaced(pv) + seq![' ']
                        + crate::ty::render_var(pv1.last()));
                    assert(out@ =~= seq!['f', 'o', 'r', 'a', 'l', 'l', ' '] + render_vars_spaced(
                        pv1,
                    ));
                }
            }
            i += 1;
        }
        out.append(" . ");
        let body = self.ty.render();
        out.append(body.as_str());
        proof {
            assert(self.vars@.take(n as int) =~= self.vars@);
            assert(out@ =~= render_scheme(self@));
        }
        out
    }

    /// The free type variables of this scheme, without duplicates: the
    /// body's free variables not bound by the quantifier.
    pub fn ftv(&self) -> (r: Vec<TyVar>)
        ensures
            distinct_vars(r@),
            forall|v: SpecTyVar| #[trigger]
                vars_view(r@).contains(v) <==> scheme_ftv(self@).contains(v),
    {
        let all = self.ty.ftv();
        let mut out: Vec<TyVar> = Vec::new();
        let n = all.len();
        let mut i: usize = 0;
        while i < n
            invariant
                n == all@.len(),
                i <= n,
                distinct_vars(all@),
                distinct_vars(out@),
                forall|v: SpecTyVar| #[trigger]
                    vars_view(out@).contains(v) <==> vars_view(all@.take(i as int)).contains(v)
                        && !vars_view(self.vars@).contains(v),
            decreases n - i,
        {
            let keep = !contains_var(&self.vars, &all[i]);
            let ghost prev = out@;
            if keep {
                out.push(all[i].duplicate());
            }
            proof {
                assert(vars_view(all@.take(i + 1int)) =~= vars_view(all@.take(i as int)).push(
                    all@[i as int]@,
                ));
                assert forall|v: SpecTyVar| #[trigger]
                    vars_view(all@.take(i as int)).push(all@[i as int]@).contains(v) implies (
                vars_view(all@.take(i as int)).contains(v) || v == all@[i as int]@) by {
                    let k = choose|k: int| #![auto]
                        0 <= k < i + 1 && vars_view(all@.take(i as int)).push(all@[i as int]@)[k]
                            == v;
                    if k < i {
                        assert(vars_view(all@.take(i as int))[k] == v);
                    }
                }
                assert forall|v: SpecTyVar| #[trigger]
                    vars_view(all@.take(i as int)).contains(v) implies vars_view(
                    all@.take(i + 1int),
                ).contains(v) by {
                    let k = choose|k: int| #![auto]
                        0 <= k < i && vars_view(all@.take(i as int))[k] == v;
                    assert(vars_view(all@.take(i + 1int))[k] == v);
                }
                assert(vars_view(all@.take(i + 1int))[i as int] == all@[i as int]@);
                assert(vars_view(all@.take(i + 1int)).contains(all@[i as int]@));
                if keep {
                    assert(vars_view(out@) =~= vars_view(prev).push(all@[i as int]@));
                    assert forall|v: SpecTyVar| #[trigger]
                        vars_view(out@).contains(v) implies vars_view(prev).contains(v) || v
                        == all@[i as int]@ by {
                        let k = choose|k: int| #![auto]
                            0 <= k < vars_view(out@).len() && vars_view(out@)[k] == v;
                        if k < prev.len() {
                            assert(vars_view(prev)[k] == v);
                        }
                    }
                    assert forall|v: SpecTyVar| #[trigger]
                        vars_view(prev).contains(v) implies vars_view(out@).contains(v) by {
                        let k = choose|k: int| #![auto]
                            0 <= k < vars_view(prev).len() && vars_view(prev)[k] == v;
                        assert(vars_view(out@)[k] == v);
                    }
                    assert(vars_view(out@)[prev.len() as int] == all@[i as int]@);
                    assert(vars_view(out@).contains(all@[i as int]@));
                    // Distinctness survives the push: the element was not
                    // taken before, because the source list is distinct.
                    assert forall|a: int, b: int|
                        0 <= a < b < out@.len() implies out@[a]@ != out@[b]@ by {
                        if b == prev.len() {
                            assert(vars_view(prev)[a] == prev[a]@);
                            if prev[a]@ == all@[i as int]@ {
                                assert(vars_view(prev).contains(all@[i as int]@));
                                assert(vars_view(all@.take(i as int)).contains(all@[i as int]@));
                                let k = choose|k: int| #![auto]
                                    0 <= k < i && vars_view(all@.take(i as int))[k] == all@[i
                                        as int]@;
                                assert(all@[k]@ == all@[i as int]@);
                            }
                        } else {
                            assert(prev[a]@ != prev[b]@);
                        }
                    }
                } else {
                    assert(vars_view(self.vars@).contains(all@[i as int]@));
                }
                assert forall|v: SpecTyVar|
                    #[trigger] vars_view(out@).contains(v) <==> (vars_view(
                    all@.take(i + 1int),
                ).contains(v) && !vars_view(self.vars@).contains(v)) by {
                    let x = all@[i as int]@;
                    if vars_view(out@).contains(v) {
                        if keep {
                            assert(vars_view(prev).contains(v) || v == x);
                            if v == x {
                                assert(!vars_view(self.vars@).contains(v));
                            } else {
                                assert(vars_view(all@.take(i as int)).contains(v));
                                assert(vars_view(all@.take(i + 1int)).contains(v));
                            }
                        } else {
                            assert(vars_view(prev).contains(v));
                            assert(vars_view(all@.take(i as int)).contains(v));
                            assert(vars_view(all@.take(i + 1int)).contains(v));
                        }
                    }
                    if vars_view(all@.take(i + 1int)).contains(v) && !vars_view(
                        self.vars@,
                    ).contains(v) {
                        assert(vars_view(all@.take(i as int)).push(x).contains(v));
                        assert(vars_view(all@.take(i as int)).contains(v) || v == x);
                        if v == x {
                            assert(keep);
                            assert(vars_view(out@).contains(x));
                        } else {
                            assert(vars_view(prev).contains(v));
                            if keep {
                            } else {
                                assert(out@ == prev);
                            }
                            assert(vars_view(out@).contains(v));
                        }
                    }
                }
            }
            i += 1;
        }
        proof {
            assert(all@.take(n as int) =~= all@);
            assert forall|v: SpecTyVar| #[trigger]
                vars_view(out@).contains(v) implies scheme_ftv(self@).contains(v) by {
                assert(vars_view(all@).contains(v));
            }
            assert forall|v: SpecTyVar| #[trigger]
                scheme_ftv(self@).contains(v) implies vars_view(out@).contains(v) by {
                assert(ftv_of_ty(self.ty@).contains(v));
                assert(vars_view(all@).contains(v));
            }
        }
        out
    }

    /// Applies a substitution to this scheme: the bound variables are
    /// removed from the substitution first, so quantification protects
    /// them.
    pub fn apply(&self, subst: &Subst) -> (r: TyScheme)
        requires
            subst.wf(),
        ensures
            r@ == apply_scheme(subst@, self@),
    {
        let mut pruned = subst.duplicate();
        let n = self.vars.len();
        let mut i: usize = 0;
        while i < n
            invariant
                n == self.vars@.len(),
                i <= n,
                pruned.wf(),
                pruned@ == subst@.remove_keys(bound_set(vars_view(self.vars@.take(i as int)))),
            decreases n - i,
        {
            let ghost before = pruned@;
            pruned.remove(&self.vars[i]);
            proof {
                assert(vars_view(self.vars@.take(i + 1int)) =~= vars_view(
                    self.vars@.take(i as int),
                ).push(self.vars@[i as int]@));
                assert forall|v: SpecTyVar| #[trigger]
                    vars_view(self.vars@.take(i + 1int)).contains(v) implies (vars_view(
                    self.vars@.take(i as int),
                ).contains(v) || v == self.vars@[i as int]@) by {
                    let k = choose|k: int|
                        0 <= k < i + 1 && (#[trigger] vars_view(self.vars@.take(i + 1int))[k])
                            == v;
                    if k < i {
                        assert(vars_view(self.vars@.take(i as int))[k] == v);
                    }
                }
                assert forall|v: SpecTyVar| #[trigger]
                    vars_view(self.vars@.take(i as int)).contains(v) implies vars_view(
                    self.vars@.take(i + 1int),
                ).contains(v) by {
                    let k = choose|k: int| #![auto]
                        0 <= k < i && vars_view(self.vars@.take(i as int))[k] == v;
                    assert(vars_view(self.vars@.take(i + 1int))[k] == v);
                }
                assert(vars_view(self.vars@.take(i + 1int))[i as int] == self.vars@[i as int]@);
                assert(vars_view(self.vars@.take(i + 1int)).contains(self.vars@[i as int]@));
                assert(pruned@ =~= subst@.remove_keys(
                    bound_set(vars_view(self.vars@.take(i + 1int))),
                ));
            }
            i += 1;
        }
        proof {
            assert(self.vars@.take(n as int) =~= self.vars@);
        }
        let body = self.ty.apply(&pruned);
        let mut vars: Vec<TyVar> = Vec::new();
        let mut j: usize = 0;
        while j < n
            invariant
                n == self.vars@.len(),
                j <= n,
                vars@.len() == j,
                forall|k: int| 0 <= k < j ==> vars@[k]@ == self.vars@[k]@,
            decreases n - j,
        {
            vars.push(self.vars[j].duplicate());
            j += 1;
        }
        let r = TyScheme { vars, ty: body };
        proof {
            assert(vars_view(r.vars@) =~= vars_view(self.vars@));
        }
        r
    }
}

} // verus!
