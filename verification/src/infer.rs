//! The Algorithm W inference driver: a syntax-directed recursion over
//! the expression tree that threads a fresh-variable counter, extends
//! a typing context at binders, and composes the substitutions the
//! unifier discovers.

use vstd::prelude::*;

use crate::error::SpecTyError;
use crate::error::TyError;
use crate::error::TyResult;
use crate::expr::Expr;
use crate::expr::ExprKind;
use crate::expr::Lit;
use crate::expr::SpecExpr;
use crate::ty::SpecTy;
use crate::ty::SpecTyVar;
use crate::ty::Ty;
use crate::ty::TyVar;
use crate::ty::contains_var;
use crate::ty::dedup_vars;
use crate::ty::distinct_vars;
use crate::ty::ftv_of_ty;
use crate::ty::ftv_seq;
use crate::ty::subst::Subst;
use crate::ty::subst::apply_subst;
use crate::ty::subst::chain_ok;
use crate::ty::subst::lemma_apply_ftv;
use crate::ty::subst::lemma_apply_ground;
use crate::ty::subst::lemma_unification_of;
use crate::ty::subst::mgu_step;
use crate::ty::subst::rng_ftv;
use crate::ty::subst::spec_compose;
use crate::ty::subst::unification_of;
use crate::ty::subst::spec_apply;
use crate::ty::subst::subst_resolvable;
use crate::ty::arrow;
use crate::ty::ty_ctxt::TyCtxt;
use crate::ty::ty_ctxt::apply_ctxt;
use crate::ty::ty_ctxt::ctxt_ftv;
use crate::ty::ty_scheme::SpecScheme;
use crate::ty::ty_scheme::TyScheme;
use crate::ty::vars_view;

verus! {

/// The identifier following `c`: the counter wraps around at the top
/// of its range instead of failing.
pub open spec fn next_id(c: u32) -> u32 {
    if c == u32::MAX {
        0
    } else {
        (c + 1) as u32
    }
}

/// The counter after allocating `n` fresh identifiers starting from
/// `c`.
pub open spec fn advance_id(c: u32, n: nat) -> u32
    decreases n,
{
    if n == 0 {
        c
    } else {
        next_id(advance_id(c, (n - 1) as nat))
    }
}

/// The variables of `s`, in order, that the bound set does not hold:
/// what generalization quantifies.
pub open spec fn keep_unbound(s: Seq<SpecTyVar>, bound: Set<SpecTyVar>) -> Seq<SpecTyVar>
    decreases s.len(),
{
    if s.len() == 0 {
        Seq::empty()
    } else {
        let d = keep_unbound(s.drop_last(), bound);
        if bound.contains(s.last()) {
            d
        } else {
            d.push(s.last())
        }
    }
}

/// The substitution instantiation builds: each bound variable, in
/// order, mapped to a fresh unknown variable; a variable listed twice
/// keeps its later replacement.
pub open spec fn fresh_map(vars: Seq<SpecTyVar>, c: u32) -> Map<SpecTyVar, SpecTy>
    decreases vars.len(),
{
    if vars.len() == 0 {
        Map::empty()
    } else {
        fresh_map(vars.drop_last(), c).insert(
            vars.last(),
            SpecTy::Var(SpecTyVar::Unknown(advance_id(c, (vars.len() - 1) as nat))),
        )
    }
}

/// The renaming that undoes an instantiation: each fresh unknown
/// variable, in allocation order, mapped back to the bound variable it
/// replaced.
pub open spec fn back_map(vars: Seq<SpecTyVar>, c: u32) -> Map<SpecTyVar, SpecTy>
    decreases vars.len(),
{
    if vars.len() == 0 {
        Map::empty()
    } else {
        back_map(vars.drop_last(), c).insert(
            SpecTyVar::Unknown(advance_id(c, (vars.len() - 1) as nat)),
            SpecTy::Var(vars.last()),
        )
    }
}

/// While the counter does not wrap, advancing it is plain addition.
pub proof fn lemma_advance_no_wrap(c: u32, n: nat)
    requires
        c + n <= u32::MAX,
    ensures
        advance_id(c, n) == c + n,
    decreases n,
{
    if n > 0 {
        lemma_advance_no_wrap(c, (n - 1) as nat);
    }
}

/// While the counter does not wrap, the fresh substitution binds
/// exactly the listed variables, its images are the fresh unknown
/// variables of the allocated stretch, and a distinct entry holds its
/// positional replacement.
pub proof fn lemma_fresh_map_facts(vars: Seq<SpecTyVar>, c: u32)
    requires
        c + vars.len() <= u32::MAX,
    ensures
        fresh_map(vars, c).dom().finite(),
        forall|v: SpecTyVar| #[trigger]
            fresh_map(vars, c).dom().contains(v) <==> vars.contains(v),
        forall|w: SpecTyVar| #[trigger]
            rng_ftv(fresh_map(vars, c)).contains(w) ==> exists|u: u32|
                w == SpecTyVar::Unknown(u) && c <= u < c + vars.len(),
    decreases vars.len(),
{
    let m = fresh_map(vars, c);
    if vars.len() == 0 {
        assert forall|w: SpecTyVar| !rng_ftv(m).contains(w) by {
            assert(forall|x: SpecTyVar| !m.dom().contains(x));
        }
    } else {
        let prev = vars.drop_last();
        let pm = fresh_map(prev, c);
        lemma_fresh_map_facts(prev, c);
        lemma_advance_no_wrap(c, (vars.len() - 1) as nat);
        let last_image = SpecTy::Var(SpecTyVar::Unknown(advance_id(c, (vars.len() - 1) as nat)));
        assert forall|v: SpecTyVar| #[trigger] m.dom().contains(v) <==> vars.contains(v) by {
            if m.dom().contains(v) {
                if v == vars.last() {
                    assert(vars[vars.len() - 1] == v);
                } else {
                    assert(pm.dom().contains(v));
                    assert(prev.contains(v));
                    let i = choose|i: int| 0 <= i < prev.len() && prev[i] == v;
                    assert(vars[i] == v);
                }
            }
            if vars.contains(v) {
                let i = choose|i: int| 0 <= i < vars.len() && vars[i] == v;
                if i == vars.len() - 1 {
                    assert(m.dom().contains(v));
                } else {
                    assert(prev[i] == v);
                    assert(prev.contains(v));
                    assert(pm.dom().contains(v));
                }
            }
        }
        assert forall|w: SpecTyVar| #[trigger] rng_ftv(m).contains(w) implies exists|u: u32|
            w == SpecTyVar::Unknown(u) && c <= u < c + vars.len() by {
            let v = choose|v: SpecTyVar|
                m.dom().contains(v) && #[trigger] ftv_of_ty(m[v]).contains(w);
            if v == vars.last() {
                assert(ftv_of_ty(m[v]) == ftv_of_ty(last_image));
            } else {
                assert(pm.dom().contains(v) && ftv_of_ty(pm[v]).contains(w));
                assert(rng_ftv(pm).contains(w));
            }
        }
    }
}

/// While the counter does not wrap and the listed variables all lie
/// outside the allocated stretch, the fresh substitution is
/// resolvable: every chain has length one.
pub proof fn lemma_fresh_map_resolvable(vars: Seq<SpecTyVar>, c: u32)
    requires
        c + vars.len() <= u32::MAX,
        forall|u: u32| #[trigger] vars.contains(SpecTyVar::Unknown(u)) ==> u < c,
    ensures
        subst_resolvable(fresh_map(vars, c)),
    decreases vars.len(),
{
    let m = fresh_map(vars, c);
    lemma_fresh_map_facts(vars, c);
    assert forall|v: SpecTyVar| m.dom().contains(v) implies m[v] != SpecTy::Var(v) by {
        lemma_fresh_map_image(vars, c, v);
        let u = choose|u: u32|
            #![auto]
            m[v] == SpecTy::Var(SpecTyVar::Unknown(u)) && c <= u < c + vars.len();
        if v == SpecTyVar::Unknown(u) {
            assert(vars.contains(v));
        }
    }
    assert forall|v: SpecTyVar| #[trigger] chain_ok(m, v, m.dom().len()) by {
        if m.dom().contains(v) && m[v] != SpecTy::Var(v) {
            if m.dom().len() == 0 {
                m.dom().lemma_len0_is_empty();
            }
            assert(m.dom().len() > 0);
            lemma_fresh_map_image(vars, c, v);
            assert forall|w: SpecTyVar| #[trigger]
                ftv_of_ty(m[v]).contains(w) implies chain_ok(m, w, (m.dom().len() - 1) as nat) by {
                let u = choose|u: u32|
                    #![auto]
                    m[v] == SpecTy::Var(SpecTyVar::Unknown(u)) && c <= u < c + vars.len();
                assert(w == SpecTyVar::Unknown(u));
                if m.dom().contains(w) {
                    assert(vars.contains(SpecTyVar::Unknown(u)));
                }
            }
        }
    }
}

/// Every image of the fresh substitution is a fresh unknown variable
/// of the allocated stretch.
pub proof fn lemma_fresh_map_image(vars: Seq<SpecTyVar>, c: u32, v: SpecTyVar)
    requires
        c + vars.len() <= u32::MAX,
        fresh_map(vars, c).dom().contains(v),
    ensures
        exists|u: u32|
            fresh_map(vars, c)[v] == SpecTy::Var(SpecTyVar::Unknown(u)) && c <= u < c
                + vars.len(),
    decreases vars.len(),
{
    let m = fresh_map(vars, c);
    let prev = vars.drop_last();
    let pm = fresh_map(prev, c);
    lemma_advance_no_wrap(c, (vars.len() - 1) as nat);
    if v == vars.last() {
        let u = advance_id(c, (vars.len() - 1) as nat);
        assert(m[v] == SpecTy::Var(SpecTyVar::Unknown(u)) && c <= u < c + vars.len());
    } else {
        lemma_fresh_map_image(prev, c, v);
    }
}

/// With distinct bound variables, entry `i` of the fresh substitution
/// maps the i-th bound variable to the i-th fresh unknown, and the
/// undoing renaming maps it back.
pub proof fn lemma_fresh_back_index(vars: Seq<SpecTyVar>, c: u32, i: int)
    requires
        c + vars.len() <= u32::MAX,
        forall|a: int, b: int| 0 <= a < b < vars.len() ==> vars[a] != vars[b],
        0 <= i < vars.len(),
    ensures
        fresh_map(vars, c).dom().contains(vars[i]),
        fresh_map(vars, c)[vars[i]] == SpecTy::Var(SpecTyVar::Unknown((c + i) as u32)),
        back_map(vars, c).dom().contains(SpecTyVar::Unknown((c + i) as u32)),
        back_map(vars, c)[SpecTyVar::Unknown((c + i) as u32)] == SpecTy::Var(vars[i]),
    decreases vars.len(),
{
    let prev = vars.drop_last();
    lemma_advance_no_wrap(c, (vars.len() - 1) as nat);
    if i == vars.len() - 1 {
    } else {
        lemma_fresh_back_index(prev, c, i);
        assert(prev[i] == vars[i]);
        assert(vars[i] != vars.last());
        assert((c + i) as u32 != advance_id(c, (vars.len() - 1) as nat));
    }
}

/// The undoing renaming binds finitely many variables.
pub proof fn lemma_back_map_finite(vars: Seq<SpecTyVar>, c: u32)
    ensures
        back_map(vars, c).dom().finite(),
    decreases vars.len(),
{
    if vars.len() > 0 {
        lemma_back_map_finite(vars.drop_last(), c);
    }
}

/// Every variable the undoing renaming binds is a fresh unknown of the
/// allocated stretch.
pub proof fn lemma_back_map_dom(vars: Seq<SpecTyVar>, c: u32, v: SpecTyVar)
    requires
        c + vars.len() <= u32::MAX,
        back_map(vars, c).dom().contains(v),
    ensures
        v is Unknown,
        c <= v->Unknown_0 < c + vars.len(),
    decreases vars.len(),
{
    lemma_advance_no_wrap(c, (vars.len() - 1) as nat);
    if vars.len() > 0 && v != SpecTyVar::Unknown(advance_id(c, (vars.len() - 1) as nat)) {
        lemma_back_map_dom(vars.drop_last(), c, v);
    }
}

/// What one step of Algorithm W yields: the inference result and the
/// counter after it, as a function of the typing context, the counter
/// and the expression.
///
/// A variable instantiates its scheme, or fails as unbound; a literal
/// has its base type; an abstraction binds its parameter to a fresh
/// monotype and wraps the body\'s result in an arrow; an application
/// infers the callee, propagates its constraints into the context,
/// infers the argument, and unifies the callee\'s type against an
/// arrow into a fresh result variable; a let-binding generalizes the
/// bound value\'s type over the variables free in it but nowhere in
/// the updated context, in order of first occurrence, and infers the
/// body with the name bound to the scheme.  Every error of a premise
/// is the step\'s own error.
pub open spec fn spec_infer(g: Map<Seq<char>, SpecScheme>, c: u32, e: SpecExpr) -> (
    Result<(Map<SpecTyVar, SpecTy>, SpecTy), SpecTyError>,
    u32,
)
    decreases e,
{
    match e {
        SpecExpr::Var(x) => {
            if g.dom().contains(x) {
                (
                    Ok(
                        (
                            Map::<SpecTyVar, SpecTy>::empty(),
                            apply_subst(fresh_map(g[x].vars, c), g[x].ty),
                        ),
                    ),
                    advance_id(c, g[x].vars.len()),
                )
            } else {
                (Err(SpecTyError::UnboundVariable(x)), c)
            }
        },
        SpecExpr::Lit(l) => (
            Ok(
                (
                    Map::<SpecTyVar, SpecTy>::empty(),
                    match l {
                        Lit::Int(_) => SpecTy::Int,
                        Lit::Bool(_) => SpecTy::Bool,
                    },
                ),
            ),
            c,
        ),
        SpecExpr::Abs { param, body } => {
            let u0 = SpecTy::Var(SpecTyVar::Unknown(c));
            let sr = spec_infer(
                g.insert(param, SpecScheme { vars: Seq::empty(), ty: u0 }),
                next_id(c),
                *body,
            );
            (
                match sr.0 {
                    Ok(p) => Ok((p.0, arrow(apply_subst(p.0, u0), p.1))),
                    Err(err) => Err(err),
                },
                sr.1,
            )
        },
        SpecExpr::App { callee, arg } => {
            let u0 = SpecTy::Var(SpecTyVar::Unknown(c));
            let sr1 = spec_infer(g, next_id(c), *callee);
            match sr1.0 {
                Err(err) => (Err(err), sr1.1),
                Ok(p1) => {
                    let sr2 = spec_infer(apply_ctxt(p1.0, g), sr1.1, *arg);
                    match sr2.0 {
                        Err(err) => (Err(err), sr2.1),
                        Ok(p2) => (
                            match unification_of(apply_subst(p2.0, p1.1), arrow(p2.1, u0)) {
                                Err(err) => Err(err),
                                Ok(s3) => Ok(
                                    (
                                        spec_compose(spec_compose(s3, p2.0), p1.0),
                                        apply_subst(s3, u0),
                                    ),
                                ),
                            },
                            sr2.1,
                        ),
                    }
                },
            }
        },
        SpecExpr::Let { name, value, body } => {
            let sr1 = spec_infer(g, c, *value);
            match sr1.0 {
                Err(err) => (Err(err), sr1.1),
                Ok(p1) => {
                    let vars = keep_unbound(
                        dedup_vars(ftv_seq(p1.1)),
                        ctxt_ftv(apply_ctxt(p1.0, g)),
                    );
                    let sr2 = spec_infer(
                        apply_ctxt(p1.0, g.insert(name, SpecScheme { vars, ty: p1.1 })),
                        sr1.1,
                        *body,
                    );
                    (
                        match sr2.0 {
                            Err(err) => Err(err),
                            Ok(p2) => Ok((spec_compose(p2.0, p1.0), p2.1)),
                        },
                        sr2.1,
                    )
                },
            }
        },
    }
}

/// One step of Algorithm W agrees with the executed result.
pub open spec fn infer_matches(
    sr: (Result<(Map<SpecTyVar, SpecTy>, SpecTy), SpecTyError>, u32),
    r: TyResult<(Subst, Ty)>,
    c2: u32,
) -> bool {
    &&& sr.1 == c2
    &&& (match r {
        Ok(p) => sr.0 == Ok::<(Map<SpecTyVar, SpecTy>, SpecTy), SpecTyError>((p.0@, p.1@)),
        Err(e) => sr.0 == Err::<(Map<SpecTyVar, SpecTy>, SpecTy), SpecTyError>(e@),
    })
}

/// One type inference run: the fresh-variable counter it owns.  A run
/// is never shared; construct a new one per inference.
pub struct InferCtxt {
    used_type_var_id: u32,
}

impl InferCtxt {
    /// The identifier the next fresh unknown variable will carry.
    pub closed spec fn counter(&self) -> u32 {
        self.used_type_var_id
    }

    /// A fresh inference run, allocating unknown variables from zero.
    pub fn new() -> (r: InferCtxt)
        ensures
            r.counter() == 0,
    {
        InferCtxt { used_type_var_id: 0 }
    }

    /// Allocates a fresh unknown type variable.
    fn new_type_var(&mut self) -> (r: TyVar)
        ensures
            r@ == SpecTyVar::Unknown(old(self).counter()),
            final (self).counter() == next_id(old(self).counter()),
    {
        let id = self.used_type_var_id;
        self.used_type_var_id = if id == u32::MAX {
            0
        } else {
            id + 1
        };
        TyVar::Unknown(id)
    }

    /// Abstracts a type over the type variables free in it but not
    /// free anywhere in the typing context: exactly those are
    /// quantified, each once, in the order they occur in the type.
    pub fn generalize(&self, tcx: TyCtxt, ty: Ty) -> (r: TyScheme)
        requires
            tcx.wf(),
        ensures
            r@.ty == ty@,
            forall|i: int, j: int| 0 <= i < j < r@.vars.len() ==> r@.vars[i] != r@.vars[j],
            forall|v: SpecTyVar| #[trigger]
                r@.vars.contains(v) <==> ftv_of_ty(ty@).contains(v) && !ctxt_ftv(tcx@).contains(v),
            r@.vars == keep_unbound(dedup_vars(ftv_seq(ty@)), ctxt_ftv(tcx@)),
    {
        let ty_fv = ty.ftv();
        let ctx_fv = tcx.ftv();
        let mut vars: Vec<TyVar> = Vec::new();
        let n = ty_fv.len();
        let mut i: usize = 0;
        while i < n
            invariant
                n == ty_fv@.len(),
                i <= n,
                distinct_vars(ty_fv@),
                distinct_vars(vars@),
                forall|v: SpecTyVar| #[trigger]
                    vars_view(ctx_fv@).contains(v) <==> ctxt_ftv(tcx@).contains(v),
                forall|v: SpecTyVar| #[trigger]
                    vars_view(ty_fv@).contains(v) <==> ftv_of_ty(ty@).contains(v),
                forall|v: SpecTyVar| #[trigger]
                    vars_view(vars@).contains(v) <==> vars_view(ty_fv@.take(i as int)).contains(v)
                        && !vars_view(ctx_fv@).contains(v),
                vars_view(vars@) == keep_unbound(
                    vars_view(ty_fv@.take(i as int)),
                    ctxt_ftv(tcx@),
                ),
            decreases n - i,
        {
            let keep = !contains_var(&ctx_fv, &ty_fv[i]);
            let ghost prev = vars@;
            if keep {
                vars.push(ty_fv[i].duplicate());
            }
            proof {
                let x = ty_fv@[i as int]@;
                assert(vars_view(ty_fv@.take(i + 1int)) =~= vars_view(ty_fv@.take(i as int)).push(
                    x,
                ));
                assert forall|v: SpecTyVar| #[trigger]
                    vars_view(ty_fv@.take(i + 1int)).contains(v) implies (vars_view(
                    ty_fv@.take(i as int),
                ).contains(v) || v == x) by {
                    let k = choose|k: int|
                        0 <= k < i + 1 && (#[trigger] vars_view(ty_fv@.take(i + 1int))[k]) == v;
                    if k < i {
                        assert(vars_view(ty_fv@.take(i as int))[k] == v);
                    }
                }
                assert forall|v: SpecTyVar| #[trigger]
                    vars_view(ty_fv@.take(i as int)).contains(v) implies vars_view(
                    ty_fv@.take(i + 1int),
                ).contains(v) by {
                    let k = choose|k: int| #![auto]
                        0 <= k < i && vars_view(ty_fv@.take(i as int))[k] == v;
                    assert(vars_view(ty_fv@.take(i + 1int))[k] == v);
                }
                assert(vars_view(ty_fv@.take(i + 1int))[i as int] == x);
                assert(vars_view(ty_fv@.take(i + 1int)).contains(x));
                if keep {
                    assert(vars_view(vars@) =~= vars_view(prev).push(x));
                    assert forall|v: SpecTyVar| #[trigger]
                        vars_view(vars@).contains(v) implies vars_view(prev).contains(v) || v
                        == x by {
                        let k = choose|k: int| #![auto]
                            0 <= k < vars_view(vars@).len() && vars_view(vars@)[k] == v;
                        if k < prev.len() {
                            assert(vars_view(prev)[k] == v);
                        }
                    }
                    assert forall|v: SpecTyVar| #[trigger]
                        vars_view(prev).contains(v) implies vars_view(vars@).contains(v) by {
                        let k = choose|k: int| #![auto]
                            0 <= k < vars_view(prev).len() && vars_view(prev)[k] == v;
                        assert(vars_view(vars@)[k] == v);
                    }
                    assert(vars_view(vars@)[prev.len() as int] == x);
                    assert(vars_view(vars@).contains(x));
                    assert forall|a: int, b: int|
                        0 <= a < b < vars@.len() implies vars@[a]@ != vars@[b]@ by {
                        if b == prev.len() {
                            assert(vars_view(prev)[a] == prev[a]@);
                            if prev[a]@ == x {
                                assert(vars_view(prev).contains(x));
                                assert(vars_view(ty_fv@.take(i as int)).contains(x));
                                let k = choose|k: int| #![auto]
                                    0 <= k < i && vars_view(ty_fv@.take(i as int))[k] == x;
                                assert(ty_fv@[k]@ == ty_fv@[i as int]@);
                            }
                        } else {
                            assert(prev[a]@ != prev[b]@);
                        }
                    }
                } else {
                    assert(vars_view(ctx_fv@).contains(x));
                }
                assert forall|v: SpecTyVar|
                    #[trigger] vars_view(vars@).contains(v) <==> (vars_view(
                    ty_fv@.take(i + 1int),
                ).contains(v) && !vars_view(ctx_fv@).contains(v)) by {
                    if vars_view(vars@).contains(v) {
                        if keep {
                            assert(vars_view(prev).contains(v) || v == x);
                        } else {
                            assert(vars_view(prev).contains(v));
                        }
                        if vars_view(prev).contains(v) {
                            assert(vars_view(ty_fv@.take(i as int)).contains(v));
                            assert(vars_view(ty_fv@.take(i + 1int)).contains(v));
                        }
                    }
                    if vars_view(ty_fv@.take(i + 1int)).contains(v) && !vars_view(
                        ctx_fv@,
                    ).contains(v) {
                        assert(vars_view(ty_fv@.take(i as int)).contains(v) || v == x);
                        if v == x {
                            assert(keep);
                            assert(vars_view(vars@).contains(x));
                        } else {
                            assert(vars_view(prev).contains(v));
                            if keep {
                            } else {
                                assert(vars@ == prev);
                            }
                            assert(vars_view(vars@).contains(v));
                        }
                    }
                }
                assert(vars_view(ty_fv@.take(i + 1int)).drop_last() =~= vars_view(
                    ty_fv@.take(i as int),
                ));
                assert(vars_view(ty_fv@.take(i + 1int)).last() == x);
                assert(ctxt_ftv(tcx@).contains(x) == !keep);
                assert(vars_view(vars@) == keep_unbound(
                    vars_view(ty_fv@.take(i + 1int)),
                    ctxt_ftv(tcx@),
                ));
            }
            i += 1;
        }
        proof {
            assert(ty_fv@.take(n as int) =~= ty_fv@);
            assert(vars_view(ty_fv@) == dedup_vars(ftv_seq(ty@)));
        }
        TyScheme::mk_forall(vars, ty)
    }

    /// Replaces every bound variable of a scheme with a fresh unknown
    /// type variable, yielding a monotype.  Two instantiations of one
    /// scheme draw from disjoint stretches of the counter, so they
    /// share no fresh variable.
    pub fn instantiate(&mut self, tys: TyScheme) -> (r: Ty)
        ensures
            final (self).counter() == advance_id(old(self).counter(), tys@.vars.len()),
            r@ == apply_subst(fresh_map(tys@.vars, old(self).counter()), tys@.ty),
    {
        let ghost c0 = self.counter();
        let mut subst = Subst::identity();
        let n = tys.vars.len();
        let mut i: usize = 0;
        while i < n
            invariant
                n == tys.vars@.len(),
                i <= n,
                subst.wf(),
                self.counter() == advance_id(c0, i as nat),
                subst@ == fresh_map(vars_view(tys.vars@.take(i as int)), c0),
            decreases n - i,
        {
            let fresh = self.new_type_var();
            let key = tys.vars[i].duplicate();
            subst.insert(key, Ty::mk_var(fresh));
            proof {
                let pv = vars_view(tys.vars@.take(i as int));
                let pv1 = vars_view(tys.vars@.take(i + 1int));
                assert(pv1 =~= pv.push(tys.vars@[i as int]@));
                assert(pv1.drop_last() =~= pv);
                assert(pv1.last() == tys.vars@[i as int]@);
                assert(pv1.len() == i + 1);
                assert(advance_id(c0, (i + 1) as nat) == next_id(advance_id(c0, i as nat)));
                assert(fresh_map(pv1, c0) == fresh_map(pv, c0).insert(
                    pv1.last(),
                    SpecTy::Var(SpecTyVar::Unknown(advance_id(c0, i as nat))),
                ));
            }
            i += 1;
        }
        proof {
            assert(tys.vars@.take(n as int) =~= tys.vars@);
            assert(vars_view(tys.vars@) == tys@.vars);
        }
        tys.ty.apply(&subst)
    }

    /// The Algorithm W recursion: infers a substitution and a monotype
    /// for an expression under a typing context, threading the
    /// fresh-variable counter.
    fn infer_impl(&mut self, tcx: TyCtxt, expr: &Expr) -> (r: TyResult<(Subst, Ty)>)
        requires
            tcx.wf(),
        ensures
            (r matches Ok(p) ==> p.0.wf()),
            expr@ matches SpecExpr::Lit(l) ==> (match r {
                Ok(p) => p.0@ == Map::<SpecTyVar, SpecTy>::empty() && p.1@ == (match l {
                    Lit::Int(_) => SpecTy::Int,
                    Lit::Bool(_) => SpecTy::Bool,
                }) && final (self).counter() == old(self).counter(),
                Err(_) => false,
            }),
            expr@ matches SpecExpr::Var(x) ==> (match r {
                Ok(p) => tcx@.dom().contains(x) && p.0@ == Map::<SpecTyVar, SpecTy>::empty()
                    && p.1@ == apply_subst(
                    fresh_map(tcx@[x].vars, old(self).counter()),
                    tcx@[x].ty,
                ) && final (self).counter() == advance_id(
                    old(self).counter(),
                    tcx@[x].vars.len(),
                ),
                Err(e) => !tcx@.dom().contains(x) && e@ == SpecTyError::UnboundVariable(x),
            }),
            (match expr@ {
                SpecExpr::Abs { param, body } => match r {
                    Ok(p) => p.1@ is Arrow,
                    Err(_) => true,
                },
                _ => true,
            }),
            infer_matches(spec_infer(tcx@, old(self).counter(), expr@), r, final (self).counter()),
        decreases expr,
    {
        let ghost c0 = self.counter();
        match &expr.kind {
            // A variable takes its scheme from the context and is
            // instantiated afresh; an absent binding is the unbound
            // variable error.
            ExprKind::Var(name) => {
                proof {
                    assert(expr@ == SpecExpr::Var(name@));
                }
                match tcx.get(name) {
                    Some(tys) => {
                        let sch = tys.duplicate();
                        let t = self.instantiate(sch);
                        Ok((Subst::identity(), t))
                    },
                    None => Err(TyError::UnboundVariable(name.duplicate())),
                }
            },
            // A literal has its base type under the identity
            // substitution.
            ExprKind::Lit(lit) => {
                proof {
                    assert(expr@ == SpecExpr::Lit(*lit));
                }
                match lit {
                    Lit::Int(_) => Ok((Subst::identity(), Ty::mk_int())),
                    Lit::Bool(_) => Ok((Subst::identity(), Ty::mk_bool())),
                }
            },
            // An abstraction binds its parameter to a fresh monotype,
            // infers the body under that binding, and returns the
            // arrow from the (substituted) parameter type to the
            // body\'s type.
            ExprKind::Abs { param, body } => {
                let ghost bv = body@;
                let new_ty = Ty::mk_var(self.new_type_var());
                let ghost u0 = SpecTy::Var(SpecTyVar::Unknown(c0));
                let mut new_tcx = tcx;
                let empty_vars: Vec<TyVar> = Vec::new();
                proof {
                    assert(vars_view(empty_vars@) =~= Seq::<SpecTyVar>::empty());
                }
                new_tcx.insert(param.duplicate(), TyScheme::mk_forall(empty_vars, new_ty.duplicate()));
                let ghost g1 = new_tcx@;
                let ghost c_pre = self.counter();
                let rb = self.infer_impl(new_tcx, body);
                proof {
                    assert(g1 == tcx@.insert(param@, SpecScheme { vars: Seq::empty(), ty: u0 }));
                    assert(c_pre == next_id(c0));
                    assert(expr@ == (SpecExpr::Abs { param: param@, body: Box::new(bv) }));
                    match expr@ {
                        SpecExpr::Abs { param: p2, body: b2 } => {
                            assert(p2 == param@);
                            assert(*b2 == bv);
                            assert(spec_infer(
                                tcx@.insert(p2, SpecScheme { vars: Seq::empty(), ty: u0 }),
                                next_id(c0),
                                *b2,
                            ) == spec_infer(g1, c_pre, bv));
                        },
                        _ => {},
                    }
                }
                match rb {
                    Ok((subst, ty)) => {
                        let param_ty = new_ty.apply(&subst);
                        Ok((subst, Ty::mk_arrow(param_ty, ty)))
                    },
                    Err(e) => Err(e),
                }
            },
            // An application infers the callee, propagates its
            // constraints into the context, infers the argument, and
            // unifies the callee\'s type against an arrow into a fresh
            // result variable.
            ExprKind::App { callee, arg } => {
                let ghost cv = callee@;
                let ghost av = arg@;
                let new_ty = Ty::mk_var(self.new_type_var());
                let ghost u0 = SpecTy::Var(SpecTyVar::Unknown(c0));
                proof {
                    assert(expr@ == (SpecExpr::App { callee: Box::new(cv), arg: Box::new(av) }));
                    match expr@ {
                        SpecExpr::App { callee: cd, arg: ad } => {
                            assert(*cd == cv);
                            assert(*ad == av);
                            assert(spec_infer(tcx@, next_id(c0), *cd) == spec_infer(
                                tcx@,
                                next_id(c0),
                                cv,
                            ));
                        },
                        _ => {},
                    }
                    assert(self.counter() == next_id(c0));
                }
                let (s1, ty1) = match self.infer_impl(tcx.duplicate(), callee) {
                    Ok(p) => p,
                    Err(e) => {
                        return Err(e);
                    },
                };
                let ghost c1 = self.counter();
                let ghost m1 = s1@;
                let ghost w1 = ty1@;
                let tcx1 = tcx.apply(&s1);
                proof {
                    assert(tcx1@ == apply_ctxt(m1, tcx@));
                }
                let (s2, ty2) = match self.infer_impl(tcx1, arg) {
                    Ok(p) => p,
                    Err(e) => {
                        return Err(e);
                    },
                };
                let ghost m2 = s2@;
                let ghost w2 = ty2@;
                let left = ty1.apply(&s2);
                let right = Ty::mk_arrow(ty2, new_ty.duplicate());
                let ghost x1 = left@;
                let ghost x2 = right@;
                let mr = Subst::mgu(left, right);
                proof {
                    let f = choose|f: nat| #[trigger]
                        mgu_step(x1, x2, crate::ty::subst::mgu_model(mr), f);
                    lemma_unification_of(x1, x2, crate::ty::subst::mgu_model(mr), f);
                }
                let s3 = match mr {
                    Ok(s) => s,
                    Err(e) => {
                        return Err(e);
                    },
                };
                let result_ty = new_ty.apply(&s3);
                Ok((s3.compose(&s2).compose(&s1), result_ty))
            },
            // A let-binding infers the bound value, generalizes its
            // type against the updated context, and infers the body
            // with the name bound to the resulting scheme.
            ExprKind::Let { name, value, body } => {
                let ghost vv = value@;
                let ghost bv = body@;
                proof {
                    assert(expr@ == (SpecExpr::Let {
                        name: name@,
                        value: Box::new(vv),
                        body: Box::new(bv),
                    }));
                    match expr@ {
                        SpecExpr::Let { name: nd, value: vd, body: bd } => {
                            assert(nd == name@);
                            assert(*vd == vv);
                            assert(*bd == bv);
                            assert(spec_infer(tcx@, c0, *vd) == spec_infer(tcx@, c0, vv));
                        },
                        _ => {},
                    }
                }
                let (s1, t1) = match self.infer_impl(tcx.duplicate(), value) {
                    Ok(p) => p,
                    Err(e) => {
                        return Err(e);
                    },
                };
                let ghost c1 = self.counter();
                let ghost m1 = s1@;
                let ghost w1 = t1@;
                let tcx1 = tcx.apply(&s1);
                proof {
                    assert(tcx1@ == apply_ctxt(m1, tcx@));
                }
                let s = self.generalize(tcx1, t1);
                let ghost gvars = s@.vars;
                proof {
                    assert(gvars == keep_unbound(dedup_vars(ftv_seq(w1)), ctxt_ftv(
                        apply_ctxt(m1, tcx@),
                    )));
                    assert(s@ == (SpecScheme { vars: gvars, ty: w1 }));
                }
                let mut new_tcx = tcx;
                new_tcx.insert(name.duplicate(), s);
                proof {
                    assert(new_tcx@ == tcx@.insert(name@, SpecScheme { vars: gvars, ty: w1 }));
                }
                let (s2, t2) = match self.infer_impl(new_tcx.apply(&s1), body) {
                    Ok(p) => p,
                    Err(e) => {
                        return Err(e);
                    },
                };
                Ok((s2.compose(&s1), t2))
            },
        }
    }

    /// Infers the principal monotype of an expression: runs the
    /// recursion under an empty context and applies the final
    /// substitution to the final monotype.  The first unification
    /// failure or unbound variable aborts the whole inference.
    pub fn infer(&mut self, expr: &Expr) -> (r: TyResult<Ty>)
        ensures
            expr@ matches SpecExpr::Lit(l) ==> (match r {
                Ok(t) => t@ == (match l {
                    Lit::Int(_) => SpecTy::Int,
                    Lit::Bool(_) => SpecTy::Bool,
                }),
                Err(_) => false,
            }),
            expr@ matches SpecExpr::Var(x) ==> (r matches Err(e) && e@
                == SpecTyError::UnboundVariable(x)),
            (match expr@ {
                SpecExpr::Abs { param, body } => match r {
                    Ok(t) => t@ is Arrow,
                    Err(_) => true,
                },
                _ => true,
            }),
            ({
                let sr = spec_infer(
                    Map::<Seq<char>, SpecScheme>::empty(),
                    old(self).counter(),
                    expr@,
                );
                sr.1 == final (self).counter() && (match r {
                    Ok(t) => (sr.0 matches Ok(p) && t@ == apply_subst(p.0, p.1)),
                    Err(e) => sr.0 == Err::<(Map<SpecTyVar, SpecTy>, SpecTy), SpecTyError>(e@),
                })
            }),
    {
        match self.infer_impl(TyCtxt::new(), expr) {
            Ok((s, t)) => Ok(t.apply(&s)),
            Err(e) => Err(e),
        }
    }
}

} // verus!

verus! {

/// Law: instantiating a scheme twice in a row yields monotypes that
/// share no unknown type variable — each instantiation draws its fresh
/// variables from a stretch of the counter the other never touches.
///
/// The scheme must carry no unknown variable among its free (unbound)
/// variables: a scheme such as `forall a . a -> ?3` leaves `?3` in
/// both results.  Its bound unknowns must lie below the counter, and
/// the counter must not wrap during the two runs.
pub proof fn lemma_instantiate_twice_fresh(vars: Seq<SpecTyVar>, body: SpecTy, c0: u32)
    requires
        forall|u: u32| #[trigger]
            ftv_of_ty(body).contains(SpecTyVar::Unknown(u)) ==> vars.contains(
                SpecTyVar::Unknown(u),
            ),
        forall|u: u32| #[trigger] vars.contains(SpecTyVar::Unknown(u)) ==> u < c0,
        c0 + vars.len() + vars.len() <= u32::MAX,
    ensures
        forall|u: u32|
            !(#[trigger] ftv_of_ty(apply_subst(fresh_map(vars, c0), body)).contains(
                SpecTyVar::Unknown(u),
            ) && ftv_of_ty(
                apply_subst(fresh_map(vars, advance_id(c0, vars.len())), body),
            ).contains(SpecTyVar::Unknown(u))),
{
    let n = vars.len();
    lemma_advance_no_wrap(c0, n);
    let c1 = advance_id(c0, n);
    let m1 = fresh_map(vars, c0);
    let m2 = fresh_map(vars, c1);
    lemma_fresh_map_facts(vars, c0);
    lemma_fresh_map_facts(vars, c1);
    lemma_fresh_map_resolvable(vars, c0);
    assert forall|u: u32| #[trigger] vars.contains(SpecTyVar::Unknown(u)) implies u < c1 by {}
    lemma_fresh_map_resolvable(vars, c1);
    assert forall|w: SpecTyVar| #[trigger] ftv_of_ty(body).contains(w) implies chain_ok(
        m1,
        w,
        m1.dom().len(),
    ) && chain_ok(m2, w, m2.dom().len()) by {
        assert(chain_ok(m1, w, m1.dom().len()));
        assert(chain_ok(m2, w, m2.dom().len()));
    }
    lemma_apply_ftv(m1, body, m1.dom().len());
    lemma_apply_ground(m1, body, m1.dom().len());
    lemma_apply_ftv(m2, body, m2.dom().len());
    lemma_apply_ground(m2, body, m2.dom().len());
    assert forall|u: u32|
        !(#[trigger] ftv_of_ty(apply_subst(m1, body)).contains(SpecTyVar::Unknown(u))
            && ftv_of_ty(apply_subst(m2, body)).contains(SpecTyVar::Unknown(u))) by {
        let w = SpecTyVar::Unknown(u);
        if ftv_of_ty(apply_subst(m1, body)).contains(w) && ftv_of_ty(apply_subst(m2, body)).contains(
            w,
        ) {
            assert(!m1.dom().contains(w));
            assert(!vars.contains(w));
            assert(!ftv_of_ty(body).contains(w));
            assert(rng_ftv(m1).contains(w));
            assert(rng_ftv(m2).contains(w));
            let u1 = choose|u1: u32| #![auto] w == SpecTyVar::Unknown(u1) && c0 <= u1 < c0 + n;
            let u2 = choose|u2: u32| #![auto] w == SpecTyVar::Unknown(u2) && c1 <= u2 < c1 + n;
            assert(u1 == u && u2 == u);
        }
    }
}

/// Law: generalization followed by instantiation restores the
/// monotype, up to a renaming of the quantified variables to fresh
/// unknown variables.  The renaming is the instantiation's own
/// substitution, injective because the fresh identifiers are
/// consecutive; applying the inverse renaming to the instantiated
/// monotype yields the original monotype exactly.
///
/// The quantified list is distinct, as generalization builds it; every
/// unknown variable of the monotype or of the list lies below the
/// counter, as every unknown allocated earlier in the run does; and
/// the counter must not wrap during the instantiation.
pub proof fn lemma_generalize_instantiate(vars: Seq<SpecTyVar>, c: u32, t: SpecTy)
    requires
        forall|a: int, b: int| 0 <= a < b < vars.len() ==> vars[a] != vars[b],
        c + vars.len() <= u32::MAX,
        forall|u: u32| #[trigger] ftv_of_ty(t).contains(SpecTyVar::Unknown(u)) ==> u < c,
        forall|u: u32| #[trigger] vars.contains(SpecTyVar::Unknown(u)) ==> u < c,
    ensures
        apply_subst(back_map(vars, c), apply_subst(fresh_map(vars, c), t)) == t,
    decreases t,
{
    let fm = fresh_map(vars, c);
    let bm = back_map(vars, c);
    lemma_fresh_map_facts(vars, c);
    lemma_back_map_finite(vars, c);
    match t {
        SpecTy::Var(v) => {
            assert(ftv_of_ty(t).contains(v));
            if vars.contains(v) {
                let i = choose|i: int| 0 <= i < vars.len() && vars[i] == v;
                lemma_fresh_back_index(vars, c, i);
                let w = SpecTyVar::Unknown((c + i) as u32);
                // The forward renaming sends `v` to its fresh unknown
                // and stops there: the fresh unknown is not bound.
                assert(fm[v] == SpecTy::Var(w));
                assert(fm[v] != SpecTy::Var(v)) by {
                    if v == w {
                        assert(vars.contains(SpecTyVar::Unknown((c + i) as u32)));
                    }
                }
                if fm.dom().len() == 0 {
                    fm.dom().lemma_len0_is_empty();
                }
                assert(fm.dom().len() > 0);
                assert(!fm.dom().contains(w)) by {
                    if fm.dom().contains(w) {
                        assert(vars.contains(SpecTyVar::Unknown((c + i) as u32)));
                    }
                }
                assert(spec_apply(fm, SpecTy::Var(w), (fm.dom().len() - 1) as nat) == SpecTy::Var(
                    w,
                ));
                assert(apply_subst(fm, t) == SpecTy::Var(w));
                // The inverse renaming sends the fresh unknown back to
                // `v` and stops there: `v` is not a fresh unknown.
                assert(bm[w] == SpecTy::Var(v));
                if bm.dom().len() == 0 {
                    bm.dom().lemma_len0_is_empty();
                }
                assert(bm.dom().len() > 0);
                assert(!bm.dom().contains(v)) by {
                    if bm.dom().contains(v) {
                        lemma_back_map_dom(vars, c, v);
                        let u = v->Unknown_0;
                        assert(v == SpecTyVar::Unknown(u));
                        assert(vars.contains(SpecTyVar::Unknown(u)));
                    }
                }
                assert(spec_apply(bm, SpecTy::Var(v), (bm.dom().len() - 1) as nat) == t);
                assert(apply_subst(bm, SpecTy::Var(w)) == t);
            } else {
                assert(!fm.dom().contains(v));
                assert(apply_subst(fm, t) == t);
                assert(!bm.dom().contains(v)) by {
                    if bm.dom().contains(v) {
                        lemma_back_map_dom(vars, c, v);
                        let u = v->Unknown_0;
                        assert(v == SpecTyVar::Unknown(u));
                        assert(ftv_of_ty(t).contains(SpecTyVar::Unknown(u)));
                    }
                }
                assert(apply_subst(bm, t) == t);
            }
        },
        SpecTy::Arrow(p, r) => {
            assert forall|u: u32| #[trigger]
                ftv_of_ty(*p).contains(SpecTyVar::Unknown(u)) implies u < c by {
                assert(ftv_of_ty(t).contains(SpecTyVar::Unknown(u)));
            }
            assert forall|u: u32| #[trigger]
                ftv_of_ty(*r).contains(SpecTyVar::Unknown(u)) implies u < c by {
                assert(ftv_of_ty(t).contains(SpecTyVar::Unknown(u)));
            }
            lemma_generalize_instantiate(vars, c, *p);
            lemma_generalize_instantiate(vars, c, *r);
        },
        _ => {},
    }
}

} // verus!
