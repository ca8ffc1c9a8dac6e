//! Substitutions: finite mappings from type variables to monotypes,
//! with identity, application, composition, variable binding and the
//! most general unifier.

use vstd::prelude::*;
use vstd::string::StringExecFns;

use crate::assoc::assoc_map;
use crate::assoc::keys_unique;
use crate::assoc::lemma_assoc_map_congruence;
use crate::assoc::lemma_assoc_map_dom;
use crate::assoc::lemma_assoc_map_index;
use crate::assoc::lemma_assoc_map_len;
use crate::assoc::lemma_assoc_map_push;
use crate::assoc::lemma_assoc_map_remove;
use crate::error::SpecTyError;
use crate::error::TyError;
use crate::error::TyResult;
use crate::ty::SpecTy;
use crate::ty::SpecTyVar;
use crate::ty::Ty;
use crate::ty::TyVar;
use crate::ty::arrow;
use crate::ty::contains_var;
use crate::ty::ftv_of_ty;
use crate::ty::lemma_ftv_finite;
use crate::ty::ty_size;
use crate::ty::var_eq;

verus! {

/// Applies the substitution map `s` to the monotype `t`, resolving
/// chained bindings: a variable bound to a type other than itself is
/// replaced and the image is applied again, spending one unit of fuel
/// per resolution step.  Fuel equal to the number of bindings resolves
/// every chain that can be resolved at all; it runs out only on a
/// cyclic substitution, where resolution has no fixed point and the
/// variable reached last is returned as it stands.
pub open spec fn spec_apply(s: Map<SpecTyVar, SpecTy>, t: SpecTy, fuel: nat) -> SpecTy
    decreases fuel, t,
{
    match t {
        SpecTy::Var(v) => {
            if s.dom().contains(v) && s[v] != SpecTy::Var(v) && fuel > 0 {
                spec_apply(s, s[v], (fuel - 1) as nat)
            } else {
                t
            }
        },
        SpecTy::Arrow(p, r) => arrow(spec_apply(s, *p, fuel), spec_apply(s, *r, fuel)),
        _ => t,
    }
}

/// What applying a substitution to a monotype yields: chained bindings
/// are resolved, with one resolution step available per binding.
pub open spec fn apply_subst(s: Map<SpecTyVar, SpecTy>, t: SpecTy) -> SpecTy {
    spec_apply(s, t, s.dom().len())
}

/// No variable is bound to itself.
pub open spec fn no_self_bind(s: Map<SpecTyVar, SpecTy>) -> bool {
    forall|v: SpecTyVar| s.dom().contains(v) ==> s[v] != SpecTy::Var(v)
}

/// Every chain of bindings starting from `v` resolves within `fuel`
/// steps: if `v` is bound to a type other than itself, there is fuel
/// for that step and every variable of the image resolves within the
/// remainder.
pub open spec fn chain_ok(s: Map<SpecTyVar, SpecTy>, v: SpecTyVar, fuel: nat) -> bool
    decreases fuel,
{
    s.dom().contains(v) && s[v] != SpecTy::Var(v) ==> fuel > 0 && (forall|w: SpecTyVar| #[trigger]
        ftv_of_ty(s[v]).contains(w) ==> chain_ok(s, w, (fuel - 1) as nat))
}

/// Every chain of bindings resolves within as many steps as the
/// substitution has bindings; application with the standard fuel then
/// reaches a fixed point.
pub open spec fn chains_bounded(s: Map<SpecTyVar, SpecTy>) -> bool {
    forall|v: SpecTyVar| #[trigger] chain_ok(s, v, s.dom().len())
}

/// The free variables of the types in the range of `s`.
pub open spec fn rng_ftv(s: Map<SpecTyVar, SpecTy>) -> Set<SpecTyVar> {
    Set::new(
        |w: SpecTyVar|
            exists|v: SpecTyVar|
                s.dom().contains(v) && #[trigger] ftv_of_ty(s[v]).contains(w),
    )
}

/// A substitution produced and kept in shape by the unifier: finite,
/// free of self-bindings, and with every chain resolving within the
/// substitution's own size.
pub open spec fn subst_resolvable(s: Map<SpecTyVar, SpecTy>) -> bool {
    &&& s.dom().finite()
    &&& no_self_bind(s)
    &&& chains_bounded(s)
}

/// What composing two substitutions denotes: the left one kept as it
/// stands, the right one with the left applied to each of its images,
/// the right one's bindings winning a collision.  Applying the
/// composition means applying the right substitution first and the
/// left one after it.
pub open spec fn spec_compose(
    a: Map<SpecTyVar, SpecTy>,
    b: Map<SpecTyVar, SpecTy>,
) -> Map<SpecTyVar, SpecTy> {
    Map::new(
        |v: SpecTyVar| a.dom().contains(v) || b.dom().contains(v),
        |v: SpecTyVar|
            if b.dom().contains(v) {
                apply_subst(a, b[v])
            } else {
                a[v]
            },
    )
}

/// What binding a variable to a type yields: the identity substitution
/// for a binding of a variable to itself, an occurs-check failure for
/// a binding only an infinite type could solve, and the singleton
/// substitution otherwise.
pub open spec fn spec_bind(v: SpecTyVar, t: SpecTy) -> Result<
    Map<SpecTyVar, SpecTy>,
    SpecTyError,
> {
    if t == SpecTy::Var(v) {
        Ok(Map::empty())
    } else if ftv_of_ty(t).contains(v) {
        Err(SpecTyError::OccursCheckFailure(v, t))
    } else {
        Ok(Map::empty().insert(v, t))
    }
}

/// How many distinct type variables two monotypes hold between them;
/// the leading component of the unifier's termination measure.
pub open spec fn var_measure(a: SpecTy, b: SpecTy) -> nat {
    ftv_of_ty(a).union(ftv_of_ty(b)).len()
}

/// The unification relation: `r` is what unifying `t1` with `t2`
/// yields, reached within `fuel` nested unifications.  Two arrows
/// unify parameter against parameter and then, under the substitution
/// the parameters produced, result against result, composing the two;
/// the first failure is the whole unification's failure.  A variable
/// on the left binds to the right-hand type; otherwise a variable on
/// the right binds to the left-hand type; the equal base types unify
/// by the identity; any other pairing is a mismatch naming both types.
pub open spec fn mgu_step(
    t1: SpecTy,
    t2: SpecTy,
    r: Result<Map<SpecTyVar, SpecTy>, SpecTyError>,
    fuel: nat,
) -> bool
    decreases fuel,
{
    fuel > 0 && match (t1, t2) {
        (SpecTy::Arrow(p1, r1), SpecTy::Arrow(p2, r2)) => {
            ||| (exists|e: SpecTyError|
                #![auto]
                mgu_step(*p1, *p2, Err(e), (fuel - 1) as nat) && r == Err::<
                    Map<SpecTyVar, SpecTy>,
                    SpecTyError,
                >(e))
            ||| (exists|s1: Map<SpecTyVar, SpecTy>|
                #![auto]
                mgu_step(*p1, *p2, Ok(s1), (fuel - 1) as nat) && ({
                    ||| (exists|e: SpecTyError|
                        #![auto]
                        mgu_step(
                            apply_subst(s1, *r1),
                            apply_subst(s1, *r2),
                            Err(e),
                            (fuel - 1) as nat,
                        ) && r == Err::<Map<SpecTyVar, SpecTy>, SpecTyError>(e))
                    ||| (exists|s2: Map<SpecTyVar, SpecTy>|
                        #![auto]
                        mgu_step(
                            apply_subst(s1, *r1),
                            apply_subst(s1, *r2),
                            Ok(s2),
                            (fuel - 1) as nat,
                        ) && r == Ok::<Map<SpecTyVar, SpecTy>, SpecTyError>(spec_compose(s1, s2)))
                }))
        },
        (SpecTy::Var(v), t) => r == spec_bind(v, t),
        (t, SpecTy::Var(v)) => r == spec_bind(v, t),
        (SpecTy::Int, SpecTy::Int) => r == Ok::<Map<SpecTyVar, SpecTy>, SpecTyError>(Map::empty()),
        (SpecTy::Bool, SpecTy::Bool) => r == Ok::<Map<SpecTyVar, SpecTy>, SpecTyError>(
            Map::empty(),
        ),
        _ => r == Err::<Map<SpecTyVar, SpecTy>, SpecTyError>(
            SpecTyError::UnificationMismatch(t1, t2),
        ),
    }
}

/// What an executed unification denotes in the model.
pub open spec fn mgu_model(r: TyResult<Subst>) -> Result<Map<SpecTyVar, SpecTy>, SpecTyError> {
    match r {
        Ok(s) => Ok(s@),
        Err(e) => Err(e@),
    }
}

/// What unifying two monotypes yields: the one result the unification
/// relation reaches, whatever the fuel.  The relation is a function of
/// the two monotypes, so the choice is determined wherever the
/// relation holds at all.
pub open spec fn unification_of(t1: SpecTy, t2: SpecTy) -> Result<
    Map<SpecTyVar, SpecTy>,
    SpecTyError,
> {
    (choose|p: (Result<Map<SpecTyVar, SpecTy>, SpecTyError>, nat)|
        mgu_step(t1, t2, p.0, p.1)).0
}

/// A result the unification relation reaches is the unification.
pub proof fn lemma_unification_of(
    t1: SpecTy,
    t2: SpecTy,
    rr: Result<Map<SpecTyVar, SpecTy>, SpecTyError>,
    f: nat,
)
    requires
        mgu_step(t1, t2, rr, f),
    ensures
        unification_of(t1, t2) == rr,
{
    assert(exists|p: (Result<Map<SpecTyVar, SpecTy>, SpecTyError>, nat)| #[trigger] mgu_step(
        t1,
        t2,
        p.0,
        p.1,
    )) by {
        assert(mgu_step(t1, t2, (rr, f).0, (rr, f).1));
    }
    let picked = choose|p: (Result<Map<SpecTyVar, SpecTy>, SpecTyError>, nat)|
        mgu_step(t1, t2, p.0, p.1);
    assert(mgu_step(t1, t2, picked.0, picked.1));
    lemma_mgu_step_deterministic(t1, t2, rr, picked.0, f, picked.1);
}

/// The unification relation only loosens as the fuel grows.
pub proof fn lemma_mgu_step_mono(
    t1: SpecTy,
    t2: SpecTy,
    r: Result<Map<SpecTyVar, SpecTy>, SpecTyError>,
    f1: nat,
    f2: nat,
)
    requires
        mgu_step(t1, t2, r, f1),
        f1 <= f2,
    ensures
        mgu_step(t1, t2, r, f2),
    decreases f1,
{
    match (t1, t2) {
        (SpecTy::Arrow(p1, r1), SpecTy::Arrow(p2, r2)) => {
            if exists|e: SpecTyError|
                #![auto]
                mgu_step(*p1, *p2, Err(e), (f1 - 1) as nat) && r == Err::<
                    Map<SpecTyVar, SpecTy>,
                    SpecTyError,
                >(e) {
                let e = choose|e: SpecTyError|
                    #![auto]
                    mgu_step(*p1, *p2, Err(e), (f1 - 1) as nat) && r == Err::<
                        Map<SpecTyVar, SpecTy>,
                        SpecTyError,
                    >(e);
                lemma_mgu_step_mono(*p1, *p2, Err(e), (f1 - 1) as nat, (f2 - 1) as nat);
                assert(mgu_step(*p1, *p2, Err(e), (f2 - 1) as nat));
            } else {
                let s1 = choose|s1: Map<SpecTyVar, SpecTy>|
                    #![auto]
                    mgu_step(*p1, *p2, Ok(s1), (f1 - 1) as nat) && ({
                        ||| (exists|e: SpecTyError|
                            #![auto]
                            mgu_step(
                                apply_subst(s1, *r1),
                                apply_subst(s1, *r2),
                                Err(e),
                                (f1 - 1) as nat,
                            ) && r == Err::<Map<SpecTyVar, SpecTy>, SpecTyError>(e))
                        ||| (exists|s2: Map<SpecTyVar, SpecTy>|
                            #![auto]
                            mgu_step(
                                apply_subst(s1, *r1),
                                apply_subst(s1, *r2),
                                Ok(s2),
                                (f1 - 1) as nat,
                            ) && r == Ok::<Map<SpecTyVar, SpecTy>, SpecTyError>(
                                spec_compose(s1, s2),
                            ))
                    });
                lemma_mgu_step_mono(*p1, *p2, Ok(s1), (f1 - 1) as nat, (f2 - 1) as nat);
                let r1p = apply_subst(s1, *r1);
                let r2p = apply_subst(s1, *r2);
                if exists|e: SpecTyError|
                    #![auto]
                    mgu_step(r1p, r2p, Err(e), (f1 - 1) as nat) && r == Err::<
                        Map<SpecTyVar, SpecTy>,
                        SpecTyError,
                    >(e) {
                    let e = choose|e: SpecTyError|
                        #![auto]
                        mgu_step(r1p, r2p, Err(e), (f1 - 1) as nat) && r == Err::<
                            Map<SpecTyVar, SpecTy>,
                            SpecTyError,
                        >(e);
                    lemma_mgu_step_mono(r1p, r2p, Err(e), (f1 - 1) as nat, (f2 - 1) as nat);
                    assert(mgu_step(r1p, r2p, Err(e), (f2 - 1) as nat));
                } else {
                    let s2 = choose|s2: Map<SpecTyVar, SpecTy>|
                        #![auto]
                        mgu_step(r1p, r2p, Ok(s2), (f1 - 1) as nat) && r == Ok::<
                            Map<SpecTyVar, SpecTy>,
                            SpecTyError,
                        >(spec_compose(s1, s2));
                    lemma_mgu_step_mono(r1p, r2p, Ok(s2), (f1 - 1) as nat, (f2 - 1) as nat);
                    assert(mgu_step(r1p, r2p, Ok(s2), (f2 - 1) as nat));
                }
                assert(mgu_step(*p1, *p2, Ok(s1), (f2 - 1) as nat));
            }
        },
        _ => {},
    }
}

/// The unification relation is a function of the two monotypes: two
/// runs agree, whatever fuel each was given.
pub proof fn lemma_mgu_step_deterministic(
    t1: SpecTy,
    t2: SpecTy,
    r1: Result<Map<SpecTyVar, SpecTy>, SpecTyError>,
    r2: Result<Map<SpecTyVar, SpecTy>, SpecTyError>,
    f1: nat,
    f2: nat,
)
    requires
        mgu_step(t1, t2, r1, f1),
        mgu_step(t1, t2, r2, f2),
    ensures
        r1 == r2,
    decreases f1 + f2,
{
    match (t1, t2) {
        (SpecTy::Arrow(a1, b1), SpecTy::Arrow(a2, b2)) => {
            if exists|e: SpecTyError|
                #![auto]
                mgu_step(*a1, *a2, Err(e), (f1 - 1) as nat) && r1 == Err::<
                    Map<SpecTyVar, SpecTy>,
                    SpecTyError,
                >(e) {
                let e = choose|e: SpecTyError|
                    #![auto]
                    mgu_step(*a1, *a2, Err(e), (f1 - 1) as nat) && r1 == Err::<
                        Map<SpecTyVar, SpecTy>,
                        SpecTyError,
                    >(e);
                if exists|e2: SpecTyError|
                    #![auto]
                    mgu_step(*a1, *a2, Err(e2), (f2 - 1) as nat) && r2 == Err::<
                        Map<SpecTyVar, SpecTy>,
                        SpecTyError,
                    >(e2) {
                    let e2 = choose|e2: SpecTyError|
                        #![auto]
                        mgu_step(*a1, *a2, Err(e2), (f2 - 1) as nat) && r2 == Err::<
                            Map<SpecTyVar, SpecTy>,
                            SpecTyError,
                        >(e2);
                    lemma_mgu_step_deterministic(
                        *a1,
                        *a2,
                        Err(e),
                        Err(e2),
                        (f1 - 1) as nat,
                        (f2 - 1) as nat,
                    );
                } else {
                    let s1b = choose|s1b: Map<SpecTyVar, SpecTy>|
                        #![auto]
                        mgu_step(*a1, *a2, Ok(s1b), (f2 - 1) as nat);
                    lemma_mgu_step_deterministic(
                        *a1,
                        *a2,
                        Err(e),
                        Ok(s1b),
                        (f1 - 1) as nat,
                        (f2 - 1) as nat,
                    );
                }
            } else {
                let s1a = choose|s1a: Map<SpecTyVar, SpecTy>|
                    #![auto]
                    mgu_step(*a1, *a2, Ok(s1a), (f1 - 1) as nat) && ({
                        ||| (exists|e: SpecTyError|
                            #![auto]
                            mgu_step(
                                apply_subst(s1a, *b1),
                                apply_subst(s1a, *b2),
                                Err(e),
                                (f1 - 1) as nat,
                            ) && r1 == Err::<Map<SpecTyVar, SpecTy>, SpecTyError>(e))
                        ||| (exists|s2: Map<SpecTyVar, SpecTy>|
                            #![auto]
                            mgu_step(
                                apply_subst(s1a, *b1),
                                apply_subst(s1a, *b2),
                                Ok(s2),
                                (f1 - 1) as nat,
                            ) && r1 == Ok::<Map<SpecTyVar, SpecTy>, SpecTyError>(
                                spec_compose(s1a, s2),
                            ))
                    });
                if exists|e2: SpecTyError|
                    #![auto]
                    mgu_step(*a1, *a2, Err(e2), (f2 - 1) as nat) && r2 == Err::<
                        Map<SpecTyVar, SpecTy>,
                        SpecTyError,
                    >(e2) {
                    let e2 = choose|e2: SpecTyError|
                        #![auto]
                        mgu_step(*a1, *a2, Err(e2), (f2 - 1) as nat) && r2 == Err::<
                            Map<SpecTyVar, SpecTy>,
                            SpecTyError,
                        >(e2);
                    lemma_mgu_step_deterministic(
                        *a1,
                        *a2,
                        Ok(s1a),
                        Err(e2),
                        (f1 - 1) as nat,
                        (f2 - 1) as nat,
                    );
                } else {
                    let s1b = choose|s1b: Map<SpecTyVar, SpecTy>|
                        #![auto]
                        mgu_step(*a1, *a2, Ok(s1b), (f2 - 1) as nat) && ({
                            ||| (exists|e: SpecTyError|
                                #![auto]
                                mgu_step(
                                    apply_subst(s1b, *b1),
                                    apply_subst(s1b, *b2),
                                    Err(e),
                                    (f2 - 1) as nat,
                                ) && r2 == Err::<Map<SpecTyVar, SpecTy>, SpecTyError>(e))
                            ||| (exists|s2: Map<SpecTyVar, SpecTy>|
                                #![auto]
                                mgu_step(
                                    apply_subst(s1b, *b1),
                                    apply_subst(s1b, *b2),
                                    Ok(s2),
                                    (f2 - 1) as nat,
                                ) && r2 == Ok::<Map<SpecTyVar, SpecTy>, SpecTyError>(
                                    spec_compose(s1b, s2),
                                ))
                        });
                    lemma_mgu_step_deterministic(
                        *a1,
                        *a2,
                        Ok(s1a),
                        Ok(s1b),
                        (f1 - 1) as nat,
                        (f2 - 1) as nat,
                    );
                    assert(s1a == s1b);
                    let c1 = apply_subst(s1a, *b1);
                    let c2 = apply_subst(s1a, *b2);
                    if exists|e: SpecTyError|
                        #![auto]
                        mgu_step(c1, c2, Err(e), (f1 - 1) as nat) && r1 == Err::<
                            Map<SpecTyVar, SpecTy>,
                            SpecTyError,
                        >(e) {
                        let e = choose|e: SpecTyError|
                            #![auto]
                            mgu_step(c1, c2, Err(e), (f1 - 1) as nat) && r1 == Err::<
                                Map<SpecTyVar, SpecTy>,
                                SpecTyError,
                            >(e);
                        if exists|e2: SpecTyError|
                            #![auto]
                            mgu_step(c1, c2, Err(e2), (f2 - 1) as nat) && r2 == Err::<
                                Map<SpecTyVar, SpecTy>,
                                SpecTyError,
                            >(e2) {
                            let e2 = choose|e2: SpecTyError|
                                #![auto]
                                mgu_step(c1, c2, Err(e2), (f2 - 1) as nat) && r2 == Err::<
                                    Map<SpecTyVar, SpecTy>,
                                    SpecTyError,
                                >(e2);
                            lemma_mgu_step_deterministic(
                                c1,
                                c2,
                                Err(e),
                                Err(e2),
                                (f1 - 1) as nat,
                                (f2 - 1) as nat,
                            );
                        } else {
                            let s2b = choose|s2b: Map<SpecTyVar, SpecTy>|
                                #![auto]
                                mgu_step(c1, c2, Ok(s2b), (f2 - 1) as nat);
                            lemma_mgu_step_deterministic(
                                c1,
                                c2,
                                Err(e),
                                Ok(s2b),
                                (f1 - 1) as nat,
                                (f2 - 1) as nat,
                            );
                        }
                    } else {
                        let s2a = choose|s2a: Map<SpecTyVar, SpecTy>|
                            #![auto]
                            mgu_step(c1, c2, Ok(s2a), (f1 - 1) as nat) && r1 == Ok::<
                                Map<SpecTyVar, SpecTy>,
                                SpecTyError,
                            >(spec_compose(s1a, s2a));
                        if exists|e2: SpecTyError|
                            #![auto]
                            mgu_step(c1, c2, Err(e2), (f2 - 1) as nat) && r2 == Err::<
                                Map<SpecTyVar, SpecTy>,
                                SpecTyError,
                            >(e2) {
                            let e2 = choose|e2: SpecTyError|
                                #![auto]
                                mgu_step(c1, c2, Err(e2), (f2 - 1) as nat) && r2 == Err::<
                                    Map<SpecTyVar, SpecTy>,
                                    SpecTyError,
                                >(e2);
                            lemma_mgu_step_deterministic(
                                c1,
                                c2,
                                Ok(s2a),
                                Err(e2),
                                (f1 - 1) as nat,
                                (f2 - 1) as nat,
                            );
                        } else {
                            let s2b = choose|s2b: Map<SpecTyVar, SpecTy>|
                                #![auto]
                                mgu_step(c1, c2, Ok(s2b), (f2 - 1) as nat) && r2 == Ok::<
                                    Map<SpecTyVar, SpecTy>,
                                    SpecTyError,
                                >(spec_compose(s1b, s2b));
                            lemma_mgu_step_deterministic(
                                c1,
                                c2,
                                Ok(s2a),
                                Ok(s2b),
                                (f1 - 1) as nat,
                                (f2 - 1) as nat,
                            );
                        }
                    }
                }
            }
        },
        _ => {},
    }
}

/// Applying the empty substitution changes nothing.
pub proof fn lemma_apply_empty(t: SpecTy, fuel: nat)
    ensures
        spec_apply(Map::<SpecTyVar, SpecTy>::empty(), t, fuel) == t,
    decreases t,
{
    match t {
        SpecTy::Arrow(p, r) => {
            lemma_apply_empty(*p, fuel);
            lemma_apply_empty(*r, fuel);
        },
        _ => {},
    }
}

/// A monotype none of whose variables is actively bound is unchanged
/// by application, whatever the fuel.
pub proof fn lemma_apply_fixed(s: Map<SpecTyVar, SpecTy>, t: SpecTy, fuel: nat)
    requires
        forall|w: SpecTyVar| #[trigger]
            ftv_of_ty(t).contains(w) ==> !(s.dom().contains(w) && s[w] != SpecTy::Var(w)),
    ensures
        spec_apply(s, t, fuel) == t,
    decreases t,
{
    match t {
        SpecTy::Var(v) => {
            assert(ftv_of_ty(t).contains(v));
        },
        SpecTy::Arrow(p, r) => {
            assert forall|w: SpecTyVar| #[trigger]
                ftv_of_ty(*p).contains(w) implies !(s.dom().contains(w) && s[w] != SpecTy::Var(
                w,
            )) by {
                assert(ftv_of_ty(t).contains(w));
            }
            assert forall|w: SpecTyVar| #[trigger]
                ftv_of_ty(*r).contains(w) implies !(s.dom().contains(w) && s[w] != SpecTy::Var(
                w,
            )) by {
                assert(ftv_of_ty(t).contains(w));
            }
            lemma_apply_fixed(s, *p, fuel);
            lemma_apply_fixed(s, *r, fuel);
        },
        _ => {},
    }
}

/// Every free variable of an application result comes from the
/// monotype itself or from the range of the substitution.
pub proof fn lemma_apply_ftv(s: Map<SpecTyVar, SpecTy>, t: SpecTy, fuel: nat)
    ensures
        forall|w: SpecTyVar| #[trigger]
            ftv_of_ty(spec_apply(s, t, fuel)).contains(w) ==> ftv_of_ty(t).contains(w)
                || rng_ftv(s).contains(w),
    decreases fuel, t,
{
    match t {
        SpecTy::Var(v) => {
            if s.dom().contains(v) && s[v] != SpecTy::Var(v) && fuel > 0 {
                lemma_apply_ftv(s, s[v], (fuel - 1) as nat);
                assert forall|w: SpecTyVar| #[trigger]
                    ftv_of_ty(spec_apply(s, t, fuel)).contains(w) implies ftv_of_ty(t).contains(w)
                    || rng_ftv(s).contains(w) by {
                    assert(spec_apply(s, t, fuel) == spec_apply(s, s[v], (fuel - 1) as nat));
                    assert(ftv_of_ty(spec_apply(s, s[v], (fuel - 1) as nat)).contains(w));
                    if ftv_of_ty(s[v]).contains(w) {
                        assert(s.dom().contains(v) && ftv_of_ty(s[v]).contains(w));
                        assert(rng_ftv(s).contains(w));
                    }
                }
            }
        },
        SpecTy::Arrow(p, r) => {
            lemma_apply_ftv(s, *p, fuel);
            lemma_apply_ftv(s, *r, fuel);
            assert forall|w: SpecTyVar| #[trigger]
                ftv_of_ty(spec_apply(s, t, fuel)).contains(w) implies ftv_of_ty(t).contains(w)
                || rng_ftv(s).contains(w) by {
                assert(spec_apply(s, t, fuel) == arrow(
                    spec_apply(s, *p, fuel),
                    spec_apply(s, *r, fuel),
                ));
                if ftv_of_ty(spec_apply(s, *p, fuel)).contains(w) {
                    assert(ftv_of_ty(*p).contains(w) || rng_ftv(s).contains(w));
                } else {
                    assert(ftv_of_ty(spec_apply(s, *r, fuel)).contains(w));
                    assert(ftv_of_ty(*r).contains(w) || rng_ftv(s).contains(w));
                }
            }
        },
        _ => {},
    }
}

/// With every chain of the monotype's variables resolving within the
/// fuel, application leaves no bound variable behind.
pub proof fn lemma_apply_ground(s: Map<SpecTyVar, SpecTy>, t: SpecTy, fuel: nat)
    requires
        no_self_bind(s),
        forall|w: SpecTyVar| #[trigger] ftv_of_ty(t).contains(w) ==> chain_ok(s, w, fuel),
    ensures
        forall|w: SpecTyVar| #[trigger]
            ftv_of_ty(spec_apply(s, t, fuel)).contains(w) ==> !s.dom().contains(w),
    decreases fuel, t,
{
    match t {
        SpecTy::Var(v) => {
            assert(ftv_of_ty(t).contains(v));
            assert(chain_ok(s, v, fuel));
            if s.dom().contains(v) && s[v] != SpecTy::Var(v) && fuel > 0 {
                assert forall|w: SpecTyVar| #[trigger]
                    ftv_of_ty(s[v]).contains(w) implies chain_ok(s, w, (fuel - 1) as nat) by {}
                lemma_apply_ground(s, s[v], (fuel - 1) as nat);
                assert forall|w: SpecTyVar| #[trigger]
                    ftv_of_ty(spec_apply(s, t, fuel)).contains(w) implies !s.dom().contains(
                    w,
                ) by {
                    assert(spec_apply(s, t, fuel) == spec_apply(s, s[v], (fuel - 1) as nat));
                    assert(ftv_of_ty(spec_apply(s, s[v], (fuel - 1) as nat)).contains(w));
                }
            } else {
                assert(!(s.dom().contains(v) && s[v] != SpecTy::Var(v)));
                assert(spec_apply(s, t, fuel) == t);
                assert forall|w: SpecTyVar| #[trigger]
                    ftv_of_ty(spec_apply(s, t, fuel)).contains(w) implies !s.dom().contains(
                    w,
                ) by {
                    assert(w == v);
                    if s.dom().contains(v) {
                        assert(s[v] != SpecTy::Var(v));
                    }
                }
            }
        },
        SpecTy::Arrow(p, r) => {
            assert forall|w: SpecTyVar| #[trigger]
                ftv_of_ty(*p).contains(w) implies chain_ok(s, w, fuel) by {
                assert(ftv_of_ty(t).contains(w));
            }
            assert forall|w: SpecTyVar| #[trigger]
                ftv_of_ty(*r).contains(w) implies chain_ok(s, w, fuel) by {
                assert(ftv_of_ty(t).contains(w));
            }
            lemma_apply_ground(s, *p, fuel);
            lemma_apply_ground(s, *r, fuel);
            assert forall|w: SpecTyVar| #[trigger]
                ftv_of_ty(spec_apply(s, t, fuel)).contains(w) implies !s.dom().contains(w) by {
                assert(spec_apply(s, t, fuel) == arrow(
                    spec_apply(s, *p, fuel),
                    spec_apply(s, *r, fuel),
                ));
                if ftv_of_ty(spec_apply(s, *p, fuel)).contains(w) {
                } else {
                    assert(ftv_of_ty(spec_apply(s, *r, fuel)).contains(w));
                }
            }
        },
        _ => {},
    }
}

/// A chain bound only loosens as the fuel grows.
pub proof fn lemma_chain_ok_mono(s: Map<SpecTyVar, SpecTy>, v: SpecTyVar, f1: nat, f2: nat)
    requires
        chain_ok(s, v, f1),
        f1 <= f2,
    ensures
        chain_ok(s, v, f2),
    decreases f1,
{
    if s.dom().contains(v) && s[v] != SpecTy::Var(v) {
        assert forall|w: SpecTyVar| #[trigger]
            ftv_of_ty(s[v]).contains(w) implies chain_ok(s, w, (f2 - 1) as nat) by {
            lemma_chain_ok_mono(s, w, (f1 - 1) as nat, (f2 - 1) as nat);
        }
    }
}

/// Applying a resolvable substitution twice is the same as applying it
/// once.
pub proof fn lemma_apply_idempotent(s: Map<SpecTyVar, SpecTy>, t: SpecTy)
    requires
        subst_resolvable(s),
    ensures
        apply_subst(s, apply_subst(s, t)) == apply_subst(s, t),
{
    let fuel = s.dom().len();
    lemma_apply_ground(s, t, fuel);
    lemma_apply_fixed(s, spec_apply(s, t, fuel), fuel);
}

/// The size of a union of two disjoint finite sets is the sum of their
/// sizes.
proof fn lemma_len_disjoint_union<A>(s1: Set<A>, s2: Set<A>)
    requires
        s1.finite(),
        s2.finite(),
        s1.disjoint(s2),
    ensures
        s1.union(s2).finite(),
        s1.union(s2).len() == s1.len() + s2.len(),
    decreases s1.len(),
{
    if s1.is_empty() {
        assert(s1.union(s2) =~= s2);
    } else {
        let a = s1.choose();
        assert(s1.contains(a));
        assert(s1.union(s2).remove(a) =~= s1.remove(a).union(s2));
        lemma_len_disjoint_union(s1.remove(a), s2);
        assert(s1.union(s2).contains(a));
    }
}

/// A chain of the right part of a disjoint union, started away from
/// the left part, runs as it does in the right part alone.
proof fn lemma_union_chain_right(
    a: Map<SpecTyVar, SpecTy>,
    b: Map<SpecTyVar, SpecTy>,
    v: SpecTyVar,
    g: nat,
)
    requires
        a.dom().disjoint(b.dom()),
        rng_ftv(b).disjoint(a.dom()),
        !a.dom().contains(v),
        chain_ok(b, v, g),
    ensures
        chain_ok(a.union_prefer_right(b), v, g),
    decreases g,
{
    let u = a.union_prefer_right(b);
    if u.dom().contains(v) && u[v] != SpecTy::Var(v) {
        assert(b.dom().contains(v));
        assert(u[v] == b[v]);
        assert forall|w: SpecTyVar| #[trigger]
            ftv_of_ty(u[v]).contains(w) implies chain_ok(u, w, (g - 1) as nat) by {
            assert(b.dom().contains(v) && ftv_of_ty(b[v]).contains(w));
            assert(rng_ftv(b).contains(w));
            lemma_union_chain_right(a, b, w, (g - 1) as nat);
        }
    }
}

/// Applying a disjoint union to a monotype whose variables avoid the
/// left part is applying the right part alone, whatever extra fuel the
/// union side holds.
proof fn lemma_union_apply_right(
    a: Map<SpecTyVar, SpecTy>,
    b: Map<SpecTyVar, SpecTy>,
    t: SpecTy,
    g: nat,
    g2: nat,
)
    requires
        a.dom().disjoint(b.dom()),
        rng_ftv(b).disjoint(a.dom()),
        ftv_of_ty(t).disjoint(a.dom()),
        forall|w: SpecTyVar| #[trigger] ftv_of_ty(t).contains(w) ==> chain_ok(b, w, g),
        g <= g2,
    ensures
        spec_apply(a.union_prefer_right(b), t, g2) == spec_apply(b, t, g),
    decreases g, t,
{
    let u = a.union_prefer_right(b);
    match t {
        SpecTy::Var(v) => {
            assert(ftv_of_ty(t).contains(v));
            assert(!a.dom().contains(v));
            if b.dom().contains(v) && b[v] != SpecTy::Var(v) {
                assert(u.dom().contains(v) && u[v] == b[v]);
                assert forall|w: SpecTyVar| #[trigger]
                    ftv_of_ty(b[v]).contains(w) implies rng_ftv(b).contains(w) && chain_ok(
                    b,
                    w,
                    (g - 1) as nat,
                ) by {
                    assert(b.dom().contains(v) && ftv_of_ty(b[v]).contains(w));
                }
                assert(ftv_of_ty(b[v]).disjoint(a.dom())) by {
                    assert forall|w: SpecTyVar|
                        ftv_of_ty(b[v]).contains(w) implies !a.dom().contains(w) by {
                        assert(rng_ftv(b).contains(w));
                    }
                }
                lemma_union_apply_right(a, b, b[v], (g - 1) as nat, (g2 - 1) as nat);
            } else {
                if u.dom().contains(v) {
                    assert(b.dom().contains(v));
                    assert(u[v] == b[v]);
                }
            }
        },
        SpecTy::Arrow(p, r) => {
            assert forall|w: SpecTyVar| #[trigger]
                ftv_of_ty(*p).contains(w) implies chain_ok(b, w, g) && !a.dom().contains(w) by {
                assert(ftv_of_ty(t).contains(w));
            }
            assert forall|w: SpecTyVar| #[trigger]
                ftv_of_ty(*r).contains(w) implies chain_ok(b, w, g) && !a.dom().contains(w) by {
                assert(ftv_of_ty(t).contains(w));
            }
            lemma_union_apply_right(a, b, *p, g, g2);
            lemma_union_apply_right(a, b, *r, g, g2);
        },
        _ => {},
    }
}

/// A chain of the left part of a disjoint union resolves within the
/// left bound plus the whole right size: it runs through the left part
/// and may finish inside the right part, never returning.
proof fn lemma_union_chain(a: Map<SpecTyVar, SpecTy>, b: Map<SpecTyVar, SpecTy>, v: SpecTyVar, f1: nat)
    requires
        a.dom().disjoint(b.dom()),
        rng_ftv(b).disjoint(a.dom()),
        no_self_bind(a),
        no_self_bind(b),
        b.dom().finite(),
        chains_bounded(b),
        chain_ok(a, v, f1),
    ensures
        chain_ok(a.union_prefer_right(b), v, f1 + b.dom().len()),
    decreases f1,
{
    let u = a.union_prefer_right(b);
    let n2 = b.dom().len();
    if u.dom().contains(v) && u[v] != SpecTy::Var(v) {
        if a.dom().contains(v) {
            assert(!b.dom().contains(v));
            assert(u[v] == a[v]);
            assert(a[v] != SpecTy::Var(v));
            assert forall|w: SpecTyVar| #[trigger]
                ftv_of_ty(u[v]).contains(w) implies chain_ok(u, w, (f1 + n2 - 1) as nat) by {
                assert(chain_ok(a, w, (f1 - 1) as nat));
                if a.dom().contains(w) {
                    lemma_union_chain(a, b, w, (f1 - 1) as nat);
                } else if b.dom().contains(w) {
                    assert(chain_ok(b, w, n2));
                    lemma_union_chain_right(a, b, w, n2);
                    lemma_chain_ok_mono(u, w, n2, (f1 + n2 - 1) as nat);
                } else {
                    assert(!u.dom().contains(w));
                }
            }
        } else {
            assert(b.dom().contains(v));
            assert(chain_ok(b, v, n2));
            lemma_union_chain_right(a, b, v, n2);
            lemma_chain_ok_mono(u, v, n2, f1 + n2);
        }
    }
}

/// Applying a disjoint union whose right part's images avoid the left
/// part is applying the left part first and the right part after it.
proof fn lemma_union_apply(a: Map<SpecTyVar, SpecTy>, b: Map<SpecTyVar, SpecTy>, t: SpecTy, f1: nat)
    requires
        a.dom().disjoint(b.dom()),
        rng_ftv(b).disjoint(a.dom()),
        no_self_bind(a),
        no_self_bind(b),
        b.dom().finite(),
        chains_bounded(b),
        forall|w: SpecTyVar| #[trigger] ftv_of_ty(t).contains(w) ==> chain_ok(a, w, f1),
    ensures
        spec_apply(a.union_prefer_right(b), t, f1 + b.dom().len()) == spec_apply(
            b,
            spec_apply(a, t, f1),
            b.dom().len(),
        ),
    decreases f1, t,
{
    let u = a.union_prefer_right(b);
    let n2 = b.dom().len();
    match t {
        SpecTy::Var(v) => {
            assert(ftv_of_ty(t).contains(v));
            assert(chain_ok(a, v, f1));
            if a.dom().contains(v) {
                assert(!b.dom().contains(v));
                assert(u.dom().contains(v) && u[v] == a[v]);
                assert(a[v] != SpecTy::Var(v));
                assert(f1 > 0);
                assert forall|w: SpecTyVar| #[trigger]
                    ftv_of_ty(a[v]).contains(w) implies chain_ok(a, w, (f1 - 1) as nat) by {}
                lemma_union_apply(a, b, a[v], (f1 - 1) as nat);
            } else if b.dom().contains(v) {
                assert(spec_apply(a, t, f1) == t);
                assert(ftv_of_ty(t).disjoint(a.dom()));
                assert(chain_ok(b, v, n2));
                lemma_union_apply_right(a, b, t, n2, f1 + n2);
            } else {
                assert(!u.dom().contains(v));
                assert(spec_apply(a, t, f1) == t);
                assert(spec_apply(u, t, f1 + n2) == t);
                assert(spec_apply(b, t, n2) == t);
            }
        },
        SpecTy::Arrow(p, r) => {
            assert forall|w: SpecTyVar| #[trigger]
                ftv_of_ty(*p).contains(w) implies chain_ok(a, w, f1) by {
                assert(ftv_of_ty(t).contains(w));
            }
            assert forall|w: SpecTyVar| #[trigger]
                ftv_of_ty(*r).contains(w) implies chain_ok(a, w, f1) by {
                assert(ftv_of_ty(t).contains(w));
            }
            lemma_union_apply(a, b, *p, f1);
            lemma_union_apply(a, b, *r, f1);
        },
        _ => {},
    }
}

/// Applying a resolvable substitution resolves every bound variable
/// away, and introduces only variables from its range.
pub proof fn lemma_resolvable_apply(s: Map<SpecTyVar, SpecTy>, t: SpecTy)
    requires
        subst_resolvable(s),
    ensures
        forall|w: SpecTyVar| #[trigger]
            ftv_of_ty(apply_subst(s, t)).contains(w) ==> !s.dom().contains(w),
        forall|w: SpecTyVar| #[trigger]
            ftv_of_ty(apply_subst(s, t)).contains(w) ==> ftv_of_ty(t).contains(w)
                || rng_ftv(s).contains(w),
{
    let fuel = s.dom().len();
    assert forall|w: SpecTyVar| #[trigger] ftv_of_ty(t).contains(w) implies chain_ok(
        s,
        w,
        fuel,
    ) by {
        assert(chain_ok(s, w, s.dom().len()));
    }
    lemma_apply_ground(s, t, fuel);
    lemma_apply_ftv(s, t, fuel);
}

/// The range variables of a union come from the parts.
proof fn lemma_union_rng(a: Map<SpecTyVar, SpecTy>, b: Map<SpecTyVar, SpecTy>)
    ensures
        rng_ftv(a.union_prefer_right(b)).subset_of(rng_ftv(a).union(rng_ftv(b))),
{
    let u = a.union_prefer_right(b);
    assert forall|w: SpecTyVar| rng_ftv(u).contains(w) implies rng_ftv(a).union(
        rng_ftv(b),
    ).contains(w) by {
        let v = choose|v: SpecTyVar| u.dom().contains(v) && #[trigger] ftv_of_ty(u[v]).contains(w);
        if b.dom().contains(v) {
            assert(u[v] == b[v]);
            assert(b.dom().contains(v) && ftv_of_ty(b[v]).contains(w));
            assert(rng_ftv(b).contains(w));
        } else {
            assert(a.dom().contains(v) && u[v] == a[v]);
            assert(a.dom().contains(v) && ftv_of_ty(a[v]).contains(w));
            assert(rng_ftv(a).contains(w));
        }
    }
}

/// How a list of bindings reads: `var: type` pairs joined by commas.
pub open spec fn render_bindings(s: Seq<(SpecTyVar, SpecTy)>) -> Seq<char>
    decreases s.len(),
{
    if s.len() == 0 {
        Seq::empty()
    } else if s.len() == 1 {
        crate::ty::render_var(s[0].0) + seq![':', ' '] + crate::ty::render_ty(s[0].1)
    } else {
        render_bindings(s.drop_last()) + seq![',', ' '] + crate::ty::render_var(s.last().0)
            + seq![':', ' '] + crate::ty::render_ty(s.last().1)
    }
}

/// A finite mapping from type variables to monotypes.
#[derive(Debug, PartialEq)]
pub struct Subst {
    entries: Vec<(TyVar, Ty)>,
}

impl View for Subst {
    type V = Map<SpecTyVar, SpecTy>;

    closed spec fn view(&self) -> Map<SpecTyVar, SpecTy> {
        assoc_map(self.entries@)
    }
}

impl Subst {
    /// The stored entries bind pairwise distinct variables.  Every
    /// constructor establishes this and every method preserves it.
    pub closed spec fn wf(&self) -> bool {
        keys_unique(self.entries@)
    }

    /// Creates the identity substitution, which binds nothing.
    pub fn identity() -> (r: Subst)
        ensures
            r.wf(),
            r@ == Map::<SpecTyVar, SpecTy>::empty(),
    {
        Subst { entries: Vec::new() }
    }

    /// The position of the entry binding a variable with the view of
    /// `var`, if there is one.
    fn find(&self, var: &TyVar) -> (r: Option<usize>)
        ensures
            match r {
                Some(i) => i < self.entries@.len() && self.entries@[i as int].0@ == var@,
                None => forall|j: int|
                    0 <= j < self.entries@.len() ==> self.entries@[j].0@ != var@,
            },
    {
        let n = self.entries.len();
        let mut i: usize = 0;
        while i < n
            invariant
                n == self.entries@.len(),
                i <= n,
                forall|j: int| 0 <= j < i ==> self.entries@[j].0@ != var@,
            decreases n - i,
        {
            if var_eq(&self.entries[i].0, var) {
                return Some(i);
            }
            i += 1;
        }
        None
    }

    /// Looks up the type a variable is bound to.
    pub fn get(&self, var: &TyVar) -> (r: Option<Ty>)
        requires
            self.wf(),
        ensures
            match r {
                Some(t) => self@.dom().contains(var@) && t@ == self@[var@],
                None => !self@.dom().contains(var@),
            },
    {
        proof {
            lemma_assoc_map_dom::<TyVar, Ty>(self.entries@);
        }
        match self.find(var) {
            Some(i) => {
                proof {
                    lemma_assoc_map_index(self.entries@, i as int);
                }
                Some(self.entries[i].1.duplicate())
            },
            None => None,
        }
    }

    /// Adds a binding, overwriting any previous binding of the same
    /// variable.
    pub fn insert(&mut self, var: TyVar, ty: Ty)
        requires
            old(self).wf(),
        ensures
            final (self).wf(),
            final (self)@ == old(self)@.insert(var@, ty@),
    {
        match self.find(&var) {
            Some(i) => {
                let ghost s0 = self.entries@;
                proof {
                    lemma_assoc_map_remove(self.entries@, i as int);
                }
                self.entries.remove(i);
                proof {
                    assert forall|a: int, b: int|
                        0 <= a < b < self.entries@.len() implies self.entries@[a].0@
                        != self.entries@[b].0@ by {
                        let a0 = if a < i { a } else { a + 1 };
                        let b0 = if b < i { b } else { b + 1 };
                        assert(self.entries@[a] == s0[a0]);
                        assert(self.entries@[b] == s0[b0]);
                    }
                    assert forall|j: int|
                        0 <= j < self.entries@.len() implies self.entries@[j].0@ != var@ by {
                        let j0 = if j < i { j } else { j + 1 };
                        assert(self.entries@[j] == s0[j0]);
                    }
                    lemma_assoc_map_push(self.entries@, (var, ty));
                }
                let ghost s1 = self.entries@;
                self.entries.push((var, ty));
                proof {
                    assert(self@ =~= old(self)@.insert(var@, ty@));
                    assert forall|a: int, b: int|
                        0 <= a < b < self.entries@.len() implies self.entries@[a].0@
                        != self.entries@[b].0@ by {
                        if b < self.entries@.len() - 1 {
                            assert(self.entries@[a] == s1[a]);
                            assert(self.entries@[b] == s1[b]);
                        } else {
                            assert(self.entries@[a] == s1[a]);
                        }
                    }
                }
            },
            None => {
                proof {
                    lemma_assoc_map_push(self.entries@, (var, ty));
                }
                let ghost s1 = self.entries@;
                self.entries.push((var, ty));
                proof {
                    assert forall|a: int, b: int|
                        0 <= a < b < self.entries@.len() implies self.entries@[a].0@
                        != self.entries@[b].0@ by {
                        if b < self.entries@.len() - 1 {
                            assert(self.entries@[a] == s1[a]);
                            assert(self.entries@[b] == s1[b]);
                        } else {
                            assert(self.entries@[a] == s1[a]);
                        }
                    }
                }
            },
        }
    }

    /// Removes the binding of a variable, returning the type it was
    /// bound to.
    pub fn remove(&mut self, var: &TyVar) -> (r: Option<Ty>)
        requires
            old(self).wf(),
        ensures
            final (self).wf(),
            final (self)@ == old(self)@.remove(var@),
            match r {
                Some(t) => old(self)@.dom().contains(var@) && t@ == old(self)@[var@],
                None => !old(self)@.dom().contains(var@),
            },
    {
        proof {
            lemma_assoc_map_dom::<TyVar, Ty>(self.entries@);
        }
        match self.find(var) {
            Some(i) => {
                let ghost s0 = self.entries@;
                proof {
                    lemma_assoc_map_index(self.entries@, i as int);
                    lemma_assoc_map_remove(self.entries@, i as int);
                }
                let entry = self.entries.remove(i);
                proof {
                    assert forall|a: int, b: int|
                        0 <= a < b < self.entries@.len() implies self.entries@[a].0@
                        != self.entries@[b].0@ by {
                        let a0 = if a < i { a } else { a + 1 };
                        let b0 = if b < i { b } else { b + 1 };
                        assert(self.entries@[a] == s0[a0]);
                        assert(self.entries@[b] == s0[b0]);
                    }
                }
                Some(entry.1)
            },
            None => {
                proof {
                    assert(self@ =~= self@.remove(var@));
                }
                None
            },
        }
    }

    /// The number of bindings.
    pub fn size(&self) -> (r: usize)
        requires
            self.wf(),
        ensures
            r == self@.dom().len(),
    {
        proof {
            lemma_assoc_map_len(self.entries@);
        }
        self.entries.len()
    }

    /// An owned copy denoting the same mapping.
    pub fn duplicate(&self) -> (r: Subst)
        requires
            self.wf(),
        ensures
            r.wf(),
            r@ == self@,
    {
        let mut entries: Vec<(TyVar, Ty)> = Vec::new();
        let n = self.entries.len();
        let mut i: usize = 0;
        while i < n
            invariant
                n == self.entries@.len(),
                i <= n,
                entries@.len() == i,
                forall|j: int|
                    0 <= j < i ==> entries@[j].0@ == self.entries@[j].0@ && entries@[j].1@
                        == self.entries@[j].1@,
            decreases n - i,
        {
            let pair = (self.entries[i].0.duplicate(), self.entries[i].1.duplicate());
            entries.push(pair);
            i += 1;
        }
        let r = Subst { entries };
        proof {
            lemma_assoc_map_congruence(r.entries@, self.entries@);
        }
        r
    }

    /// The bindings as a list of pairs, binding pairwise distinct
    /// variables and denoting exactly this substitution.
    pub fn iter(&self) -> (r: Vec<(TyVar, Ty)>)
        requires
            self.wf(),
        ensures
            keys_unique(r@),
            assoc_map(r@) == self@,
    {
        let copy = self.duplicate();
        copy.entries
    }

    /// This substitution, in its human-readable rendering: a bracketed
    /// comma list of `var: type` pairs, one per binding, in this
    /// substitution's own storage order.
    pub fn render(&self) -> (r: String)
        requires
            self.wf(),
        ensures
            exists|es: Seq<(SpecTyVar, SpecTy)>|
                #![auto]
                es.len() == self@.dom().len() && (forall|i: int|
                    0 <= i < es.len() ==> self@.dom().contains(es[i].0) && self@[es[i].0]
                        == es[i].1) && (forall|i: int, j: int|
                    0 <= i < j < es.len() ==> es[i].0 != es[j].0) && r@ == seq!['[']
                    + render_bindings(es) + seq![']'],
    {
        let ghost es = self.entries@.map_values(|p: (TyVar, Ty)| (p.0@, p.1@));
        let mut out = String::from_str("[");
        proof {
            reveal_strlit("[");
            reveal_strlit("]");
            reveal_strlit(", ");
            reveal_strlit(": ");
            assert(out@ =~= seq!['[']);
            assert(", "@ =~= seq![',', ' ']);
            assert(": "@ =~= seq![':', ' ']);
            assert(render_bindings(es.take(0int)) =~= Seq::<char>::empty());
        }
        let n = self.entries.len();
        let mut i: usize = 0;
        while i < n
            invariant
                self.wf(),
                n == self.entries@.len(),
                i <= n,
                es == self.entries@.map_values(|p: (TyVar, Ty)| (p.0@, p.1@)),
                ", "@ == seq![',', ' '],
                ": "@ == seq![':', ' '],
                out@ == seq!['['] + render_bindings(es.take(i as int)),
            decreases n - i,
        {
            if i > 0 {
                out.append(", ");
            }
            let key = self.entries[i].0.render();
            out.append(key.as_str());
            out.append(": ");
            let image = self.entries[i].1.render();
            out.append(image.as_str());
            proof {
                let pv = es.take(i as int);
                let pv1 = es.take(i + 1int);
                assert(pv1.drop_last() =~= pv);
                assert(pv1.last() == es[i as int]);
                assert(pv1.len() == i + 1);
                assert(es[i as int].0 == self.entries@[i as int].0@);
                assert(es[i as int].1 == self.entries@[i as int].1@);
                if i == 0 {
                    assert(render_bindings(pv1) == crate::ty::render_var(pv1[0].0) + seq![':', ' ']
                        + crate::ty::render_ty(pv1[0].1));
                    assert(out@ =~= seq!['['] + render_bindings(pv1));
                } else {
                    assert(render_bindings(pv1) == render_bindings(pv) + seq![',', ' ']
                        + crate::ty::render_var(pv1.last().0) + seq![':', ' ']
                        + crate::ty::render_ty(pv1.last().1));
                    assert(out@ =~= seq!['['] + render_bindings(pv1));
                }
            }
            i += 1;
        }
        out.append("]");
        proof {
            assert(es.take(n as int) =~= es);
            lemma_assoc_map_len(self.entries@);
            assert forall|k: int| 0 <= k < es.len() implies self@.dom().contains(es[k].0)
                && self@[es[k].0] == es[k].1 by {
                lemma_assoc_map_index(self.entries@, k);
            }
            assert(out@ =~= seq!['['] + render_bindings(es) + seq![']']);
        }
        out
    }

    /// Composes another substitution with this one: this one's bindings
    /// are kept as they stand, the other's are added with this one
    /// applied to each image, the other's winning a collision.
    /// Applying the composition means applying `other` first and `self`
    /// after it; the order matters.
    pub fn compose(&self, other: &Subst) -> (r: Subst)
        requires
            self.wf(),
            other.wf(),
        ensures
            r.wf(),
            r@ == spec_compose(self@, other@),
    {
        let mut result = self.duplicate();
        let n = other.entries.len();
        let mut i: usize = 0;
        proof {
            assert(assoc_map(other.entries@.take(0int)) =~= Map::<SpecTyVar, SpecTy>::empty());
            assert(result@ =~= spec_compose(self@, assoc_map(other.entries@.take(0int))));
        }
        while i < n
            invariant
                self.wf(),
                result.wf(),
                n == other.entries@.len(),
                i <= n,
                result@ == spec_compose(self@, assoc_map(other.entries@.take(i as int))),
            decreases n - i,
        {
            let var = other.entries[i].0.duplicate();
            let image = other.entries[i].1.apply(self);
            let ghost before = result@;
            result.insert(var, image);
            proof {
                let prefix = other.entries@.take(i as int);
                let entry = other.entries@[i as int];
                assert(other.entries@.take(i + 1int) =~= prefix.push(entry));
                lemma_assoc_map_push(prefix, entry);
                assert(result@ =~= spec_compose(
                    self@,
                    assoc_map(prefix).insert(entry.0@, entry.1@),
                ));
            }
            i += 1;
        }
        proof {
            assert(other.entries@.take(n as int) =~= other.entries@);
        }
        result
    }

    /// Binds a variable to a type.  Binding a variable to itself yields
    /// the identity substitution; binding it to a larger type in which
    /// it occurs fails the occurs check, since the binding would only
    /// be solved by an infinite type; any other binding yields the
    /// singleton substitution.
    pub fn bind(var: TyVar, ty: Ty) -> (r: TyResult<Subst>)
        ensures
            match r {
                Ok(s) => s.wf() && spec_bind(var@, ty@) == Ok::<
                    Map<SpecTyVar, SpecTy>,
                    SpecTyError,
                >(s@),
                Err(e) => spec_bind(var@, ty@) == Err::<Map<SpecTyVar, SpecTy>, SpecTyError>(e@),
            },
    {
        let is_self = match &ty {
            Ty::Var(v) => var_eq(v, &var),
            _ => false,
        };
        if is_self {
            return Ok(Subst::identity());
        }
        let fv = ty.ftv();
        if contains_var(&fv, &var) {
            Err(TyError::OccursCheckFailure(var, ty))
        } else {
            let mut s = Subst::identity();
            s.insert(var, ty);
            Ok(s)
        }
    }

    /// Finds the most general unifier of two monotypes: a substitution
    /// under which both apply to the same monotype.  Two arrows unify
    /// parameter against parameter, then — under the substitution the
    /// parameters produced — result against result; a variable against
    /// any type binds; the equal base types unify by the identity; any
    /// other pairing fails naming both types.
    pub fn mgu(ty1: Ty, ty2: Ty) -> (r: TyResult<Subst>)
        ensures
            (match r {
                Ok(s) => {
                    &&& s.wf()
                    &&& subst_resolvable(s@)
                    &&& s@.dom().subset_of(ftv_of_ty(ty1@).union(ftv_of_ty(ty2@)))
                    &&& rng_ftv(s@).subset_of(ftv_of_ty(ty1@).union(ftv_of_ty(ty2@)))
                    &&& apply_subst(s@, ty1@) == apply_subst(s@, ty2@)
                },
                Err(e) => !(e@ is UnboundVariable),
            }),
            ty1@ == ty2@ ==> (r matches Ok(s) && s@ == Map::<SpecTyVar, SpecTy>::empty()),
            ty1@ matches SpecTy::Var(v) ==> (match r {
                Ok(s) => spec_bind(v, ty2@) == Ok::<Map<SpecTyVar, SpecTy>, SpecTyError>(s@),
                Err(e) => spec_bind(v, ty2@) == Err::<Map<SpecTyVar, SpecTy>, SpecTyError>(e@),
            }),
            !(ty1@ is Var) ==> (ty2@ matches SpecTy::Var(v) ==> (match r {
                Ok(s) => spec_bind(v, ty1@) == Ok::<Map<SpecTyVar, SpecTy>, SpecTyError>(s@),
                Err(e) => spec_bind(v, ty1@) == Err::<Map<SpecTyVar, SpecTy>, SpecTyError>(e@),
            })),
            !(ty1@ is Var) && !(ty2@ is Var) && !(ty1@ is Arrow && ty2@ is Arrow) && ty1@ != ty2@
                ==> (r matches Err(e) && e@ == SpecTyError::UnificationMismatch(ty1@, ty2@)),
            exists|f: nat| #[trigger] mgu_step(ty1@, ty2@, mgu_model(r), f),
        decreases var_measure(ty1@, ty2@), ty_size(ty1@) + ty_size(ty2@),
    {
        match (ty1, ty2) {
            (Ty::Arrow(p1, r1), Ty::Arrow(p2, r2)) => {
                let ghost gp1 = p1@;
                let ghost gr1 = r1@;
                let ghost gp2 = p2@;
                let ghost gr2 = r2@;
                let ghost gv = ftv_of_ty(ty1@).union(ftv_of_ty(ty2@));
                proof {
                    assert(ty1@ == arrow(gp1, gr1));
                    assert(ty2@ == arrow(gp2, gr2));
                    lemma_ftv_finite(ty1@);
                    lemma_ftv_finite(ty2@);
                    assert(ftv_of_ty(gp1).union(ftv_of_ty(gp2)).subset_of(gv));
                    vstd::set_lib::lemma_len_subset(ftv_of_ty(gp1).union(ftv_of_ty(gp2)), gv);
                }
                let s1 = match Subst::mgu(*p1, *p2) {
                    Ok(s) => s,
                    Err(e) => {
                        proof {
                            if ty1@ == ty2@ {
                                assert(gp1 == gp2);
                            }
                            let f1 = choose|f: nat| #[trigger]
                                mgu_step(gp1, gp2, Err::<Map<SpecTyVar, SpecTy>, SpecTyError>(e@), f);
                            assert(mgu_step(ty1@, ty2@, Err::<Map<SpecTyVar, SpecTy>, SpecTyError>(e@), f1 + 1)) by {
                                assert(mgu_step(gp1, gp2, Err::<Map<SpecTyVar, SpecTy>, SpecTyError>(e@), f1));
                            }
                        }
                        return Err(e);
                    },
                };
                let ghost fp = choose|f: nat| #[trigger]
                    mgu_step(gp1, gp2, Ok::<Map<SpecTyVar, SpecTy>, SpecTyError>(s1@), f);
                let r1p = r1.apply(&s1);
                let r2p = r2.apply(&s1);
                let ghost a = s1@;
                proof {
                    lemma_resolvable_apply(a, gr1);
                    lemma_resolvable_apply(a, gr2);
                    assert(ftv_of_ty(gr1).union(ftv_of_ty(gr2)).subset_of(gv));
                    assert(rng_ftv(a).subset_of(gv));
                    let vr = ftv_of_ty(r1p@).union(ftv_of_ty(r2p@));
                    assert(vr.subset_of(gv));
                    assert(vr.disjoint(a.dom()));
                    if a.dom().len() == 0 {
                        assert(a.dom() =~= Set::<SpecTyVar>::empty());
                        assert(a =~= Map::<SpecTyVar, SpecTy>::empty());
                        lemma_apply_empty(gr1, a.dom().len());
                        lemma_apply_empty(gr2, a.dom().len());
                        assert(r1p@ == gr1);
                        assert(r2p@ == gr2);
                        vstd::set_lib::lemma_len_subset(vr, gv);
                        assert(ty_size(r1p@) + ty_size(r2p@) < ty_size(ty1@) + ty_size(ty2@));
                    } else {
                        let x = a.dom().choose();
                        assert(a.dom().contains(x));
                        assert(gv.contains(x));
                        assert(vr.subset_of(gv.remove(x)));
                        vstd::set_lib::lemma_len_subset(vr, gv.remove(x));
                        assert(gv.remove(x).len() == gv.len() - 1);
                        assert(var_measure(r1p@, r2p@) < var_measure(ty1@, ty2@));
                    }
                }
                let s2 = match Subst::mgu(r1p, r2p) {
                    Ok(s) => s,
                    Err(e) => {
                        proof {
                            if ty1@ == ty2@ {
                                assert(gp1 == gp2);
                                assert(a == Map::<SpecTyVar, SpecTy>::empty());
                                assert(a.dom() =~= Set::<SpecTyVar>::empty());
                                lemma_apply_empty(gr1, a.dom().len());
                                lemma_apply_empty(gr2, a.dom().len());
                                assert(r1p@ == r2p@);
                            }
                            let fr = choose|f: nat| #[trigger]
                                mgu_step(r1p@, r2p@, Err::<Map<SpecTyVar, SpecTy>, SpecTyError>(e@), f);
                            lemma_mgu_step_mono(gp1, gp2, Ok(a), fp, fp + fr);
                            lemma_mgu_step_mono(r1p@, r2p@, Err(e@), fr, fp + fr);
                            assert(mgu_step(ty1@, ty2@, Err::<Map<SpecTyVar, SpecTy>, SpecTyError>(e@), fp + fr + 1)) by {
                                assert(mgu_step(gp1, gp2, Ok::<Map<SpecTyVar, SpecTy>, SpecTyError>(a), fp + fr));
                                assert(mgu_step(r1p@, r2p@, Err::<Map<SpecTyVar, SpecTy>, SpecTyError>(e@), fp + fr));
                            }
                        }
                        return Err(e);
                    },
                };
                let ghost fq = choose|f: nat| #[trigger]
                    mgu_step(r1p@, r2p@, Ok::<Map<SpecTyVar, SpecTy>, SpecTyError>(s2@), f);
                let result = s1.compose(&s2);
                proof {
                    let b = s2@;
                    let u = a.union_prefer_right(b);
                    let n1 = a.dom().len();
                    let n2 = b.dom().len();
                    let vr = ftv_of_ty(r1p@).union(ftv_of_ty(r2p@));
                    // The second substitution's variables avoid the first's
                    // domain, so composing is a disjoint union.
                    assert(b.dom().disjoint(a.dom()));
                    assert(a.dom().disjoint(b.dom()));
                    assert forall|w: SpecTyVar| rng_ftv(b).contains(w) implies !a.dom().contains(
                        w,
                    ) by {
                        assert(vr.contains(w));
                    }
                    assert(rng_ftv(b).disjoint(a.dom()));
                    assert forall|x: SpecTyVar| #[trigger]
                        b.dom().contains(x) implies apply_subst(a, b[x]) == b[x] by {
                        assert forall|w: SpecTyVar| #[trigger]
                            ftv_of_ty(b[x]).contains(w) implies !(a.dom().contains(w) && a[w]
                            != SpecTy::Var(w)) by {
                            assert(b.dom().contains(x) && ftv_of_ty(b[x]).contains(w));
                            assert(rng_ftv(b).contains(w));
                        }
                        lemma_apply_fixed(a, b[x], a.dom().len());
                    }
                    assert(result@ =~= u);
                    lemma_len_disjoint_union(a.dom(), b.dom());
                    assert(u.dom() =~= a.dom().union(b.dom()));
                    assert(u.dom().len() == n1 + n2);
                    // The union stays resolvable.
                    assert(no_self_bind(u)) by {
                        assert forall|w: SpecTyVar| u.dom().contains(w) implies u[w]
                            != SpecTy::Var(w) by {
                            if b.dom().contains(w) {
                                assert(u[w] == b[w]);
                            } else {
                                assert(u[w] == a[w]);
                            }
                        }
                    }
                    assert forall|w: SpecTyVar| #[trigger] chain_ok(u, w, u.dom().len()) by {
                        if a.dom().contains(w) {
                            assert(chain_ok(a, w, a.dom().len()));
                            lemma_union_chain(a, b, w, n1);
                            assert(chain_ok(u, w, n1 + n2));
                        } else if b.dom().contains(w) {
                            assert(chain_ok(b, w, b.dom().len()));
                            lemma_union_chain_right(a, b, w, n2);
                            lemma_chain_ok_mono(u, w, n2, n1 + n2);
                        } else {
                            assert(!u.dom().contains(w));
                        }
                    }
                    assert(subst_resolvable(u));
                    // The union's variables stay within the two arrows'.
                    assert(u.dom().subset_of(gv));
                    lemma_union_rng(a, b);
                    assert(rng_ftv(u).subset_of(gv));
                    // The union unifies the two arrows: it applies the first
                    // substitution and then the second.
                    assert forall|w: SpecTyVar| #[trigger]
                        ftv_of_ty(ty1@).contains(w) implies chain_ok(a, w, n1) by {
                        assert(chain_ok(a, w, a.dom().len()));
                    }
                    assert forall|w: SpecTyVar| #[trigger]
                        ftv_of_ty(ty2@).contains(w) implies chain_ok(a, w, n1) by {
                        assert(chain_ok(a, w, a.dom().len()));
                    }
                    lemma_union_apply(a, b, ty1@, n1);
                    lemma_union_apply(a, b, ty2@, n1);
                    assert(spec_apply(a, ty1@, n1) == arrow(
                        spec_apply(a, gp1, n1),
                        spec_apply(a, gr1, n1),
                    ));
                    assert(spec_apply(a, ty2@, n1) == arrow(
                        spec_apply(a, gp2, n1),
                        spec_apply(a, gr2, n1),
                    ));
                    assert(spec_apply(a, gp1, n1) == spec_apply(a, gp2, n1));
                    assert(spec_apply(b, spec_apply(a, ty1@, n1), n2) == arrow(
                        spec_apply(b, spec_apply(a, gp1, n1), n2),
                        spec_apply(b, r1p@, n2),
                    ));
                    assert(spec_apply(b, spec_apply(a, ty2@, n1), n2) == arrow(
                        spec_apply(b, spec_apply(a, gp2, n1), n2),
                        spec_apply(b, r2p@, n2),
                    ));
                    assert(spec_apply(b, r1p@, n2) == spec_apply(b, r2p@, n2));
                    assert(apply_subst(u, ty1@) == apply_subst(u, ty2@));
                    // Equal arrows reach this point only with everything
                    // empty.
                    if ty1@ == ty2@ {
                        assert(gp1 == gp2);
                        assert(a == Map::<SpecTyVar, SpecTy>::empty());
                        assert(a.dom() =~= Set::<SpecTyVar>::empty());
                        lemma_apply_empty(gr1, a.dom().len());
                        lemma_apply_empty(gr2, a.dom().len());
                        assert(r1p@ == r2p@);
                        assert(b == Map::<SpecTyVar, SpecTy>::empty());
                        assert(result@ =~= Map::<SpecTyVar, SpecTy>::empty());
                    }
                    // The run is one step of the unification relation.
                    lemma_mgu_step_mono(gp1, gp2, Ok(a), fp, fp + fq);
                    lemma_mgu_step_mono(r1p@, r2p@, Ok(b), fq, fp + fq);
                    assert(mgu_step(
                        ty1@,
                        ty2@,
                        Ok::<Map<SpecTyVar, SpecTy>, SpecTyError>(spec_compose(a, b)),
                        fp + fq + 1,
                    )) by {
                        assert(mgu_step(gp1, gp2, Ok::<Map<SpecTyVar, SpecTy>, SpecTyError>(a), fp + fq));
                        assert(mgu_step(r1p@, r2p@, Ok::<Map<SpecTyVar, SpecTy>, SpecTyError>(b), fp + fq));
                    }
                    assert(mgu_model(Ok(result)) == Ok::<Map<SpecTyVar, SpecTy>, SpecTyError>(spec_compose(a, b)));
                }
                Ok(result)
            },
            (Ty::Var(var), ty) => {
                let ghost gvar = var@;
                let ghost gty = ty@;
                let r = Subst::bind(var, ty);
                proof {
                    if let Ok(s) = &r {
                        lemma_bind_ok(gvar, gty, s@);
                    }
                    assert(mgu_step(ty1@, ty2@, mgu_model(r), 1));
                }
                r
            },
            (ty, Ty::Var(var)) => {
                let ghost gvar = var@;
                let ghost gty = ty@;
                let r = Subst::bind(var, ty);
                proof {
                    if let Ok(s) = &r {
                        lemma_bind_ok(gvar, gty, s@);
                    }
                    assert(mgu_step(ty1@, ty2@, mgu_model(r), 1));
                }
                r
            },
            (Ty::Int, Ty::Int) => {
                proof {
                    lemma_empty_resolvable();
                }
                let r = Ok(Subst::identity());
                proof {
                    assert(mgu_step(ty1@, ty2@, mgu_model(r), 1));
                }
                r
            },
            (Ty::Bool, Ty::Bool) => {
                proof {
                    lemma_empty_resolvable();
                }
                let r = Ok(Subst::identity());
                proof {
                    assert(mgu_step(ty1@, ty2@, mgu_model(r), 1));
                }
                r
            },
            (t1, t2) => {
                let r = Err(TyError::UnificationMismatch(t1, t2));
                proof {
                    assert(mgu_step(ty1@, ty2@, mgu_model(r), 1));
                }
                r
            },
        }
    }
}

/// A successful binding yields a resolvable substitution over the two
/// types' variables that unifies the variable with the type.
pub proof fn lemma_bind_ok(v: SpecTyVar, t: SpecTy, m: Map<SpecTyVar, SpecTy>)
    requires
        spec_bind(v, t) == Ok::<Map<SpecTyVar, SpecTy>, SpecTyError>(m),
    ensures
        subst_resolvable(m),
        m.dom().subset_of(ftv_of_ty(SpecTy::Var(v)).union(ftv_of_ty(t))),
        rng_ftv(m).subset_of(ftv_of_ty(SpecTy::Var(v)).union(ftv_of_ty(t))),
        apply_subst(m, SpecTy::Var(v)) == apply_subst(m, t),
        t == SpecTy::Var(v) ==> m == Map::<SpecTyVar, SpecTy>::empty(),
{
    if t == SpecTy::Var(v) {
        assert(m == Map::<SpecTyVar, SpecTy>::empty());
        lemma_empty_resolvable();
        assert(m.dom() =~= Set::<SpecTyVar>::empty());
        lemma_apply_empty(SpecTy::Var(v), m.dom().len());
        lemma_apply_empty(t, m.dom().len());
    } else {
        assert(!ftv_of_ty(t).contains(v));
        assert(m == Map::<SpecTyVar, SpecTy>::empty().insert(v, t));
        lemma_singleton_resolvable(v, t);
        assert(m.dom() =~= Set::<SpecTyVar>::empty().insert(v));
        assert(m.dom().len() == 1);
        assert(ftv_of_ty(SpecTy::Var(v)).contains(v));
        assert forall|w: SpecTyVar| #[trigger]
            ftv_of_ty(t).contains(w) implies !(m.dom().contains(w) && m[w] != SpecTy::Var(
            w,
        )) by {
            if m.dom().contains(w) {
                assert(w == v);
            }
        }
        lemma_apply_fixed(m, t, 0);
        lemma_apply_fixed(m, t, 1);
        assert(m.dom().contains(v) && m[v] == t && t != SpecTy::Var(v));
        assert(apply_subst(m, SpecTy::Var(v)) == spec_apply(m, t, 0));
        assert forall|w: SpecTyVar| rng_ftv(m).contains(w) implies ftv_of_ty(SpecTy::Var(
            v,
        )).union(ftv_of_ty(t)).contains(w) by {
            assert(rng_ftv(m) =~= ftv_of_ty(t));
        }
    }
}

/// The singleton substitution built by a successful occurs-checked
/// binding is resolvable, and its range variables are the type's own.
pub proof fn lemma_singleton_resolvable(v: SpecTyVar, t: SpecTy)
    requires
        t != SpecTy::Var(v),
        !ftv_of_ty(t).contains(v),
    ensures
        subst_resolvable(Map::<SpecTyVar, SpecTy>::empty().insert(v, t)),
        rng_ftv(Map::<SpecTyVar, SpecTy>::empty().insert(v, t)) =~= ftv_of_ty(t),
{
    let s = Map::<SpecTyVar, SpecTy>::empty().insert(v, t);
    assert(s.dom() =~= Set::empty().insert(v));
    assert forall|w: SpecTyVar| #[trigger] chain_ok(s, w, s.dom().len()) by {
        if s.dom().contains(w) && s[w] != SpecTy::Var(w) {
            assert(w == v);
            assert(s.dom().len() == 1);
            assert forall|x: SpecTyVar| #[trigger]
                ftv_of_ty(s[w]).contains(x) implies chain_ok(s, x, 0nat) by {
                assert(x != v);
                assert(!s.dom().contains(x));
            }
        }
    }
    assert forall|w: SpecTyVar| rng_ftv(s).contains(w) implies ftv_of_ty(t).contains(w) by {
        let x = choose|x: SpecTyVar| s.dom().contains(x) && #[trigger] ftv_of_ty(s[x]).contains(w);
        assert(x == v);
    }
    assert forall|w: SpecTyVar| ftv_of_ty(t).contains(w) implies rng_ftv(s).contains(w) by {
        assert(s.dom().contains(v) && ftv_of_ty(s[v]).contains(w));
    }
}

/// Law: applying the identity substitution to a monotype is a no-op.
pub proof fn lemma_apply_identity(t: SpecTy)
    ensures
        apply_subst(Map::<SpecTyVar, SpecTy>::empty(), t) == t,
{
    lemma_apply_empty(t, Map::<SpecTyVar, SpecTy>::empty().dom().len());
}

/// Law: binding a variable to itself yields the identity substitution,
/// and binding it to an arrow it occurs in fails the occurs check,
/// whatever the arrow's other operand.
pub proof fn lemma_bind_laws(v: SpecTyVar, t: SpecTy)
    ensures
        spec_bind(v, SpecTy::Var(v)) == Ok::<Map<SpecTyVar, SpecTy>, SpecTyError>(
            Map::<SpecTyVar, SpecTy>::empty(),
        ),
        spec_bind(v, arrow(SpecTy::Var(v), t)) == Err::<Map<SpecTyVar, SpecTy>, SpecTyError>(
            SpecTyError::OccursCheckFailure(v, arrow(SpecTy::Var(v), t)),
        ),
{
    let at = arrow(SpecTy::Var(v), t);
    assert(ftv_of_ty(SpecTy::Var(v)).contains(v));
    assert(ftv_of_ty(at).contains(v));
    assert(at != SpecTy::Var(v));
}

/// No image of an actively bound variable with a resolving chain
/// holds its own variable: a chain through itself could never resolve.
proof fn lemma_chain_no_occurs(s: Map<SpecTyVar, SpecTy>, x: SpecTyVar, f: nat)
    requires
        chain_ok(s, x, f),
        s.dom().contains(x),
        s[x] != SpecTy::Var(x),
    ensures
        !ftv_of_ty(s[x]).contains(x),
    decreases f,
{
    if f > 0 && ftv_of_ty(s[x]).contains(x) {
        assert(chain_ok(s, x, (f - 1) as nat));
        lemma_chain_no_occurs(s, x, (f - 1) as nat);
    }
}

/// No image of a resolvable substitution holds its own variable.
proof fn lemma_resolvable_no_occurs(s: Map<SpecTyVar, SpecTy>, x: SpecTyVar)
    requires
        subst_resolvable(s),
        s.dom().contains(x),
    ensures
        s[x] != SpecTy::Var(x) ==> !ftv_of_ty(s[x]).contains(x),
{
    assert(chain_ok(s, x, s.dom().len()));
    if s[x] != SpecTy::Var(x) {
        lemma_chain_no_occurs(s, x, s.dom().len());
    }
}

/// The right-hand part of a composition: the other substitution with
/// this one applied to each of its images.
pub open spec fn mapped_images(
    s: Map<SpecTyVar, SpecTy>,
    t: Map<SpecTyVar, SpecTy>,
) -> Map<SpecTyVar, SpecTy> {
    Map::new(|v: SpecTyVar| t.dom().contains(v), |v: SpecTyVar| apply_subst(s, t[v]))
}

/// Mapping the images of a resolvable substitution through another
/// resolvable substitution that binds none of its variables keeps it
/// resolvable, and its images now avoid the other's domain.
proof fn lemma_mapped_images_facts(s: Map<SpecTyVar, SpecTy>, t: Map<SpecTyVar, SpecTy>)
    requires
        subst_resolvable(s),
        subst_resolvable(t),
        s.dom().disjoint(t.dom()),
        rng_ftv(s).disjoint(t.dom()),
    ensures
        mapped_images(s, t).dom() =~= t.dom(),
        subst_resolvable(mapped_images(s, t)),
        rng_ftv(mapped_images(s, t)).disjoint(s.dom()),
{
    let tp = mapped_images(s, t);
    assert(tp.dom() =~= t.dom());
    // Image variables: from the old image away from this domain, or
    // from the other substitution's range, which avoids both domains.
    assert forall|x: SpecTyVar| #[trigger] tp.dom().contains(x) implies ftv_of_ty(
        tp[x],
    ).subset_of(ftv_of_ty(t[x]).union(rng_ftv(s))) && ftv_of_ty(tp[x]).disjoint(s.dom()) by {
        lemma_resolvable_apply(s, t[x]);
        assert forall|w: SpecTyVar| #[trigger]
            ftv_of_ty(tp[x]).contains(w) implies ftv_of_ty(t[x]).union(rng_ftv(s)).contains(w)
            && !s.dom().contains(w) by {
            assert(ftv_of_ty(apply_subst(s, t[x])).contains(w));
        }
    }
    assert forall|x: SpecTyVar| tp.dom().contains(x) implies tp[x] != SpecTy::Var(x) by {
        if tp[x] == SpecTy::Var(x) {
            assert(ftv_of_ty(tp[x]).contains(x));
            if ftv_of_ty(t[x]).contains(x) {
                lemma_resolvable_no_occurs(t, x);
            } else {
                assert(rng_ftv(s).contains(x));
            }
        }
    }
    assert forall|v: SpecTyVar| #[trigger] chain_ok(tp, v, tp.dom().len()) by {
        assert(chain_ok(t, v, t.dom().len()));
        lemma_mapped_images_chain(s, t, v, t.dom().len());
    }
    assert forall|w: SpecTyVar| #[trigger] rng_ftv(tp).contains(w) implies !s.dom().contains(
        w,
    ) by {
        let x = choose|x: SpecTyVar| tp.dom().contains(x) && #[trigger] ftv_of_ty(tp[x]).contains(w);
        assert(ftv_of_ty(tp[x]).disjoint(s.dom()));
    }
}

/// A chain bound of a substitution survives mapping its images, since
/// the mapping only replaces bound-elsewhere variables by terminal
/// ones.
proof fn lemma_mapped_images_chain(
    s: Map<SpecTyVar, SpecTy>,
    t: Map<SpecTyVar, SpecTy>,
    v: SpecTyVar,
    f: nat,
)
    requires
        subst_resolvable(s),
        s.dom().disjoint(t.dom()),
        rng_ftv(s).disjoint(t.dom()),
        chain_ok(t, v, f),
    ensures
        chain_ok(mapped_images(s, t), v, f),
    decreases f,
{
    let tp = mapped_images(s, t);
    if tp.dom().contains(v) && tp[v] != SpecTy::Var(v) {
        assert(t.dom().contains(v));
        assert(t[v] != SpecTy::Var(v)) by {
            if t[v] == SpecTy::Var(v) {
                assert(!s.dom().contains(v));
                lemma_apply_fixed(s, t[v], s.dom().len());
            }
        }
        assert(f > 0);
        lemma_resolvable_apply(s, t[v]);
        assert forall|w: SpecTyVar| #[trigger]
            ftv_of_ty(tp[v]).contains(w) implies chain_ok(tp, w, (f - 1) as nat) by {
            assert(ftv_of_ty(apply_subst(s, t[v])).contains(w));
            if ftv_of_ty(t[v]).contains(w) {
                assert(chain_ok(t, w, (f - 1) as nat));
                lemma_mapped_images_chain(s, t, w, (f - 1) as nat);
            } else {
                assert(rng_ftv(s).contains(w));
                assert(!t.dom().contains(w));
                assert(!tp.dom().contains(w));
            }
        }
    }
}

/// Applying the mapped substitution commutes with applying the other
/// one: everything the mapped substitution produces already avoids the
/// other's domain.
proof fn lemma_mapped_commute(
    s: Map<SpecTyVar, SpecTy>,
    t: Map<SpecTyVar, SpecTy>,
    u: SpecTy,
    f: nat,
)
    requires
        subst_resolvable(s),
        subst_resolvable(t),
        s.dom().disjoint(t.dom()),
        rng_ftv(s).disjoint(t.dom()),
    ensures
        spec_apply(mapped_images(s, t), apply_subst(s, u), f) == apply_subst(
            s,
            spec_apply(mapped_images(s, t), u, f),
        ),
    decreases f, u,
{
    let tp = mapped_images(s, t);
    lemma_mapped_images_facts(s, t);
    match u {
        SpecTy::Var(y) => {
            if t.dom().contains(y) {
                assert(!s.dom().contains(y));
                lemma_apply_fixed(s, u, s.dom().len());
                assert(apply_subst(s, u) == u);
                if tp[y] != SpecTy::Var(y) && f > 0 {
                    lemma_mapped_commute(s, t, tp[y], (f - 1) as nat);
                    assert(apply_subst(s, tp[y]) == tp[y]) by {
                        assert forall|w: SpecTyVar| #[trigger]
                            ftv_of_ty(tp[y]).contains(w) implies !(s.dom().contains(w) && s[w]
                            != SpecTy::Var(w)) by {
                            assert(tp.dom().contains(y) && ftv_of_ty(tp[y]).contains(w));
                            assert(rng_ftv(tp).contains(w));
                        }
                        lemma_apply_fixed(s, tp[y], s.dom().len());
                    }
                    assert(spec_apply(tp, u, f) == spec_apply(tp, tp[y], (f - 1) as nat));
                    assert(spec_apply(tp, apply_subst(s, tp[y]), (f - 1) as nat) == apply_subst(
                        s,
                        spec_apply(tp, tp[y], (f - 1) as nat),
                    ));
                } else {
                    assert(spec_apply(tp, u, f) == u);
                }
            } else if s.dom().contains(y) {
                let sy = apply_subst(s, u);
                lemma_resolvable_apply(s, u);
                assert forall|w: SpecTyVar| #[trigger]
                    ftv_of_ty(sy).contains(w) implies !(tp.dom().contains(w) && tp[w]
                    != SpecTy::Var(w)) && !(s.dom().contains(w) && s[w] != SpecTy::Var(w)) by {
                    assert(ftv_of_ty(apply_subst(s, u)).contains(w));
                    if ftv_of_ty(u).contains(w) {
                        assert(w == y);
                        assert(!t.dom().contains(w));
                    } else {
                        assert(rng_ftv(s).contains(w));
                        assert(!t.dom().contains(w));
                    }
                }
                lemma_apply_fixed(tp, sy, f);
                lemma_apply_fixed(s, sy, s.dom().len());
                assert(spec_apply(tp, u, f) == u);
            } else {
                lemma_apply_fixed(s, u, s.dom().len());
                assert(spec_apply(tp, u, f) == u);
            }
        },
        SpecTy::Arrow(p, r) => {
            lemma_mapped_commute(s, t, *p, f);
            lemma_mapped_commute(s, t, *r, f);
            assert(apply_subst(s, u) == arrow(apply_subst(s, *p), apply_subst(s, *r)));
            assert(spec_apply(tp, apply_subst(s, u), f) == arrow(
                spec_apply(tp, apply_subst(s, *p), f),
                spec_apply(tp, apply_subst(s, *r), f),
            ));
            assert(spec_apply(tp, u, f) == arrow(spec_apply(tp, *p, f), spec_apply(tp, *r, f)));
            assert(apply_subst(s, spec_apply(tp, u, f)) == arrow(
                apply_subst(s, spec_apply(tp, *p, f)),
                apply_subst(s, spec_apply(tp, *r, f)),
            ));
        },
        _ => {
            lemma_apply_fixed(s, u, s.dom().len());
        },
    }
}

/// After the other substitution is applied on top, resolving with the
/// mapped images is resolving with the images as they stood.
proof fn lemma_mapped_vs_plain(
    s: Map<SpecTyVar, SpecTy>,
    t: Map<SpecTyVar, SpecTy>,
    u: SpecTy,
    f: nat,
)
    requires
        subst_resolvable(s),
        subst_resolvable(t),
        s.dom().disjoint(t.dom()),
        rng_ftv(s).disjoint(t.dom()),
    ensures
        apply_subst(s, spec_apply(mapped_images(s, t), u, f)) == apply_subst(
            s,
            spec_apply(t, u, f),
        ),
    decreases f, u,
{
    let tp = mapped_images(s, t);
    lemma_mapped_images_facts(s, t);
    match u {
        SpecTy::Var(y) => {
            if t.dom().contains(y) {
                if t[y] == SpecTy::Var(y) {
                    assert(!s.dom().contains(y));
                    lemma_apply_fixed(s, t[y], s.dom().len());
                    assert(tp[y] == SpecTy::Var(y));
                    assert(spec_apply(tp, u, f) == u);
                    assert(spec_apply(t, u, f) == u);
                } else {
                    assert(tp[y] != SpecTy::Var(y));
                    if f == 0 {
                        assert(spec_apply(tp, u, f) == u);
                        assert(spec_apply(t, u, f) == u);
                    } else {
                        assert(spec_apply(tp, u, f) == spec_apply(tp, tp[y], (f - 1) as nat));
                        assert(spec_apply(t, u, f) == spec_apply(t, t[y], (f - 1) as nat));
                        lemma_mapped_commute(s, t, t[y], (f - 1) as nat);
                        assert(spec_apply(tp, apply_subst(s, t[y]), (f - 1) as nat) == apply_subst(
                            s,
                            spec_apply(tp, t[y], (f - 1) as nat),
                        ));
                        lemma_apply_idempotent(s, spec_apply(tp, t[y], (f - 1) as nat));
                        lemma_mapped_vs_plain(s, t, t[y], (f - 1) as nat);
                    }
                }
            } else {
                assert(spec_apply(tp, u, f) == u);
                assert(spec_apply(t, u, f) == u);
            }
        },
        SpecTy::Arrow(p, r) => {
            lemma_mapped_vs_plain(s, t, *p, f);
            lemma_mapped_vs_plain(s, t, *r, f);
            assert(apply_subst(s, spec_apply(tp, u, f)) == arrow(
                apply_subst(s, spec_apply(tp, *p, f)),
                apply_subst(s, spec_apply(tp, *r, f)),
            ));
            assert(apply_subst(s, spec_apply(t, u, f)) == arrow(
                apply_subst(s, spec_apply(t, *p, f)),
                apply_subst(s, spec_apply(t, *r, f)),
            ));
        },
        _ => {},
    }
}

/// Law: applying a composition applies the right substitution first
/// and the left one after it, for substitutions in the shape the
/// unifier produces that do not interfere: the two bind disjoint sets
/// of variables, and the left one's images mention no variable the
/// right one binds.
///
/// Without the side conditions the law can fail: under the
/// substitutions `[a -> b]` and `[b -> int]` the composition resolves
/// `a` all the way to `int`, while the two applications one after the
/// other leave `b`.
pub proof fn lemma_compose_apply(s: Map<SpecTyVar, SpecTy>, t: Map<SpecTyVar, SpecTy>, ty: SpecTy)
    requires
        subst_resolvable(s),
        subst_resolvable(t),
        s.dom().disjoint(t.dom()),
        rng_ftv(s).disjoint(t.dom()),
    ensures
        apply_subst(spec_compose(s, t), ty) == apply_subst(s, apply_subst(t, ty)),
{
    let c = spec_compose(s, t);
    let tp = mapped_images(s, t);
    lemma_mapped_images_facts(s, t);
    let u = tp.union_prefer_right(s);
    assert(c =~= u);
    assert(tp.dom().disjoint(s.dom()));
    assert forall|w: SpecTyVar| #[trigger] ftv_of_ty(ty).contains(w) implies chain_ok(
        tp,
        w,
        tp.dom().len(),
    ) by {
        assert(chain_ok(tp, w, tp.dom().len()));
    }
    lemma_union_apply(tp, s, ty, tp.dom().len());
    lemma_len_disjoint_union(tp.dom(), s.dom());
    assert(u.dom() =~= tp.dom().union(s.dom()));
    assert(u.dom().len() == tp.dom().len() + s.dom().len());
    assert(tp.dom().len() == t.dom().len());
    lemma_mapped_vs_plain(s, t, ty, t.dom().len());
}

/// The identity substitution is resolvable and binds nothing.
pub proof fn lemma_empty_resolvable()
    ensures
        subst_resolvable(Map::<SpecTyVar, SpecTy>::empty()),
        rng_ftv(Map::<SpecTyVar, SpecTy>::empty()) =~= Set::<SpecTyVar>::empty(),
{
    let s = Map::<SpecTyVar, SpecTy>::empty();
    assert forall|w: SpecTyVar| #[trigger] chain_ok(s, w, s.dom().len()) by {
        assert(!s.dom().contains(w));
    }
    assert forall|w: SpecTyVar| !rng_ftv(s).contains(w) by {
        assert(forall|x: SpecTyVar| !s.dom().contains(x));
    }
}

} // verus!
