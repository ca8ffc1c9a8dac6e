//! The substitution calculus, the unifier, schemes, contexts and the
//! cache, on concrete values.

use type_infer::error::TyError;
use type_infer::expr::Expr;
use type_infer::expr::ExprKind;
use type_infer::expr::Ident;
use type_infer::expr::Lit;
use type_infer::expr::expr_id::ExprId;
use type_infer::infer::InferCtxt;
use type_infer::ty::Ty;
use type_infer::ty::TyVar;
use type_infer::ty::cache::TyCache;
use type_infer::ty::new_ty_ctxt;
use type_infer::ty::subst::Subst;
use type_infer::ty::ty_ctxt::TyCtxt;
use type_infer::ty::ty_scheme::TyScheme;

fn var(name: &str) -> TyVar {
    TyVar::new(name.to_string())
}

fn tvar(name: &str) -> Ty {
    Ty::mk_var(var(name))
}

fn ident(name: &str) -> Ident {
    Ident::new(name.to_string())
}

#[test]
fn identity_substitution_is_a_no_op() {
    // Applying the identity substitution leaves any monotype as it is.
    let s = Subst::identity();
    let ty = Ty::mk_arrow(tvar("a"), Ty::mk_arrow(Ty::Int, tvar("b")));
    assert_eq!(ty.apply(&s), ty);
    assert_eq!(s.size(), 0);
}

#[test]
fn substitution_insert_get_remove() {
    let mut s = Subst::identity();
    s.insert(var("a"), Ty::Int);
    assert_eq!(s.get(&var("a")), Some(Ty::Int));
    assert_eq!(s.get(&var("b")), None);
    s.insert(var("a"), Ty::Bool);
    assert_eq!(s.get(&var("a")), Some(Ty::Bool));
    assert_eq!(s.size(), 1);
    assert_eq!(s.remove(&var("a")), Some(Ty::Bool));
    assert_eq!(s.get(&var("a")), None);
    assert_eq!(s.size(), 0);
}

#[test]
fn apply_resolves_chained_bindings() {
    // a -> b together with b -> int resolves a all the way to int.
    let mut s = Subst::identity();
    s.insert(var("a"), tvar("b"));
    s.insert(var("b"), Ty::Int);
    assert_eq!(tvar("a").apply(&s), Ty::Int);
    assert_eq!(tvar("b").apply(&s), Ty::Int);
    assert_eq!(tvar("c").apply(&s), tvar("c"));
}

#[test]
fn compose_applies_right_first() {
    // S1 = [t2: int, t3: bool], S2 = [t1: int -> t2, t3: int];
    // S1 + S2 = [t1: int -> int, t2: int, t3: int].
    let mut s1 = Subst::identity();
    s1.insert(var("t2"), Ty::mk_int());
    s1.insert(var("t3"), Ty::mk_bool());
    let mut s2 = Subst::identity();
    s2.insert(var("t1"), Ty::mk_arrow(Ty::mk_int(), tvar("t2")));
    s2.insert(var("t3"), Ty::mk_int());
    let c = s1.compose(&s2);
    assert_eq!(c.size(), 3);
    assert_eq!(c.get(&var("t1")), Some(Ty::mk_arrow(Ty::mk_int(), Ty::mk_int())));
    assert_eq!(c.get(&var("t2")), Some(Ty::mk_int()));
    assert_eq!(c.get(&var("t3")), Some(Ty::mk_int()));
}

#[test]
fn iter_lists_every_binding() {
    let mut s = Subst::identity();
    s.insert(var("a"), Ty::Int);
    s.insert(var("b"), Ty::Bool);
    let entries = s.iter();
    assert_eq!(entries.len(), 2);
    assert!(entries.contains(&(var("a"), Ty::Int)));
    assert!(entries.contains(&(var("b"), Ty::Bool)));
}

#[test]
fn bind_to_itself_yields_identity() {
    // bind(a, a) is the identity substitution.
    let s = Subst::bind(var("a"), tvar("a")).unwrap();
    assert_eq!(s.size(), 0);
}

#[test]
fn bind_occurs_check_fails() {
    // bind(a, a -> b) would need an infinite type.
    let arrow = Ty::mk_arrow(tvar("a"), tvar("b"));
    assert_eq!(
        Subst::bind(var("a"), arrow.duplicate()),
        Err(TyError::OccursCheckFailure(var("a"), arrow))
    );
}

#[test]
fn bind_plain_yields_singleton() {
    // bind(a, int) = [a: int].
    let s = Subst::bind(var("a"), Ty::mk_int()).unwrap();
    assert_eq!(s.size(), 1);
    assert_eq!(s.get(&var("a")), Some(Ty::Int));
}

#[test]
fn mgu_base_types() {
    assert_eq!(Subst::mgu(Ty::mk_int(), Ty::mk_int()).unwrap().size(), 0);
    assert_eq!(Subst::mgu(Ty::mk_bool(), Ty::mk_bool()).unwrap().size(), 0);
    match Subst::mgu(Ty::mk_int(), Ty::mk_bool()) {
        Err(TyError::UnificationMismatch(Ty::Int, Ty::Bool)) => {}
        other => panic!("expected a mismatch of int and bool, got {:?}", other),
    }
}

#[test]
fn mgu_variable_binds() {
    let s = Subst::mgu(tvar("a"), Ty::mk_int()).unwrap();
    assert_eq!(s.get(&var("a")), Some(Ty::Int));
    let s = Subst::mgu(Ty::mk_bool(), tvar("b")).unwrap();
    assert_eq!(s.get(&var("b")), Some(Ty::Bool));
}

#[test]
fn mgu_result_unifies_both_inputs() {
    // Applying the returned substitution to both inputs yields
    // identical monotypes.
    let t1 = Ty::mk_arrow(tvar("a"), tvar("a"));
    let t2 = Ty::mk_arrow(tvar("b"), Ty::mk_int());
    let s = Subst::mgu(t1.duplicate(), t2.duplicate()).unwrap();
    assert_eq!(t1.apply(&s), t2.apply(&s));
    assert_eq!(t1.apply(&s), Ty::mk_arrow(Ty::Int, Ty::Int));
}

#[test]
fn mgu_occurs_check() {
    let t2 = Ty::mk_arrow(tvar("a"), tvar("b"));
    match Subst::mgu(tvar("a"), t2) {
        Err(TyError::OccursCheckFailure(v, _)) => assert_eq!(v, var("a")),
        other => panic!("expected an occurs-check failure, got {:?}", other),
    }
}

#[test]
fn mgu_arrow_threads_parameter_constraints() {
    // Unifying a -> a with int -> b forces b to int.
    let t1 = Ty::mk_arrow(tvar("a"), tvar("a"));
    let t2 = Ty::mk_arrow(Ty::mk_int(), tvar("b"));
    let s = Subst::mgu(t1.duplicate(), t2.duplicate()).unwrap();
    assert_eq!(t1.apply(&s), t2.apply(&s));
    assert_eq!(tvar("b").apply(&s), Ty::Int);
}

#[test]
fn ftv_is_first_occurrence_without_duplicates() {
    let ty = Ty::mk_arrow(tvar("a"), Ty::mk_arrow(tvar("b"), tvar("a")));
    assert_eq!(ty.ftv(), vec![var("a"), var("b")]);
    assert_eq!(Ty::mk_int().ftv(), vec![]);
}

#[test]
fn scheme_ftv_excludes_bound_variables() {
    // forall a . a -> b is free exactly in b.
    let scheme = TyScheme::mk_forall(vec![var("a")], Ty::mk_arrow(tvar("a"), tvar("b")));
    assert_eq!(scheme.ftv(), vec![var("b")]);
}

#[test]
fn scheme_apply_protects_bound_variables() {
    // Applying [a: int, b: bool] to forall a . a -> b rewrites only b.
    let scheme = TyScheme::mk_forall(vec![var("a")], Ty::mk_arrow(tvar("a"), tvar("b")));
    let mut s = Subst::identity();
    s.insert(var("a"), Ty::mk_int());
    s.insert(var("b"), Ty::mk_bool());
    let applied = scheme.apply(&s);
    assert_eq!(applied.vars, vec![var("a")]);
    assert_eq!(applied.ty, Ty::mk_arrow(tvar("a"), Ty::mk_bool()));
}

#[test]
fn flat_context_insert_get_remove() {
    let mut tcx = TyCtxt::new();
    let scheme = TyScheme::mk_forall(vec![], Ty::Int);
    tcx.insert(ident("x"), scheme);
    assert_eq!(tcx.get(&ident("x")).unwrap().ty, Ty::Int);
    assert!(tcx.get(&ident("y")).is_none());
    let removed = tcx.remove(&ident("x")).unwrap();
    assert_eq!(removed.ty, Ty::Int);
    assert!(tcx.get(&ident("x")).is_none());
}

#[test]
fn flat_context_ftv_and_apply() {
    let mut tcx = TyCtxt::new();
    tcx.insert(ident("x"), TyScheme::mk_forall(vec![], tvar("a")));
    tcx.insert(ident("y"), TyScheme::mk_forall(vec![var("b")], tvar("b")));
    let fv = tcx.ftv();
    assert_eq!(fv, vec![var("a")]);
    let mut s = Subst::identity();
    s.insert(var("a"), Ty::mk_bool());
    let rewritten = tcx.apply(&s);
    assert_eq!(rewritten.get(&ident("x")).unwrap().ty, Ty::Bool);
}

#[test]
fn scoped_context_shadows_and_restores() {
    let mut tcx = new_ty_ctxt::TyCtxt::new();
    tcx.new_scope();
    tcx.add(ident("x"), TyScheme::mk_forall(vec![], Ty::Int));
    tcx.new_scope();
    tcx.add(ident("x"), TyScheme::mk_forall(vec![], Ty::Bool));
    assert_eq!(tcx.get(&ident("x")).unwrap().ty, Ty::Bool);
    tcx.exit_scope();
    assert_eq!(tcx.get(&ident("x")).unwrap().ty, Ty::Int);
    tcx.exit_scope();
    assert!(tcx.get(&ident("x")).is_none());
}

#[test]
fn scoped_context_ftv_and_apply() {
    let mut tcx = new_ty_ctxt::TyCtxt::new();
    tcx.new_scope();
    tcx.add(ident("x"), TyScheme::mk_forall(vec![], tvar("a")));
    tcx.new_scope();
    tcx.add(ident("y"), TyScheme::mk_forall(vec![], tvar("b")));
    let fv = tcx.ftv();
    assert_eq!(fv.len(), 2);
    assert!(fv.contains(&var("a")));
    assert!(fv.contains(&var("b")));
    let mut s = Subst::identity();
    s.insert(var("b"), Ty::mk_int());
    let rewritten = tcx.apply(&s);
    assert_eq!(rewritten.get(&ident("y")).unwrap().ty, Ty::Int);
    assert_eq!(rewritten.get(&ident("x")).unwrap().ty, tvar("a"));
}

#[test]
fn cache_write_read_overwrite() {
    let mut cache = TyCache::new();
    let id1 = ExprId::from_u32(1);
    assert!(cache.read(id1).is_none());
    cache.write(id1, Ty::Int);
    assert_eq!(cache.read(id1), Some(&Ty::Int));
    cache.write(id1, Ty::Bool);
    assert_eq!(cache.read(id1), Some(&Ty::Bool));
    assert!(cache.read(ExprId::dummy()).is_none());
}

#[test]
fn assign_ids_numbers_preorder() {
    // app(var f, lit 1): the application is node 1, the callee node 2,
    // the argument node 3.
    let mut expr = Expr::mk_app(Expr::mk_var(ident("f")), Expr::mk_lit(Lit::Int(1)));
    assert_eq!(expr.id, ExprId::dummy());
    expr.assign_ids();
    assert_eq!(expr.id, ExprId::from_u32(1));
    match &expr.kind {
        ExprKind::App { callee, arg } => {
            assert_eq!(callee.id, ExprId::from_u32(2));
            assert_eq!(arg.id, ExprId::from_u32(3));
        }
        other => panic!("expected an application, got {:?}", other),
    }
}

#[test]
fn generalize_quantifies_unconstrained_variables() {
    // With b free in the context, generalizing a -> b quantifies a
    // alone.
    let icx = InferCtxt::new();
    let mut tcx = TyCtxt::new();
    tcx.insert(ident("y"), TyScheme::mk_forall(vec![], tvar("b")));
    let scheme = icx.generalize(tcx, Ty::mk_arrow(tvar("a"), tvar("b")));
    assert_eq!(scheme.vars, vec![var("a")]);
    assert_eq!(scheme.ty, Ty::mk_arrow(tvar("a"), tvar("b")));
}

#[test]
fn instantiate_replaces_bound_with_fresh() {
    // Instantiating forall a . a -> b yields ?0 -> b.
    let mut icx = InferCtxt::new();
    let scheme = TyScheme::mk_forall(vec![var("a")], Ty::mk_arrow(tvar("a"), tvar("b")));
    let ty = icx.instantiate(scheme);
    assert_eq!(ty, Ty::mk_arrow(Ty::Var(TyVar::Unknown(0)), tvar("b")));
}

#[test]
fn instantiate_twice_shares_no_unknowns() {
    // Two instantiations of one scheme draw disjoint fresh variables.
    let mut icx = InferCtxt::new();
    let scheme = TyScheme::mk_forall(vec![var("a")], Ty::mk_arrow(tvar("a"), tvar("a")));
    let first = icx.instantiate(scheme.duplicate());
    let second = icx.instantiate(scheme);
    assert_eq!(
        first,
        Ty::mk_arrow(Ty::Var(TyVar::Unknown(0)), Ty::Var(TyVar::Unknown(0)))
    );
    assert_eq!(
        second,
        Ty::mk_arrow(Ty::Var(TyVar::Unknown(1)), Ty::Var(TyVar::Unknown(1)))
    );
}

#[test]
fn generalize_then_instantiate_renames() {
    // Generalizing a -> a in an empty context and instantiating the
    // result restores the monotype up to the renaming a to ?0.
    let mut icx = InferCtxt::new();
    let tcx = TyCtxt::new();
    let scheme = icx.generalize(tcx, Ty::mk_arrow(tvar("a"), tvar("a")));
    assert_eq!(scheme.vars, vec![var("a")]);
    let ty = icx.instantiate(scheme);
    assert_eq!(
        ty,
        Ty::mk_arrow(Ty::Var(TyVar::Unknown(0)), Ty::Var(TyVar::Unknown(0)))
    );
}

#[test]
fn variable_equality_is_structural() {
    assert_eq!(var("a"), var("a"));
    assert_ne!(var("a"), var("b"));
    assert_ne!(TyVar::Unknown(0), TyVar::Unknown(1));
    assert_eq!(TyVar::Unknown(7), TyVar::unknown(7));
    // A named and an unknown variable never coincide.
    assert_ne!(TyVar::Name("0".to_string()), TyVar::Unknown(0));
}

#[test]
fn identity_leaves_schemes_and_contexts_unchanged() {
    // Applying the identity substitution is a no-op on schemes and
    // contexts as well as on monotypes.
    let s = Subst::identity();
    let scheme = TyScheme::mk_forall(vec![var("a")], Ty::mk_arrow(tvar("a"), tvar("b")));
    let applied = scheme.apply(&s);
    assert_eq!(applied.vars, scheme.vars);
    assert_eq!(applied.ty, scheme.ty);
    let mut tcx = TyCtxt::new();
    tcx.insert(ident("x"), scheme);
    let rewritten = tcx.apply(&s);
    assert_eq!(rewritten.get(&ident("x")).unwrap().ty, tcx.get(&ident("x")).unwrap().ty);
}

#[test]
fn expression_builders() {
    let e = Expr::new(ExprKind::var(ident("x")));
    assert_eq!(e.id, ExprId::dummy());
    assert!(matches!(e.kind, ExprKind::Var(_)));
    assert!(matches!(ExprKind::lit(Lit::Int(3)), ExprKind::Lit(Lit::Int(3))));
    let app = ExprKind::app(Expr::mk_lit(Lit::Int(1)), Expr::mk_lit(Lit::Int(2)));
    assert!(matches!(app, ExprKind::App { .. }));
    let abs = ExprKind::abs(ident("x"), Expr::mk_var(ident("x")));
    assert!(matches!(abs, ExprKind::Abs { .. }));
    let letin = ExprKind::let_in(ident("x"), Expr::mk_lit(Lit::Int(1)), Expr::mk_var(ident("x")));
    assert!(matches!(letin, ExprKind::Let { .. }));
}

#[test]
fn duplicates_preserve_values() {
    let ty = Ty::mk_arrow(tvar("a"), Ty::Int);
    assert_eq!(ty.duplicate(), ty);
    assert_eq!(var("a").duplicate(), var("a"));
    assert_eq!(ident("x").duplicate(), ident("x"));
    let scheme = TyScheme::mk_forall(vec![var("a")], ty.duplicate());
    let copy = scheme.duplicate();
    assert_eq!(copy.vars, scheme.vars);
    assert_eq!(copy.ty, scheme.ty);
    let mut s = Subst::identity();
    s.insert(var("a"), Ty::Int);
    let d = s.duplicate();
    assert_eq!(d.get(&var("a")), Some(Ty::Int));
    assert_eq!(d.size(), 1);
}

#[test]
fn compose_law_on_noninterfering_substitutions() {
    // With disjoint domains and the left images avoiding the right
    // domain, applying the composition equals applying the right
    // substitution first and the left one after it.
    let mut s = Subst::identity();
    s.insert(var("a"), Ty::mk_int());
    let mut t = Subst::identity();
    t.insert(var("b"), tvar("a"));
    let c = s.compose(&t);
    let ty = Ty::mk_arrow(tvar("b"), tvar("a"));
    assert_eq!(ty.apply(&c), ty.apply(&t).apply(&s));
    assert_eq!(ty.apply(&c), Ty::mk_arrow(Ty::Int, Ty::Int));
}

#[test]
fn compose_law_needs_noninterference() {
    // When the left substitution's image mentions a variable the right
    // one binds, the composition resolves further than the two
    // applications one after the other: the law's side condition is
    // real.
    let mut s = Subst::identity();
    s.insert(var("a"), tvar("b"));
    let mut t = Subst::identity();
    t.insert(var("b"), Ty::mk_int());
    let c = s.compose(&t);
    assert_eq!(tvar("a").apply(&c), Ty::Int);
    assert_eq!(tvar("a").apply(&t).apply(&s), tvar("b"));
}
