//! End-to-end inference scenarios.

use type_infer::error::TyError;
use type_infer::expr::Expr;
use type_infer::expr::Ident;
use type_infer::expr::Lit;
use type_infer::infer::InferCtxt;
use type_infer::ty::Ty;
use type_infer::ty::TyVar;

fn ident(name: &str) -> Ident {
    Ident::new(name.to_string())
}

fn int_lit(n: i32) -> Expr {
    Expr::mk_lit(Lit::Int(n))
}

fn bool_lit(b: bool) -> Expr {
    Expr::mk_lit(Lit::Bool(b))
}

#[test]
fn infer_int_literal() {
    let mut icx = InferCtxt::new();
    assert_eq!(icx.infer(&int_lit(42)), Ok(Ty::Int));
}

#[test]
fn infer_bool_literal() {
    let mut icx = InferCtxt::new();
    assert_eq!(icx.infer(&bool_lit(true)), Ok(Ty::Bool));
    let mut icx = InferCtxt::new();
    assert_eq!(icx.infer(&bool_lit(false)), Ok(Ty::Bool));
}

#[test]
fn infer_identity_abstraction() {
    // \x. x : ?0 -> ?0, an arrow from a fresh variable to itself.
    let mut icx = InferCtxt::new();
    let expr = Expr::mk_abs(ident("x"), Expr::mk_var(ident("x")));
    let expected = Ty::mk_arrow(
        Ty::Var(TyVar::Unknown(0)),
        Ty::Var(TyVar::Unknown(0)),
    );
    assert_eq!(icx.infer(&expr), Ok(expected));
}

#[test]
fn infer_constant_abstraction() {
    // \x. 42 : ?0 -> int.
    let mut icx = InferCtxt::new();
    let expr = Expr::mk_abs(ident("x"), int_lit(42));
    let expected = Ty::mk_arrow(Ty::Var(TyVar::Unknown(0)), Ty::Int);
    assert_eq!(icx.infer(&expr), Ok(expected));
}

#[test]
fn infer_application() {
    // (\x. x)(true) : bool.
    let mut icx = InferCtxt::new();
    let id_fn = Expr::mk_abs(ident("x"), Expr::mk_var(ident("x")));
    let expr = Expr::mk_app(id_fn, bool_lit(true));
    assert_eq!(icx.infer(&expr), Ok(Ty::Bool));
}

#[test]
fn infer_let_polymorphism() {
    // let id = \x. x in id(id(42)) : int, with id used at two
    // different instantiations.
    let mut icx = InferCtxt::new();
    let id_fn = Expr::mk_abs(ident("x"), Expr::mk_var(ident("x")));
    let body = Expr::mk_app(
        Expr::mk_var(ident("id")),
        Expr::mk_app(Expr::mk_var(ident("id")), int_lit(42)),
    );
    let expr = Expr::mk_let(ident("id"), id_fn, body);
    assert_eq!(icx.infer(&expr), Ok(Ty::Int));
}

#[test]
fn infer_let_simple() {
    // let n = 1 in n : int.
    let mut icx = InferCtxt::new();
    let expr = Expr::mk_let(ident("n"), int_lit(1), Expr::mk_var(ident("n")));
    assert_eq!(icx.infer(&expr), Ok(Ty::Int));
}

#[test]
fn infer_unbound_variable() {
    let mut icx = InferCtxt::new();
    let expr = Expr::mk_var(ident("ghost"));
    assert_eq!(
        icx.infer(&expr),
        Err(TyError::UnboundVariable(ident("ghost")))
    );
}

#[test]
fn infer_apply_non_function() {
    // 42(true) fails: int does not unify with an arrow.
    let mut icx = InferCtxt::new();
    let expr = Expr::mk_app(int_lit(42), bool_lit(true));
    match icx.infer(&expr) {
        Err(TyError::UnificationMismatch(_, _)) => {}
        other => panic!("expected a unification mismatch, got {:?}", other),
    }
}

#[test]
fn infer_argument_mismatch() {
    // (\x. x)(true) applied where an int is needed:
    // let f = \x. x in (f)(true) still types, so use
    // an arrow that constrains the argument: (\b. b(1))(\x. true)(2)
    // is elaborate; instead check that applying bool to bool fails.
    let mut icx = InferCtxt::new();
    let expr = Expr::mk_app(bool_lit(false), int_lit(1));
    match icx.infer(&expr) {
        Err(TyError::UnificationMismatch(_, _)) => {}
        other => panic!("expected a unification mismatch, got {:?}", other),
    }
}

#[test]
fn infer_nested_abstraction() {
    // \x. \y. x : ?0 -> ?1 -> ?0.
    let mut icx = InferCtxt::new();
    let expr = Expr::mk_abs(
        ident("x"),
        Expr::mk_abs(ident("y"), Expr::mk_var(ident("x"))),
    );
    let expected = Ty::mk_arrow(
        Ty::Var(TyVar::Unknown(0)),
        Ty::mk_arrow(Ty::Var(TyVar::Unknown(1)), Ty::Var(TyVar::Unknown(0))),
    );
    assert_eq!(icx.infer(&expr), Ok(expected));
}

#[test]
fn infer_shadowing_let() {
    // let n = 1 in let n = true in n : bool (the inner binding wins).
    let mut icx = InferCtxt::new();
    let inner = Expr::mk_let(ident("n"), bool_lit(true), Expr::mk_var(ident("n")));
    let expr = Expr::mk_let(ident("n"), int_lit(1), inner);
    assert_eq!(icx.infer(&expr), Ok(Ty::Bool));
}

#[test]
fn infer_is_fail_fast() {
    // The unbound variable inside the let value aborts the whole
    // inference.
    let mut icx = InferCtxt::new();
    let expr = Expr::mk_let(
        ident("a"),
        Expr::mk_var(ident("missing")),
        int_lit(1),
    );
    assert_eq!(
        icx.infer(&expr),
        Err(TyError::UnboundVariable(ident("missing")))
    );
}
