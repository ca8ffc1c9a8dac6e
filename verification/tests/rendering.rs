//! The human-readable renderings of types, schemes and substitutions.

use type_infer::ty::Ty;
use type_infer::ty::TyVar;
use type_infer::ty::subst::Subst;
use type_infer::ty::ty_scheme::TyScheme;

fn var(name: &str) -> TyVar {
    TyVar::new(name.to_string())
}

fn tvar(name: &str) -> Ty {
    Ty::mk_var(var(name))
}

#[test]
fn render_base_types_and_variables() {
    assert_eq!(Ty::mk_int().render(), "int");
    assert_eq!(Ty::mk_bool().render(), "bool");
    assert_eq!(tvar("a").render(), "a");
    // An unknown variable carries no source name and renders as a
    // placeholder glyph.
    assert_eq!(Ty::mk_var(TyVar::unknown(3)).render(), "?");
}

#[test]
fn render_arrows_right_associatively() {
    let right_nested = Ty::mk_arrow(tvar("a"), Ty::mk_arrow(tvar("b"), tvar("c")));
    assert_eq!(right_nested.render(), "a -> b -> c");
    let left_nested = Ty::mk_arrow(Ty::mk_arrow(tvar("a"), tvar("b")), tvar("c"));
    assert_eq!(left_nested.render(), "(a -> b) -> c");
}

#[test]
fn render_scheme() {
    let scheme = TyScheme::mk_forall(
        vec![var("a"), var("b")],
        Ty::mk_arrow(tvar("a"), tvar("b")),
    );
    assert_eq!(scheme.render(), "forall a b . a -> b");
}

#[test]
fn render_substitution() {
    let mut s = Subst::identity();
    assert_eq!(s.render(), "[]");
    s.insert(var("a"), Ty::mk_int());
    assert_eq!(s.render(), "[a: int]");
    s.insert(var("b"), Ty::mk_arrow(Ty::mk_int(), Ty::mk_bool()));
    assert_eq!(s.render(), "[a: int, b: int -> bool]");
}
