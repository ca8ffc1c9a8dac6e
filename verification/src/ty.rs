//! The monotype language: type variables, the two base types and the
//! function arrow, together with their mathematical model and the free
//! type variable computation.

use vstd::prelude::*;
use vstd::string::StringExecFns;

use crate::ty::subst::Subst;
use crate::ty::subst::apply_subst;
use crate::ty::subst::spec_apply;

pub mod cache;
pub mod new_ty_ctxt;
pub mod subst;
pub mod ty_ctxt;
pub mod ty_scheme;

verus! {

/// Model of a type variable: either a source-level name or an unknown
/// variable allocated during inference, identified by an integer.
pub enum SpecTyVar {
    Name(Seq<char>),
    Unknown(u32),
}

/// Model of a monotype.
pub enum SpecTy {
    Var(SpecTyVar),
    Int,
    Bool,
    Arrow(Box<SpecTy>, Box<SpecTy>),
}

/// Builds a model arrow type.
pub open spec fn arrow(param: SpecTy, ret: SpecTy) -> SpecTy {
    SpecTy::Arrow(Box::new(param), Box::new(ret))
}

/// The number of constructors in a model monotype.
pub open spec fn ty_size(t: SpecTy) -> nat
    decreases t,
{
    match t {
        SpecTy::Arrow(p, r) => 1 + ty_size(*p) + ty_size(*r),
        _ => 1,
    }
}

/// The free type variables of a model monotype.  Every variable of a
/// monotype is free; binding happens only in type schemes.
pub open spec fn ftv_of_ty(t: SpecTy) -> Set<SpecTyVar>
    decreases t,
{
    match t {
        SpecTy::Var(v) => Set::empty().insert(v),
        SpecTy::Int => Set::empty(),
        SpecTy::Bool => Set::empty(),
        SpecTy::Arrow(p, r) => ftv_of_ty(*p).union(ftv_of_ty(*r)),
    }
}

/// The free type variables of a model monotype, in order of
/// occurrence, left to right, repeats included.
pub open spec fn ftv_seq(t: SpecTy) -> Seq<SpecTyVar>
    decreases t,
{
    match t {
        SpecTy::Var(v) => seq![v],
        SpecTy::Int => Seq::empty(),
        SpecTy::Bool => Seq::empty(),
        SpecTy::Arrow(p, r) => ftv_seq(*p) + ftv_seq(*r),
    }
}

/// Extends `acc` with the variables of `s`, in order, keeping only
/// the first occurrence of each.
pub open spec fn dedup_extend(acc: Seq<SpecTyVar>, s: Seq<SpecTyVar>) -> Seq<SpecTyVar>
    decreases s.len(),
{
    if s.len() == 0 {
        acc
    } else {
        let d = dedup_extend(acc, s.drop_last());
        if d.contains(s.last()) {
            d
        } else {
            d.push(s.last())
        }
    }
}

/// The variables of `s`, in order of first occurrence, without
/// repeats.
pub open spec fn dedup_vars(s: Seq<SpecTyVar>) -> Seq<SpecTyVar> {
    dedup_extend(Seq::empty(), s)
}

/// Extending by a concatenation is extending by the parts in turn.
pub proof fn lemma_dedup_extend_concat(acc: Seq<SpecTyVar>, a: Seq<SpecTyVar>, b: Seq<SpecTyVar>)
    ensures
        dedup_extend(acc, a + b) == dedup_extend(dedup_extend(acc, a), b),
    decreases b.len(),
{
    if b.len() == 0 {
        assert(a + b =~= a);
    } else {
        assert((a + b).drop_last() =~= a + b.drop_last());
        assert((a + b).last() == b.last());
        lemma_dedup_extend_concat(acc, a, b.drop_last());
    }
}

/// The free variable set of a monotype is finite.
pub proof fn lemma_ftv_finite(t: SpecTy)
    ensures
        ftv_of_ty(t).finite(),
    decreases t,
{
    match t {
        SpecTy::Arrow(p, r) => {
            lemma_ftv_finite(*p);
            lemma_ftv_finite(*r);
        },
        _ => {},
    }
}

/// A type variable: a source-level name, or an unknown variable
/// allocated during inference.  Two unknown variables are equal exactly
/// when their integers match; a named and an unknown variable are never
/// equal.
#[derive(Debug, Clone, PartialEq, Eq)]
pub enum TyVar {
    Name(String),
    Unknown(u32),
}

impl View for TyVar {
    type V = SpecTyVar;

    open spec fn view(&self) -> SpecTyVar {
        match self {
            TyVar::Name(s) => SpecTyVar::Name(s@),
            TyVar::Unknown(n) => SpecTyVar::Unknown(*n),
        }
    }
}

impl TyVar {
    /// A named type variable.
    pub fn new(name: String) -> (r: TyVar)
        ensures
            r@ == SpecTyVar::Name(name@),
    {
        TyVar::Name(name)
    }

    /// An unknown type variable with the given integer identity.
    pub fn unknown(id: u32) -> (r: TyVar)
        ensures
            r@ == SpecTyVar::Unknown(id),
    {
        TyVar::Unknown(id)
    }

    /// An owned copy with the same view.
    pub fn duplicate(&self) -> (r: TyVar)
        ensures
            r@ == self@,
    {
        match self {
            TyVar::Name(s) => TyVar::Name(s.clone()),
            TyVar::Unknown(n) => TyVar::Unknown(*n),
        }
    }

    /// This variable, in its human-readable rendering.
    pub fn render(&self) -> (r: String)
        ensures
            r@ == render_var(self@),
    {
        match self {
            TyVar::Name(s) => s.clone(),
            TyVar::Unknown(_) => {
                let r = String::from_str("?");
                proof {
                    reveal_strlit("?");
                    assert(r@ =~= seq!['?']);
                }
                r
            },
        }
    }
}

/// Decides view equality of two type variables.
pub fn var_eq(a: &TyVar, b: &TyVar) -> (r: bool)
    ensures
        r == (a@ == b@),
{
    match (a, b) {
        (TyVar::Name(s1), TyVar::Name(s2)) => s1.eq(s2),
        (TyVar::Unknown(n1), TyVar::Unknown(n2)) => n1 == n2,
        _ => false,
    }
}

/// How a type variable reads: a named variable by its name, an
/// unknown variable as a placeholder glyph, since it carries no source
/// name.
pub open spec fn render_var(v: SpecTyVar) -> Seq<char> {
    match v {
        SpecTyVar::Name(s) => s,
        SpecTyVar::Unknown(_) => seq!['?'],
    }
}

/// How a monotype reads: `a`, `int`, `bool`, or `T1 -> T2` with
/// right-associative arrows; a left-nested arrow operand is
/// parenthesized.
pub open spec fn render_ty(t: SpecTy) -> Seq<char>
    decreases t,
{
    match t {
        SpecTy::Var(v) => render_var(v),
        SpecTy::Int => seq!['i', 'n', 't'],
        SpecTy::Bool => seq!['b', 'o', 'o', 'l'],
        SpecTy::Arrow(p, r) => (if *p is Arrow {
            seq!['('] + render_ty(*p) + seq![')']
        } else {
            render_ty(*p)
        }) + seq![' ', '-', '>', ' '] + render_ty(*r),
    }
}

/// A monotype: a type variable, one of the two base types, or a
/// function arrow.  Arrows nest right-associatively and their operands
/// are themselves monotypes.
#[derive(Debug, PartialEq, Eq)]
pub enum Ty {
    Var(TyVar),
    Int,
    Bool,
    Arrow(Box<Ty>, Box<Ty>),
}

/// The model of a monotype value.
pub open spec fn ty_view(t: Ty) -> SpecTy
    decreases t,
{
    match t {
        Ty::Var(v) => SpecTy::Var(v@),
        Ty::Int => SpecTy::Int,
        Ty::Bool => SpecTy::Bool,
        Ty::Arrow(p, r) => SpecTy::Arrow(Box::new(ty_view(*p)), Box::new(ty_view(*r))),
    }
}

impl View for Ty {
    type V = SpecTy;

    open spec fn view(&self) -> SpecTy {
        ty_view(*self)
    }
}

impl Ty {
    /// The type variable `name` as a monotype.
    pub fn mk_var(name: TyVar) -> (r: Ty)
        ensures
            r@ == SpecTy::Var(name@),
    {
        Ty::Var(name)
    }

    /// The integer base type.
    pub fn mk_int() -> (r: Ty)
        ensures
            r@ == SpecTy::Int,
    {
        Ty::Int
    }

    /// The boolean base type.
    pub fn mk_bool() -> (r: Ty)
        ensures
            r@ == SpecTy::Bool,
    {
        Ty::Bool
    }

    /// The function arrow from `param` to `body`.
    pub fn mk_arrow(param: Ty, body: Ty) -> (r: Ty)
        ensures
            r@ == arrow(param@, body@),
    {
        Ty::Arrow(Box::new(param), Box::new(body))
    }

    /// An owned copy with the same view.
    pub fn duplicate(&self) -> (r: Ty)
        ensures
            r@ == self@,
        decreases self,
    {
        match self {
            Ty::Var(v) => Ty::Var(v.duplicate()),
            Ty::Int => Ty::Int,
            Ty::Bool => Ty::Bool,
            Ty::Arrow(p, r) => Ty::Arrow(Box::new(p.duplicate()), Box::new(r.duplicate())),
        }
    }

    /// Applies a substitution: every bound variable is replaced by its
    /// image, resolving chained bindings, with one resolution step
    /// available per binding of the substitution.
    pub fn apply(&self, subst: &Subst) -> (r: Ty)
        requires
            subst.wf(),
        ensures
            r@ == apply_subst(subst@, self@),
    {
        let fuel = subst.size();
        self.apply_fuel(subst, fuel)
    }

    /// Applies a substitution, spending one unit of fuel per chained
    /// resolution step.
    fn apply_fuel(&self, subst: &Subst, fuel: usize) -> (r: Ty)
        requires
            subst.wf(),
        ensures
            r@ == spec_apply(subst@, self@, fuel as nat),
        decreases fuel, self,
    {
        match self {
            Ty::Var(v) => {
                match subst.get(v) {
                    Some(found) => {
                        if fuel > 0 && !ty_eq(&found, self) {
                            found.apply_fuel(subst, fuel - 1)
                        } else {
                            self.duplicate()
                        }
                    },
                    None => self.duplicate(),
                }
            },
            Ty::Int => Ty::Int,
            Ty::Bool => Ty::Bool,
            Ty::Arrow(p, r) => Ty::Arrow(
                Box::new(p.apply_fuel(subst, fuel)),
                Box::new(r.apply_fuel(subst, fuel)),
            ),
        }
    }

    /// This monotype, in its human-readable rendering.
    pub fn render(&self) -> (r: String)
        ensures
            r@ == render_ty(self@),
        decreases self,
    {
        match self {
            Ty::Var(v) => v.render(),
            Ty::Int => {
                let r = String::from_str("int");
                proof {
                    reveal_strlit("int");
                    assert(r@ =~= seq!['i', 'n', 't']);
                }
                r
            },
            Ty::Bool => {
                let r = String::from_str("bool");
                proof {
                    reveal_strlit("bool");
                    assert(r@ =~= seq!['b', 'o', 'o', 'l']);
                }
                r
            },
            Ty::Arrow(p, ret) => {
                let mut out = String::new();
                let parenthesized = match &(**p) {
                    Ty::Arrow(_, _) => true,
                    _ => false,
                };
                proof {
                    reveal_strlit("(");
                    reveal_strlit(")");
                    reveal_strlit(" -> ");
                }
                if parenthesized {
                    out.append("(");
                }
                let left = p.render();
                out.append(left.as_str());
                if parenthesized {
                    out.append(")");
                }
                out.append(" -> ");
                let right = ret.render();
                out.append(right.as_str());
                proof {
                    assert("("@ =~= seq!['(']);
                    assert(")"@ =~= seq![')']);
                    assert(" -> "@ =~= seq![' ', '-', '>', ' ']);
                    if parenthesized {
                        assert((*p)@ is Arrow);
                        assert(out@ =~= render_ty(self@));
                    } else {
                        assert(!((*p)@ is Arrow));
                        assert(out@ =~= render_ty(self@));
                    }
                }
                out
            },
        }
    }

    /// The free type variables of this monotype, without duplicates, in
    /// a stable order (first occurrence, left to right).
    pub fn ftv(&self) -> (r: Vec<TyVar>)
        ensures
            distinct_vars(r@),
            forall|v: SpecTyVar| #[trigger]
                vars_view(r@).contains(v) <==> ftv_of_ty(self@).contains(v),
            vars_view(r@) == dedup_vars(ftv_seq(self@)),
    {
        let mut acc: Vec<TyVar> = Vec::new();
        assert(vars_view(acc@) =~= Seq::<SpecTyVar>::empty());
        self.collect_ftv(&mut acc);
        acc
    }

    /// Appends the free variables of `self` not already in `acc`.
    fn collect_ftv(&self, acc: &mut Vec<TyVar>)
        requires
            distinct_vars(old(acc)@),
        ensures
            distinct_vars(final (acc)@),
            forall|v: SpecTyVar| #[trigger]
                vars_view(final (acc)@).contains(v) <==> vars_view(old(acc)@).contains(v)
                    || ftv_of_ty(self@).contains(v),
            vars_view(final (acc)@) == dedup_extend(vars_view(old(acc)@), ftv_seq(self@)),
        decreases self,
    {
        match self {
            Ty::Var(v) => {
                if !contains_var(acc, v) {
                    let ghost prev = acc@;
                    acc.push(v.duplicate());
                    proof {
                        assert(acc@.len() == prev.len() + 1);
                        assert forall|w: SpecTyVar| #[trigger]
                            vars_view(acc@).contains(w) implies vars_view(prev).contains(w) || w
                            == v@ by {
                            let i = choose|i: int|
                                0 <= i < vars_view(acc@).len() && vars_view(acc@)[i] == w;
                            if i < prev.len() {
                                assert(vars_view(prev)[i] == w);
                                assert(vars_view(prev).contains(w));
                            } else {
                                assert(acc@[i]@ == v@);
                            }
                        }
                        assert forall|w: SpecTyVar|
                            vars_view(prev).contains(w) implies #[trigger] vars_view(
                            acc@,
                        ).contains(w) by {
                            let i = choose|i: int|
                                0 <= i < vars_view(prev).len() && vars_view(prev)[i] == w;
                            assert(vars_view(acc@)[i] == w);
                        }
                        assert(vars_view(acc@)[prev.len() as int] == v@);
                        assert(vars_view(acc@).contains(v@));
                        assert forall|i: int, j: int|
                            0 <= i < j < acc@.len() implies acc@[i]@ != acc@[j]@ by {
                            if j == prev.len() {
                                assert(vars_view(prev)[i] == prev[i]@);
                                assert(acc@[i]@ == prev[i]@);
                                if acc@[i]@ == v@ {
                                    assert(vars_view(prev).contains(v@));
                                }
                            } else {
                                assert(prev[i]@ != prev[j]@);
                            }
                        }
                    }
                }
                proof {
                    assert(ftv_seq(self@) =~= seq![v@]);
                    assert(seq![v@].drop_last() =~= Seq::<SpecTyVar>::empty());
                    assert(seq![v@].last() == v@);
                    assert(dedup_extend(vars_view(old(acc)@), Seq::empty())
                        == vars_view(old(acc)@));
                }
            },
            Ty::Int => {
                proof {
                    assert(ftv_seq(self@) =~= Seq::<SpecTyVar>::empty());
                }
            },
            Ty::Bool => {
                proof {
                    assert(ftv_seq(self@) =~= Seq::<SpecTyVar>::empty());
                }
            },
            Ty::Arrow(p, r) => {
                p.collect_ftv(acc);
                r.collect_ftv(acc);
                proof {
                    lemma_dedup_extend_concat(vars_view(old(acc)@), ftv_seq(p@), ftv_seq(r@));
                }
            },
        }
    }
}

/// Decides view equality of two monotypes.
pub fn ty_eq(a: &Ty, b: &Ty) -> (r: bool)
    ensures
        r == (a@ == b@),
    decreases a,
{
    match (a, b) {
        (Ty::Var(v1), Ty::Var(v2)) => var_eq(v1, v2),
        (Ty::Int, Ty::Int) => true,
        (Ty::Bool, Ty::Bool) => true,
        (Ty::Arrow(p1, r1), Ty::Arrow(p2, r2)) => ty_eq(p1, p2) && ty_eq(r1, r2),
        _ => false,
    }
}

/// The views of a sequence of type variables.
pub open spec fn vars_view(s: Seq<TyVar>) -> Seq<SpecTyVar> {
    s.map_values(|x: TyVar| x@)
}

/// The views of the variables in `s` are pairwise distinct.
pub open spec fn distinct_vars(s: Seq<TyVar>) -> bool {
    forall|i: int, j: int| 0 <= i < j < s.len() ==> s[i]@ != s[j]@
}

/// Decides whether a variable with the view of `x` occurs in `vs`.
pub fn contains_var(vs: &Vec<TyVar>, x: &TyVar) -> (r: bool)
    ensures
        r == vars_view(vs@).contains(x@),
{
    let n = vs.len();
    let mut i: usize = 0;
    while i < n
        invariant
            n == vs.len(),
            i <= n,
            forall|j: int| 0 <= j < i ==> vs@[j]@ != x@,
        decreases n - i,
    {
        if var_eq(&vs[i], x) {
            assert(vars_view(vs@)[i as int] == x@);
            return true;
        }
        i += 1;
    }
    assert forall|j: int| 0 <= j < vars_view(vs@).len() implies vars_view(vs@)[j] != x@ by {
        assert(vs@[j]@ != x@);
    }
    false
}

} // verus!
