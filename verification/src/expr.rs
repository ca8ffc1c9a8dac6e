//! Expressions of the applied lambda calculus: variables, literals,
//! application, abstraction and let-binding, plus the identifier type
//! and a preorder pass that gives every node a stable identity.

use vstd::prelude::*;

pub mod expr_id;

use crate::expr::expr_id::ExprId;

verus! {

/// An identifier: the name of a term variable.
#[derive(Debug, Clone, PartialEq, Eq)]
pub struct Ident {
    pub name: String,
}

impl View for Ident {
    type V = Seq<char>;

    open spec fn view(&self) -> Seq<char> {
        self.name@
    }
}

impl Ident {
    pub fn new(name: String) -> (r: Ident)
        ensures
            r@ == name@,
    {
        Ident { name }
    }

    /// An owned copy with the same view.
    pub fn duplicate(&self) -> (r: Ident)
        ensures
            r@ == self@,
    {
        Ident { name: self.name.clone() }
    }
}

/// Decides view equality of two identifiers.
pub fn ident_eq(a: &Ident, b: &Ident) -> (r: bool)
    ensures
        r == (a@ == b@),
{
    a.name.eq(&b.name)
}

/// A literal: an integer or a boolean.
#[derive(Debug, Clone, Copy, PartialEq, Eq, Structural)]
pub enum Lit {
    Int(i32),
    Bool(bool),
}

/// Model of an expression node.
pub enum SpecExpr {
    Var(Seq<char>),
    Lit(Lit),
    App { callee: Box<SpecExpr>, arg: Box<SpecExpr> },
    Abs { param: Seq<char>, body: Box<SpecExpr> },
    Let { name: Seq<char>, value: Box<SpecExpr>, body: Box<SpecExpr> },
}

/// An expression node: its variant and its identity, the latter dummy
/// until `assign_ids` has run.
#[derive(Debug, PartialEq)]
pub struct Expr {
    pub kind: ExprKind,
    pub id: ExprId,
}

/// The five expression variants.
#[derive(Debug, PartialEq)]
pub enum ExprKind {
    Var(Ident),
    Lit(Lit),
    App { callee: Box<Expr>, arg: Box<Expr> },
    Abs { param: Ident, body: Box<Expr> },
    Let { name: Ident, value: Box<Expr>, body: Box<Expr> },
}

/// The model of an expression: its tree shape, without node identities.
pub open spec fn expr_view(e: Expr) -> SpecExpr
    decreases e,
{
    match e.kind {
        ExprKind::Var(x) => SpecExpr::Var(x@),
        ExprKind::Lit(l) => SpecExpr::Lit(l),
        ExprKind::App { callee, arg } => SpecExpr::App {
            callee: Box::new(expr_view(*callee)),
            arg: Box::new(expr_view(*arg)),
        },
        ExprKind::Abs { param, body } => SpecExpr::Abs {
            param: param@,
            body: Box::new(expr_view(*body)),
        },
        ExprKind::Let { name, value, body } => SpecExpr::Let {
            name: name@,
            value: Box::new(expr_view(*value)),
            body: Box::new(expr_view(*body)),
        },
    }
}

impl View for Expr {
    type V = SpecExpr;

    open spec fn view(&self) -> SpecExpr {
        expr_view(*self)
    }
}

/// How many nodes an expression tree holds.
pub open spec fn expr_count(e: SpecExpr) -> nat
    decreases e,
{
    match e {
        SpecExpr::Var(_) => 1,
        SpecExpr::Lit(_) => 1,
        SpecExpr::App { callee, arg } => 1 + expr_count(*callee) + expr_count(*arg),
        SpecExpr::Abs { param, body } => 1 + expr_count(*body),
        SpecExpr::Let { name, value, body } => 1 + expr_count(*value) + expr_count(*body),
    }
}

/// The nodes of `e` carry consecutive preorder identities starting at
/// `start`.
pub open spec fn well_numbered_from(e: Expr, start: int) -> bool
    decreases e,
{
    &&& e.id@ == start
    &&& match e.kind {
        ExprKind::Var(_) => true,
        ExprKind::Lit(_) => true,
        ExprKind::App { callee, arg } => well_numbered_from(*callee, start + 1)
            && well_numbered_from(*arg, start + 1 + expr_count(callee@)),
        ExprKind::Abs { param, body } => well_numbered_from(*body, start + 1),
        ExprKind::Let { name, value, body } => well_numbered_from(*value, start + 1)
            && well_numbered_from(*body, start + 1 + expr_count(value@)),
    }
}

impl Expr {
    /// Wraps a variant in a node carrying the dummy identity.
    pub fn new(kind: ExprKind) -> (r: Expr)
        ensures
            r.kind == kind,
            r.id@ == 0,
    {
        Expr { kind, id: ExprId::dummy() }
    }

    /// A variable reference.
    pub fn mk_var(name: Ident) -> (r: Expr)
        ensures
            r@ == SpecExpr::Var(name@),
            r.id@ == 0,
    {
        Expr::new(ExprKind::Var(name))
    }

    /// A literal.
    pub fn mk_lit(lit: Lit) -> (r: Expr)
        ensures
            r@ == SpecExpr::Lit(lit),
            r.id@ == 0,
    {
        Expr::new(ExprKind::Lit(lit))
    }

    /// An application of `callee` to `arg`.
    pub fn mk_app(callee: Expr, arg: Expr) -> (r: Expr)
        ensures
            r@ == (SpecExpr::App { callee: Box::new(callee@), arg: Box::new(arg@) }),
            r.id@ == 0,
    {
        Expr::new(ExprKind::App { callee: Box::new(callee), arg: Box::new(arg) })
    }

    /// An abstraction binding `param` over `body`.
    pub fn mk_abs(param: Ident, body: Expr) -> (r: Expr)
        ensures
            r@ == (SpecExpr::Abs { param: param@, body: Box::new(body@) }),
            r.id@ == 0,
    {
        Expr::new(ExprKind::Abs { param, body: Box::new(body) })
    }

    /// A let-binding of `name` to `value` inside `body`.
    pub fn mk_let(name: Ident, value: Expr, body: Expr) -> (r: Expr)
        ensures
            r@ == (SpecExpr::Let {
                name: name@,
                value: Box::new(value@),
                body: Box::new(body@),
            }),
            r.id@ == 0,
    {
        Expr::new(ExprKind::Let { name, value: Box::new(value), body: Box::new(body) })
    }

    /// Gives every node of the tree its preorder identity, starting at
    /// one; the tree's shape is untouched.  Run once, before inference,
    /// so the type cache has a stable key for every node.
    pub fn assign_ids(&mut self)
        requires
            expr_count(old(self)@) <= u32::MAX,
        ensures
            final (self)@ == old(self)@,
            well_numbered_from(*final (self), 1),
    {
        let mut id_gen: u32 = 0;
        self.assign_ids_rec(&mut id_gen);
    }

    /// Numbers this subtree in preorder, continuing from the given
    /// counter.
    fn assign_ids_rec(&mut self, used_id_space: &mut u32)
        requires
            *old(used_id_space) + expr_count(old(self)@) <= u32::MAX,
        ensures
            *final (used_id_space) == *old(used_id_space) + expr_count(old(self)@),
            final (self)@ == old(self)@,
            well_numbered_from(*final (self), *old(used_id_space) + 1),
        decreases *old(self),
    {
        *used_id_space = *used_id_space + 1;
        self.id = ExprId::from_u32(*used_id_space);
        match &mut self.kind {
            ExprKind::Var(_) => {},
            ExprKind::Lit(_) => {},
            ExprKind::App { callee, arg } => {
                callee.assign_ids_rec(used_id_space);
                arg.assign_ids_rec(used_id_space);
            },
            ExprKind::Abs { param: _, body } => {
                body.assign_ids_rec(used_id_space);
            },
            ExprKind::Let { name: _, value, body } => {
                value.assign_ids_rec(used_id_space);
                body.assign_ids_rec(used_id_space);
            },
        }
    }
}

impl ExprKind {
    /// A variable reference variant.
    pub fn var(name: Ident) -> (r: ExprKind)
        ensures
            r == ExprKind::Var(name),
    {
        ExprKind::Var(name)
    }

    /// A literal variant.
    pub fn lit(lit: Lit) -> (r: ExprKind)
        ensures
            r == ExprKind::Lit(lit),
    {
        ExprKind::Lit(lit)
    }

    /// An application variant.
    pub fn app(callee: Expr, arg: Expr) -> (r: ExprKind)
        ensures
            r == (ExprKind::App { callee: Box::new(callee), arg: Box::new(arg) }),
    {
        ExprKind::App { callee: Box::new(callee), arg: Box::new(arg) }
    }

    /// An abstraction variant.
    pub fn abs(param: Ident, body: Expr) -> (r: ExprKind)
        ensures
            r == (ExprKind::Abs { param, body: Box::new(body) }),
    {
        ExprKind::Abs { param, body: Box::new(body) }
    }

    /// A let-binding variant.
    pub fn let_in(name: Ident, value: Expr, body: Expr) -> (r: ExprKind)
        ensures
            r == (ExprKind::Let { name, value: Box::new(value), body: Box::new(body) }),
    {
        ExprKind::Let { name, value: Box::new(value), body: Box::new(body) }
    }
}

} // verus!
