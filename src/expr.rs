use vstd::prelude::*;

verus! {

/// The name of an operator: an identifier or a run of symbol characters.
pub type OpName = String;

/// An expression tree, before or after fixup.
#[derive(Debug, PartialEq, Eq)]
pub enum Expr {
    InfixOp(OpName, Box<Expr>, Box<Expr>),
    PrefixOp(OpName, Box<Expr>),
    PostfixOp(OpName, Box<Expr>),
    Var(String),
}

impl Expr {
    /// Number of nodes in the tree.
    pub open spec fn size(&self) -> nat
        decreases self,
    {
        match self {
            Expr::InfixOp(_, l, r) => 1 + l.size() + r.size(),
            Expr::PrefixOp(_, a) => 1 + a.size(),
            Expr::PostfixOp(_, a) => 1 + a.size(),
            Expr::Var(_) => 1,
        }
    }

    /// The same shape with the same names and identifiers.
    pub open spec fn same_tree(&self, o: Expr) -> bool
        decreases self,
    {
        match (self, o) {
            (Expr::InfixOp(a, l, r), Expr::InfixOp(b, l2, r2)) => a@ == b@ && l.same_tree(*l2) && r.same_tree(*r2),
            (Expr::PrefixOp(a, x), Expr::PrefixOp(b, y)) => a@ == b@ && x.same_tree(*y),
            (Expr::PostfixOp(a, x), Expr::PostfixOp(b, y)) => a@ == b@ && x.same_tree(*y),
            (Expr::Var(a), Expr::Var(b)) => a@ == b@,
            _ => false,
        }
    }

    /// Builds `InfixOp(op, e1, e2)`.
    pub fn infixop(op: &str, e1: Expr, e2: Expr) -> (r: Expr)
        ensures
            r matches Expr::InfixOp(o, l, rr) && o@ == op@ && *l == e1 && *rr == e2,
    {
        Expr::InfixOp(op.to_owned(), Box::new(e1), Box::new(e2))
    }

    /// Builds the leaf `Var(x)`.
    pub fn var(x: &str) -> (r: Expr)
        ensures
            r matches Expr::Var(v) && v@ == x@,
    {
        Expr::Var(x.to_owned())
    }
}

} // verus!
