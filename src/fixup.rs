use vstd::prelude::*;
use crate::expr::Expr;
use crate::registry::lookup;
use crate::registry::OpAssoc;
use crate::registry::OpError;
use crate::registry::OpInfo;
use crate::registry::OpKind;
use crate::registry::OpMap;

verus! {

/// What fixing up `e` against the operators `ops` gives.
///
/// Children are fixed up first. An infix node whose fixed-up right child is
/// itself an infix node compares the two operators. Where the child's operator
/// binds tighter, or both are equal and right-associative, the node stays as
/// it is. Otherwise the outer operator binds first: it takes the left operand
/// and the child's left operand, that new node is fixed up again, and the
/// child's operator goes on top with its right operand.
pub open spec fn fixup_spec(e: Expr, ops: Seq<OpInfo>) -> Result<Expr, OpError>
    decreases e.size(),
{
    match e {
        Expr::Var(_) => Ok(e),
        Expr::PrefixOp(op, a) => match fixup_spec(*a, ops) {
            Err(err) => Err(err),
            Ok(a2) => match lookup(ops, op@) {
                None => Err(OpError::UnboundOperator(op)),
                Some(info) => if info.kind is Prefix {
                    Ok(Expr::PrefixOp(op, Box::new(a2)))
                } else {
                    Err(OpError::WrongFixity(op))
                },
            },
        },
        Expr::PostfixOp(op, a) => match fixup_spec(*a, ops) {
            Err(err) => Err(err),
            Ok(a2) => match lookup(ops, op@) {
                None => Err(OpError::UnboundOperator(op)),
                Some(info) => if info.kind is Postfix {
                    Ok(Expr::PostfixOp(op, Box::new(a2)))
                } else {
                    Err(OpError::WrongFixity(op))
                },
            },
        },
        Expr::InfixOp(op, l, r) => match fixup_spec(*l, ops) {
            Err(err) => Err(err),
            Ok(l2) => match fixup_spec(*r, ops) {
                Err(err) => Err(err),
                Ok(r2) => match lookup(ops, op@) {
                    None => Err(OpError::UnboundOperator(op)),
                    Some(info1) => match info1.kind {
                        OpKind::Infix(assoc1) => match r2 {
                            Expr::InfixOp(op2, e3, e4) => match lookup(ops, op2@) {
                                None => Err(OpError::UnboundOperator(op2)),
                                Some(info2) => match info2.kind {
                                    OpKind::Infix(assoc2) => {
                                        let prec1 = info1.prec->Some_0;
                                        let prec2 = info2.prec->Some_0;
                                        if op@ == op2@ && assoc1 == OpAssoc::Non {
                                            Err(OpError::NonAssociativeRepetition(op))
                                        } else if prec1 == prec2 && assoc1 != assoc2 {
                                            Err(OpError::UnresolvableMixedAssociativity(op, op2))
                                        } else if prec1 < prec2 || (prec1 == prec2 && assoc1 == OpAssoc::Right) {
                                            Ok(Expr::InfixOp(op, Box::new(l2), Box::new(r2)))
                                        } else {
                                            let inner = Expr::InfixOp(op, Box::new(l2), e3);
                                            // always taken: fixup keeps the size of a tree
                                            if inner.size() < e.size() {
                                                match fixup_spec(inner, ops) {
                                                    Err(err) => Err(err),
                                                    Ok(t) => Ok(Expr::InfixOp(op2, Box::new(t), e4)),
                                                }
                                            } else {
                                                Ok(e)
                                            }
                                        }
                                    },
                                    _ => Err(OpError::WrongFixity(op2)),
                                },
                            },
                            _ => Ok(Expr::InfixOp(op, Box::new(l2), Box::new(r2))),
                        },
                        _ => Err(OpError::WrongFixity(op)),
                    },
                },
            },
        },
    }
}

/// Fixing up keeps the number of nodes.
pub proof fn lemma_fixup_keeps_size(e: Expr, ops: Seq<OpInfo>)
    ensures
        fixup_spec(e, ops) is Ok ==> fixup_spec(e, ops)->Ok_0.size() == e.size(),
    decreases e.size(),
{
    match e {
        Expr::Var(_) => {},
        Expr::PrefixOp(op, a) => lemma_fixup_keeps_size(*a, ops),
        Expr::PostfixOp(op, a) => lemma_fixup_keeps_size(*a, ops),
        Expr::InfixOp(op, l, r) => {
            lemma_fixup_keeps_size(*l, ops);
            lemma_fixup_keeps_size(*r, ops);
            if let Ok(r2) = fixup_spec(*r, ops) {
                if let Expr::InfixOp(op2, e3, e4) = r2 {
                    if let Ok(l2) = fixup_spec(*l, ops) {
                        let inner = Expr::InfixOp(op, Box::new(l2), e3);
                        assert(inner.size() == 1 + l2.size() + e3.size());
                        assert(inner.size() < e.size());
                        lemma_fixup_keeps_size(inner, ops);
                        if let Ok(t) = fixup_spec(inner, ops) {
                            assert(Expr::InfixOp(op2, Box::new(t), e4).size() == 1 + t.size() + e4.size());
                        }
                    }
                }
            }
        },
    }
}

/// Re-associates a provisionally parsed tree by the operators' precedence and
/// associativity.
pub fn fixup(e: Expr, map: &OpMap) -> (r: Result<Expr, OpError>)
    requires
        map.wf(),
    ensures
        r == fixup_spec(e, map@),
    decreases e.size(),
{
    proof {
        lemma_fixup_keeps_size(e, map@);
    }
    match e {
        Expr::InfixOp(op, e1, e2) => {
            proof {
                lemma_fixup_keeps_size(*e1, map@);
                lemma_fixup_keeps_size(*e2, map@);
            }
            let e1 = match fixup(*e1, map) {
                Ok(t) => t,
                Err(err) => return Err(err),
            };
            let e2 = match fixup(*e2, map) {
                Ok(t) => t,
                Err(err) => return Err(err),
            };
            let info1 = match map.get(&op) {
                Some(info) => info,
                None => return Err(OpError::UnboundOperator(op)),
            };
            let assoc1 = match info1.kind {
                OpKind::Infix(assoc) => assoc,
                _ => return Err(OpError::WrongFixity(op)),
            };
            match e2 {
                Expr::InfixOp(op2, e3, e4) => {
                    let info2 = match map.get(&op2) {
                        Some(info) => info,
                        None => return Err(OpError::UnboundOperator(op2)),
                    };
                    let assoc2 = match info2.kind {
                        OpKind::Infix(assoc) => assoc,
                        _ => return Err(OpError::WrongFixity(op2)),
                    };
                    let prec1 = match info1.prec() {
                        Some(p) => p,
                        None => 0,
                    };
                    let prec2 = match info2.prec() {
                        Some(p) => p,
                        None => 0,
                    };
                    if op == op2 && assoc1 == OpAssoc::Non {
                        return Err(OpError::NonAssociativeRepetition(op));
                    }
                    if prec1 == prec2 && assoc1 != assoc2 {
                        Err(OpError::UnresolvableMixedAssociativity(op, op2))
                    } else if prec1 < prec2 || (prec1 == prec2 && assoc1 == OpAssoc::Right) {
                        Ok(Expr::InfixOp(op, Box::new(e1), Box::new(Expr::InfixOp(op2, e3, e4))))
                    } else {
                        proof {
                            lemma_fixup_keeps_size(Expr::InfixOp(op, Box::new(e1), e3), map@);
                        }
                        let inner = match fixup(Expr::InfixOp(op, Box::new(e1), e3), map) {
                            Ok(t) => t,
                            Err(err) => return Err(err),
                        };
                        Ok(Expr::InfixOp(op2, Box::new(inner), e4))
                    }
                },
                _ => Ok(Expr::InfixOp(op, Box::new(e1), Box::new(e2))),
            }
        },
        Expr::PrefixOp(op, a) => {
            let a = match fixup(*a, map) {
                Ok(t) => t,
                Err(err) => return Err(err),
            };
            let info = match map.get(&op) {
                Some(info) => info,
                None => return Err(OpError::UnboundOperator(op)),
            };
            match info.kind {
                OpKind::Prefix => {},
                _ => return Err(OpError::WrongFixity(op)),
            }
            Ok(Expr::PrefixOp(op, Box::new(a)))
        },
        Expr::PostfixOp(op, a) => {
            let a = match fixup(*a, map) {
                Ok(t) => t,
                Err(err) => return Err(err),
            };
            let info = match map.get(&op) {
                Some(info) => info,
                None => return Err(OpError::UnboundOperator(op)),
            };
            match info.kind {
                OpKind::Postfix => {},
                _ => return Err(OpError::WrongFixity(op)),
            }
            Ok(Expr::PostfixOp(op, Box::new(a)))
        },
        Expr::Var(x) => Ok(Expr::Var(x)),
    }
}

} // verus!

verus! {

/// Fixup keeps an infix node `op` whose right child carries the infix
/// operator `op2`: `op2` binds tighter, or both are equally tight and
/// right-associative.
pub open spec fn keeps(info1: OpInfo, info2: OpInfo) -> bool {
    &&& info1.kind matches OpKind::Infix(assoc1)
    &&& info2.kind matches OpKind::Infix(assoc2)
    &&& {
        ||| info1.prec->Some_0 < info2.prec->Some_0
        ||| info1.prec->Some_0 == info2.prec->Some_0 && assoc1 == OpAssoc::Right && assoc2
            == OpAssoc::Right
    }
}

/// `e` has nothing left to resolve: each operator is declared with the
/// fixity its position asks for, and each infix node with an infix right
/// child is one that fixup keeps.
pub open spec fn resolved(e: Expr, ops: Seq<OpInfo>) -> bool
    decreases e,
{
    match e {
        Expr::Var(_) => true,
        Expr::PrefixOp(op, a) => lookup(ops, op@) matches Some(info) && info.kind is Prefix
            && resolved(*a, ops),
        Expr::PostfixOp(op, a) => lookup(ops, op@) matches Some(info) && info.kind is Postfix
            && resolved(*a, ops),
        Expr::InfixOp(op, l, r) => {
            &&& lookup(ops, op@) matches Some(info)
            &&& info.kind is Infix
            &&& resolved(*l, ops)
            &&& resolved(*r, ops)
            &&& (*r matches Expr::InfixOp(op2, _, _) ==> lookup(ops, op2@) matches Some(info2) && keeps(
                info,
                info2,
            ))
        },
    }
}

proof fn lemma_same_tree_trans(a: Expr, b: Expr, c: Expr)
    requires
        a.same_tree(b),
        b.same_tree(c),
    ensures
        a.same_tree(c),
    decreases a,
{
    match (a, b, c) {
        (Expr::InfixOp(_, l, r), Expr::InfixOp(_, l2, r2), Expr::InfixOp(_, l3, r3)) => {
            lemma_same_tree_trans(*l, *l2, *l3);
            lemma_same_tree_trans(*r, *r2, *r3);
        },
        (Expr::PrefixOp(_, x), Expr::PrefixOp(_, y), Expr::PrefixOp(_, z)) => lemma_same_tree_trans(*x, *y, *z),
        (Expr::PostfixOp(_, x), Expr::PostfixOp(_, y), Expr::PostfixOp(_, z)) => lemma_same_tree_trans(*x, *y, *z),
        _ => {},
    }
}

proof fn lemma_resolved_same_tree(a: Expr, b: Expr, ops: Seq<OpInfo>)
    requires
        a.same_tree(b),
        resolved(b, ops),
    ensures
        resolved(a, ops),
    decreases a,
{
    match (a, b) {
        (Expr::InfixOp(_, l, r), Expr::InfixOp(_, l2, r2)) => {
            lemma_resolved_same_tree(*l, *l2, ops);
            lemma_resolved_same_tree(*r, *r2, ops);
            assert(r.same_tree(*r2));
            if let Expr::InfixOp(x, _, _) = *r {
                assert(*r2 matches Expr::InfixOp(y, _, _) && x@ == y@);
            }
        },
        (Expr::PrefixOp(_, x), Expr::PrefixOp(_, y)) => lemma_resolved_same_tree(*x, *y, ops),
        (Expr::PostfixOp(_, x), Expr::PostfixOp(_, y)) => lemma_resolved_same_tree(*x, *y, ops),
        _ => {},
    }
}

/// A tree with nothing left to resolve comes back from fixup unchanged: the
/// same shape, with the same names.
pub proof fn lemma_fixup_resolved_unchanged(e: Expr, ops: Seq<OpInfo>)
    requires
        resolved(e, ops),
    ensures
        fixup_spec(e, ops) is Ok,
        fixup_spec(e, ops)->Ok_0.same_tree(e),
    decreases e.size(),
{
    lemma_fixup_keeps_size(e, ops);
    match e {
        Expr::Var(_) => {},
        Expr::PrefixOp(op, a) => lemma_fixup_resolved_unchanged(*a, ops),
        Expr::PostfixOp(op, a) => lemma_fixup_resolved_unchanged(*a, ops),
        Expr::InfixOp(op, l, r) => {
            lemma_fixup_resolved_unchanged(*l, ops);
            lemma_fixup_resolved_unchanged(*r, ops);
            let r2 = fixup_spec(*r, ops)->Ok_0;
            if let Expr::InfixOp(op2, _, _) = r2 {
                if let Expr::InfixOp(op3, _, _) = *r {
                    assert(op2@ == op3@);
                    assert(lookup(ops, op2@) == lookup(ops, op3@));
                }
            }
        },
    }
}

/// An operator that is not declared infix, placed between two operands that
/// fix up, is rejected as used in the wrong position.
pub proof fn lemma_non_infix_between_operands(op: String, l: Expr, r: Expr, ops: Seq<OpInfo>)
    requires
        lookup(ops, op@) matches Some(info) && !(info.kind is Infix),
        fixup_spec(l, ops) is Ok,
        fixup_spec(r, ops) is Ok,
    ensures
        fixup_spec(Expr::InfixOp(op, Box::new(l), Box::new(r)), ops) == Err::<Expr, OpError>(
            OpError::WrongFixity(op),
        ),
{
}

/// A non-associative operator chained with itself, `a op b op c` as the
/// provisional parse nests it, is rejected.
pub proof fn lemma_non_associative_chain(
    op: String,
    a: Expr,
    b: Expr,
    c: Expr,
    ops: Seq<OpInfo>,
)
    requires
        lookup(ops, op@) matches Some(info) && info.kind == OpKind::Infix(OpAssoc::Non),
        resolved(a, ops),
        resolved(b, ops),
        resolved(c, ops),
        !(c is InfixOp),
    ensures
        fixup_spec(
            Expr::InfixOp(op, Box::new(a), Box::new(Expr::InfixOp(op, Box::new(b), Box::new(c)))),
            ops,
        ) == Err::<Expr, OpError>(OpError::NonAssociativeRepetition(op)),
{
    lemma_fixup_resolved_unchanged(a, ops);
    lemma_fixup_resolved_unchanged(b, ops);
    lemma_fixup_resolved_unchanged(c, ops);
    let c2 = fixup_spec(c, ops)->Ok_0;
    assert(!(c2 is InfixOp));
    let bc = Expr::InfixOp(op, Box::new(b), Box::new(c));
    assert(fixup_spec(bc, ops) is Ok);
}

} // verus!

verus! {

/// What fixup returns has nothing left to resolve.
pub proof fn lemma_fixup_output_resolved(e: Expr, ops: Seq<OpInfo>)
    ensures
        fixup_spec(e, ops) matches Ok(t) ==> resolved(t, ops),
    decreases e.size(),
{
    lemma_fixup_keeps_size(e, ops);
    match e {
        Expr::Var(_) => {},
        Expr::PrefixOp(_, a) => lemma_fixup_output_resolved(*a, ops),
        Expr::PostfixOp(_, a) => lemma_fixup_output_resolved(*a, ops),
        Expr::InfixOp(op, l, r) => {
            lemma_fixup_output_resolved(*l, ops);
            lemma_fixup_output_resolved(*r, ops);
            lemma_fixup_keeps_size(*l, ops);
            lemma_fixup_keeps_size(*r, ops);
            if let Ok(l2) = fixup_spec(*l, ops) {
                if let Ok(r2) = fixup_spec(*r, ops) {
                    if let Expr::InfixOp(op2, e3, e4) = r2 {
                        let inner = Expr::InfixOp(op, Box::new(l2), e3);
                        assert(inner.size() < e.size());
                        lemma_fixup_output_resolved(inner, ops);
                    }
                }
            }
        },
    }
}

/// Fixing up a fixed-up tree changes nothing: the same shape, with the same
/// names.
pub proof fn lemma_fixup_idempotent(e: Expr, ops: Seq<OpInfo>)
    requires
        fixup_spec(e, ops) is Ok,
    ensures
        fixup_spec(fixup_spec(e, ops)->Ok_0, ops) is Ok,
        fixup_spec(fixup_spec(e, ops)->Ok_0, ops)->Ok_0.same_tree(fixup_spec(e, ops)->Ok_0),
{
    lemma_fixup_output_resolved(e, ops);
    lemma_fixup_resolved_unchanged(fixup_spec(e, ops)->Ok_0, ops);
}

} // verus!
