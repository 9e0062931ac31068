use vstd::prelude::*;
use crate::expr::OpName;

verus! {

/// A declared relation of an operator to another one.
#[derive(Debug)]
pub enum Order {
    /// Binds strictly tighter than the named operator.
    Above(OpName),
    /// Binds strictly looser than the named operator.
    Below(OpName),
    /// Binds exactly as tightly as the named operator.
    Equal(OpName),
}

#[derive(Debug, Clone, Copy, PartialEq, Eq, Structural)]
pub enum OpAssoc {
    /// a ~ b ~ c
    /// (a ~ b) ~ c
    Left,
    /// a ~ b ~ c
    /// a ~ (b ~ c)
    Right,
    /// a ~ b ~ c
    /// error
    Non,
}

#[derive(Debug, Clone, Copy, PartialEq, Eq, Structural)]
pub enum OpKind {
    Prefix,
    Postfix,
    Infix(OpAssoc),
}

/// What is known of one operator: its declaration and, once resolved, its
/// precedence.
#[derive(Debug)]
pub struct OpInfo {
    pub name: OpName,
    pub kind: OpKind,
    pub relation: Vec<Order>,
    pub prec: Option<usize>,
}

/// Errors of the operator registry and of the fixup engine.
#[derive(Debug, PartialEq, Eq)]
pub enum OpError {
    /// The operator was never declared.
    UnboundOperator(OpName),
    /// The operator is used in a position its declared kind does not allow.
    WrongFixity(OpName),
    /// A non-associative operator is chained with itself.
    NonAssociativeRepetition(OpName),
    /// Two operators of equal precedence but different associativity meet.
    UnresolvableMixedAssociativity(OpName, OpName),
    /// The `Above`/`Below` declarations form a cycle; the operators on one.
    CyclicPrecedence(Vec<OpName>),
    /// `Equal` declarations together with `Above`/`Below` ones cannot be
    /// met; the operators on such a cycle.
    ConflictingEquality(Vec<OpName>),
    /// A relation of the first operator names the second, never declared.
    UnknownOperatorReference(OpName, OpName),
    /// The operator is declared twice.
    DuplicateOperator(OpName),
}

impl OpInfo {
    /// A declaration, not yet resolved.
    pub fn new(name: &str, kind: OpKind, relation: Vec<Order>) -> (r: Self)
        ensures
            r.name@ == name@,
            r.kind == kind,
            r.relation@ == relation@,
            r.prec is None,
    {
        Self { name: name.to_owned(), kind, relation, prec: None }
    }

    /// The resolved precedence, if any.
    pub fn prec(&self) -> (r: Option<usize>)
        ensures
            r == self.prec,
    {
        self.prec
    }
}

/// The operator in `ops` named `name`, if there is one.
pub open spec fn lookup(ops: Seq<OpInfo>, name: Seq<char>) -> Option<OpInfo> {
    if exists|i: int| 0 <= i < ops.len() && ops[i].name@ == name {
        Some(ops[choose|i: int| 0 <= i < ops.len() && ops[i].name@ == name])
    } else {
        None
    }
}

/// No two operators share a name.
pub open spec fn names_unique(ops: Seq<OpInfo>) -> bool {
    forall|i: int, j: int|
        0 <= i < ops.len() && 0 <= j < ops.len() && i != j ==> ops[i].name@ != ops[j].name@
}

/// Resolved operators, keyed by name.
pub struct OpMap {
    ops: Vec<OpInfo>,
}

impl View for OpMap {
    type V = Seq<OpInfo>;

    closed spec fn view(&self) -> Seq<OpInfo> {
        self.ops@
    }
}

impl OpMap {
    /// Names are unique and every operator has its precedence.
    pub open spec fn wf(&self) -> bool {
        &&& names_unique(self@)
        &&& forall|i: int| 0 <= i < self@.len() ==> (#[trigger] self@[i]).prec is Some
    }

    /// A map over operators already resolved.
    pub(crate) fn from_resolved(ops: Vec<OpInfo>) -> (r: OpMap)
        ensures
            r@ == ops@,
    {
        OpMap { ops }
    }

    /// Number of operators.
    pub fn len(&self) -> (r: usize)
        ensures
            r == self@.len(),
    {
        self.ops.len()
    }

    /// The operator named `name`.
    pub fn get(&self, name: &String) -> (r: Option<&OpInfo>)
        requires
            self.wf(),
        ensures
            r is Some <==> lookup(self@, name@) is Some,
            r matches Some(info) ==> *info == lookup(self@, name@)->Some_0,
    {
        let mut i: usize = 0;
        while i < self.ops.len()
            invariant
                i <= self@.len(),
                self.wf(),
                forall|j: int| 0 <= j < i ==> self@[j].name@ != name@,
            decreases self@.len() - i,
        {
            if self.ops[i].name == *name {
                proof {
                    let k = choose|k: int| 0 <= k < self@.len() && self@[k].name@ == name@;
                    assert(k == i);
                }
                return Some(&self.ops[i]);
            }
            i = i + 1;
        }
        None
    }
}

} // verus!
