//! The boolean-expression model of a WHERE clause, the predicate partitioner
//! that splits it into equi-join predicates and residual filters, and the
//! canonical reconstructor that folds the join predicates back into a single
//! left-associated AND-chain.

use vstd::prelude::*;

verus! {

/// A column reference: an ordered pair of relation alias and column name.
/// Two references are equal iff both components match exactly.
#[derive(Debug, PartialEq, Eq, Hash)]
pub struct ColumnRef {
    pub table: String,
    pub column: String,
}

impl View for ColumnRef {
    type V = (Seq<char>, Seq<char>);

    open spec fn view(&self) -> Self::V {
        (self.table@, self.column@)
    }
}

impl Clone for ColumnRef {
    fn clone(&self) -> (res: Self)
        ensures
            res == *self,
    {
        ColumnRef { table: self.table.clone(), column: self.column.clone() }
    }
}

/// The comparison operators a `Cmp` node can carry. Only `Eq` between two
/// columns makes a join predicate; every other comparison is a residual
/// filter.
#[derive(Debug, Clone, Copy, PartialEq, Eq)]
pub enum CmpOp {
    Eq,
    NotEq,
    Lt,
    LtEq,
    Gt,
    GtEq,
}

/// One side of a comparison: either a column reference, or an operand the
/// canonicalizer never inspects (a literal, a function call, ...), carried
/// as an opaque handle chosen by the caller.
#[derive(Debug, PartialEq, Eq)]
pub enum Operand {
    Column(ColumnRef),
    Opaque(u64),
}

/// A boolean expression tree with the closed variant set the partitioner
/// distinguishes: comparison, conjunction, disjunction, and anything else
/// (carried as an opaque handle chosen by the caller).
#[derive(Debug, PartialEq, Eq)]
pub enum BoolExpr {
    Cmp { op: CmpOp, left: Operand, right: Operand },
    And(Box<BoolExpr>, Box<BoolExpr>),
    Or(Box<BoolExpr>, Box<BoolExpr>),
    Other(u64),
}

/// The join predicates extracted from `e`, in left-to-right depth-first
/// order: equality comparisons between two columns, recursing only through
/// conjunctions.
pub open spec fn joins_of(e: BoolExpr) -> Seq<(ColumnRef, ColumnRef)>
    decreases e,
{
    match e {
        BoolExpr::Cmp {
            op: CmpOp::Eq,
            left: Operand::Column(l),
            right: Operand::Column(r),
        } => seq![(l, r)],
        BoolExpr::And(l, r) => joins_of(*l) + joins_of(*r),
        _ => seq![],
    }
}

/// The residual filters of `e`, in left-to-right depth-first order: every
/// maximal subtree that is neither a column equality nor a conjunction.
pub open spec fn filters_of(e: BoolExpr) -> Seq<BoolExpr>
    decreases e,
{
    match e {
        BoolExpr::Cmp {
            op: CmpOp::Eq,
            left: Operand::Column(_),
            right: Operand::Column(_),
        } => seq![],
        BoolExpr::And(l, r) => filters_of(*l) + filters_of(*r),
        _ => seq![e],
    }
}

/// Splits `e` into equi-join predicates and residual filters, appending to
/// the two accumulators. A column equality is emitted as a join predicate;
/// a conjunction is recursed into; anything else - a disjunction included -
/// is appended whole to the filters.
pub fn get_joins(
    e: BoolExpr,
    joins: &mut Vec<(ColumnRef, ColumnRef)>,
    filters: &mut Vec<BoolExpr>,
)
    ensures
        final(joins)@ == old(joins)@ + joins_of(e),
        final(filters)@ == old(filters)@ + filters_of(e),
    decreases e,
{
    let ghost ge = e;
    let ghost j0 = joins@;
    let ghost f0 = filters@;
    match e {
        BoolExpr::Cmp {
            op: CmpOp::Eq,
            left: Operand::Column(l),
            right: Operand::Column(r),
        } => {
            joins.push((l, r));
            assert(joins@ =~= j0 + joins_of(ge));
            assert(filters@ =~= f0 + filters_of(ge));
        },
        BoolExpr::And(l, r) => {
            let ghost gl = *l;
            let ghost gr = *r;
            get_joins(*l, joins, filters);
            get_joins(*r, joins, filters);
            assert(joins@ =~= j0 + joins_of(ge));
            assert(filters@ =~= f0 + filters_of(ge));
        },
        other => {
            let ghost go = other;
            filters.push(other);
            assert(filters_of(ge) =~= seq![go]);
            assert(joins@ =~= j0 + joins_of(ge));
            assert(filters@ =~= f0 + filters_of(ge));
        },
    }
}

/// The equality node a join predicate is rendered back to.
pub open spec fn spec_mk_join(lr: (ColumnRef, ColumnRef)) -> BoolExpr {
    BoolExpr::Cmp { op: CmpOp::Eq, left: Operand::Column(lr.0), right: Operand::Column(lr.1) }
}

/// Renders a join predicate back to a `left = right` comparison node.
pub fn mk_join(lr: (ColumnRef, ColumnRef)) -> (e: BoolExpr)
    ensures
        e == spec_mk_join(lr),
{
    let (l, r) = lr;
    BoolExpr::Cmp { op: CmpOp::Eq, left: Operand::Column(l), right: Operand::Column(r) }
}

/// The canonical predicate rebuilt from a non-empty join list: a strict left
/// fold, so `[p1, p2, p3]` becomes `((p1 AND p2) AND p3)`.
pub open spec fn rebuilt(js: Seq<(ColumnRef, ColumnRef)>) -> BoolExpr
    recommends
        js.len() > 0,
    decreases js.len(),
{
    if js.len() <= 1 {
        spec_mk_join(js[0])
    } else {
        BoolExpr::And(Box::new(rebuilt(js.drop_last())), Box::new(spec_mk_join(js.last())))
    }
}

/// Rebuilds the single AND-chain of equality predicates from the raw join
/// list, in a strict left-fold order: the first predicate is the seed and
/// each subsequent one is appended on the right. Returns `None` iff the
/// list is empty.
pub fn rebuild_joins(joins: Vec<(ColumnRef, ColumnRef)>) -> (res: Option<BoolExpr>)
    ensures
        joins@.len() == 0 ==> res is None,
        joins@.len() > 0 ==> res == Some(rebuilt(joins@)),
{
    if joins.len() == 0 {
        return None;
    }
    let ghost all = joins@;
    let mut rest = joins;
    let first = rest.remove(0);
    assert(rest@ =~= all.skip(1));
    let mut acc: BoolExpr = mk_join(first);
    let mut taken: usize = 1;
    assert(acc == rebuilt(all.take(1)));
    while rest.len() > 0
        invariant
            1 <= taken <= all.len() <= usize::MAX,
            rest@ == all.skip(taken as int),
            acc == rebuilt(all.take(taken as int)),
        decreases rest@.len(),
    {
        let next = rest.remove(0);
        proof {
            assert(next == all[taken as int]);
            assert(rest@ =~= all.skip(taken as int + 1));
        }
        acc = BoolExpr::And(Box::new(acc), Box::new(mk_join(next)));
        proof {
            let t2 = taken as int + 1;
            assert(all.take(t2).drop_last() =~= all.take(taken as int));
            assert(all.take(t2).last() == all[taken as int]);
        }
        taken = taken + 1;
    }
    assert(all.take(taken as int) =~= all);
    Some(acc)
}

} // verus!
