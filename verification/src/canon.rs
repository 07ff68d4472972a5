//! The whole canonicalization pass: partition the WHERE clause, build the
//! equivalence classes, project the FROM list to its atom summary line, and
//! rebuild the canonical join predicate.

use vstd::prelude::*;
use crate::atoms::{Error, FromItem, atoms_of, join_with, joined, project_atoms};
use crate::catalog::Catalog;
use crate::equiv::{build_classes, classes_after};
use crate::expr::{BoolExpr, ColumnRef, filters_of, get_joins, joins_of, rebuild_joins, rebuilt};

verus! {

/// The part of a SELECT-PROJECT-JOIN query the canonicalizer reads: its
/// FROM list and its optional WHERE clause. Every other clause passes
/// through the rewrite unchanged.
pub struct Query {
    pub from: Vec<FromItem>,
    pub selection: Option<BoolExpr>,
}

/// The canonical form of a query: the atom summary line, the rebuilt join
/// predicate that replaces the WHERE clause, and the residual filters the
/// partitioner set aside.
#[derive(Debug)]
pub struct Canonical {
    pub atom_line: String,
    pub selection: BoolExpr,
    pub residual_filters: Vec<BoolExpr>,
}

/// The join predicates of an optional WHERE clause.
pub open spec fn sel_joins(sel: Option<BoolExpr>) -> Seq<(ColumnRef, ColumnRef)> {
    match sel {
        Option::Some(e) => joins_of(e),
        Option::None => Seq::<(ColumnRef, ColumnRef)>::empty(),
    }
}

/// The residual filters of an optional WHERE clause.
pub open spec fn sel_filters(sel: Option<BoolExpr>) -> Seq<BoolExpr> {
    match sel {
        Option::Some(e) => filters_of(e),
        Option::None => Seq::<BoolExpr>::empty(),
    }
}

/// The atom summary line: `q = atom1 * atom2 * ...`.
pub open spec fn summary_text(atoms: Seq<Seq<char>>) -> Seq<char> {
    seq!['q', ' ', '=', ' '] + joined(atoms, seq![' ', '*', ' '])
}

/// Renders the atom summary line.
pub fn summary_line(atoms: &Vec<String>) -> (s: String)
    ensures
        s@ == summary_text(atoms@.map_values(|a: String| a@)),
{
    let mut s = String::from_str("q = ");
    let inner = join_with(atoms, " * ");
    s.append(inner.as_str());
    proof {
        reveal_strlit("q = ");
        reveal_strlit(" * ");
        assert("q = "@ =~= seq!['q', ' ', '=', ' ']);
        assert(" * "@ =~= seq![' ', '*', ' ']);
        assert(s@ =~= summary_text(atoms@.map_values(|a: String| a@)));
    }
    s
}

/// Canonicalizes one query against the catalog.
///
/// The WHERE clause is split into equi-join predicates and residual
/// filters; the join predicates are folded into equivalence classes; each
/// FROM relation is projected to an atom of class representatives; and the
/// join predicates are folded back into a single left-associated AND-chain.
///
/// Fails with the first failing FROM entry's error when the FROM list holds
/// a non-table entry, an unaliased table, or a table absent from the
/// catalog; otherwise fails with `Error::NoJoins` iff the WHERE clause
/// yields no equi-join predicate.
pub fn canonicalize(catalog: &Catalog, query: Query) -> (res: Result<Canonical, Error>)
    ensures
        ({
            let js = sel_joins(query.selection);
            let keys = classes_after(js).0;
            let rt = classes_after(js).1;
            match atoms_of(keys, rt, catalog@, query.from@) {
                Err(e) => res == Err::<Canonical, Error>(e),
                Ok(texts) => if js.len() == 0 {
                    res == Err::<Canonical, Error>(Error::NoJoins)
                } else {
                    res matches Ok(c) && c.atom_line@ == summary_text(texts) && c.selection
                        == rebuilt(js) && c.residual_filters@ == sel_filters(query.selection)
                },
            }
        }),
{
    let Query { from, selection } = query;
    let ghost js = sel_joins(selection);
    let mut joins: Vec<(ColumnRef, ColumnRef)> = Vec::new();
    let mut filters: Vec<BoolExpr> = Vec::new();
    match selection {
        Option::Some(sel) => {
            get_joins(sel, &mut joins, &mut filters);
            proof {
                assert(joins@ =~= js);
                assert(filters@ =~= sel_filters(query.selection));
            }
        },
        Option::None => {
            proof {
                assert(joins@ =~= js);
                assert(filters@ =~= sel_filters(query.selection));
            }
        },
    }
    let eq = build_classes(&joins);
    let atoms = match project_atoms(&eq, catalog, &from) {
        Ok(a) => a,
        Err(e) => {
            return Err(e);
        },
    };
    let line = summary_line(&atoms);
    match rebuild_joins(joins) {
        Option::Some(sel) => Ok(
            Canonical { atom_line: line, selection: sel, residual_filters: filters },
        ),
        Option::None => Err(Error::NoJoins),
    }
}

} // verus!
