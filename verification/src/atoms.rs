//! The schema-aware relation projector: for each FROM-list relation, looks
//! up its schema columns, finds each column's canonical representative (if
//! the column participates in any join predicate), and emits one
//! relational atom `alias(var1,var2,...)` per relation.

use vstd::prelude::*;
use crate::catalog::{Catalog, TableView, spec_lookup};
use crate::equiv::{Equivalences, rep_view};
use crate::expr::ColumnRef;
use crate::registry::{ColKey, has_col, index_of_col, lemma_index_of_col};

verus! {

/// One FROM-list entry: a plain named table with an optional alias, or
/// anything else (a derived table, a join expression, ...), which the
/// canonicalizer rejects.
#[derive(Debug, PartialEq, Eq)]
pub enum FromItem {
    Table { name: String, alias: Option<String> },
    Unsupported,
}

/// The failure kinds of canonicalization.
#[derive(Debug, Clone, Copy, PartialEq, Eq)]
pub enum Error {
    /// A FROM entry is not a plain aliased table reference.
    UnsupportedRelation,
    /// A FROM entry has no alias.
    MissingAlias,
    /// A referenced table name is absent from the catalog.
    UnknownTable,
    /// The WHERE clause yields no equi-join predicate.
    NoJoins,
}

/// The `alias.column` rendering of a column key.
pub open spec fn dotted(k: ColKey) -> Seq<char> {
    k.0 + seq!['.'] + k.1
}

/// The variable list of one relation's atom: for each schema column, in
/// order, the dotted representative of `(alias, column)` if that exact pair
/// was registered via some join predicate; unregistered columns are
/// omitted.
pub open spec fn var_views(
    keys: Seq<ColKey>,
    rt: Seq<int>,
    alias: Seq<char>,
    cols: Seq<Seq<char>>,
) -> Seq<Seq<char>>
    decreases cols.len(),
{
    if cols.len() == 0 {
        Seq::<Seq<char>>::empty()
    } else {
        let rest = var_views(keys, rt, alias, cols.drop_last());
        let key = (alias, cols.last());
        if has_col(keys, key) {
            rest.push(dotted(rep_view(keys, rt, index_of_col(keys, key))))
        } else {
            rest
        }
    }
}

/// `parts` joined with `sep` between consecutive parts.
pub open spec fn joined(parts: Seq<Seq<char>>, sep: Seq<char>) -> Seq<char>
    decreases parts.len(),
{
    if parts.len() == 0 {
        Seq::<char>::empty()
    } else if parts.len() == 1 {
        parts[0]
    } else {
        joined(parts.drop_last(), sep) + sep + parts.last()
    }
}

/// The text of one atom: `alias(var1,var2,...)`.
pub open spec fn atom_text(alias: Seq<char>, vars: Seq<Seq<char>>) -> Seq<char> {
    alias + seq!['('] + joined(vars, seq![',']) + seq![')']
}

/// The outcome of projecting one FROM entry: its atom text, or the first
/// failure among: the entry is not a plain named table; it lacks an alias;
/// its name is absent from the catalog.
pub open spec fn atom_of(
    keys: Seq<ColKey>,
    rt: Seq<int>,
    cat: Seq<TableView>,
    item: FromItem,
) -> Result<Seq<char>, Error> {
    match item {
        FromItem::Unsupported => Err(Error::UnsupportedRelation),
        FromItem::Table { name, alias } => match alias {
            Option::None => Err(Error::MissingAlias),
            Option::Some(a) => match spec_lookup(cat, name@) {
                Option::None => Err(Error::UnknownTable),
                Option::Some(cols) => Ok(atom_text(a@, var_views(keys, rt, a@, cols))),
            },
        },
    }
}

/// The outcome of projecting the whole FROM list, in source order: the atom
/// texts, or the first entry's failure.
pub open spec fn atoms_of(
    keys: Seq<ColKey>,
    rt: Seq<int>,
    cat: Seq<TableView>,
    items: Seq<FromItem>,
) -> Result<Seq<Seq<char>>, Error>
    decreases items.len(),
{
    if items.len() == 0 {
        Ok(Seq::<Seq<char>>::empty())
    } else {
        match atoms_of(keys, rt, cat, items.drop_last()) {
            Err(e) => Err(e),
            Ok(prev) => match atom_of(keys, rt, cat, items.last()) {
                Err(e) => Err(e),
                Ok(t) => Ok(prev.push(t)),
            },
        }
    }
}

/// A failure on a prefix of the FROM list is the failure of the whole list.
pub proof fn lemma_atoms_err_prefix(
    keys: Seq<ColKey>,
    rt: Seq<int>,
    cat: Seq<TableView>,
    items: Seq<FromItem>,
    j: int,
)
    requires
        0 <= j <= items.len(),
        atoms_of(keys, rt, cat, items.take(j)) is Err,
    ensures
        atoms_of(keys, rt, cat, items) == atoms_of(keys, rt, cat, items.take(j)),
    decreases items.len() - j,
{
    if j == items.len() {
        assert(items.take(j) =~= items);
    } else {
        assert(items.take(j + 1).drop_last() =~= items.take(j));
        lemma_atoms_err_prefix(keys, rt, cat, items, j + 1);
    }
}

/// Atom completeness: the dotted representative of every registered
/// `(alias, column)` pair of the schema column list appears in the atom's
/// variable list, and every variable of the list comes from some
/// registered schema column - unregistered columns are omitted, and
/// nothing is fabricated.
pub proof fn lemma_atom_completeness(
    keys: Seq<ColKey>,
    rt: Seq<int>,
    alias: Seq<char>,
    cols: Seq<Seq<char>>,
)
    ensures
        forall|i: int|
            0 <= i < cols.len() && has_col(keys, (alias, #[trigger] cols[i])) ==> var_views(
                keys,
                rt,
                alias,
                cols,
            ).contains(dotted(rep_view(keys, rt, index_of_col(keys, (alias, cols[i]))))),
        forall|v: Seq<char>|
            var_views(keys, rt, alias, cols).contains(v) ==> exists|i: int|
                0 <= i < cols.len() && has_col(keys, (alias, #[trigger] cols[i])) && v == dotted(
                    rep_view(keys, rt, index_of_col(keys, (alias, cols[i]))),
                ),
    decreases cols.len(),
{
    if cols.len() > 0 {
        lemma_atom_completeness(keys, rt, alias, cols.drop_last());
        let rest = var_views(keys, rt, alias, cols.drop_last());
        let whole = var_views(keys, rt, alias, cols);
        assert(cols.drop_last().len() == cols.len() - 1);
        assert(forall|i: int| 0 <= i < cols.len() - 1 ==> #[trigger] cols.drop_last()[i] == cols[i]);
        assert forall|i: int|
            0 <= i < cols.len() && has_col(keys, (alias, #[trigger] cols[i])) implies whole.contains(
            dotted(rep_view(keys, rt, index_of_col(keys, (alias, cols[i])))),
        ) by {
            let v = dotted(rep_view(keys, rt, index_of_col(keys, (alias, cols[i]))));
            if i < cols.len() - 1 {
                assert(cols.drop_last()[i] == cols[i]);
                assert(has_col(keys, (alias, cols.drop_last()[i])));
                assert(rest.contains(
                    dotted(
                        rep_view(keys, rt, index_of_col(keys, (alias, cols.drop_last()[i]))),
                    ),
                ));
                assert(rest.contains(v));
                let j = choose|j: int| 0 <= j < rest.len() && rest[j] == v;
                if has_col(keys, (alias, cols.last())) {
                    assert(whole[j] == v);
                } else {
                    assert(whole == rest);
                }
            } else {
                assert(cols.last() == cols[i]);
                assert(whole == rest.push(v));
                assert(whole[rest.len() as int] == v);
            }
        }
        assert forall|v: Seq<char>| whole.contains(v) implies exists|i: int|
            0 <= i < cols.len() && has_col(keys, (alias, #[trigger] cols[i])) && v == dotted(
                rep_view(keys, rt, index_of_col(keys, (alias, cols[i]))),
            ) by {
            let j = choose|j: int| 0 <= j < whole.len() && whole[j] == v;
            if has_col(keys, (alias, cols.last())) {
                assert(whole == rest.push(
                    dotted(rep_view(keys, rt, index_of_col(keys, (alias, cols.last())))),
                ));
                if j < rest.len() {
                    assert(rest.contains(v)) by {
                        assert(rest[j] == v);
                    }
                } else {
                    let i = cols.len() - 1;
                    assert(cols[i] == cols.last());
                    assert(v == dotted(rep_view(keys, rt, index_of_col(keys, (alias, cols[i])))));
                }
            } else {
                assert(whole == rest);
                assert(rest.contains(v)) by {
                    assert(rest[j] == v);
                }
            }
        }
    }
}

/// Joins the parts with the separator between consecutive parts.
pub fn join_with(parts: &Vec<String>, sep: &str) -> (s: String)
    ensures
        s@ == joined(parts@.map_values(|p: String| p@), sep@),
{
    let ghost pv = parts@.map_values(|p: String| p@);
    let mut s = String::new();
    let mut i: usize = 0;
    while i < parts.len()
        invariant
            i <= parts.len(),
            pv == parts@.map_values(|p: String| p@),
            s@ == joined(pv.take(i as int), sep@),
        decreases parts@.len() - i,
    {
        if i > 0 {
            s.append(sep);
        }
        s.append(parts[i].as_str());
        proof {
            assert(pv.take(i as int + 1).drop_last() =~= pv.take(i as int));
            assert(pv.take(i as int + 1).last() == pv[i as int]);
            if i == 0 {
                assert(s@ =~= joined(pv.take(1), sep@));
            }
        }
        i = i + 1;
    }
    proof {
        assert(pv.take(parts@.len() as int) =~= pv);
    }
    s
}

/// Builds the variable list of one relation's atom, scanning the schema
/// columns in order and keeping exactly those registered via some join
/// predicate, rendered as their class representative's dotted name.
pub fn relation_vars(eq: &Equivalences, alias: &String, cols: &Vec<String>) -> (vars: Vec<String>)
    requires
        eq.wf(),
    ensures
        vars@.map_values(|v: String| v@) == var_views(
            eq.keys(),
            eq.roots(),
            alias@,
            cols@.map_values(|c: String| c@),
        ),
{
    let ghost keys = eq.keys();
    let ghost rt = eq.roots();
    let ghost cv = cols@.map_values(|c: String| c@);
    let mut vars: Vec<String> = Vec::new();
    let mut i: usize = 0;
    while i < cols.len()
        invariant
            eq.wf(),
            i <= cols.len(),
            keys == eq.keys(),
            rt == eq.roots(),
            cv == cols@.map_values(|c: String| c@),
            vars@.map_values(|v: String| v@) == var_views(keys, rt, alias@, cv.take(i as int)),
        decreases cols@.len() - i,
    {
        let ghost vars0 = vars@.map_values(|v: String| v@);
        let cref = ColumnRef { table: alias.clone(), column: cols[i].clone() };
        let ghost key = (alias@, cv[i as int]);
        proof {
            assert(cref@ == key);
        }
        match eq.get(&cref) {
            Some(id) => {
                proof {
                    lemma_index_of_col(keys, key, id as int);
                }
                let rep = eq.representative(id);
                let mut var = rep.table;
                var.append(".");
                var.append(rep.column.as_str());
                proof {
                    reveal_strlit(".");
                    assert("."@ =~= seq!['.']);
                    assert(var@ =~= dotted(rep_view(keys, rt, id as int)));
                }
                vars.push(var);
            },
            None => {
            },
        }
        proof {
            assert(cv.take(i as int + 1).drop_last() =~= cv.take(i as int));
            assert(cv.take(i as int + 1).last() == cv[i as int]);
            assert(vars@.map_values(|v: String| v@) =~= var_views(
                keys,
                rt,
                alias@,
                cv.take(i as int + 1),
            ));
        }
        i = i + 1;
    }
    proof {
        assert(cv.take(cols@.len() as int) =~= cv);
    }
    vars
}

/// Renders one atom as `alias(var1,var2,...)`.
pub fn atom_string(alias: &String, vars: &Vec<String>) -> (s: String)
    ensures
        s@ == atom_text(alias@, vars@.map_values(|v: String| v@)),
{
    let mut s = alias.clone();
    s.append("(");
    let inner = join_with(vars, ",");
    s.append(inner.as_str());
    s.append(")");
    proof {
        reveal_strlit("(");
        reveal_strlit(")");
        reveal_strlit(",");
        assert("("@ =~= seq!['(']);
        assert(")"@ =~= seq![')']);
        assert(","@ =~= seq![',']);
        assert(s@ =~= atom_text(alias@, vars@.map_values(|v: String| v@)));
    }
    s
}

/// Projects every FROM entry, in source order, to its atom text; stops at
/// the first failing entry with its failure.
pub fn project_atoms(eq: &Equivalences, catalog: &Catalog, from: &Vec<FromItem>) -> (res: Result<
    Vec<String>,
    Error,
>)
    requires
        eq.wf(),
    ensures
        match res {
            Ok(v) => atoms_of(eq.keys(), eq.roots(), catalog@, from@) == Ok::<_, Error>(
                v@.map_values(|s: String| s@),
            ),
            Err(e) => atoms_of(eq.keys(), eq.roots(), catalog@, from@) == Err::<Seq<Seq<char>>, _>(
                e,
            ),
        },
{
    let ghost keys = eq.keys();
    let ghost rt = eq.roots();
    let mut atoms: Vec<String> = Vec::new();
    let mut i: usize = 0;
    proof {
        assert(from@.take(0) =~= Seq::<FromItem>::empty());
        assert(atoms@.map_values(|s: String| s@) =~= Seq::<Seq<char>>::empty());
    }
    while i < from.len()
        invariant
            eq.wf(),
            i <= from.len(),
            keys == eq.keys(),
            rt == eq.roots(),
            atoms_of(keys, rt, catalog@, from@.take(i as int)) == Ok::<_, Error>(
                atoms@.map_values(|s: String| s@),
            ),
        decreases from@.len() - i,
    {
        let ghost prefix = from@.take(i as int);
        proof {
            assert(from@.take(i as int + 1).drop_last() =~= from@.take(i as int));
            assert(from@.take(i as int + 1).last() == from@[i as int]);
        }
        let item = &from[i];
        match item {
            FromItem::Unsupported => {
                proof {
                    lemma_atoms_err_prefix(keys, rt, catalog@, from@, i as int + 1);
                }
                return Err(Error::UnsupportedRelation);
            },
            FromItem::Table { name, alias } => {
                match alias {
                    Option::None => {
                        proof {
                            lemma_atoms_err_prefix(keys, rt, catalog@, from@, i as int + 1);
                        }
                        return Err(Error::MissingAlias);
                    },
                    Option::Some(a) => {
                        match catalog.lookup(name) {
                            Option::None => {
                                proof {
                                    lemma_atoms_err_prefix(
                                        keys,
                                        rt,
                                        catalog@,
                                        from@,
                                        i as int + 1,
                                    );
                                }
                                return Err(Error::UnknownTable);
                            },
                            Option::Some(cols) => {
                                let vars = relation_vars(eq, a, cols);
                                let text = atom_string(a, &vars);
                                let ghost atoms0 = atoms@.map_values(|s: String| s@);
                                atoms.push(text);
                                proof {
                                    assert(atoms@.map_values(|s: String| s@) =~= atoms0.push(
                                        text@,
                                    ));
                                }
                            },
                        }
                    },
                }
            },
        }
        i = i + 1;
    }
    proof {
        assert(from@.take(from@.len() as int) =~= from@);
    }
    Ok(atoms)
}

} // verus!
