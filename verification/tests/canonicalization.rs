use join_canon::atoms::{Error, FromItem};
use join_canon::canon::{canonicalize, Canonical, Query};
use join_canon::catalog::Catalog;
use join_canon::equiv::build_classes;
use join_canon::expr::{get_joins, mk_join, rebuild_joins, BoolExpr, CmpOp, ColumnRef, Operand};
use join_canon::union_find::UnionFind;

fn cref(table: &str, column: &str) -> ColumnRef {
    ColumnRef { table: table.to_string(), column: column.to_string() }
}

fn col_eq(l: ColumnRef, r: ColumnRef) -> BoolExpr {
    BoolExpr::Cmp { op: CmpOp::Eq, left: Operand::Column(l), right: Operand::Column(r) }
}

fn and(l: BoolExpr, r: BoolExpr) -> BoolExpr {
    BoolExpr::And(Box::new(l), Box::new(r))
}

#[test]
fn union_find_basics() {
    let mut uf = UnionFind::default();
    assert_eq!(uf.size(), 0);
    let a = uf.make_set();
    let b = uf.make_set();
    let c = uf.make_set();
    assert_eq!((a, b, c), (0, 1, 2));
    assert_eq!(uf.size(), 3);
    assert_eq!(uf.find(0), 0);
    assert_eq!(uf.find(2), 2);
    let r = uf.union(0, 1);
    assert_eq!(r, 0);
    assert_eq!(uf.find(1), 0);
    assert_eq!(uf.find(2), 2);
}

#[test]
fn union_left_root_survives() {
    let mut uf = UnionFind::default();
    uf.make_set();
    uf.make_set();
    // the first argument's root survives, whatever its id
    let r = uf.union(1, 0);
    assert_eq!(r, 1);
    assert_eq!(uf.find(0), 1);
    assert_eq!(uf.find(1), 1);
}

#[test]
fn find_idempotent_after_compression() {
    let mut uf = UnionFind::default();
    for _ in 0..6 {
        uf.make_set();
    }
    uf.union(0, 1);
    let r2 = uf.find_mut(2);
    let r0 = uf.find_mut(0);
    uf.union(r2, r0);
    uf.union(uf.find(3), uf.find(4));
    // find(find(id)) == find(id) for every id, after path-halving compressions
    for id in 0..6 {
        let root = uf.find(id);
        assert_eq!(uf.find(root), root);
    }
    // compression never changes the partition
    let before: Vec<usize> = (0..6).map(|i| uf.find(i)).collect();
    for id in 0..6 {
        uf.find_mut(id);
    }
    let after: Vec<usize> = (0..6).map(|i| uf.find(i)).collect();
    assert_eq!(before, after);
}

#[test]
fn partition_follows_transitive_closure() {
    // a.x = b.y, b.y = c.z, d.w = e.v  ->  {a.x, b.y, c.z} and {d.w, e.v}
    let joins = vec![
        (cref("a", "x"), cref("b", "y")),
        (cref("b", "y"), cref("c", "z")),
        (cref("d", "w"), cref("e", "v")),
    ];
    let eq = build_classes(&joins);
    let ax = eq.get(&cref("a", "x")).unwrap();
    let by = eq.get(&cref("b", "y")).unwrap();
    let cz = eq.get(&cref("c", "z")).unwrap();
    let dw = eq.get(&cref("d", "w")).unwrap();
    let ev = eq.get(&cref("e", "v")).unwrap();
    assert_eq!(eq.find(ax), eq.find(by));
    assert_eq!(eq.find(ax), eq.find(cz));
    assert_eq!(eq.find(dw), eq.find(ev));
    assert_ne!(eq.find(ax), eq.find(dw));
    // a.x and c.z resolve to the same representative; a.x and d.w do not
    assert_eq!(eq.representative(ax), eq.representative(cz));
    assert_eq!(eq.representative(ax), cref("a", "x"));
    assert_ne!(eq.representative(ax), eq.representative(dw));
    assert_eq!(eq.representative(dw), cref("d", "w"));
}

#[test]
fn representative_is_lowest_insertion_index() {
    // unioning c.z's class into a.x's leaves the representative at the
    // lowest insertion index, whichever member became the union-find root
    let joins = vec![
        (cref("a", "x"), cref("b", "y")),
        (cref("c", "z"), cref("a", "x")),
    ];
    let eq = build_classes(&joins);
    let ax = eq.get(&cref("a", "x")).unwrap();
    let cz = eq.get(&cref("c", "z")).unwrap();
    // c.z's root survives the second union, but a.x was registered first
    assert_eq!(eq.find(ax), eq.find(cz));
    assert_eq!(eq.representative(cz), cref("a", "x"));
}

#[test]
fn representative_stable_under_predicate_permutation() {
    let order1 = vec![
        (cref("a", "x"), cref("b", "y")),
        (cref("a", "x"), cref("c", "z")),
    ];
    let order2 = vec![
        (cref("a", "x"), cref("c", "z")),
        (cref("a", "x"), cref("b", "y")),
    ];
    let eq1 = build_classes(&order1);
    let eq2 = build_classes(&order2);
    for col in [cref("a", "x"), cref("b", "y"), cref("c", "z")] {
        let id1 = eq1.get(&col).unwrap();
        let id2 = eq2.get(&col).unwrap();
        assert_eq!(eq1.representative(id1), eq2.representative(id2));
        assert_eq!(eq1.representative(id1), cref("a", "x"));
    }
}

#[test]
fn get_joins_splits_conjunctions_only() {
    // (a.x = b.y AND c.u > 5) AND (d.w = e.v OR f.s = g.t)
    let filter_gt = || BoolExpr::Cmp {
        op: CmpOp::Gt,
        left: Operand::Column(cref("c", "u")),
        right: Operand::Opaque(0),
    };
    let filter_or = || {
        BoolExpr::Or(
            Box::new(col_eq(cref("d", "w"), cref("e", "v"))),
            Box::new(col_eq(cref("f", "s"), cref("g", "t"))),
        )
    };
    let e = and(
        and(col_eq(cref("a", "x"), cref("b", "y")), filter_gt()),
        filter_or(),
    );
    let mut joins = Vec::new();
    let mut filters = Vec::new();
    get_joins(e, &mut joins, &mut filters);
    assert_eq!(joins, vec![(cref("a", "x"), cref("b", "y"))]);
    assert_eq!(filters, vec![filter_gt(), filter_or()]);
}

#[test]
fn rebuild_is_left_associated() {
    let j1 = (cref("a", "x"), cref("b", "y"));
    let j2 = (cref("b", "y"), cref("c", "z"));
    let j3 = (cref("d", "w"), cref("e", "v"));
    let rebuilt = rebuild_joins(vec![j1.clone(), j2.clone(), j3.clone()]).unwrap();
    let expected = and(and(mk_join(j1), mk_join(j2)), mk_join(j3));
    assert_eq!(rebuilt, expected);
}

#[test]
fn rebuild_of_empty_list_fails() {
    assert_eq!(rebuild_joins(Vec::new()), None);
}

#[test]
fn rebuild_single_predicate() {
    let p = (cref("t", "id"), cref("ci", "movie_id"));
    assert_eq!(rebuild_joins(vec![p.clone()]).unwrap(), mk_join(p));
}

fn movie_catalog() -> Catalog {
    let mut cat = Catalog::new();
    cat.add_table(
        "title".to_string(),
        vec![
            "id", "title", "imdb_index", "kind_id", "production_year", "imdb_id",
            "phonetic_code", "episode_of_id", "season_nr", "episode_nr", "series_years",
            "md5sum",
        ]
        .into_iter()
        .map(|s| s.to_string())
        .collect(),
    );
    cat.add_table(
        "cast_info".to_string(),
        vec![
            "id", "person_id", "movie_id", "person_role_id", "note", "nr_order", "role_id",
        ]
        .into_iter()
        .map(|s| s.to_string())
        .collect(),
    );
    cat
}

fn table(name: &str, alias: &str) -> FromItem {
    FromItem::Table { name: name.to_string(), alias: Some(alias.to_string()) }
}

#[test]
fn end_to_end_single_join() {
    // SELECT * FROM title AS t, cast_info AS ci WHERE t.id = ci.movie_id
    let cat = movie_catalog();
    let query = Query {
        from: vec![table("title", "t"), table("cast_info", "ci")],
        selection: Some(col_eq(cref("t", "id"), cref("ci", "movie_id"))),
    };
    let out: Canonical = canonicalize(&cat, query).unwrap();
    // both occurrences of the joined column render as the representative
    // t.id, since title is registered first
    assert_eq!(out.atom_line, "q = t(t.id) * ci(t.id)");
    assert_eq!(out.selection, col_eq(cref("t", "id"), cref("ci", "movie_id")));
    assert!(out.residual_filters.is_empty());
}

#[test]
fn atoms_omit_unjoined_columns() {
    let cat = movie_catalog();
    let query = Query {
        from: vec![table("cast_info", "ci"), table("title", "t")],
        selection: Some(and(
            col_eq(cref("ci", "movie_id"), cref("t", "id")),
            col_eq(cref("ci", "person_id"), cref("ci", "person_role_id")),
        )),
    };
    let out = canonicalize(&cat, query).unwrap();
    // cast_info columns in schema order: person_id, movie_id, person_role_id
    // joined; every other column is omitted, never fabricated
    assert_eq!(
        out.atom_line,
        "q = ci(ci.person_id,ci.movie_id,ci.person_id) * t(ci.movie_id)"
    );
}

#[test]
fn non_equi_filter_alone_is_no_joins_error() {
    let cat = movie_catalog();
    let query = Query {
        from: vec![table("title", "t")],
        selection: Some(BoolExpr::Cmp {
            op: CmpOp::Gt,
            left: Operand::Column(cref("t", "production_year")),
            right: Operand::Opaque(0),
        }),
    };
    assert_eq!(canonicalize(&cat, query).unwrap_err(), Error::NoJoins);
}

#[test]
fn missing_where_clause_is_no_joins_error() {
    let cat = movie_catalog();
    let query = Query { from: vec![table("title", "t")], selection: None };
    assert_eq!(canonicalize(&cat, query).unwrap_err(), Error::NoJoins);
}

#[test]
fn unsupported_from_entry_is_rejected() {
    let cat = movie_catalog();
    let query = Query {
        from: vec![table("title", "t"), FromItem::Unsupported],
        selection: Some(col_eq(cref("t", "id"), cref("t", "kind_id"))),
    };
    assert_eq!(canonicalize(&cat, query).unwrap_err(), Error::UnsupportedRelation);
}

#[test]
fn table_without_alias_is_rejected() {
    let cat = movie_catalog();
    let query = Query {
        from: vec![FromItem::Table { name: "title".to_string(), alias: None }],
        selection: Some(col_eq(cref("t", "id"), cref("t", "kind_id"))),
    };
    assert_eq!(canonicalize(&cat, query).unwrap_err(), Error::MissingAlias);
}

#[test]
fn unknown_table_is_rejected() {
    let cat = movie_catalog();
    let query = Query {
        from: vec![table("films", "f")],
        selection: Some(col_eq(cref("f", "id"), cref("f", "kind_id"))),
    };
    assert_eq!(canonicalize(&cat, query).unwrap_err(), Error::UnknownTable);
}

#[test]
fn from_errors_take_precedence_over_no_joins() {
    // the FROM list is checked before the join list is examined
    let cat = movie_catalog();
    let query = Query { from: vec![FromItem::Unsupported], selection: None };
    assert_eq!(canonicalize(&cat, query).unwrap_err(), Error::UnsupportedRelation);
}

#[test]
fn self_join_on_same_alias() {
    let cat = movie_catalog();
    let query = Query {
        from: vec![table("title", "t")],
        selection: Some(col_eq(cref("t", "episode_of_id"), cref("t", "id"))),
    };
    let out = canonicalize(&cat, query).unwrap();
    // id and episode_of_id share a class; the representative is
    // t.episode_of_id, the first column registered
    assert_eq!(
        out.atom_line,
        "q = t(t.episode_of_id,t.episode_of_id)"
    );
}
