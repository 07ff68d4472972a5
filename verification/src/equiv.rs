//! The equivalence builder: folds every extracted equi-join pair into the
//! column registry and the union-find forest, so that the resulting
//! partition mirrors the transitive closure of "appears in the same
//! equality". A spec-level mirror of the fold (`classes_after`) pins the
//! result exactly.

use vstd::prelude::*;
use crate::expr::ColumnRef;
use crate::registry::{ColKey, Registry, has_col, distinct_cols, index_of_col, lemma_index_of_col};
use crate::union_find::UnionFind;

verus! {

/// The registry contents after interning `k`: unchanged if present,
/// appended otherwise.
pub open spec fn intern_key(keys: Seq<ColKey>, k: ColKey) -> Seq<ColKey> {
    if has_col(keys, k) {
        keys
    } else {
        keys.push(k)
    }
}

/// The id `k` has after interning it into `keys`.
pub open spec fn id_of(keys: Seq<ColKey>, k: ColKey) -> int {
    if has_col(keys, k) {
        index_of_col(keys, k)
    } else {
        keys.len() as int
    }
}

/// The root assignment after interning `k`: a fresh key becomes a fresh
/// singleton root.
pub open spec fn intern_roots(keys: Seq<ColKey>, rt: Seq<int>, k: ColKey) -> Seq<int> {
    if has_col(keys, k) {
        rt
    } else {
        rt.push(keys.len() as int)
    }
}

/// The root assignment after merging `merge`'s class into `keep`'s.
pub open spec fn union_roots(rt: Seq<int>, keep: int, merge: int) -> Seq<int> {
    Seq::new(rt.len(), |i: int| if rt[i] == merge { keep } else { rt[i] })
}

/// One fold step: intern the left column, then the right one, then merge
/// their classes; the left column's root survives.
pub open spec fn step_classes(keys: Seq<ColKey>, rt: Seq<int>, l: ColKey, r: ColKey) -> (
    Seq<ColKey>,
    Seq<int>,
) {
    let il = id_of(keys, l);
    let keys1 = intern_key(keys, l);
    let rt1 = intern_roots(keys, rt, l);
    let ir = id_of(keys1, r);
    let keys2 = intern_key(keys1, r);
    let rt2 = intern_roots(keys1, rt1, r);
    (keys2, union_roots(rt2, rt2[il], rt2[ir]))
}

/// The registry contents and root assignment after folding every join
/// predicate, in extraction order.
pub open spec fn classes_after(js: Seq<(ColumnRef, ColumnRef)>) -> (Seq<ColKey>, Seq<int>)
    decreases js.len(),
{
    if js.len() == 0 {
        (Seq::<ColKey>::empty(), Seq::<int>::empty())
    } else {
        let prev = classes_after(js.drop_last());
        step_classes(prev.0, prev.1, js.last().0@, js.last().1@)
    }
}

/// `j` is the representative id of `id`'s class under the root assignment
/// `rt`: the lowest id in the class.
pub open spec fn is_rep_index(rt: Seq<int>, id: int, j: int) -> bool {
    &&& 0 <= j < rt.len()
    &&& rt[j] == rt[id]
    &&& forall|i: int| 0 <= i < j ==> rt[i] != rt[id]
}

/// The representative id of `id`'s class under the root assignment `rt`.
pub open spec fn rep_index(rt: Seq<int>, id: int) -> int {
    choose|j: int| is_rep_index(rt, id, j)
}

/// The representative column of `id`'s class: the class member with the
/// lowest insertion index.
pub open spec fn rep_view(keys: Seq<ColKey>, rt: Seq<int>, id: int) -> ColKey {
    keys[rep_index(rt, id)]
}

pub proof fn lemma_rep_index_unique(rt: Seq<int>, id: int, j1: int, j2: int)
    requires
        is_rep_index(rt, id, j1),
        is_rep_index(rt, id, j2),
    ensures
        j1 == j2,
{
    if j1 < j2 {
        assert(rt[j1] != rt[id]);
    } else if j2 < j1 {
        assert(rt[j2] != rt[id]);
    }
}

/// There is a representative id for every class of a root assignment.
pub proof fn lemma_rep_exists(rt: Seq<int>, id: int)
    requires
        0 <= id < rt.len(),
    ensures
        is_rep_index(rt, id, rep_index(rt, id)),
{
    lemma_rep_exists_from(rt, id, 0);
    let j = choose|j: int| is_rep_index(rt, id, j);
    assert(is_rep_index(rt, id, j));
}

proof fn lemma_rep_exists_from(rt: Seq<int>, id: int, j: int)
    requires
        0 <= id < rt.len(),
        0 <= j <= id,
        forall|i: int| 0 <= i < j ==> rt[i] != rt[id],
    ensures
        exists|k: int| is_rep_index(rt, id, k),
    decreases rt.len() - j,
{
    if rt[j] == rt[id] {
        assert(is_rep_index(rt, id, j));
    } else {
        assert(j < id);
        lemma_rep_exists_from(rt, id, j + 1);
    }
}

/// Representative stability, within one run: every member of a class has
/// the same representative, the class member with the lowest id.
pub proof fn lemma_rep_stable(rt: Seq<int>, i: int, j: int)
    requires
        0 <= i < rt.len(),
        0 <= j < rt.len(),
        rt[i] == rt[j],
    ensures
        rep_index(rt, i) == rep_index(rt, j),
{
    lemma_rep_exists(rt, i);
    lemma_rep_exists(rt, j);
    assert(is_rep_index(rt, i, rep_index(rt, j)));
    lemma_rep_index_unique(rt, i, rep_index(rt, i), rep_index(rt, j));
}

/// Representative stability, across runs: two root assignments that induce
/// the same partition - however the unions were ordered - give every id
/// the same representative.
pub proof fn lemma_rep_partition_only(rt1: Seq<int>, rt2: Seq<int>, id: int)
    requires
        rt1.len() == rt2.len(),
        0 <= id < rt1.len(),
        forall|x: int, y: int|
            0 <= x < rt1.len() && 0 <= y < rt1.len() ==> (rt1[x] == rt1[y] <==> rt2[x] == rt2[y]),
    ensures
        rep_index(rt1, id) == rep_index(rt2, id),
{
    lemma_rep_exists(rt1, id);
    lemma_rep_exists(rt2, id);
    assert(is_rep_index(rt1, id, rep_index(rt2, id)));
    lemma_rep_index_unique(rt1, id, rep_index(rt1, id), rep_index(rt2, id));
}

/// Two column keys are directly linked when some join predicate equates
/// them, in either orientation.
pub open spec fn linked(js: Seq<(ColumnRef, ColumnRef)>, a: ColKey, b: ColKey) -> bool {
    exists|k: int|
        0 <= k < js.len() && ((js[k].0@ == a && js[k].1@ == b) || (js[k].0@ == b && js[k].1@
            == a))
}

/// A chain of directly linked keys leading from `a` to `b`.
pub open spec fn is_chain(
    js: Seq<(ColumnRef, ColumnRef)>,
    path: Seq<ColKey>,
    a: ColKey,
    b: ColKey,
) -> bool {
    &&& path.len() >= 1
    &&& path[0] == a
    &&& path.last() == b
    &&& forall|i: int| 0 <= i < path.len() - 1 ==> linked(js, #[trigger] path[i], path[i + 1])
}

/// The reflexive-symmetric-transitive closure of the extracted equality
/// pairs.
pub open spec fn connected(js: Seq<(ColumnRef, ColumnRef)>, a: ColKey, b: ColKey) -> bool {
    exists|path: Seq<ColKey>| is_chain(js, path, a, b)
}

/// Basic shape facts about the fold: registry and root assignment have the
/// same length, keys are distinct, and every root is an id in range.
pub proof fn lemma_classes_wf(js: Seq<(ColumnRef, ColumnRef)>)
    ensures
        classes_after(js).0.len() == classes_after(js).1.len(),
        distinct_cols(classes_after(js).0),
        forall|i: int|
            0 <= i < classes_after(js).1.len() ==> 0 <= #[trigger] classes_after(js).1[i]
                < classes_after(js).1.len(),
    decreases js.len(),
{
    if js.len() > 0 {
        lemma_classes_wf(js.drop_last());
    }
}

/// Interning only appends: the registry after one more predicate extends
/// the registry before it.
pub proof fn lemma_classes_prefix(js: Seq<(ColumnRef, ColumnRef)>)
    requires
        js.len() > 0,
    ensures
        classes_after(js.drop_last()).0.len() <= classes_after(js).0.len(),
        forall|i: int|
            0 <= i < classes_after(js.drop_last()).0.len() ==> classes_after(js).0[i]
                == #[trigger] classes_after(js.drop_last()).0[i],
{
}

/// A key present in an extended, duplicate-free registry keeps its index.
pub proof fn lemma_index_extends(keys1: Seq<ColKey>, keys2: Seq<ColKey>, c: ColKey)
    requires
        keys1.len() <= keys2.len(),
        forall|i: int| 0 <= i < keys1.len() ==> keys2[i] == #[trigger] keys1[i],
        distinct_cols(keys2),
        has_col(keys1, c),
    ensures
        has_col(keys2, c),
        index_of_col(keys2, c) == index_of_col(keys1, c),
        index_of_col(keys1, c) < keys1.len(),
{
    let i = index_of_col(keys1, c);
    assert(0 <= i < keys1.len() && keys1[i] == c);
    assert(keys2[i] == c);
    lemma_index_of_col(keys2, c, i);
    assert(distinct_cols(keys1));
    lemma_index_of_col(keys1, c, i);
}

/// Every column of every join predicate is registered by the fold.
pub proof fn lemma_join_cols_registered(js: Seq<(ColumnRef, ColumnRef)>, k: int)
    requires
        0 <= k < js.len(),
    ensures
        has_col(classes_after(js).0, js[k].0@),
        has_col(classes_after(js).0, js[k].1@),
    decreases js.len(),
{
    let keys = classes_after(js).0;
    let prev = classes_after(js.drop_last());
    lemma_classes_wf(js);
    lemma_classes_prefix(js);
    if k < js.len() - 1 {
        lemma_join_cols_registered(js.drop_last(), k);
        lemma_index_extends(prev.0, keys, js[k].0@);
        lemma_index_extends(prev.0, keys, js[k].1@);
    } else {
        let l = js[k].0@;
        let r = js[k].1@;
        let keys1 = intern_key(prev.0, l);
        assert(keys1[id_of(prev.0, l)] == l) by {
            if has_col(prev.0, l) {
                lemma_classes_wf(js.drop_last());
            }
        }
        assert(has_col(keys1, l));
        assert(keys == intern_key(keys1, r));
        assert(has_col(keys, l)) by {
            assert(forall|i: int| 0 <= i < keys1.len() ==> keys[i] == #[trigger] keys1[i]);
            let i = choose|i: int| 0 <= i < keys1.len() && keys1[i] == l;
            assert(keys[i] == l);
        }
        assert(keys[id_of(keys1, r)] == r) by {
            if has_col(keys1, r) {
                lemma_classes_wf(js.drop_last());
                assert(distinct_cols(keys1)) by {
                    lemma_classes_wf(js);
                }
            }
        }
        assert(has_col(keys, r));
    }
}

/// The two columns of one join predicate get the same root.
pub proof fn lemma_pair_same_root(js: Seq<(ColumnRef, ColumnRef)>, k: int)
    requires
        0 <= k < js.len(),
    ensures
        has_col(classes_after(js).0, js[k].0@),
        has_col(classes_after(js).0, js[k].1@),
        classes_after(js).1[index_of_col(classes_after(js).0, js[k].0@)] == classes_after(
            js,
        ).1[index_of_col(classes_after(js).0, js[k].1@)],
    decreases js.len(),
{
    lemma_classes_wf(js);
    lemma_classes_wf(js.drop_last());
    lemma_join_cols_registered(js, k);
    let keys = classes_after(js).0;
    let rt = classes_after(js).1;
    let prev = classes_after(js.drop_last());
    let l = js.last().0@;
    let r = js.last().1@;
    let il = id_of(prev.0, l);
    let keys1 = intern_key(prev.0, l);
    let rt1 = intern_roots(prev.0, prev.1, l);
    let ir = id_of(keys1, r);
    let rt2 = intern_roots(keys1, rt1, r);
    assert(keys1[il] == l);
    assert(keys == intern_key(keys1, r));
    assert(forall|i: int| 0 <= i < keys1.len() ==> keys[i] == #[trigger] keys1[i]);
    assert(keys[ir] == r);
    assert(keys[il] == l);
    lemma_index_of_col(keys, l, il);
    lemma_index_of_col(keys, r, ir);
    assert(rt == union_roots(rt2, rt2[il], rt2[ir]));
    if k == js.len() - 1 {
        assert(rt[il] == rt2[il]);
        assert(rt[ir] == rt2[il]);
    } else {
        lemma_pair_same_root(js.drop_last(), k);
        lemma_classes_prefix(js);
        let c0 = js[k].0@;
        let c1 = js[k].1@;
        assert(js.drop_last()[k] == js[k]);
        lemma_index_extends(prev.0, keys, c0);
        lemma_index_extends(prev.0, keys, c1);
        let i0 = index_of_col(prev.0, c0);
        let i1 = index_of_col(prev.0, c1);
        assert(rt2[i0] == prev.1[i0]);
        assert(rt2[i1] == prev.1[i1]);
        assert(rt[i0] == rt[i1]);
    }
}

/// Connectivity is preserved when one more predicate is appended.
pub proof fn lemma_connected_monotone(js: Seq<(ColumnRef, ColumnRef)>, a: ColKey, b: ColKey)
    requires
        js.len() > 0,
        connected(js.drop_last(), a, b),
    ensures
        connected(js, a, b),
{
    let js0 = js.drop_last();
    let p = choose|p: Seq<ColKey>| is_chain(js0, p, a, b);
    assert(is_chain(js0, p, a, b));
    assert forall|i: int| 0 <= i < p.len() - 1 implies linked(js, #[trigger] p[i], p[i + 1]) by {
        assert(linked(js0, p[i], p[i + 1]));
        let pi = p[i];
        let pj = p[i + 1];
        let k = choose|k: int|
            0 <= k < js0.len() && ((js0[k].0@ == pi && js0[k].1@ == pj) || (js0[k].0@ == pj
                && js0[k].1@ == pi));
        assert(js[k] == js0[k]);
        assert(0 <= k < js.len() && ((js[k].0@ == pi && js[k].1@ == pj) || (js[k].0@ == pj
            && js[k].1@ == pi)));
    }
    assert(is_chain(js, p, a, b));
}

pub proof fn lemma_connected_refl(js: Seq<(ColumnRef, ColumnRef)>, a: ColKey)
    ensures
        connected(js, a, a),
{
    let p = seq![a];
    assert(is_chain(js, p, a, a));
}

pub proof fn lemma_connected_trans(
    js: Seq<(ColumnRef, ColumnRef)>,
    a: ColKey,
    m: ColKey,
    b: ColKey,
)
    requires
        connected(js, a, m),
        connected(js, m, b),
    ensures
        connected(js, a, b),
{
    let pa = choose|p: Seq<ColKey>| is_chain(js, p, a, m);
    let pb = choose|p: Seq<ColKey>| is_chain(js, p, m, b);
    assert(is_chain(js, pa, a, m));
    assert(is_chain(js, pb, m, b));
    if pb.len() == 1 {
        assert(is_chain(js, pa, a, b));
    } else {
        let p = pa + pb.drop_first();
        assert(p.len() == pa.len() + pb.len() - 1);
        assert(p[0] == pa[0]);
        assert(p.last() == pb.last());
        assert forall|i: int| 0 <= i < p.len() - 1 implies linked(js, #[trigger] p[i], p[i + 1]) by {
            if i < pa.len() - 1 {
                assert(p[i] == pa[i]);
                assert(p[i + 1] == pa[i + 1]);
                assert(linked(js, pa[i], pa[i + 1]));
            } else if i == pa.len() - 1 {
                assert(p[i] == pa[i]);
                assert(pa[i] == m);
                assert(p[i + 1] == pb.drop_first()[0]);
                assert(pb.drop_first()[0] == pb[1]);
                assert(linked(js, pb[0], pb[1]));
            } else {
                let j = i - pa.len() + 1;
                assert(p[i] == pb.drop_first()[i - pa.len()]);
                assert(pb.drop_first()[i - pa.len()] == pb[j]);
                assert(p[i + 1] == pb.drop_first()[i + 1 - pa.len()]);
                assert(pb.drop_first()[i + 1 - pa.len()] == pb[j + 1]);
                assert(linked(js, pb[j], pb[j + 1]));
            }
        }
        assert(is_chain(js, p, a, b));
    }
}

/// The endpoints of any chain of registered columns get the same root.
pub proof fn lemma_chain_same_root(
    js: Seq<(ColumnRef, ColumnRef)>,
    path: Seq<ColKey>,
    a: ColKey,
    b: ColKey,
)
    requires
        is_chain(js, path, a, b),
        has_col(classes_after(js).0, a),
    ensures
        has_col(classes_after(js).0, b),
        classes_after(js).1[index_of_col(classes_after(js).0, a)] == classes_after(
            js,
        ).1[index_of_col(classes_after(js).0, b)],
    decreases path.len(),
{
    if path.len() == 1 {
        assert(a == b);
    } else {
        let m = path[1];
        assert(linked(js, path[0], path[1]));
        let k = choose|k: int|
            0 <= k < js.len() && ((js[k].0@ == path[0] && js[k].1@ == path[1]) || (js[k].0@
                == path[1] && js[k].1@ == path[0]));
        lemma_pair_same_root(js, k);
        assert(has_col(classes_after(js).0, m));
        let tail = path.drop_first();
        assert(tail[0] == m);
        assert(tail.last() == path.last());
        assert forall|i: int| 0 <= i < tail.len() - 1 implies linked(
            js,
            #[trigger] tail[i],
            tail[i + 1],
        ) by {
            assert(tail[i] == path[i + 1]);
            assert(tail[i + 1] == path[i + 2]);
            assert(linked(js, path[i + 1], path[i + 2]));
        }
        assert(is_chain(js, tail, m, b));
        lemma_chain_same_root(js, tail, m, b);
    }
}

/// Connected registered columns get the same root.
pub proof fn lemma_connected_same_root(js: Seq<(ColumnRef, ColumnRef)>, a: int, b: int)
    requires
        0 <= a < classes_after(js).0.len(),
        0 <= b < classes_after(js).0.len(),
        connected(js, classes_after(js).0[a], classes_after(js).0[b]),
    ensures
        classes_after(js).1[a] == classes_after(js).1[b],
{
    lemma_classes_wf(js);
    let keys = classes_after(js).0;
    let path = choose|p: Seq<ColKey>| is_chain(js, p, keys[a], keys[b]);
    assert(is_chain(js, path, keys[a], keys[b]));
    assert(has_col(keys, keys[a]));
    lemma_chain_same_root(js, path, keys[a], keys[b]);
    lemma_index_of_col(keys, keys[a], a);
    lemma_index_of_col(keys, keys[b], b);
}

/// Columns with the same root are connected.
pub proof fn lemma_same_root_connected(js: Seq<(ColumnRef, ColumnRef)>, a: int, b: int)
    requires
        0 <= a < classes_after(js).0.len(),
        0 <= b < classes_after(js).0.len(),
        classes_after(js).1[a] == classes_after(js).1[b],
    ensures
        connected(js, classes_after(js).0[a], classes_after(js).0[b]),
    decreases js.len(),
{
    lemma_classes_wf(js);
    let keys = classes_after(js).0;
    let rt = classes_after(js).1;
    if a == b {
        lemma_connected_refl(js, keys[a]);
    } else {
        let js0 = js.drop_last();
        lemma_classes_wf(js0);
        let prev = classes_after(js0);
        let np = prev.0.len() as int;
        let l = js.last().0@;
        let r = js.last().1@;
        let il = id_of(prev.0, l);
        let keys1 = intern_key(prev.0, l);
        let rt1 = intern_roots(prev.0, prev.1, l);
        let ir = id_of(keys1, r);
        let rt2 = intern_roots(keys1, rt1, r);
        lemma_classes_prefix(js);
        assert(keys1[il] == l);
        assert(keys == intern_key(keys1, r));
        assert(forall|i: int| 0 <= i < keys1.len() ==> keys[i] == #[trigger] keys1[i]);
        assert(keys[ir] == r);
        assert(keys[il] == l);
        assert(rt == union_roots(rt2, rt2[il], rt2[ir]));
        // rt2 at old ids is the previous root; at fresh ids it is the id itself,
        // which is out of the previous root range.
        assert(forall|i: int| 0 <= i < np ==> rt2[i] == #[trigger] prev.1[i]);
        assert(forall|i: int| np <= i < rt2.len() ==> #[trigger] rt2[i] == i);
        assert(forall|i: int| 0 <= i < np ==> 0 <= #[trigger] prev.1[i] < np);
        let rl = rt2[il];
        let rr = rt2[ir];
        if rt2[a] == rt2[b] {
            if a < np && b < np {
                lemma_same_root_connected(js0, a, b);
                lemma_connected_monotone(js, keys[a], keys[b]);
            } else {
                // a fresh id's root is its own id, which no other id shares.
                assert(a == b);
            }
        } else {
            // the union merged the two roots: each endpoint is in the left or
            // the right column's class.
            assert((rt2[a] == rr && rt2[b] == rl) || (rt2[a] == rl && rt2[b] == rr));
            // connect any id to the column whose class it shares
            assert forall|x: int, t: int|
                #![trigger keys[x], keys[t]]
                0 <= x < keys.len() && 0 <= t < keys.len() && rt2[x] == rt2[t] implies connected(
                js,
                keys[x],
                keys[t],
            ) by {
                if x == t {
                    lemma_connected_refl(js, keys[x]);
                } else {
                    assert(x < np && t < np);
                    lemma_same_root_connected(js0, x, t);
                    lemma_connected_monotone(js, keys[x], keys[t]);
                }
            }
            // the last predicate links its two columns in either direction
            assert(linked(js, r, l)) by {
                let k = js.len() - 1;
                assert(js[k].0@ == l && js[k].1@ == r);
            }
            assert(linked(js, l, r)) by {
                let k = js.len() - 1;
                assert(js[k].0@ == l && js[k].1@ == r);
            }
            if rt2[a] == rr && rt2[b] == rl {
                assert(connected(js, keys[a], keys[ir]));
                assert(is_chain(js, seq![r, l], r, l));
                assert(connected(js, r, l));
                assert(connected(js, keys[il], keys[b]));
                lemma_connected_trans(js, keys[a], keys[ir], l);
                lemma_connected_trans(js, keys[a], l, keys[b]);
            } else {
                assert(connected(js, keys[a], keys[il]));
                assert(is_chain(js, seq![l, r], l, r));
                assert(connected(js, l, r));
                assert(connected(js, keys[ir], keys[b]));
                lemma_connected_trans(js, keys[a], keys[il], r);
                lemma_connected_trans(js, keys[a], r, keys[b]);
            }
        }
    }
}

/// Partition correctness: two registered columns fall in the same
/// equivalence class iff they are connected by the
/// reflexive-symmetric-transitive closure of the extracted equality pairs.
pub proof fn lemma_partition_correct(js: Seq<(ColumnRef, ColumnRef)>, a: int, b: int)
    requires
        0 <= a < classes_after(js).0.len(),
        0 <= b < classes_after(js).0.len(),
    ensures
        classes_after(js).1[a] == classes_after(js).1[b] <==> connected(
            js,
            classes_after(js).0[a],
            classes_after(js).0[b],
        ),
{
    if classes_after(js).1[a] == classes_after(js).1[b] {
        lemma_same_root_connected(js, a, b);
    }
    if connected(js, classes_after(js).0[a], classes_after(js).0[b]) {
        lemma_connected_same_root(js, a, b);
    }
}

/// A column registry and a union-find forest grown in lock-step: one forest
/// slot per registered column.
pub struct Equivalences {
    reg: Registry,
    uf: UnionFind,
}

impl Equivalences {
    /// The registered column keys, in insertion (= id) order.
    pub closed spec fn keys(&self) -> Seq<ColKey> {
        self.reg@
    }

    pub open spec fn len(&self) -> nat {
        self.keys().len()
    }

    /// The root of the class of id `i`.
    pub closed spec fn root_of(&self, i: int) -> int {
        self.uf.root_of(i)
    }

    /// The root of every id, as one sequence.
    pub open spec fn roots(&self) -> Seq<int> {
        Seq::new(self.len(), |i: int| self.root_of(i))
    }

    /// Two ids are equivalent iff their classes share a root.
    pub open spec fn same_class(&self, i: int, j: int) -> bool {
        self.root_of(i) == self.root_of(j)
    }

    pub closed spec fn wf_inner(&self) -> bool {
        &&& self.reg.wf()
        &&& self.uf.wf()
        &&& self.uf.len() == self.reg@.len()
    }

    pub open spec fn wf(&self) -> bool {
        &&& distinct_cols(self.keys())
        &&& self.wf_inner()
    }

    pub fn len_exec(&self) -> (n: usize)
        ensures
            n == self.len(),
    {
        self.reg.len()
    }

    /// The id of `c`, if `c` participates in some join predicate.
    pub fn get(&self, c: &ColumnRef) -> (r: Option<usize>)
        ensures
            r is Some <==> has_col(self.keys(), c@),
            match r {
                Some(i) => i < self.len() && self.keys()[i as int] == c@,
                None => !has_col(self.keys(), c@),
            },
    {
        self.reg.get(c)
    }

    /// The root id of `id`'s class.
    pub fn find(&self, id: usize) -> (r: usize)
        requires
            self.wf(),
            id < self.len(),
        ensures
            r == self.root_of(id as int),
            r < self.len(),
            self.root_of(r as int) == r,
    {
        self.uf.find(id)
    }

    /// The canonical representative of `id`'s class: the registered column
    /// with the lowest insertion index among the class members. It is found
    /// by scanning the registry in insertion order for the first id whose
    /// root equals the class root, so it does not depend on which class
    /// member happens to be the union-find root.
    pub fn representative(&self, id: usize) -> (c: ColumnRef)
        requires
            self.wf(),
            id < self.len(),
        ensures
            is_rep_index(self.roots(), id as int, rep_index(self.roots(), id as int)),
            c@ == rep_view(self.keys(), self.roots(), id as int),
    {
        let root = self.uf.find(id);
        let mut j: usize = 0;
        loop
            invariant
                self.wf(),
                id < self.len(),
                j <= id,
                root == self.root_of(id as int),
                forall|i: int| 0 <= i < j ==> !self.same_class(i, id as int),
            decreases id - j,
        {
            if self.uf.find(j) == root {
                proof {
                    let ghost gid = id as int;
                    assert forall|i: int| 0 <= i < j implies self.roots()[i] != self.roots()[gid] by {
                        assert(self.roots()[i] == self.root_of(i));
                        assert(!self.same_class(i, id as int));
                    }
                    assert(self.roots()[j as int] == self.root_of(j as int));
                    assert(is_rep_index(self.roots(), id as int, j as int));
                    lemma_rep_index_unique(
                        self.roots(),
                        id as int,
                        j as int,
                        rep_index(self.roots(), id as int),
                    );
                }
                return self.reg.col_at(j);
            }
            proof {
                assert(j != id);
            }
            j = j + 1;
        }
    }
}

/// Partition correctness, stated on a built equivalence structure (the
/// result of `build_classes`): two registered columns are in the same
/// class iff the join predicates connect them transitively.
pub proof fn lemma_built_partition(
    eq: Equivalences,
    joins: Seq<(ColumnRef, ColumnRef)>,
    a: int,
    b: int,
)
    requires
        eq.keys() == classes_after(joins).0,
        eq.roots() == classes_after(joins).1,
        0 <= a < eq.len(),
        0 <= b < eq.len(),
    ensures
        eq.same_class(a, b) <==> connected(joins, eq.keys()[a], eq.keys()[b]),
{
    lemma_partition_correct(joins, a, b);
    assert(eq.roots()[a] == eq.root_of(a));
    assert(eq.roots()[b] == eq.root_of(b));
}

/// Folds every join predicate, in extraction order, into a fresh registry
/// and union-find pair: intern both columns (growing the forest in
/// lock-step), find both roots, and union them, the left root surviving.
pub fn build_classes(joins: &Vec<(ColumnRef, ColumnRef)>) -> (eq: Equivalences)
    ensures
        eq.wf(),
        eq.keys() == classes_after(joins@).0,
        eq.roots() == classes_after(joins@).1,
{
    let ghost js = joins@;
    let mut reg = Registry::new();
    let mut uf = UnionFind::default();
    let mut k: usize = 0;
    while k < joins.len()
        invariant
            k <= js.len(),
            js == joins@,
            reg.wf(),
            uf.wf(),
            uf.len() == reg@.len(),
            reg@ == classes_after(js.take(k as int)).0,
            uf.len() == classes_after(js.take(k as int)).1.len(),
            forall|i: int|
                0 <= i < uf.len() ==> uf.root_of(i) == classes_after(js.take(k as int)).1[i],
        decreases js.len() - k,
    {
        let ghost keys0 = reg@;
        let ghost rt0 = classes_after(js.take(k as int)).1;
        let pair = &joins[k];
        let ghost lv = pair.0@;
        let ghost rv = pair.1@;

        let l_id = reg.intern(&pair.0);
        if uf.size() < reg.len() {
            uf.make_set();
        }
        proof {
            if has_col(keys0, lv) {
                crate::registry::lemma_index_of_col(keys0, lv, l_id as int);
            }
            assert(reg@ == intern_key(keys0, lv));
            assert(l_id as int == id_of(keys0, lv));
            assert(uf.len() == reg@.len());
            assert(forall|i: int|
                0 <= i < uf.len() ==> uf.root_of(i) == intern_roots(keys0, rt0, lv)[i]);
        }
        let ghost keys1 = reg@;
        let ghost rt1 = intern_roots(keys0, rt0, lv);

        let r_id = reg.intern(&pair.1);
        if uf.size() < reg.len() {
            uf.make_set();
        }
        proof {
            if has_col(keys1, rv) {
                crate::registry::lemma_index_of_col(keys1, rv, r_id as int);
            }
            assert(reg@ == intern_key(keys1, rv));
            assert(r_id as int == id_of(keys1, rv));
            assert(uf.len() == reg@.len());
            assert(forall|i: int|
                0 <= i < uf.len() ==> uf.root_of(i) == intern_roots(keys1, rt1, rv)[i]);
        }
        let ghost rt2 = intern_roots(keys1, rt1, rv);

        let ll = uf.find_mut(l_id);
        let lr = uf.find_mut(r_id);
        uf.union(ll, lr);
        proof {
            assert(ll as int == rt2[l_id as int]);
            assert(lr as int == rt2[r_id as int]);
            assert(js.take(k as int + 1).drop_last() =~= js.take(k as int));
            assert(js.take(k as int + 1).last() == js[k as int]);
            assert(reg@ == classes_after(js.take(k as int + 1)).0);
            assert(forall|i: int|
                0 <= i < uf.len() ==> uf.root_of(i) == union_roots(rt2, ll as int, lr as int)[i]);
            assert(forall|i: int|
                0 <= i < uf.len() ==> uf.root_of(i) == classes_after(js.take(k as int + 1)).1[i]);
        }
        k = k + 1;
    }
    proof {
        assert(js.take(js.len() as int) =~= js);
    }
    let eq = Equivalences { reg, uf };
    proof {
        assert(eq.roots() =~= classes_after(js).1);
    }
    eq
}

} // verus!
