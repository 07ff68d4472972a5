//! The column registry: an append-only, insertion-ordered bijection from
//! column references to dense integer ids. Backed by `indexmap::IndexSet`,
//! whose insertion-order guarantees the contracts below state; the id of a
//! column is its insertion index.

use vstd::prelude::*;
use crate::expr::ColumnRef;

verus! {

/// A column key as the contracts speak of it: the views of the two
/// components of a `ColumnRef`.
pub type ColKey = (Seq<char>, Seq<char>);

#[verifier::external_type_specification]
#[verifier::external_body]
#[verifier::reject_recursive_types(T)]
#[verifier::reject_recursive_types(S)]
pub struct ExIndexSet<T, S>(indexmap::IndexSet<T, S>);

/// The stored values of an `indexmap::IndexSet` of column references, in
/// insertion order.
pub uninterp spec fn registered_cols(s: indexmap::IndexSet<ColumnRef>) -> Seq<ColKey>;

/// Whether `k` occurs among `keys`.
pub open spec fn has_col(keys: Seq<ColKey>, k: ColKey) -> bool {
    exists|i: int| 0 <= i < keys.len() && keys[i] == k
}

/// No key occurs twice.
pub open spec fn distinct_cols(keys: Seq<ColKey>) -> bool {
    forall|i: int, j: int| 0 <= i < j < keys.len() ==> keys[i] != keys[j]
}

/// The index at which `k` occurs among `keys`; meaningful only when `k`
/// occurs and `keys` are distinct.
pub open spec fn index_of_col(keys: Seq<ColKey>, k: ColKey) -> int {
    choose|i: int| 0 <= i < keys.len() && keys[i] == k
}

/// Among distinct keys, the index of an occurring key is the index of its
/// one occurrence.
pub proof fn lemma_index_of_col(keys: Seq<ColKey>, k: ColKey, i: int)
    requires
        distinct_cols(keys),
        0 <= i < keys.len(),
        keys[i] == k,
    ensures
        has_col(keys, k),
        index_of_col(keys, k) == i,
{
    assert(has_col(keys, k));
    let j = index_of_col(keys, k);
    assert(0 <= j < keys.len() && keys[j] == k);
    if i < j {
        assert(keys[i] != keys[j]);
    } else if j < i {
        assert(keys[j] != keys[i]);
    }
}

/// Relies on indexmap::IndexSet::new: the new set is empty.
#[verifier::external_body]
fn set_new() -> (s: indexmap::IndexSet<ColumnRef>)
    ensures
        registered_cols(s) == Seq::<ColKey>::empty(),
{
    indexmap::IndexSet::new()
}

/// Relies on indexmap::IndexSet::len: the number of stored values.
#[verifier::external_body]
fn set_len(s: &indexmap::IndexSet<ColumnRef>) -> (n: usize)
    ensures
        n == registered_cols(*s).len(),
{
    s.len()
}

/// Relies on indexmap::IndexSet::insert_full: an equivalent value keeps its
/// place and index and the set is unchanged; a new value is appended last,
/// with the next index. Equivalence of `ColumnRef`s is field equality, which
/// is equality of the views.
#[verifier::external_body]
fn set_insert_full(s: &mut indexmap::IndexSet<ColumnRef>, c: &ColumnRef) -> (r: usize)
    ensures
        has_col(registered_cols(*old(s)), c@) ==> {
            &&& registered_cols(*final(s)) == registered_cols(*old(s))
            &&& r < registered_cols(*old(s)).len()
            &&& registered_cols(*old(s))[r as int] == c@
        },
        !has_col(registered_cols(*old(s)), c@) ==> {
            &&& registered_cols(*final(s)) == registered_cols(*old(s)).push(c@)
            &&& r == registered_cols(*old(s)).len()
        },
        distinct_cols(registered_cols(*old(s))) ==> distinct_cols(registered_cols(*final(s))),
{
    s.insert_full(c.clone()).0
}

/// Relies on indexmap::IndexSet::get_index_of: the index of the equivalent
/// stored value, or `None` when no equivalent value is stored.
#[verifier::external_body]
fn set_index_of(s: &indexmap::IndexSet<ColumnRef>, c: &ColumnRef) -> (r: Option<usize>)
    ensures
        r is Some <==> has_col(registered_cols(*s), c@),
        match r {
            Some(i) => i < registered_cols(*s).len() && registered_cols(*s)[i as int] == c@,
            None => !has_col(registered_cols(*s), c@),
        },
{
    s.get_index_of(c)
}

/// Relies on indexmap::IndexSet::get_index: the value stored at a valid
/// index (valid indices are exactly those below the length).
#[verifier::external_body]
fn set_at(s: &indexmap::IndexSet<ColumnRef>, i: usize) -> (c: ColumnRef)
    requires
        i < registered_cols(*s).len(),
    ensures
        c@ == registered_cols(*s)[i as int],
{
    s.get_index(i).unwrap().clone()
}

/// The registry proper. Ids are insertion indices; entries are never
/// removed, so ids are stable.
pub struct Registry {
    cols: indexmap::IndexSet<ColumnRef>,
}

impl View for Registry {
    type V = Seq<ColKey>;

    closed spec fn view(&self) -> Seq<ColKey> {
        registered_cols(self.cols)
    }
}

impl Registry {
    /// The registry never holds the same column twice.
    pub open spec fn wf(&self) -> bool {
        distinct_cols(self@)
    }

    pub fn new() -> (r: Registry)
        ensures
            r.wf(),
            r@ == Seq::<ColKey>::empty(),
    {
        Registry { cols: set_new() }
    }

    pub fn len(&self) -> (n: usize)
        ensures
            n == self@.len(),
    {
        set_len(&self.cols)
    }

    /// Returns the id of `c`, registering it with the next id if it is new.
    pub fn intern(&mut self, c: &ColumnRef) -> (id: usize)
        requires
            old(self).wf(),
        ensures
            final(self).wf(),
            has_col(old(self)@, c@) ==> {
                &&& final(self)@ == old(self)@
                &&& id < old(self)@.len()
                &&& old(self)@[id as int] == c@
            },
            !has_col(old(self)@, c@) ==> {
                &&& final(self)@ == old(self)@.push(c@)
                &&& id == old(self)@.len()
            },
    {
        set_insert_full(&mut self.cols, c)
    }

    /// The id of `c`, if `c` was ever registered.
    pub fn get(&self, c: &ColumnRef) -> (r: Option<usize>)
        ensures
            r is Some <==> has_col(self@, c@),
            match r {
                Some(i) => i < self@.len() && self@[i as int] == c@,
                None => !has_col(self@, c@),
            },
    {
        set_index_of(&self.cols, c)
    }

    /// The column registered under id `i`.
    pub fn col_at(&self, i: usize) -> (c: ColumnRef)
        requires
            i < self@.len(),
        ensures
            c@ == self@[i as int],
    {
        set_at(&self.cols, i)
    }
}

} // verus!
