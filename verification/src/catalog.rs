//! The schema catalog: a fixed mapping from table name to ordered column
//! list, supplied once at process start and read-only afterwards.

use vstd::prelude::*;

verus! {

/// One catalog entry as the contracts speak of it: the table name and its
/// ordered column names, as character sequences.
pub type TableView = (Seq<char>, Seq<Seq<char>>);

pub struct Catalog {
    tables: Vec<(String, Vec<String>)>,
}

/// The view of one stored table entry.
pub open spec fn table_view(t: (String, Vec<String>)) -> TableView {
    (t.0@, t.1@.map_values(|c: String| c@))
}

impl View for Catalog {
    type V = Seq<TableView>;

    closed spec fn view(&self) -> Seq<TableView> {
        self.tables@.map_values(|t: (String, Vec<String>)| table_view(t))
    }
}

/// The first entry named `name` at or after position `i`, if any.
pub open spec fn lookup_from(cat: Seq<TableView>, name: Seq<char>, i: int) -> Option<
    Seq<Seq<char>>,
>
    decreases cat.len() - i,
{
    if i < 0 || i >= cat.len() {
        None
    } else if cat[i].0 == name {
        Some(cat[i].1)
    } else {
        lookup_from(cat, name, i + 1)
    }
}

/// The column list of the first entry named `name`, if the catalog has one.
pub open spec fn spec_lookup(cat: Seq<TableView>, name: Seq<char>) -> Option<Seq<Seq<char>>> {
    lookup_from(cat, name, 0)
}

impl Catalog {
    pub fn new() -> (c: Catalog)
        ensures
            c@ == Seq::<TableView>::empty(),
    {
        let c = Catalog { tables: Vec::new() };
        proof {
            assert(c@ =~= Seq::<TableView>::empty());
        }
        c
    }

    /// Appends one table definition.
    pub fn add_table(&mut self, name: String, columns: Vec<String>)
        ensures
            final(self)@ == old(self)@.push((name@, columns@.map_values(|c: String| c@))),
    {
        let ghost nv = name@;
        let ghost cv = columns@.map_values(|c: String| c@);
        let ghost before = self@;
        self.tables.push((name, columns));
        proof {
            assert(self@ =~= before.push((nv, cv)));
        }
    }

    /// Resolves a table name to its ordered column list: the first entry
    /// with that exact name, or `None` if the name is absent.
    pub fn lookup(&self, name: &String) -> (r: Option<&Vec<String>>)
        ensures
            match r {
                Some(cols) => spec_lookup(self@, name@) == Some(
                    cols@.map_values(|c: String| c@),
                ),
                None => spec_lookup(self@, name@) is None,
            },
    {
        let mut i: usize = 0;
        while i < self.tables.len()
            invariant
                i <= self.tables.len(),
                spec_lookup(self@, name@) == lookup_from(self@, name@, i as int),
            decreases self.tables@.len() - i,
        {
            let entry = &self.tables[i];
            if entry.0 == *name {
                proof {
                    assert(self@[i as int] == table_view(self.tables@[i as int]));
                }
                return Some(&entry.1);
            }
            i = i + 1;
        }
        None
    }
}

} // verus!
