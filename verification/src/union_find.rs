//! A minimal disjoint-set forest over dense integer ids.
//!
//! `parents[i] == i` marks a root. `union` is deliberately biased: the first
//! argument's root survives. `find_mut` performs path halving, which never
//! changes the logical partition.
//!
//! The logical partition is captured by a ghost map from each id to the root
//! of its class, together with a ghost depth that strictly decreases along
//! parent edges (which makes every parent chain terminate).

use vstd::prelude::*;

verus! {

pub struct UnionFind {
    parents: Vec<usize>,
    /// Logical root of each id's class.
    root: Ghost<Seq<int>>,
    /// Strictly decreases along parent edges; bounds the length of chains.
    depth: Ghost<Seq<int>>,
}

impl UnionFind {
    /// Number of ids created so far.
    pub closed spec fn len(&self) -> nat {
        self.parents@.len()
    }

    /// The root of the class that id `i` belongs to.
    pub closed spec fn root_of(&self, i: int) -> int {
        self.root@[i]
    }

    /// Two ids are in the same class iff their classes share a root.
    pub open spec fn same_class(&self, i: int, j: int) -> bool {
        self.root_of(i) == self.root_of(j)
    }

    pub closed spec fn wf(&self) -> bool {
        let p = self.parents@;
        let r = self.root@;
        let d = self.depth@;
        &&& r.len() == p.len()
        &&& d.len() == p.len()
        &&& forall|i: int| 0 <= i < p.len() ==> #[trigger] p[i] < p.len()
        &&& forall|i: int| 0 <= i < p.len() ==> 0 <= #[trigger] r[i] < p.len()
        &&& forall|i: int| 0 <= i < p.len() ==> #[trigger] d[i] >= 0
        &&& forall|i: int| 0 <= i < p.len() && #[trigger] p[i] == i ==> r[i] == i
        &&& forall|i: int|
            0 <= i < p.len() && #[trigger] p[i] != i ==> r[p[i] as int] == r[i] && d[p[i] as int]
                < d[i]
        &&& forall|i: int| 0 <= i < p.len() ==> p[#[trigger] r[i]] == r[i]
    }

    /// Appends a fresh singleton class whose id is the previous size.
    pub fn make_set(&mut self) -> (id: usize)
        requires
            old(self).wf(),
        ensures
            final(self).wf(),
            id == old(self).len(),
            final(self).len() == old(self).len() + 1,
            final(self).root_of(id as int) == id,
            forall|i: int|
                0 <= i < old(self).len() ==> final(self).root_of(i) == old(self).root_of(i),
    {
        let id = self.parents.len();
        self.parents.push(id);
        proof {
            self.root@ = self.root@.push(id as int);
            self.depth@ = self.depth@.push(0);
        }
        id
    }

    pub fn size(&self) -> (n: usize)
        ensures
            n == self.len(),
    {
        self.parents.len()
    }

    /// Follows parent pointers to the root, without mutation.
    pub fn find(&self, id: usize) -> (r: usize)
        requires
            self.wf(),
            id < self.len(),
        ensures
            r == self.root_of(id as int),
            r < self.len(),
            self.root_of(r as int) == r,
    {
        let mut current = id;
        while current != self.parents[current]
            invariant
                self.wf(),
                current < self.len(),
                self.root_of(current as int) == self.root_of(id as int),
            decreases self.depth@[current as int],
        {
            current = self.parents[current];
        }
        current
    }

    /// Same result as `find`, but halves paths along the way: each visited
    /// node's parent is advanced to its grandparent. The logical partition
    /// is unchanged.
    pub fn find_mut(&mut self, id: usize) -> (r: usize)
        requires
            old(self).wf(),
            id < old(self).len(),
        ensures
            final(self).wf(),
            final(self).len() == old(self).len(),
            forall|i: int| 0 <= i < old(self).len() ==> final(self).root_of(i) == old(
                self,
            ).root_of(i),
            r == old(self).root_of(id as int),
            r < old(self).len(),
            final(self).root_of(r as int) == r,
    {
        let mut current = id;
        while current != self.parents[current]
            invariant
                self.wf(),
                current < self.len(),
                self.len() == old(self).len(),
                self.root@ == old(self).root@,
                self.depth@ == old(self).depth@,
                self.root_of(current as int) == old(self).root_of(id as int),
            decreases self.depth@[current as int],
        {
            let parent = self.parents[current];
            let grandparent = self.parents[parent];
            self.parents[current] = grandparent;
            current = grandparent;
        }
        current
    }

    /// Given two roots, merges their classes; `root1` survives as the root.
    pub fn union(&mut self, root1: usize, root2: usize) -> (r: usize)
        requires
            old(self).wf(),
            root1 < old(self).len(),
            root2 < old(self).len(),
            old(self).root_of(root1 as int) == root1,
            old(self).root_of(root2 as int) == root2,
        ensures
            final(self).wf(),
            final(self).len() == old(self).len(),
            r == root1,
            forall|i: int|
                0 <= i < old(self).len() ==> final(self).root_of(i) == (if old(self).root_of(i)
                    == root2 {
                    root1 as int
                } else {
                    old(self).root_of(i)
                }),
    {
        let ghost oldr = self.root@;
        let ghost oldd = self.depth@;
        let ghost n = self.parents@.len() as int;
        self.parents[root2] = root1;
        proof {
            self.root@ = Seq::new(
                n as nat,
                |i: int| if oldr[i] == root2 { root1 as int } else { oldr[i] },
            );
            self.depth@ = Seq::new(
                n as nat,
                |i: int| if oldr[i] == root2 { oldd[i] + oldd[root1 as int] + 1 } else { oldd[i] },
            );
        }
        root1
    }

    /// Finding a root is idempotent: the root of a root is itself. This holds
    /// before and after any number of path-halving compressions, since
    /// `find_mut` never changes `root_of`.
    pub proof fn lemma_find_idempotent(&self, i: int)
        requires
            self.wf(),
            0 <= i < self.len(),
        ensures
            self.root_of(self.root_of(i)) == self.root_of(i),
    {
    }
}

impl Default for UnionFind {
    /// The empty forest.
    fn default() -> (uf: UnionFind)
        ensures
            uf.wf(),
            uf.len() == 0,
    {
        UnionFind { parents: Vec::new(), root: Ghost(Seq::empty()), depth: Ghost(Seq::empty()) }
    }
}

} // verus!
