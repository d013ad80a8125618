//! Paths that address a node by the child index taken at each level.
use vstd::prelude::*;

verus! {

/// An address of a node: the child index taken at each level, from the root down.
#[derive(Debug)]
pub struct TreePath {
    pub path: Vec<usize>,
}

impl View for TreePath {
    type V = Seq<usize>;

    open spec fn view(&self) -> Seq<usize> {
        self.path@
    }
}

impl TreePath {
    /// A path from the given indices.
    pub fn new(path: Vec<usize>) -> (r: Self)
        ensures
            r@ == path@,
    {
        TreePath { path }
    }

    /// The path of the root.
    pub fn root() -> (r: Self)
        ensures
            r@ == Seq::<usize>::empty(),
    {
        TreePath { path: Vec::new() }
    }

    /// Whether this path addresses the root.
    pub fn is_empty(&self) -> (r: bool)
        ensures
            r == (self@.len() == 0),
    {
        self.path.len() == 0
    }

    /// Removes and returns the first index.
    pub fn remove_first(&mut self) -> (r: usize)
        requires
            old(self)@.len() > 0,
        ensures
            r == old(self)@[0],
            final(self)@ == old(self)@.drop_first(),
    {
        self.path.remove(0)
    }

    /// The path of the child at `idx` under the node addressed by this path.
    pub fn traverse(&self, idx: usize) -> (r: Self)
        ensures
            r@ == self@.push(idx),
    {
        let mut path = self.path.clone();
        path.push(idx);
        TreePath { path }
    }

    /// The path of the parent; the root stays the root.
    pub fn backtrack(&self) -> (r: Self)
        ensures
            self@.len() > 0 ==> r@ == self@.drop_last(),
            self@.len() == 0 ==> r@.len() == 0,
    {
        let mut path = self.path.clone();
        if path.len() > 0 {
            path.pop();
        }
        TreePath { path }
    }
}

impl PartialEq for TreePath {
    fn eq(&self, other: &TreePath) -> (r: bool) {
        if self.path.len() != other.path.len() {
            return false;
        }
        let mut i: usize = 0;
        while i < self.path.len()
            invariant
                i <= self.path.len(),
                self.path.len() == other.path.len(),
                forall|j: int| 0 <= j < i ==> self@[j] == other@[j],
            decreases self.path.len() - i,
        {
            if self.path[i] != other.path[i] {
                return false;
            }
            i = i + 1;
        }
        assert(self@ =~= other@);
        true
    }
}

impl vstd::std_specs::cmp::PartialEqSpecImpl for TreePath {
    open spec fn obeys_eq_spec() -> bool {
        true
    }

    open spec fn eq_spec(&self, other: &TreePath) -> bool {
        self@ == other@
    }
}

impl TreePath {
    /// A copy of this path.
    pub fn duplicate(&self) -> (r: Self)
        ensures
            r@ == self@,
    {
        TreePath { path: self.path.clone() }
    }
}

} // verus!
