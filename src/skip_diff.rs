//! The skip-diff overlay: flags, shaped like a tree, that let diffing pass over
//! subtrees known not to change.
use vstd::prelude::*;
use crate::tree_path::TreePath;

verus! {

/// What a skip-diff overlay means: a flag per node, shaped like the tree it covers.
pub struct SkipModel {
    pub shall: bool,
    pub children: Seq<SkipModel>,
}

impl SkipModel {
    /// An overlay node with no flag set and no children.
    pub open spec fn blank() -> SkipModel {
        SkipModel { shall: false, children: Seq::empty() }
    }

    /// This node and every node below it are flagged.
    pub open spec fn skippable_recursive(self) -> bool
        decreases self, 1nat,
    {
        self.shall && self.children_skippable()
    }

    /// Every child is skippable all the way down.
    pub open spec fn children_skippable(self) -> bool
        decreases self, 0nat,
    {
        forall|i: int| 0 <= i < self.children.len() ==> (#[trigger] self.children[i]).skippable_recursive()
    }

    /// Diffing stops at this node: it is flagged and has no children.
    pub open spec fn shall_skip_node(self) -> bool {
        self.shall && self.children.len() == 0
    }

    /// The overlay node reached by following `path`, if the overlay has one there.
    pub open spec fn at_path(self, path: Seq<usize>) -> Option<SkipModel>
        decreases path.len(),
    {
        if path.len() == 0 {
            Some(self)
        } else if path[0] < self.children.len() {
            self.children[path[0] as int].at_path(path.drop_first())
        } else {
            None
        }
    }

    /// The overlay with every fully skippable list of children dropped.
    pub open spec fn collapsed(self) -> SkipModel
        decreases self,
    {
        SkipModel {
            shall: self.shall,
            children: if self.children_skippable() {
                Seq::empty()
            } else {
                Seq::new(
                    self.children.len(),
                    |i: int|
                        if 0 <= i < self.children.len() {
                            self.children[i].collapsed()
                        } else {
                            SkipModel::blank()
                        },
                )
            },
        }
    }
}

/// A skip-diff overlay: where `shall` holds, diffing may skip this node.
#[derive(Debug)]
pub struct SkipDiff {
    /// Whether to skip this node.
    pub shall: bool,
    /// The overlay of each child, in order.
    pub children: Vec<SkipDiff>,
}

impl View for SkipDiff {
    type V = SkipModel;

    open spec fn view(&self) -> SkipModel
        decreases self,
    {
        SkipModel {
            shall: self.shall,
            children: Seq::new(
                self.children.len() as nat,
                |i: int|
                    if 0 <= i < self.children.len() {
                        self.children[i]@
                    } else {
                        SkipModel::blank()
                    },
            ),
        }
    }
}

impl SkipDiff {
    /// The view of the overlay holds the view of each child.
    pub proof fn lemma_child_view(&self, i: int)
        requires
            0 <= i < self.children.len(),
        ensures
            self@.children.len() == self.children.len(),
            self@.children[i] == self.children[i]@,
    {
    }

    /// An overlay node with the given flag and children.
    pub fn new(shall: bool, children: Vec<SkipDiff>) -> (r: Self)
        ensures
            r.shall == shall,
            r.children@ == children@,
    {
        SkipDiff { shall, children }
    }

    /// An overlay node that is never skipped and covers no children.
    pub fn block() -> (r: Self)
        ensures
            r@ == SkipModel::blank(),
    {
        let r = SkipDiff { shall: false, children: Vec::new() };
        assert(r@.children =~= Seq::<SkipModel>::empty());
        r
    }

    /// The overlay node at `path`, or `None` where the path leaves the overlay.
    pub fn in_path(&self, path: &TreePath) -> (r: Option<&Self>)
        ensures
            match r {
                Some(x) => self@.at_path(path@) == Some(x@),
                None => self@.at_path(path@) is None,
            },
    {
        let mut cur: &SkipDiff = self;
        let mut k: usize = 0;
        let n = path.path.len();
        assert(path@.subrange(0, n as int) =~= path@);
        while k < n
            invariant
                n == path@.len(),
                k <= n,
                self@.at_path(path@) == cur@.at_path(path@.subrange(k as int, n as int)),
            decreases n - k,
        {
            let idx = path.path[k];
            let ghost rest = path@.subrange(k as int, n as int);
            assert(rest[0] == idx);
            assert(rest.drop_first() =~= path@.subrange(k + 1, n as int));
            if idx < cur.children.len() {
                proof {
                    cur.lemma_child_view(idx as int);
                }
                cur = &cur.children[idx];
                k = k + 1;
            } else {
                return None;
            }
        }
        assert(path@.subrange(n as int, n as int).len() == 0);
        Some(cur)
    }

    /// The overlay of the child at `idx`, if there is one.
    pub fn traverse(&self, idx: usize) -> (r: Option<&Self>)
        ensures
            match r {
                Some(x) => idx < self@.children.len() && x@ == self@.children[idx as int],
                None => idx >= self@.children.len(),
            },
    {
        if idx < self.children.len() {
            proof {
                self.lemma_child_view(idx as int);
            }
            Some(&self.children[idx])
        } else {
            None
        }
    }

    /// Whether the attributes of this node need no comparison.
    pub fn shall_skip_attributes(&self) -> (r: bool)
        ensures
            r == self@.shall,
    {
        self.shall
    }

    /// Whether this node and all below it are flagged.
    pub fn is_skippable_recursive(&self) -> (r: bool)
        ensures
            r == self@.skippable_recursive(),
        decreases self,
    {
        self.shall && self.children_skippable()
    }

    /// Whether diffing stops at this node: it is flagged and covers no children.
    pub fn shall_skip_node(&self) -> (r: bool)
        ensures
            r == self@.shall_skip_node(),
    {
        self.shall && self.children.len() == 0
    }

    /// Whether every child is skippable all the way down.
    fn children_skippable(&self) -> (r: bool)
        ensures
            r == self@.children_skippable(),
        decreases self, 0nat,
    {
        assert(self@.children.len() == self.children.len());
        let mut i: usize = 0;
        while i < self.children.len()
            invariant
                self@.children.len() == self.children.len(),
                i <= self.children.len(),
                forall|j: int| 0 <= j < i ==> (#[trigger] self@.children[j]).skippable_recursive(),
            decreases self.children.len() - i,
        {
            proof {
                self.lemma_child_view(i as int);
            }
            if !self.children[i].is_skippable_recursive() {
                return false;
            }
            i = i + 1;
        }
        true
    }

    /// Drops, all the way down, each list of children that is skippable as a whole.
    pub fn collapse_children(self) -> (r: Self)
        ensures
            r@ == self@.collapsed(),
    {
        self.collapsed_copy()
    }

    fn collapsed_copy(&self) -> (r: Self)
        ensures
            r@ == self@.collapsed(),
        decreases self,
    {
        let shall = self.shall;
        if self.children_skippable() {
            let r = SkipDiff { shall, children: Vec::new() };
            assert(r@.children =~= self@.collapsed().children);
            return r;
        }
        let mut out: Vec<SkipDiff> = Vec::new();
        let mut i: usize = 0;
        while i < self.children.len()
            invariant
                i <= self.children.len(),
                out.len() == i,
                forall|j: int| 0 <= j < i ==> #[trigger] out[j]@ == self.children[j]@.collapsed(),
            decreases self.children.len() - i,
        {
            let c = self.children[i].collapsed_copy();
            out.push(c);
            i = i + 1;
        }
        let r = SkipDiff { shall, children: out };
        assert forall|j: int| 0 <= j < self.children.len() implies #[trigger] r@.children[j]
            == self@.collapsed().children[j] by {
            self.lemma_child_view(j);
            r.lemma_child_view(j);
        }
        assert(r@.children =~= self@.collapsed().children);
        r
    }

    /// A copy of this overlay.
    pub fn deep_clone(&self) -> (r: Self)
        ensures
            r@ == self@,
        decreases self,
    {
        let mut out: Vec<SkipDiff> = Vec::new();
        let mut i: usize = 0;
        while i < self.children.len()
            invariant
                i <= self.children.len(),
                out.len() == i,
                forall|j: int| 0 <= j < i ==> #[trigger] out[j]@ == self.children[j]@,
            decreases self.children.len() - i,
        {
            let c = self.children[i].deep_clone();
            out.push(c);
            i = i + 1;
        }
        let r = SkipDiff { shall: self.shall, children: out };
        assert forall|j: int| 0 <= j < self.children.len() implies #[trigger] r@.children[j]
            == self@.children[j] by {
            self.lemma_child_view(j);
            r.lemma_child_view(j);
        }
        assert(r@.children =~= self@.children);
        r
    }
}

impl SkipDiff {
    /// Whether two overlays are the same, flag for flag.
    pub fn same_as(&self, other: &SkipDiff) -> (r: bool)
        ensures
            r == (self@ == other@),
        decreases self,
    {
        if self.shall != other.shall || self.children.len() != other.children.len() {
            assert(self@.shall != other@.shall || self@.children.len() != other@.children.len());
            return false;
        }
        let mut i: usize = 0;
        while i < self.children.len()
            invariant
                i <= self.children.len(),
                self.children.len() == other.children.len(),
                forall|j: int| 0 <= j < i ==> self.children@[j]@ == (#[trigger] other.children@[j])@,
            decreases self.children.len() - i,
        {
            if !self.children[i].same_as(&other.children[i]) {
                proof {
                    self.lemma_child_view(i as int);
                    other.lemma_child_view(i as int);
                }
                assert(self@.children[i as int] != other@.children[i as int]);
                return false;
            }
            i = i + 1;
        }
        assert forall|j: int| 0 <= j < self.children.len() implies self@.children[j]
            == other@.children[j] by {
            self.lemma_child_view(j);
            other.lemma_child_view(j);
        }
        assert(self@.children =~= other@.children);
        true
    }
}

impl PartialEq for SkipDiff {
    fn eq(&self, other: &SkipDiff) -> (r: bool) {
        self.same_as(other)
    }
}

impl vstd::std_specs::cmp::PartialEqSpecImpl for SkipDiff {
    open spec fn obeys_eq_spec() -> bool {
        true
    }

    open spec fn eq_spec(&self, other: &SkipDiff) -> bool {
        self@ == other@
    }
}

/// An overlay node that skips diffing where `shall` holds.
pub fn skip_if(shall: bool, children: Vec<SkipDiff>) -> (r: SkipDiff)
    ensures
        r.shall == shall,
        r.children@ == children@,
{
    SkipDiff { shall, children }
}

/// A position in a tree, with the overlay that covers it there, if any.
pub struct SkipPath {
    pub path: TreePath,
    pub skip_diff: Option<SkipDiff>,
}

impl SkipPath {
    /// The position `path`, covered by `skip_diff`.
    pub fn new(path: TreePath, skip_diff: SkipDiff) -> (r: Self)
        ensures
            r.path@ == path@,
            r.skip_diff == Some(skip_diff),
    {
        SkipPath { path, skip_diff: Some(skip_diff) }
    }

    /// The position of the child at `idx`, with the child's overlay if there is one.
    pub fn traverse(&self, idx: usize) -> (r: Self)
        ensures
            r.path@ == self.path@.push(idx),
            match self.skip_diff {
                Some(s) => match r.skip_diff {
                    Some(c) => idx < s@.children.len() && c@ == s@.children[idx as int],
                    None => idx >= s@.children.len(),
                },
                None => r.skip_diff is None,
            },
    {
        let path = self.path.traverse(idx);
        let skip_diff = match &self.skip_diff {
            Some(s) => match s.traverse(idx) {
                Some(c) => Some(c.deep_clone()),
                None => None,
            },
            None => None,
        };
        SkipPath { path, skip_diff }
    }

    /// The position of the parent; no overlay is known there.
    pub fn backtrack(&self) -> (r: Self)
        ensures
            self.path@.len() > 0 ==> r.path@ == self.path@.drop_last(),
            self.path@.len() == 0 ==> r.path@.len() == 0,
            r.skip_diff is None,
    {
        SkipPath { path: self.path.backtrack(), skip_diff: None }
    }
}

} // verus!
