//! Patches: single mutations of a realized tree, each addressed by a path.
use vstd::prelude::*;
use crate::tree_path::TreePath;
use crate::vdom::{attrs_view, AttrModel, Attribute, Node};

verus! {

/// What a patch is, as plain values; nodes are those of the new tree.
pub enum PatchModel {
    AppendChildren { path: Seq<usize>, nodes: Seq<Node> },
    RemoveNode { path: Seq<usize> },
    InsertBeforeNode { path: Seq<usize>, nodes: Seq<Node> },
    InsertAfterNode { path: Seq<usize>, nodes: Seq<Node> },
    ReplaceNode { path: Seq<usize>, node: Node },
    AddAttributes { path: Seq<usize>, attrs: Seq<AttrModel> },
    RemoveAttributes { path: Seq<usize>, names: Seq<Seq<char>> },
    SetText { path: Seq<usize>, text: Seq<char> },
}

/// One mutation of a realized tree, addressed by the path of its target.
#[derive(Debug)]
pub enum Patch<'a> {
    /// Append `nodes` to the children of the node at `path`.
    AppendChildren { path: TreePath, nodes: Vec<&'a Node> },
    /// Remove the node at `path`.
    RemoveNode { path: TreePath },
    /// Insert `nodes` into the parent of the node at `path`, just before that node.
    InsertBeforeNode { path: TreePath, nodes: Vec<&'a Node> },
    /// Insert `nodes` into the parent of the node at `path`, just after that node.
    InsertAfterNode { path: TreePath, nodes: Vec<&'a Node> },
    /// Replace the node at `path` with a realization of `node`.
    ReplaceNode { path: TreePath, node: &'a Node },
    /// Set each of `attrs` on the element at `path`.
    AddAttributes { path: TreePath, attrs: Vec<Attribute> },
    /// Remove the attributes called `names` from the element at `path`.
    RemoveAttributes { path: TreePath, names: Vec<String> },
    /// Set the content of the text node at `path`.
    SetText { path: TreePath, text: String },
}

/// The nodes the references point to, in order.
pub open spec fn nodes_view<'a>(v: Seq<&'a Node>) -> Seq<Node> {
    v.map_values(|r: &'a Node| *r)
}

/// The views of the names, in order.
pub open spec fn names_view(v: Seq<String>) -> Seq<Seq<char>> {
    v.map_values(|s: String| s@)
}

impl<'a> View for Patch<'a> {
    type V = PatchModel;

    open spec fn view(&self) -> PatchModel {
        match self {
            Patch::AppendChildren { path, nodes } => PatchModel::AppendChildren {
                path: path@,
                nodes: nodes_view(nodes@),
            },
            Patch::RemoveNode { path } => PatchModel::RemoveNode { path: path@ },
            Patch::InsertBeforeNode { path, nodes } => PatchModel::InsertBeforeNode {
                path: path@,
                nodes: nodes_view(nodes@),
            },
            Patch::InsertAfterNode { path, nodes } => PatchModel::InsertAfterNode {
                path: path@,
                nodes: nodes_view(nodes@),
            },
            Patch::ReplaceNode { path, node } => PatchModel::ReplaceNode { path: path@, node: **node },
            Patch::AddAttributes { path, attrs } => PatchModel::AddAttributes {
                path: path@,
                attrs: attrs_view(attrs@),
            },
            Patch::RemoveAttributes { path, names } => PatchModel::RemoveAttributes {
                path: path@,
                names: names_view(names@),
            },
            Patch::SetText { path, text } => PatchModel::SetText { path: path@, text: text@ },
        }
    }
}

/// The views of the patches, in order.
pub open spec fn patches_view<'a>(v: Seq<Patch<'a>>) -> Seq<PatchModel> {
    v.map_values(|p: Patch<'a>| p@)
}

impl<'a> Patch<'a> {
    /// The path of the node this patch targets.
    pub fn path(&self) -> (r: &TreePath)
        ensures
            r@ == self@.path(),
    {
        match self {
            Patch::AppendChildren { path, .. } => path,
            Patch::RemoveNode { path } => path,
            Patch::InsertBeforeNode { path, .. } => path,
            Patch::InsertAfterNode { path, .. } => path,
            Patch::ReplaceNode { path, .. } => path,
            Patch::AddAttributes { path, .. } => path,
            Patch::RemoveAttributes { path, .. } => path,
            Patch::SetText { path, .. } => path,
        }
    }
}

impl PatchModel {
    /// The patch changes the children of its target's parent rather than the target.
    pub open spec fn acts_on_parent(self) -> bool {
        self is RemoveNode || self is InsertBeforeNode || self is InsertAfterNode
    }

    /// The path the patch is addressed to.
    pub open spec fn path(self) -> Seq<usize> {
        match self {
            PatchModel::AppendChildren { path, .. } => path,
            PatchModel::RemoveNode { path } => path,
            PatchModel::InsertBeforeNode { path, .. } => path,
            PatchModel::InsertAfterNode { path, .. } => path,
            PatchModel::ReplaceNode { path, .. } => path,
            PatchModel::AddAttributes { path, .. } => path,
            PatchModel::RemoveAttributes { path, .. } => path,
            PatchModel::SetText { path, .. } => path,
        }
    }
}

} // verus!
