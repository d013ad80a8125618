//! The realized tree. Each live node owns its children, and a node is reached from the
//! root by its path, so no node refers back to its parent. Patches are applied in order;
//! the tree can render itself as markup.
use vstd::prelude::*;
use crate::patch::{nodes_view, names_view, patches_view, Patch, PatchModel};
use crate::tree_path::TreePath;
use crate::vdom::{
    find_name,
    all_realizable, attrs_view, merge_attributes_of_same_name, merged, opt_view, realizable,
    AttrModel, Attribute, AttributeValue, Leaf, Node, ValueModel, grouped, pairs_view,
    component_attrs, component_attrs_vec, StatefulModel,
};
use vstd::string::StringExecFns;

verus! {

/// What a realized node is, as plain values.
pub enum DomModel {
    Element {
        namespace: Option<Seq<char>>,
        tag: Seq<char>,
        attrs: Seq<AttrModel>,
        children: Seq<DomModel>,
    },
    Text(Seq<char>),
    Comment(Seq<char>),
    Fragment(Seq<DomModel>),
}

impl DomModel {
    /// An empty fragment.
    pub open spec fn blank() -> DomModel {
        DomModel::Fragment(Seq::empty())
    }

    /// The children of an element or fragment.
    pub open spec fn kids(self) -> Option<Seq<DomModel>> {
        match self {
            DomModel::Element { children, .. } => Some(children),
            DomModel::Fragment(children) => Some(children),
            _ => None,
        }
    }

    /// The node reached by following `path` down from this one, if every index is in range.
    pub open spec fn at_path(self, path: Seq<usize>) -> Option<DomModel>
        decreases path.len(),
    {
        if path.len() == 0 {
            Some(self)
        } else {
            match self.kids() {
                Some(k) => if path[0] < k.len() {
                    k[path[0] as int].at_path(path.drop_first())
                } else {
                    None
                },
                None => None,
            }
        }
    }
}

/// A realized node: the live counterpart of a tree node, owning its children.
#[derive(Debug)]
pub enum DomNode {
    Element {
        namespace: Option<String>,
        tag: String,
        attrs: Vec<Attribute>,
        children: Vec<DomNode>,
    },
    Text(String),
    Comment(String),
    Fragment(Vec<DomNode>),
}

/// The views of live nodes, in order.
pub open spec fn dom_seq_view(v: Vec<DomNode>) -> Seq<DomModel>
    decreases v, 0nat,
{
    Seq::new(
        v.len() as nat,
        |i: int|
            if 0 <= i < v.len() {
                dom_view(v[i])
            } else {
                DomModel::blank()
            },
    )
}

/// What a live node is, as plain values.
pub open spec fn dom_view(n: DomNode) -> DomModel
    decreases n, 1nat,
{
    match n {
        DomNode::Element { namespace, tag, attrs, children } => DomModel::Element {
            namespace: opt_view(namespace),
            tag: tag@,
            attrs: attrs_view(attrs@),
            children: dom_seq_view(children),
        },
        DomNode::Text(s) => DomModel::Text(s@),
        DomNode::Comment(s) => DomModel::Comment(s@),
        DomNode::Fragment(children) => DomModel::Fragment(dom_seq_view(children)),
    }
}

impl View for DomNode {
    type V = DomModel;

    open spec fn view(&self) -> DomModel {
        dom_view(*self)
    }
}

/// What realizing `n` gives: elements with their attributes merged by name, fragments
/// and root lists as fragments, and a component as the view it resolved to.
pub open spec fn realize(n: Node) -> DomModel
    decreases n, 1nat,
{
    match n {
        Node::Element(e) => DomModel::Element {
            namespace: opt_view(e.namespace),
            tag: e.tag@,
            attrs: merged(attrs_view(e.attrs@)),
            children: realize_all(e.children),
        },
        Node::Leaf(Leaf::Text(s)) => DomModel::Text(s@),
        Node::Leaf(Leaf::Comment(s)) => DomModel::Comment(s@),
        Node::Leaf(Leaf::Fragment(v)) => DomModel::Fragment(realize_all(v)),
        Node::Leaf(Leaf::NodeList(v)) => DomModel::Fragment(realize_all(v)),
        Node::Leaf(Leaf::StatelessComponent(b)) => realize(*b),
        Node::Leaf(Leaf::StatefulComponent(c)) => DomModel::Element {
            namespace: None,
            tag: "div"@,
            attrs: merged(component_attrs(c)),
            children: Seq::empty(),
        },
        _ => DomModel::blank(),
    }
}

/// The realizations of the nodes, in order.
pub open spec fn realize_all(v: Vec<Node>) -> Seq<DomModel>
    decreases v, 0nat,
{
    Seq::new(
        v.len() as nat,
        |i: int|
            if 0 <= i < v.len() {
                realize(v[i])
            } else {
                DomModel::blank()
            },
    )
}

/// The view of a list of live nodes holds the view of each.
pub proof fn lemma_dom_child(v: Vec<DomNode>, i: int)
    requires
        0 <= i < v.len(),
    ensures
        dom_seq_view(v).len() == v.len(),
        dom_seq_view(v)[i] == v[i]@,
{
}

fn create_children(v: &Vec<Node>) -> (r: Vec<DomNode>)
    requires
        all_realizable(*v),
    ensures
        dom_seq_view(r) == realize_all(*v),
    decreases v, 0nat,
{
    let mut out: Vec<DomNode> = Vec::new();
    let mut i: usize = 0;
    while i < v.len()
        invariant
            i <= v.len(),
            all_realizable(*v),
            out.len() == i,
            forall|j: int| 0 <= j < i ==> (#[trigger] out@[j])@ == realize(v[j]),
        decreases v.len() - i,
    {
        assert(realizable(v[i as int]));
        let c = create_node(&v[i]);
        out.push(c);
        i = i + 1;
    }
    assert forall|j: int| 0 <= j < out.len() implies #[trigger] dom_seq_view(out)[j]
        == realize_all(*v)[j] by {
        lemma_dom_child(out, j);
    }
    assert(dom_seq_view(out) =~= realize_all(*v));
    out
}

/// The container of a component with state: a `div` with the component's attributes
/// and no children of its own in the live tree.
fn create_container(c: &StatefulModel) -> (r: DomNode)
    ensures
        r@ == realize(Node::Leaf(Leaf::StatefulComponent(*c))),
{
    let decls = component_attrs_vec(c);
    let attrs = merge_attributes_of_same_name(&decls);
    let children: Vec<DomNode> = Vec::new();
    assert(dom_seq_view(children) =~= Seq::<DomModel>::empty());
    DomNode::Element { namespace: None, tag: String::from_str("div"), attrs, children }
}

/// What a component with state does with the children the view hands it.
pub trait StatefulComponent {
    /// Takes `child` as the component's next child.
    fn append_child(&mut self, child: DomNode);
}

/// Realizes a component with state: builds its container and hands each of its
/// children, realized, to `comp`, in order.
pub fn create_stateful_component<C: StatefulComponent>(comp: &mut C, c: &StatefulModel) -> (r:
    DomNode)
    requires
        all_realizable(c.children),
    ensures
        r@ == realize(Node::Leaf(Leaf::StatefulComponent(*c))),
{
    let container = create_container(c);
    let mut i: usize = 0;
    while i < c.children.len()
        invariant
            i <= c.children.len(),
            all_realizable(c.children),
        decreases c.children.len() - i,
    {
        assert(realizable(c.children[i as int]));
        let child = create_node(&c.children[i]);
        comp.append_child(child);
        i = i + 1;
    }
    container
}

/// Realizes `n`: builds the live node for it and everything below it.
pub fn create_node(n: &Node) -> (r: DomNode)
    requires
        realizable(*n),
    ensures
        r@ == realize(*n),
    decreases n, 1nat,
{
    match n {
        Node::Element(e) => {
            let attrs = merge_attributes_of_same_name(&e.attrs);
            let children = create_children(&e.children);
            let namespace = match &e.namespace {
                Some(s) => Some(s.clone()),
                None => None,
            };
            DomNode::Element { namespace, tag: e.tag.clone(), attrs, children }
        },
        Node::Leaf(Leaf::Text(s)) => DomNode::Text(s.clone()),
        Node::Leaf(Leaf::Comment(s)) => DomNode::Comment(s.clone()),
        Node::Leaf(Leaf::Fragment(v)) => DomNode::Fragment(create_children(v)),
        Node::Leaf(Leaf::NodeList(v)) => DomNode::Fragment(create_children(v)),
        Node::Leaf(Leaf::StatelessComponent(b)) => create_node(b),
        Node::Leaf(Leaf::StatefulComponent(c)) => create_container(c),
        _ => DomNode::Fragment(Vec::new()),
    }
}

impl DomNode {
    /// The node at `path` below this one, or `None` where an index is out of range.
    pub fn find(&self, path: &TreePath) -> (r: Option<&DomNode>)
        ensures
            match r {
                Some(x) => self@.at_path(path@) == Some(x@),
                None => self@.at_path(path@) is None,
            },
    {
        let mut cur: &DomNode = self;
        let mut k: usize = 0;
        let n = path.path.len();
        assert(path@.subrange(0, n as int) =~= path@);
        while k < n
            invariant
                n == path@.len(),
                k <= n,
                self@.at_path(path@) == cur@.at_path(path@.subrange(k as int, n as int)),
            decreases n - k,
        {
            let idx = path.path[k];
            let ghost rest = path@.subrange(k as int, n as int);
            assert(rest[0] == idx);
            assert(rest.drop_first() =~= path@.subrange(k + 1, n as int));
            let kids = match cur {
                DomNode::Element { children, .. } => children,
                DomNode::Fragment(children) => children,
                _ => {
                    return None;
                },
            };
            if idx < kids.len() {
                proof {
                    lemma_dom_child(*kids, idx as int);
                }
                cur = &kids[idx];
                k = k + 1;
            } else {
                return None;
            }
        }
        assert(path@.subrange(n as int, n as int).len() == 0);
        Some(cur)
    }
}

} // verus!

verus! {

/// Why a patch could not be applied.
#[derive(Debug, PartialEq, Eq, Structural, Clone, Copy)]
pub enum PatchError {
    /// The patch's path leads to no node: the patch is passed over.
    StructuralInconsistency,
    /// The node found cannot take this mutation: the live tree no longer matches
    /// what the patches were made for.
    BackendRejection,
}

impl DomModel {
    /// This node with its children replaced by `k`.
    pub open spec fn with_kids(self, k: Seq<DomModel>) -> DomModel {
        match self {
            DomModel::Element { namespace, tag, attrs, .. } => DomModel::Element {
                namespace,
                tag,
                attrs,
                children: k,
            },
            DomModel::Fragment(_) => DomModel::Fragment(k),
            _ => self,
        }
    }
}

/// The first index of an attribute called `name`, if there is one.
pub open spec fn first_with_name(attrs: Seq<AttrModel>, name: Seq<char>) -> Option<int> {
    if exists|j: int| is_first_with_name(attrs, name, j) {
        Some(choose|j: int| is_first_with_name(attrs, name, j))
    } else {
        None
    }
}

/// `j` is the first index of an attribute called `name`.
pub open spec fn is_first_with_name(attrs: Seq<AttrModel>, name: Seq<char>, j: int) -> bool {
    0 <= j < attrs.len() && attrs[j].name == name && forall|k: int|
        0 <= k < j ==> (#[trigger] attrs[k]).name != name
}

/// Sets `a`: it replaces the attribute of the same name where there is one, else it
/// goes at the end.
pub open spec fn set_attr(attrs: Seq<AttrModel>, a: AttrModel) -> Seq<AttrModel> {
    match first_with_name(attrs, a.name) {
        Some(j) => attrs.update(j, a),
        None => attrs.push(a),
    }
}

/// Sets each of `added`, in order.
pub open spec fn set_attrs(attrs: Seq<AttrModel>, added: Seq<AttrModel>) -> Seq<AttrModel>
    decreases added.len(),
{
    if added.len() == 0 {
        attrs
    } else {
        set_attr(set_attrs(attrs, added.drop_last()), added.last())
    }
}

/// The attributes whose name is not in `names`, in order.
pub open spec fn without_names(attrs: Seq<AttrModel>, names: Seq<Seq<char>>) -> Seq<AttrModel>
    decreases attrs.len(),
{
    if attrs.len() == 0 {
        Seq::empty()
    } else {
        without_names(attrs.drop_last(), names) + if names.contains(attrs.last().name) {
            Seq::empty()
        } else {
            seq![attrs.last()]
        }
    }
}

/// The realizations of the nodes, in order.
pub open spec fn realize_seq(v: Seq<Node>) -> Seq<DomModel> {
    v.map_values(|n: Node| realize(n))
}

/// Every node that the patch would realize can be realized.
pub open spec fn patch_realizable(p: PatchModel) -> bool {
    match p {
        PatchModel::AppendChildren { nodes, .. } => forall|i: int|
            0 <= i < nodes.len() ==> realizable(#[trigger] nodes[i]),
        PatchModel::InsertBeforeNode { nodes, .. } => forall|i: int|
            0 <= i < nodes.len() ==> realizable(#[trigger] nodes[i]),
        PatchModel::InsertAfterNode { nodes, .. } => forall|i: int|
            0 <= i < nodes.len() ==> realizable(#[trigger] nodes[i]),
        PatchModel::ReplaceNode { node, .. } => realizable(node),
        _ => true,
    }
}

/// What the patch does to the node it targets.
pub open spec fn local_effect(m: DomModel, p: PatchModel) -> Result<DomModel, PatchError> {
    match p {
        PatchModel::AppendChildren { nodes, .. } => match m.kids() {
            Some(k) => Ok(m.with_kids(k + realize_seq(nodes))),
            None => Err(PatchError::BackendRejection),
        },
        PatchModel::ReplaceNode { node, .. } => Ok(realize(node)),
        PatchModel::AddAttributes { attrs: added, .. } => match m {
            DomModel::Element { namespace, tag, attrs, children } => Ok(
                DomModel::Element { namespace, tag, attrs: set_attrs(attrs, added), children },
            ),
            _ => Err(PatchError::BackendRejection),
        },
        PatchModel::RemoveAttributes { names, .. } => match m {
            DomModel::Element { namespace, tag, attrs, children } => Ok(
                DomModel::Element { namespace, tag, attrs: without_names(attrs, names), children },
            ),
            _ => Err(PatchError::BackendRejection),
        },
        PatchModel::SetText { text, .. } => match m {
            DomModel::Text(_) => Ok(DomModel::Text(text)),
            _ => Err(PatchError::BackendRejection),
        },
        PatchModel::RemoveNode { .. } => Err(PatchError::BackendRejection),
        PatchModel::InsertBeforeNode { .. } => Err(PatchError::BackendRejection),
        PatchModel::InsertAfterNode { .. } => Err(PatchError::BackendRejection),
    }
}

/// What a patch that acts on the parent does to its children, its target being child `i`.
pub open spec fn sibling_effect(k: Seq<DomModel>, i: int, p: PatchModel) -> Seq<DomModel> {
    match p {
        PatchModel::RemoveNode { .. } => k.remove(i),
        PatchModel::InsertBeforeNode { nodes, .. } => k.subrange(0, i) + realize_seq(nodes)
            + k.subrange(i, k.len() as int),
        PatchModel::InsertAfterNode { nodes, .. } => k.subrange(0, i + 1) + realize_seq(nodes)
            + k.subrange(i + 1, k.len() as int),
        _ => k,
    }
}

/// What the patch does to the tree `m` when its target is at `path` below `m`.
pub open spec fn edit_effect(m: DomModel, path: Seq<usize>, p: PatchModel) -> Result<
    DomModel,
    PatchError,
>
    decreases path.len(),
{
    if path.len() == 0 {
        local_effect(m, p)
    } else {
        match m.kids() {
            None => Err(PatchError::StructuralInconsistency),
            Some(k) => if path[0] >= k.len() {
                Err(PatchError::StructuralInconsistency)
            } else if path.len() == 1 && p.acts_on_parent() {
                Ok(m.with_kids(sibling_effect(k, path[0] as int, p)))
            } else {
                match edit_effect(k[path[0] as int], path.drop_first(), p) {
                    Ok(c) => Ok(m.with_kids(k.update(path[0] as int, c))),
                    Err(e) => Err(e),
                }
            },
        }
    }
}

/// What one patch does to the tree `m`.
pub open spec fn apply_one(m: DomModel, p: PatchModel) -> Result<DomModel, PatchError> {
    edit_effect(m, p.path(), p)
}

/// What the patches do, applied in order: one whose path leads nowhere is passed over;
/// one the tree cannot take ends the batch with an error.
pub open spec fn apply_all(m: DomModel, ps: Seq<PatchModel>) -> Result<DomModel, PatchError>
    decreases ps.len(),
{
    if ps.len() == 0 {
        Ok(m)
    } else {
        match apply_all(m, ps.drop_last()) {
            Ok(m2) => match apply_one(m2, ps.last()) {
                Ok(m3) => Ok(m3),
                Err(PatchError::StructuralInconsistency) => Ok(m2),
                Err(e) => Err(e),
            },
            Err(e) => Err(e),
        }
    }
}

} // verus!

verus! {

proof fn lemma_first_unique(attrs: Seq<AttrModel>, name: Seq<char>, j: int)
    requires
        is_first_with_name(attrs, name, j),
    ensures
        first_with_name(attrs, name) == Some(j),
{
    let c = choose|x: int| is_first_with_name(attrs, name, x);
    if c < j {
        assert(attrs[c].name != name);
    } else if c > j {
        assert(attrs[j].name != name);
    }
}

fn append_created(children: &mut Vec<DomNode>, nodes: &Vec<&Node>)
    requires
        forall|i: int| 0 <= i < nodes.len() ==> realizable(*(#[trigger] nodes@[i])),
    ensures
        dom_seq_view(*final(children)) == dom_seq_view(*old(children)) + realize_seq(
            nodes_view(nodes@),
        ),
{
    let ghost before = dom_seq_view(*children);
    let ghost n0 = children.len();
    let mut i: usize = 0;
    while i < nodes.len()
        invariant
            i <= nodes.len(),
            forall|x: int| 0 <= x < nodes.len() ==> realizable(*(#[trigger] nodes@[x])),
            children.len() == n0 + i,
            before.len() == n0,
            forall|x: int| 0 <= x < n0 ==> (#[trigger] children@[x])@ == before[x],
            forall|x: int| 0 <= x < i ==> (#[trigger] children@[n0 + x])@ == realize(*nodes@[x]),
        decreases nodes.len() - i,
    {
        let c = create_node(nodes[i]);
        children.push(c);
        i = i + 1;
    }
    let ghost want = before + realize_seq(nodes_view(nodes@));
    assert forall|x: int| 0 <= x < children.len() implies #[trigger] dom_seq_view(*children)[x]
        == want[x] by {
        lemma_dom_child(*children, x);
        if x >= n0 {
            assert(children@[n0 + (x - n0)]@ == realize(*nodes@[x - n0]));
        }
    }
    assert(dom_seq_view(*children) =~= want);
}

fn set_attrs_in(attrs: &mut Vec<Attribute>, added: &Vec<Attribute>)
    ensures
        attrs_view(final(attrs)@) == set_attrs(attrs_view(old(attrs)@), attrs_view(added@)),
{
    let ghost a0 = attrs_view(attrs@);
    let ghost av = attrs_view(added@);
    let mut i: usize = 0;
    assert(av.subrange(0, 0) =~= Seq::<AttrModel>::empty());
    while i < added.len()
        invariant
            i <= added.len(),
            av == attrs_view(added@),
            attrs_view(attrs@) == set_attrs(a0, av.subrange(0, i as int)),
        decreases added.len() - i,
    {
        let ghost cur = attrs_view(attrs@);
        assert(av.subrange(0, i + 1).drop_last() =~= av.subrange(0, i as int));
        assert(av.subrange(0, i + 1).last() == added@[i as int]@);
        let a = added[i].duplicate();
        match crate::vdom::position_of(attrs, &a.name) {
            Some(j) => {
                proof {
                    assert(is_first_with_name(cur, a@.name, j as int));
                    lemma_first_unique(cur, a@.name, j as int);
                }
                attrs.remove(j);
                attrs.insert(j, a);
                assert(attrs_view(attrs@) =~= set_attr(cur, added@[i as int]@));
            },
            None => {
                assert(first_with_name(cur, a@.name) is None);
                attrs.push(a);
                assert(attrs_view(attrs@) =~= set_attr(cur, added@[i as int]@));
            },
        }
        i = i + 1;
    }
    assert(av.subrange(0, added.len() as int) =~= av);
}

fn contains_name(names: &Vec<String>, name: &String) -> (r: bool)
    ensures
        r == names_view(names@).contains(name@),
{
    let mut i: usize = 0;
    while i < names.len()
        invariant
            i <= names.len(),
            forall|j: int| 0 <= j < i ==> names@[j]@ != name@,
        decreases names.len() - i,
    {
        if names[i].eq(name) {
            assert(names_view(names@)[i as int] == name@);
            return true;
        }
        i = i + 1;
    }
    assert(!names_view(names@).contains(name@)) by {
        if names_view(names@).contains(name@) {
            let j = choose|j: int| 0 <= j < names_view(names@).len() && names_view(names@)[j] == name@;
            assert(names@[j]@ == name@);
        }
    }
    false
}

fn remove_names_in(attrs: &mut Vec<Attribute>, names: &Vec<String>)
    ensures
        attrs_view(final(attrs)@) == without_names(attrs_view(old(attrs)@), names_view(names@)),
{
    let ghost a0 = attrs_view(attrs@);
    let mut out: Vec<Attribute> = Vec::new();
    let mut i: usize = 0;
    assert(a0.subrange(0, 0) =~= Seq::<AttrModel>::empty());
    while i < attrs.len()
        invariant
            i <= attrs.len(),
            a0 == attrs_view(attrs@),
            attrs_view(out@) == without_names(a0.subrange(0, i as int), names_view(names@)),
        decreases attrs.len() - i,
    {
        let ghost before = attrs_view(out@);
        assert(a0.subrange(0, i + 1).drop_last() =~= a0.subrange(0, i as int));
        assert(a0.subrange(0, i + 1).last() == attrs@[i as int]@);
        if !contains_name(names, &attrs[i].name) {
            out.push(attrs[i].duplicate());
            assert(attrs_view(out@) =~= before + seq![attrs@[i as int]@]);
        } else {
            assert(attrs_view(out@) =~= before + Seq::<AttrModel>::empty());
        }
        i = i + 1;
    }
    assert(a0.subrange(0, attrs.len() as int) =~= a0);
    *attrs = out;
}

impl DomNode {
    fn apply_here(&mut self, p: &Patch) -> (r: Result<(), PatchError>)
        requires
            patch_realizable(p@),
        ensures
            match local_effect(old(self)@, p@) {
                Ok(m) => r is Ok && final(self)@ == m,
                Err(e) => r == Err::<(), PatchError>(e) && final(self)@ == old(self)@,
            },
    {
        match p {
            Patch::AppendChildren { nodes, .. } => {
                assert forall|i: int| 0 <= i < nodes.len() implies realizable(*(#[trigger] nodes@[i])) by {
                    assert(nodes_view(nodes@)[i] == *nodes@[i]);
                }
                match self {
                    DomNode::Element { children, .. } => {
                        append_created(children, nodes);
                        Ok(())
                    },
                    DomNode::Fragment(children) => {
                        append_created(children, nodes);
                        Ok(())
                    },
                    _ => Err(PatchError::BackendRejection),
                }
            },
            Patch::ReplaceNode { node, .. } => {
                *self = create_node(node);
                Ok(())
            },
            Patch::AddAttributes { attrs: added, .. } => match self {
                DomNode::Element { attrs, .. } => {
                    set_attrs_in(attrs, added);
                    Ok(())
                },
                _ => Err(PatchError::BackendRejection),
            },
            Patch::RemoveAttributes { names, .. } => match self {
                DomNode::Element { attrs, .. } => {
                    remove_names_in(attrs, names);
                    Ok(())
                },
                _ => Err(PatchError::BackendRejection),
            },
            Patch::SetText { text, .. } => match self {
                DomNode::Text(s) => {
                    *s = text.clone();
                    Ok(())
                },
                _ => Err(PatchError::BackendRejection),
            },
            Patch::RemoveNode { .. } => Err(PatchError::BackendRejection),
            Patch::InsertBeforeNode { .. } => Err(PatchError::BackendRejection),
            Patch::InsertAfterNode { .. } => Err(PatchError::BackendRejection),
        }
    }
}

} // verus!

verus! {

/// What the patch does to a list of children when its target lies below index
/// `rest[0]` of that list.
pub open spec fn edit_in_kids(k: Seq<DomModel>, rest: Seq<usize>, p: PatchModel) -> Result<
    Seq<DomModel>,
    PatchError,
> {
    if rest[0] >= k.len() {
        Err(PatchError::StructuralInconsistency)
    } else if rest.len() == 1 && p.acts_on_parent() {
        Ok(sibling_effect(k, rest[0] as int, p))
    } else {
        match edit_effect(k[rest[0] as int], rest.drop_first(), p) {
            Ok(c) => Ok(k.update(rest[0] as int, c)),
            Err(e) => Err(e),
        }
    }
}

fn insert_created(children: &mut Vec<DomNode>, at: usize, nodes: &Vec<&Node>)
    requires
        at <= old(children).len(),
        forall|i: int| 0 <= i < nodes.len() ==> realizable(*(#[trigger] nodes@[i])),
    ensures
        dom_seq_view(*final(children)) == dom_seq_view(*old(children)).subrange(0, at as int)
            + realize_seq(nodes_view(nodes@)) + dom_seq_view(*old(children)).subrange(
            at as int,
            old(children).len() as int,
        ),
{
    let ghost before = dom_seq_view(*children);
    let ghost old_children = *children;
    let ghost n0 = children.len();
    let mut i: usize = 0;
    while i < nodes.len()
        invariant
            at <= n0,
            i <= nodes.len(),
            n0 == old_children.len(),
            forall|x: int| 0 <= x < nodes.len() ==> realizable(*(#[trigger] nodes@[x])),
            children.len() == n0 + i,
            forall|x: int| 0 <= x < at ==> (#[trigger] children@[x])@ == old_children@[x]@,
            forall|x: int| 0 <= x < i ==> (#[trigger] children@[at + x])@ == realize(*nodes@[x]),
            forall|x: int| at <= x < n0 ==> (#[trigger] children@[x + i])@ == old_children@[x]@,
        decreases nodes.len() - i,
    {
        let c = create_node(nodes[i]);
        let ghost prev = children@;
        children.insert(at + i, c);
        let ghost i0 = i as int;
        i = i + 1;
        assert forall|x: int| at <= x < n0 implies (#[trigger] children@[x + i])@
            == old_children@[x]@ by {
            assert(children@[x + i] == prev[x + i0]);
        }
    }
    let ghost want = before.subrange(0, at as int) + realize_seq(nodes_view(nodes@)) + before.subrange(
        at as int,
        n0 as int,
    );
    assert forall|x: int| 0 <= x < children.len() implies #[trigger] dom_seq_view(*children)[x]
        == want[x] by {
        lemma_dom_child(*children, x);
        let m = nodes.len() as int;
        if x < at {
            lemma_dom_child(old_children, x);
        } else if x < at + m {
            assert(children@[at + (x - at)]@ == realize(*nodes@[x - at]));
        } else {
            lemma_dom_child(old_children, x - m);
            assert(children@[(x - m) + m]@ == old_children@[x - m]@);
        }
    }
    assert(dom_seq_view(*children) =~= want);
}

fn edit_children(children: &mut Vec<DomNode>, path: &TreePath, k: usize, p: &Patch) -> (r: Result<
    (),
    PatchError,
>)
    requires
        k < path@.len(),
        patch_realizable(p@),
    ensures
        match edit_in_kids(
            dom_seq_view(*old(children)),
            path@.subrange(k as int, path@.len() as int),
            p@,
        ) {
            Ok(nk) => r is Ok && dom_seq_view(*final(children)) == nk,
            Err(e) => r == Err::<(), PatchError>(e) && dom_seq_view(*final(children))
                == dom_seq_view(*old(children)),
        },
    decreases path@.len() - k, 0nat,
{
    let ghost kv = dom_seq_view(*children);
    let ghost rest = path@.subrange(k as int, path@.len() as int);
    let idx = path.path[k];
    assert(rest[0] == idx);
    if idx >= children.len() {
        return Err(PatchError::StructuralInconsistency);
    }
    let on_parent = match p {
        Patch::RemoveNode { .. } => true,
        Patch::InsertBeforeNode { .. } => true,
        Patch::InsertAfterNode { .. } => true,
        _ => false,
    };
    if k == path.path.len() - 1 && on_parent {
        match p {
            Patch::InsertBeforeNode { nodes, .. } => {
                assert forall|i: int| 0 <= i < nodes.len() implies realizable(*(#[trigger] nodes@[i])) by {
                    assert(nodes_view(nodes@)[i] == *nodes@[i]);
                }
                insert_created(children, idx, nodes);
                return Ok(());
            },
            Patch::InsertAfterNode { nodes, .. } => {
                assert forall|i: int| 0 <= i < nodes.len() implies realizable(*(#[trigger] nodes@[i])) by {
                    assert(nodes_view(nodes@)[i] == *nodes@[i]);
                }
                insert_created(children, idx + 1, nodes);
                return Ok(());
            },
            _ => {},
        }
        let ghost old_children = *children;
        children.remove(idx);
        assert forall|x: int| 0 <= x < children.len() implies #[trigger] dom_seq_view(*children)[x]
            == kv.remove(idx as int)[x] by {
            lemma_dom_child(*children, x);
            if x < idx {
                lemma_dom_child(old_children, x);
            } else {
                lemma_dom_child(old_children, x + 1);
            }
        }
        assert(dom_seq_view(*children) =~= kv.remove(idx as int));
        return Ok(());
    }
    let ghost old_children = *children;
    proof {
        lemma_dom_child(old_children, idx as int);
    }
    let mut c = children.remove(idx);
    assert(rest.drop_first() =~= path@.subrange(k + 1, path@.len() as int));
    let r = c.edit_at(path, k + 1, p);
    children.insert(idx, c);
    assert forall|x: int| 0 <= x < children.len() && x != idx implies #[trigger] dom_seq_view(
        *children,
    )[x] == kv[x] by {
        lemma_dom_child(*children, x);
        lemma_dom_child(old_children, x);
    }
    proof {
        lemma_dom_child(*children, idx as int);
    }
    match r {
        Ok(()) => {
            assert(dom_seq_view(*children) =~= kv.update(idx as int, c@));
        },
        Err(_) => {
            assert(dom_seq_view(*children) =~= kv);
        },
    }
    r
}

impl DomNode {
    fn edit_at(&mut self, path: &TreePath, k: usize, p: &Patch) -> (r: Result<(), PatchError>)
        requires
            k <= path@.len(),
            patch_realizable(p@),
        ensures
            match edit_effect(old(self)@, path@.subrange(k as int, path@.len() as int), p@) {
                Ok(m) => r is Ok && final(self)@ == m,
                Err(e) => r == Err::<(), PatchError>(e) && final(self)@ == old(self)@,
            },
        decreases path@.len() - k, 1nat,
    {
        let ghost rest = path@.subrange(k as int, path@.len() as int);
        if k >= path.path.len() {
            assert(rest.len() == 0);
            return self.apply_here(p);
        }
        match self {
            DomNode::Element { children, .. } => edit_children(children, path, k, p),
            DomNode::Fragment(children) => edit_children(children, path, k, p),
            _ => Err(PatchError::StructuralInconsistency),
        }
    }

    /// Applies one patch at the node its path leads to.
    pub fn apply_patch(&mut self, p: &Patch) -> (r: Result<(), PatchError>)
        requires
            patch_realizable(p@),
        ensures
            match apply_one(old(self)@, p@) {
                Ok(m) => r is Ok && final(self)@ == m,
                Err(e) => r == Err::<(), PatchError>(e) && final(self)@ == old(self)@,
            },
    {
        let path = p.path();
        assert(path@.subrange(0, path@.len() as int) =~= path@);
        self.edit_at(path, 0, p)
    }

    /// Applies the patches in order. One whose path leads nowhere is passed over; the
    /// first that the tree cannot take ends the batch with `BackendRejection`.
    pub fn apply_patches(&mut self, patches: &Vec<Patch>) -> (r: Result<(), PatchError>)
        requires
            forall|i: int| 0 <= i < patches.len() ==> patch_realizable((#[trigger] patches@[i])@),
        ensures
            match apply_all(old(self)@, patches_view(patches@)) {
                Ok(m) => r is Ok && final(self)@ == m,
                Err(e) => r == Err::<(), PatchError>(e),
            },
    {
        let ghost m0 = self@;
        let ghost pv = patches_view(patches@);
        let mut i: usize = 0;
        assert(pv.subrange(0, 0) =~= Seq::<PatchModel>::empty());
        while i < patches.len()
            invariant
                i <= patches.len(),
                pv == patches_view(patches@),
                m0 == old(self)@,
                forall|x: int| 0 <= x < patches.len() ==> patch_realizable((#[trigger] patches@[x])@),
                apply_all(m0, pv.subrange(0, i as int)) == Ok::<DomModel, PatchError>(self@),
            decreases patches.len() - i,
        {
            assert(pv.subrange(0, i + 1).drop_last() =~= pv.subrange(0, i as int));
            assert(pv.subrange(0, i + 1).last() == patches@[i as int]@);
            let ghost before = self@;
            let r = self.apply_patch(&patches[i]);
            match r {
                Ok(()) => {},
                Err(PatchError::StructuralInconsistency) => {},
                Err(PatchError::BackendRejection) => {
                    proof {
                        assert(apply_one(before, pv[i as int]) == Err::<DomModel, PatchError>(PatchError::BackendRejection));
                        assert(apply_all(m0, pv.subrange(0, i + 1)) == Err::<DomModel, PatchError>(PatchError::BackendRejection));
                        lemma_apply_all_err(m0, pv, i + 1);
                    }
                    return Err(PatchError::BackendRejection);
                },
            }
            i = i + 1;
        }
        assert(pv.subrange(0, patches.len() as int) =~= pv);
        Ok(())
    }
}

proof fn lemma_apply_all_err(m: DomModel, ps: Seq<PatchModel>, i: int)
    requires
        0 <= i <= ps.len(),
        apply_all(m, ps.subrange(0, i)) is Err,
    ensures
        apply_all(m, ps) == apply_all(m, ps.subrange(0, i)),
    decreases ps.len() - i,
{
    if i < ps.len() {
        let a = ps.subrange(0, i + 1);
        assert(a.drop_last() =~= ps.subrange(0, i));
        lemma_apply_all_err(m, ps, i + 1);
    } else {
        assert(ps.subrange(0, i) =~= ps);
    }
}

} // verus!

verus! {

/// The plain values among `values`, in order.
pub open spec fn plain_values(values: Seq<ValueModel>) -> Seq<Seq<char>>
    decreases values.len(),
{
    if values.len() == 0 {
        Seq::empty()
    } else {
        plain_values(values.drop_last()) + match values.last() {
            ValueModel::Simple(s) => seq![s],
            _ => Seq::empty(),
        }
    }
}

/// The strings joined with one space between each two.
pub open spec fn join_spaced(parts: Seq<Seq<char>>) -> Seq<char>
    decreases parts.len(),
{
    if parts.len() == 0 {
        Seq::empty()
    } else if parts.len() == 1 {
        parts[0]
    } else {
        join_spaced(parts.drop_last()) + seq![' '] + parts.last()
    }
}

/// The plain values of an attribute in markup: a space, the name, and the values
/// joined in quotes; nothing for an attribute without a plain value.
pub open spec fn render_plain(a: AttrModel) -> Seq<char> {
    let parts = plain_values(a.values);
    if parts.len() == 0 {
        Seq::empty()
    } else {
        seq![' '] + a.name + seq!['=', '"'] + join_spaced(parts) + seq!['"']
    }
}

/// Style declarations: each property, a colon, its value and a semicolon, in order.
pub open spec fn render_styles(styles: Seq<(Seq<char>, Seq<char>)>) -> Seq<char>
    decreases styles.len(),
{
    if styles.len() == 0 {
        Seq::empty()
    } else {
        render_styles(styles.drop_last()) + styles.last().0 + seq![':'] + styles.last().1
            + seq![';']
    }
}

/// The style values of an attribute in markup, as a `style` attribute; nothing for an
/// attribute without a style value.
pub open spec fn render_style_attr(values: Seq<ValueModel>) -> Seq<char> {
    let st = grouped(values).styles;
    if st.len() == 0 {
        Seq::empty()
    } else {
        seq![' ', 's', 't', 'y', 'l', 'e', '=', '"'] + render_styles(st) + seq!['"']
    }
}

/// One attribute in markup: its plain values under its own name, then its style values
/// as a `style` attribute. Listeners and function-call values are set on the element
/// and do not appear in markup.
pub open spec fn render_attr(a: AttrModel) -> Seq<char> {
    render_plain(a) + render_style_attr(a.values)
}

/// The elements written as `<tag .../>` with no closing tag: the void elements.
pub open spec fn self_closing(tag: Seq<char>) -> bool {
    tag == "area"@ || tag == "base"@ || tag == "br"@ || tag == "col"@ || tag == "embed"@
        || tag == "hr"@ || tag == "img"@ || tag == "input"@ || tag == "link"@ || tag == "meta"@
        || tag == "param"@ || tag == "source"@ || tag == "track"@ || tag == "wbr"@
}

fn tag_is(tag: &String, name: &str) -> (r: bool)
    ensures
        r == (tag@ == name@),
{
    tag.eq(&String::from_str(name))
}

/// Whether `tag` is written without a closing tag.
pub fn is_self_closing(tag: &String) -> (r: bool)
    ensures
        r == self_closing(tag@),
{
    tag_is(tag, "area") || tag_is(tag, "base") || tag_is(tag, "br") || tag_is(tag, "col")
        || tag_is(tag, "embed") || tag_is(tag, "hr") || tag_is(tag, "img") || tag_is(tag, "input")
        || tag_is(tag, "link") || tag_is(tag, "meta") || tag_is(tag, "param") || tag_is(
        tag,
        "source",
    ) || tag_is(tag, "track") || tag_is(tag, "wbr")
}

/// The markup of each attribute, one after the other.
pub open spec fn render_attrs(attrs: Seq<AttrModel>) -> Seq<char>
    decreases attrs.len(),
{
    if attrs.len() == 0 {
        Seq::empty()
    } else {
        render_attrs(attrs.drop_last()) + render_attr(attrs.last())
    }
}

/// The markup of a realized node.
pub open spec fn render(m: DomModel) -> Seq<char>
    decreases m, 1nat,
{
    match m {
        DomModel::Element { tag, attrs, children, .. } => if self_closing(tag) {
            seq!['<'] + tag + render_attrs(attrs) + seq!['/', '>'] + render_seq(children)
        } else {
            seq!['<'] + tag + render_attrs(attrs) + seq!['>'] + render_seq(children) + seq![
                '<',
                '/',
            ] + tag + seq!['>']
        },
        DomModel::Text(s) => s,
        DomModel::Comment(s) => seq!['<', '!', '-', '-'] + s + seq!['-', '-', '>'],
        DomModel::Fragment(children) => render_seq(children),
    }
}

/// The markup of each node, one after the other.
pub open spec fn render_seq(c: Seq<DomModel>) -> Seq<char>
    decreases c, 0nat,
{
    if c.len() == 0 {
        Seq::empty()
    } else {
        render_seq(c.subrange(0, c.len() - 1)) + render(c[c.len() - 1])
    }
}

fn push_str(buf: &mut String, s: &str)
    ensures
        final(buf)@ == old(buf)@ + s@,
{
    buf.append(s);
}

} // verus!

verus! {

fn render_attr_into(a: &Attribute, buf: &mut String)
    ensures
        final(buf)@ == old(buf)@ + render_attr(a@),
{
    let ghost start = buf@;
    render_plain_into(a, buf);
    let ghost mid = buf@;
    render_styles_into(a, buf);
    assert(buf@ =~= start + render_attr(a@));
}

fn render_styles_into(a: &Attribute, buf: &mut String)
    ensures
        final(buf)@ == old(buf)@ + render_style_attr(a@.values),
{
    let ghost start = buf@;
    let g = a.group_values();
    let ghost st = g@.styles;
    if g.styles.len() == 0 {
        assert(buf@ =~= start + render_style_attr(a@.values));
        return;
    }
    proof {
        reveal_strlit(" style=\"");
        reveal_strlit(":");
        reveal_strlit(";");
        reveal_strlit("\"");
    }
    push_str(buf, " style=\"");
    let ghost mid = buf@;
    let mut i: usize = 0;
    assert(st.subrange(0, 0) =~= Seq::<(Seq<char>, Seq<char>)>::empty());
    while i < g.styles.len()
        invariant
            i <= g.styles.len(),
            st == pairs_view(g.styles@),
            buf@ == mid + render_styles(st.subrange(0, i as int)),
            ":"@ == seq![':'],
            ";"@ == seq![';'],
        decreases g.styles.len() - i,
    {
        assert(st.subrange(0, i + 1).drop_last() =~= st.subrange(0, i as int));
        assert(st.subrange(0, i + 1).last() == (g.styles@[i as int].0@, g.styles@[i as int].1@));
        push_str(buf, g.styles[i].0.as_str());
        push_str(buf, ":");
        push_str(buf, g.styles[i].1.as_str());
        push_str(buf, ";");
        i = i + 1;
        assert(buf@ =~= mid + render_styles(st.subrange(0, i as int)));
    }
    assert(st.subrange(0, g.styles.len() as int) =~= st);
    push_str(buf, "\"");
    assert(buf@ =~= start + render_style_attr(a@.values));
}

fn render_plain_into(a: &Attribute, buf: &mut String)
    ensures
        final(buf)@ == old(buf)@ + render_plain(a@),
{
    let ghost start = buf@;
    let ghost vs = a@.values;
    let mut any = false;
    let mut i: usize = 0;
    let ghost prefix = seq![' '] + a.name@ + seq!['=', '"'];
    proof {
        reveal_strlit(" ");
        reveal_strlit("=\"");
        reveal_strlit("\"");
    }
    assert(vs.subrange(0, 0) =~= Seq::<ValueModel>::empty());
    while i < a.values.len()
        invariant
            i <= a.values.len(),
            vs == a@.values,
            vs.len() == a.values.len(),
            prefix == seq![' '] + a.name@ + seq!['=', '"'],
            any == (plain_values(vs.subrange(0, i as int)).len() > 0),
            buf@ == start + if any {
                prefix + join_spaced(plain_values(vs.subrange(0, i as int)))
            } else {
                Seq::<char>::empty()
            },
            " "@ == seq![' '],
            "=\""@ == seq!['=', '"'],
            "\""@ == seq!['"'],
        decreases a.values.len() - i,
    {
        let ghost parts = plain_values(vs.subrange(0, i as int));
        assert(vs.subrange(0, i + 1).drop_last() =~= vs.subrange(0, i as int));
        assert(vs.subrange(0, i + 1).last() == a.values@[i as int]@);
        match &a.values[i] {
            AttributeValue::Simple(s) => {
                let ghost next = parts + seq![s@];
                assert(plain_values(vs.subrange(0, i + 1)) == next);
                if !any {
                    assert(parts.len() == 0);
                    assert(next =~= seq![s@]);
                    push_str(buf, " ");
                    push_str(buf, a.name.as_str());
                    push_str(buf, "=\"");
                    push_str(buf, s.as_str());
                    assert(buf@ =~= start + prefix + join_spaced(next));
                    any = true;
                } else {
                    assert(next.drop_last() =~= parts);
                    push_str(buf, " ");
                    push_str(buf, s.as_str());
                    assert(buf@ =~= start + (prefix + join_spaced(next)));
                }
            },
            _ => {
                assert(plain_values(vs.subrange(0, i + 1)) =~= parts);
            },
        }
        i = i + 1;
    }
    assert(vs.subrange(0, a.values.len() as int) =~= vs);
    if any {
        push_str(buf, "\"");
    }
    assert(buf@ =~= start + render_plain(a@));
}

fn render_attrs_into(attrs: &Vec<Attribute>, buf: &mut String)
    ensures
        final(buf)@ == old(buf)@ + render_attrs(attrs_view(attrs@)),
{
    let ghost start = buf@;
    let ghost av = attrs_view(attrs@);
    let mut i: usize = 0;
    assert(av.subrange(0, 0) =~= Seq::<AttrModel>::empty());
    while i < attrs.len()
        invariant
            i <= attrs.len(),
            av == attrs_view(attrs@),
            buf@ == start + render_attrs(av.subrange(0, i as int)),
        decreases attrs.len() - i,
    {
        assert(av.subrange(0, i + 1).drop_last() =~= av.subrange(0, i as int));
        assert(av.subrange(0, i + 1).last() == attrs@[i as int]@);
        render_attr_into(&attrs[i], buf);
        i = i + 1;
        assert(buf@ =~= start + render_attrs(av.subrange(0, i as int)));
    }
    assert(av.subrange(0, attrs.len() as int) =~= av);
}

fn render_children_into(children: &Vec<DomNode>, buf: &mut String)
    ensures
        final(buf)@ == old(buf)@ + render_seq(dom_seq_view(*children)),
    decreases children, 0nat,
{
    let ghost start = buf@;
    let ghost kv = dom_seq_view(*children);
    let mut i: usize = 0;
    assert(kv.subrange(0, 0) =~= Seq::<DomModel>::empty());
    while i < children.len()
        invariant
            i <= children.len(),
            kv == dom_seq_view(*children),
            kv.len() == children.len(),
            buf@ == start + render_seq(kv.subrange(0, i as int)),
        decreases children.len() - i,
    {
        let ghost sub = kv.subrange(0, i + 1);
        assert(sub.subrange(0, sub.len() - 1) =~= kv.subrange(0, i as int));
        proof {
            lemma_dom_child(*children, i as int);
        }
        assert(sub[sub.len() - 1] == children@[i as int]@);
        children[i].render_into(buf);
        i = i + 1;
        assert(buf@ =~= start + render_seq(kv.subrange(0, i as int)));
    }
    assert(kv.subrange(0, children.len() as int) =~= kv);
}

impl DomNode {
    fn render_into(&self, buf: &mut String)
        ensures
            final(buf)@ == old(buf)@ + render(self@),
        decreases self, 1nat,
    {
        let ghost start = buf@;
        proof {
            reveal_strlit("<");
            reveal_strlit(">");
            reveal_strlit("</");
            reveal_strlit("<!--");
            reveal_strlit("-->");
        }
        match self {
            DomNode::Element { tag, attrs, children, .. } => {
                push_str(buf, "<");
                push_str(buf, tag.as_str());
                render_attrs_into(attrs, buf);
                if is_self_closing(tag) {
                    proof {
                        reveal_strlit("/>");
                    }
                    push_str(buf, "/>");
                    render_children_into(children, buf);
                    assert(buf@ =~= start + render(self@));
                    return;
                }
                push_str(buf, ">");
                render_children_into(children, buf);
                push_str(buf, "</");
                push_str(buf, tag.as_str());
                push_str(buf, ">");
                assert(buf@ =~= start + render(self@));
            },
            DomNode::Text(s) => {
                push_str(buf, s.as_str());
            },
            DomNode::Comment(s) => {
                push_str(buf, "<!--");
                push_str(buf, s.as_str());
                push_str(buf, "-->");
                assert(buf@ =~= start + render(self@));
            },
            DomNode::Fragment(children) => {
                render_children_into(children, buf);
            },
        }
    }

    /// The markup of this node and all below it. Attributes come in the order the node
    /// holds them, each with its plain values under its own name and its style values
    /// as a `style` attribute; a void element is written `<tag .../>` with no closing
    /// tag; text and comments are written as they are.
    pub fn render_to_string(&self) -> (r: String)
        ensures
            r@ == render(self@),
    {
        let mut buf = String::new();
        self.render_into(&mut buf);
        assert(buf@ =~= render(self@));
        buf
    }
}

} // verus!

verus! {

/// The node itself, or for a component the view it resolves to, all the way down.
pub open spec fn resolved(n: Node) -> Node
    decreases n,
{
    match n {
        Node::Leaf(Leaf::StatelessComponent(b)) => resolved(*b),
        _ => n,
    }
}

/// The children of an element, a fragment or a root list.
pub open spec fn node_children(n: Node) -> Option<Vec<Node>> {
    match n {
        Node::Element(e) => Some(e.children),
        Node::Leaf(Leaf::Fragment(v)) => Some(v),
        Node::Leaf(Leaf::NodeList(v)) => Some(v),
        _ => None,
    }
}

/// The tree node reached by following `path` from `n`, looking through components.
pub open spec fn node_at(n: Node, path: Seq<usize>) -> Option<Node>
    decreases path.len(),
{
    if path.len() == 0 {
        Some(n)
    } else {
        match node_children(resolved(n)) {
            Some(v) => if path[0] < v.len() {
                node_at(v[path[0] as int], path.drop_first())
            } else {
                None
            },
            None => None,
        }
    }
}

proof fn lemma_resolved(n: Node)
    requires
        realizable(n),
    ensures
        realize(resolved(n)) == realize(n),
        realizable(resolved(n)),
        !(resolved(n) matches Node::Leaf(Leaf::StatelessComponent(_))),
    decreases n,
{
    if let Node::Leaf(Leaf::StatelessComponent(b)) = n {
        lemma_resolved(*b);
    }
}

/// A path leads, in the realization of `n`, to the realization of the node it leads
/// to in `n`, and to nothing where an index along it is out of range.
pub proof fn lemma_path_addressing(n: Node, path: Seq<usize>)
    requires
        realizable(n),
    ensures
        realize(n).at_path(path) == match node_at(n, path) {
            Some(x) => Some(realize(x)),
            None => None::<DomModel>,
        },
    decreases path.len(),
{
    if path.len() > 0 {
        lemma_resolved(n);
        let r = resolved(n);
        match node_children(r) {
            Some(v) => {
                assert(all_realizable(v));
                assert(realize(n).kids() == Some(realize_all(v)));
                if path[0] < v.len() {
                    assert(realizable(v[path[0] as int]));
                    lemma_path_addressing(v[path[0] as int], path.drop_first());
                }
            },
            None => {
                if let Some(k) = realize(r).kids() {
                    assert(k.len() == 0);
                }
            },
        }
    }
}

} // verus!

verus! {

fn push_child(children: &mut Vec<DomNode>, child: DomNode)
    ensures
        dom_seq_view(*final(children)) == dom_seq_view(*old(children)).push(child@),
{
    let ghost before = *children;
    let ghost cv = child@;
    children.push(child);
    assert forall|x: int| 0 <= x < children.len() implies #[trigger] dom_seq_view(*children)[x]
        == dom_seq_view(before).push(cv)[x] by {
        lemma_dom_child(*children, x);
        if x < before.len() {
            lemma_dom_child(before, x);
        }
    }
    assert(dom_seq_view(*children) =~= dom_seq_view(before).push(cv));
}

fn clone_children(v: &Vec<DomNode>) -> (r: Vec<DomNode>)
    ensures
        dom_seq_view(r) == dom_seq_view(*v),
    decreases v, 0nat,
{
    let mut out: Vec<DomNode> = Vec::new();
    let mut i: usize = 0;
    while i < v.len()
        invariant
            i <= v.len(),
            out.len() == i,
            forall|j: int| 0 <= j < i ==> (#[trigger] out@[j])@ == v@[j]@,
        decreases v.len() - i,
    {
        let c = v[i].deep_clone();
        out.push(c);
        i = i + 1;
    }
    assert forall|j: int| 0 <= j < out.len() implies #[trigger] dom_seq_view(out)[j]
        == dom_seq_view(*v)[j] by {
        lemma_dom_child(out, j);
        lemma_dom_child(*v, j);
    }
    assert(dom_seq_view(out) =~= dom_seq_view(*v));
    out
}

impl DomNode {
    /// A copy of this node and everything below it.
    pub fn deep_clone(&self) -> (r: DomNode)
        ensures
            r@ == self@,
        decreases self, 1nat,
    {
        match self {
            DomNode::Element { namespace, tag, attrs, children } => {
                let namespace = match namespace {
                    Some(s) => Some(s.clone()),
                    None => None,
                };
                let mut copied: Vec<Attribute> = Vec::new();
                let mut i: usize = 0;
                while i < attrs.len()
                    invariant
                        i <= attrs.len(),
                        copied.len() == i,
                        forall|j: int| 0 <= j < i ==> (#[trigger] copied@[j])@ == attrs@[j]@,
                    decreases attrs.len() - i,
                {
                    copied.push(attrs[i].duplicate());
                    i = i + 1;
                }
                assert(attrs_view(copied@) =~= attrs_view(attrs@));
                DomNode::Element {
                    namespace,
                    tag: tag.clone(),
                    attrs: copied,
                    children: clone_children(children),
                }
            },
            DomNode::Text(s) => DomNode::Text(s.clone()),
            DomNode::Comment(s) => DomNode::Comment(s.clone()),
            DomNode::Fragment(children) => DomNode::Fragment(clone_children(children)),
        }
    }

    /// Removes every child of an element or fragment; other nodes are left as they are.
    pub fn clear_children(&mut self)
        ensures
            match old(self)@.kids() {
                Some(_) => final(self)@ == old(self)@.with_kids(Seq::empty()),
                None => final(self)@ == old(self)@,
            },
    {
        match self {
            DomNode::Element { children, .. } => {
                children.clear();
                assert(dom_seq_view(*children) =~= Seq::<DomModel>::empty());
            },
            DomNode::Fragment(children) => {
                children.clear();
                assert(dom_seq_view(*children) =~= Seq::<DomModel>::empty());
            },
            _ => {},
        }
    }

    /// Appends `child` to the children of this element or fragment.
    pub fn append_child(&mut self, child: DomNode)
        requires
            old(self)@.kids() is Some,
        ensures
            final(self)@ == old(self)@.with_kids(old(self)@.kids()->0.push(child@)),
    {
        match self {
            DomNode::Element { children, .. } => {
                push_child(children, child);
            },
            DomNode::Fragment(children) => {
                push_child(children, child);
            },
            _ => {},
        }
    }

    /// Whether this node is a fragment.
    pub fn is_fragment(&self) -> (r: bool)
        ensures
            r == (self@ is Fragment),
    {
        match self {
            DomNode::Fragment(_) => true,
            _ => false,
        }
    }

    /// The tag of an element.
    pub fn tag(&self) -> (r: Option<&String>)
        ensures
            match r {
                Some(t) => self@ is Element && t@ == self@->tag,
                None => !(self@ is Element),
            },
    {
        match self {
            DomNode::Element { tag, .. } => Some(tag),
            _ => None,
        }
    }
}

} // verus!
