//! The diff engine: what patches turn one tree into another, stated as a spec function
//! and computed by a recursive walk, with the laws it obeys.
use vstd::prelude::*;
use crate::patch::{nodes_view, names_view, patches_view, Patch, PatchModel};
use crate::skip_diff::{SkipDiff, SkipModel};
use crate::tree_path::TreePath;
use crate::vdom::{
    all_listener_free, attrs_listener_free, lemma_merged_listener_free, listener_free, attrs_view, find_name, has_listener, merge_attributes_of_same_name, merged, names_unique,
    opt_string_eq, same_element_kind, AttrModel, Attribute, Element, Leaf, Node,
    component_attrs, component_attrs_vec, ValueModel,
};

verus! {

/// The overlay of the child at `k`, where the overlay reaches that far.
pub open spec fn child_skip(skip: Option<SkipModel>, k: int) -> Option<SkipModel> {
    match skip {
        Some(s) => if 0 <= k < s.children.len() {
            Some(s.children[k])
        } else {
            None
        },
        None => None,
    }
}

/// The overlay says to stop diffing at this node.
pub open spec fn skips_node(skip: Option<SkipModel>) -> bool {
    match skip {
        Some(s) => s.shall_skip_node(),
        None => false,
    }
}

/// The overlay says to leave this node's attributes alone.
pub open spec fn skips_attrs(skip: Option<SkipModel>) -> bool {
    match skip {
        Some(s) => s.shall,
        None => false,
    }
}

/// The view of an optional overlay.
pub open spec fn skip_view(skip: Option<&SkipDiff>) -> Option<SkipModel> {
    match skip {
        Some(s) => Some(s@),
        None => None,
    }
}

/// A new attribute must be set: the old node has none equal to it, or it carries a
/// listener, which can never be compared.
pub open spec fn attr_changed(om: Seq<AttrModel>, a: AttrModel) -> bool {
    has_listener(a.values) || !(exists|j: int| 0 <= j < om.len() && om[j] == a)
}

/// The attributes of `nm` that must be set, in order.
pub open spec fn added_attrs(om: Seq<AttrModel>, nm: Seq<AttrModel>) -> Seq<AttrModel>
    decreases nm.len(),
{
    if nm.len() == 0 {
        Seq::empty()
    } else {
        added_attrs(om, nm.drop_last()) + if attr_changed(om, nm.last()) {
            seq![nm.last()]
        } else {
            Seq::empty()
        }
    }
}

/// The names of the attributes of `om` that `nm` no longer has, in order.
pub open spec fn removed_names(om: Seq<AttrModel>, nm: Seq<AttrModel>) -> Seq<Seq<char>>
    decreases om.len(),
{
    if om.len() == 0 {
        Seq::empty()
    } else {
        removed_names(om.drop_last(), nm) + if find_name(nm, om.last().name) is None {
            seq![om.last().name]
        } else {
            Seq::empty()
        }
    }
}

/// At most one patch that sets attributes, then at most one that removes them.
pub open spec fn attr_patches(om: Seq<AttrModel>, nm: Seq<AttrModel>, path: Seq<usize>) -> Seq<
    PatchModel,
> {
    let added = added_attrs(om, nm);
    let removed = removed_names(om, nm);
    (if added.len() > 0 {
        seq![PatchModel::AddAttributes { path, attrs: added }]
    } else {
        Seq::empty()
    }) + (if removed.len() > 0 {
        seq![PatchModel::RemoveAttributes { path, names: removed }]
    } else {
        Seq::empty()
    })
}

/// Removal of the old children from `ol - 1` down to `nl`, the last one first, so that
/// each path still holds when its patch is applied.
pub open spec fn removals(ol: int, nl: int, path: Seq<usize>) -> Seq<PatchModel> {
    Seq::new(
        (ol - nl) as nat,
        |i: int| PatchModel::RemoveNode { path: path.push((ol - 1 - i) as usize) },
    )
}

/// What follows the paired children: new ones appended, or extra old ones removed.
pub open spec fn tail_patches(ol: int, news: Seq<Node>, path: Seq<usize>) -> Seq<PatchModel> {
    if news.len() > ol {
        seq![PatchModel::AppendChildren { path, nodes: news.subrange(ol, news.len() as int) }]
    } else if ol > news.len() {
        removals(ol, news.len() as int, path)
    } else {
        Seq::empty()
    }
}

/// The smaller of two integers.
pub open spec fn min(a: int, b: int) -> int {
    if a < b {
        a
    } else {
        b
    }
}

/// The patches that turn `old` into `new` at `path`, in depth-first order.
pub open spec fn diff_spec(old: Node, new: Node, skip: Option<SkipModel>, path: Seq<usize>) -> Seq<
    PatchModel,
>
    decreases old, 0nat,
{
    if skips_node(skip) {
        Seq::empty()
    } else {
        match (old, new) {
            (Node::Element(o), Node::Element(n)) => if same_element_kind(o, n) {
                (if skips_attrs(skip) {
                    Seq::empty()
                } else {
                    attr_patches(merged(attrs_view(o.attrs@)), merged(attrs_view(n.attrs@)), path)
                }) + children_diff(
                    o.children,
                    n.children@,
                    skip,
                    path,
                    min(o.children.len() as int, n.children.len() as int) as nat,
                ) + tail_patches(o.children.len() as int, n.children@, path)
            } else {
                seq![PatchModel::ReplaceNode { path, node: new }]
            },
            (Node::Leaf(Leaf::Text(a)), Node::Leaf(Leaf::Text(b))) => if a@ == b@ {
                Seq::empty()
            } else {
                seq![PatchModel::SetText { path, text: b@ }]
            },
            (Node::Leaf(Leaf::Comment(a)), Node::Leaf(Leaf::Comment(b))) => if a@ == b@ {
                Seq::empty()
            } else {
                seq![PatchModel::ReplaceNode { path, node: new }]
            },
            (Node::Leaf(Leaf::Fragment(a)), Node::Leaf(Leaf::Fragment(b))) => children_diff(
                a,
                b@,
                skip,
                path,
                min(a.len() as int, b.len() as int) as nat,
            ) + tail_patches(a.len() as int, b@, path),
            (Node::Leaf(Leaf::NodeList(a)), Node::Leaf(Leaf::NodeList(b))) => children_diff(
                a,
                b@,
                skip,
                path,
                min(a.len() as int, b.len() as int) as nat,
            ) + tail_patches(a.len() as int, b@, path),
            (
                Node::Leaf(Leaf::StatelessComponent(a)),
                Node::Leaf(Leaf::StatelessComponent(b)),
            ) => diff_spec(*a, *b, skip, path),
            (
                Node::Leaf(Leaf::StatefulComponent(a)),
                Node::Leaf(Leaf::StatefulComponent(b)),
            ) => if skips_attrs(skip) {
                Seq::empty()
            } else {
                attr_patches(merged(component_attrs(a)), merged(component_attrs(b)), path)
            },
            (Node::Leaf(Leaf::TemplatedView(a)), Node::Leaf(Leaf::TemplatedView(b))) => diff_spec(
                *a,
                *b,
                skip,
                path,
            ),
            (Node::Leaf(Leaf::SafeHtml(a)), Node::Leaf(Leaf::SafeHtml(b))) => if a@ == b@ {
                Seq::empty()
            } else {
                seq![PatchModel::ReplaceNode { path, node: new }]
            },
            (Node::Leaf(Leaf::DocType(a)), Node::Leaf(Leaf::DocType(b))) => if a@ == b@ {
                Seq::empty()
            } else {
                seq![PatchModel::ReplaceNode { path, node: new }]
            },
            _ => seq![PatchModel::ReplaceNode { path, node: new }],
        }
    }
}

/// The patches of the first `k` paired children, in order.
pub open spec fn children_diff(
    olds: Vec<Node>,
    news: Seq<Node>,
    skip: Option<SkipModel>,
    path: Seq<usize>,
    k: nat,
) -> Seq<PatchModel>
    decreases olds, k,
{
    if k == 0 || k > olds.len() || k > news.len() {
        Seq::empty()
    } else {
        children_diff(olds, news, skip, path, (k - 1) as nat) + diff_spec(
            olds[k - 1],
            news[k - 1],
            child_skip(skip, k - 1),
            path.push((k - 1) as usize),
        )
    }
}

} // verus!

verus! {

fn push_patch<'a>(out: &mut Vec<Patch<'a>>, p: Patch<'a>)
    ensures
        patches_view(final(out)@) == patches_view(old(out)@).push(p@),
{
    let ghost before = out@;
    let ghost pv = p@;
    out.push(p);
    assert(patches_view(out@) =~= patches_view(before).push(pv));
}

/// Whether `om` holds an attribute equal to `a`.
fn contains_same(om: &Vec<Attribute>, a: &Attribute) -> (r: bool)
    ensures
        r == exists|j: int| 0 <= j < om.len() && attrs_view(om@)[j] == a@,
{
    let mut i: usize = 0;
    while i < om.len()
        invariant
            i <= om.len(),
            forall|j: int| 0 <= j < i ==> attrs_view(om@)[j] != a@,
        decreases om.len() - i,
    {
        if om[i].same_as(a) {
            assert(attrs_view(om@)[i as int] == a@);
            return true;
        }
        i = i + 1;
    }
    false
}

/// Appends the attribute patches between the merged attributes `om` and `nm`.
fn diff_attributes<'a>(
    om: &Vec<Attribute>,
    nm: &Vec<Attribute>,
    path: &TreePath,
    out: &mut Vec<Patch<'a>>,
)
    ensures
        patches_view(final(out)@) == patches_view(old(out)@) + attr_patches(
            attrs_view(om@),
            attrs_view(nm@),
            path@,
        ),
{
    let ghost omv = attrs_view(om@);
    let ghost nmv = attrs_view(nm@);
    let mut added: Vec<Attribute> = Vec::new();
    let mut i: usize = 0;
    assert(nmv.subrange(0, 0) =~= Seq::<AttrModel>::empty());
    while i < nm.len()
        invariant
            i <= nm.len(),
            nmv == attrs_view(nm@),
            omv == attrs_view(om@),
            attrs_view(added@) == added_attrs(omv, nmv.subrange(0, i as int)),
        decreases nm.len() - i,
    {
        let ghost before = added@;
        assert(nmv.subrange(0, i + 1).drop_last() =~= nmv.subrange(0, i as int));
        assert(nmv.subrange(0, i + 1).last() == nm@[i as int]@);
        if nm[i].has_listener() || !contains_same(om, &nm[i]) {
            added.push(nm[i].duplicate());
            assert(attrs_view(added@) =~= attrs_view(before) + seq![nm@[i as int]@]);
        } else {
            assert(attrs_view(added@) =~= attrs_view(before) + Seq::<AttrModel>::empty());
        }
        i = i + 1;
    }
    assert(nmv.subrange(0, nm.len() as int) =~= nmv);
    let mut removed: Vec<String> = Vec::new();
    let mut i: usize = 0;
    assert(omv.subrange(0, 0) =~= Seq::<AttrModel>::empty());
    while i < om.len()
        invariant
            i <= om.len(),
            nmv == attrs_view(nm@),
            omv == attrs_view(om@),
            names_view(removed@) == removed_names(omv.subrange(0, i as int), nmv),
        decreases om.len() - i,
    {
        let ghost before = removed@;
        assert(omv.subrange(0, i + 1).drop_last() =~= omv.subrange(0, i as int));
        assert(omv.subrange(0, i + 1).last() == om@[i as int]@);
        match crate::vdom::position_of(nm, &om[i].name) {
            Some(j) => {
                assert(nmv[j as int].name == om@[i as int]@.name);
                assert(find_name(nmv, om@[i as int]@.name) is Some);
                assert(names_view(removed@) =~= names_view(before) + Seq::<Seq<char>>::empty());
            },
            None => {
                assert(find_name(nmv, om@[i as int]@.name) is None);
                removed.push(om[i].name.clone());
                assert(names_view(removed@) =~= names_view(before) + seq![om@[i as int]@.name]);
            },
        }
        i = i + 1;
    }
    assert(omv.subrange(0, om.len() as int) =~= omv);
    let ghost start = patches_view(out@);
    let ghost added_v = attrs_view(added@);
    let ghost removed_v = names_view(removed@);
    if added.len() > 0 {
        push_patch(out, Patch::AddAttributes { path: path.duplicate(), attrs: added });
    }
    let ghost mid = patches_view(out@);
    if removed.len() > 0 {
        push_patch(out, Patch::RemoveAttributes { path: path.duplicate(), names: removed });
    }
    assert(patches_view(out@) =~= start + attr_patches(omv, nmv, path@));
}

/// Appends the patches of the paired children of `olds` and `news`, then those that
/// append or remove the rest.
fn diff_children<'a>(
    olds: &Vec<Node>,
    news: &'a Vec<Node>,
    skip: Option<&SkipDiff>,
    path: &TreePath,
    out: &mut Vec<Patch<'a>>,
)
    ensures
        patches_view(final(out)@) == patches_view(old(out)@) + children_diff(
            *olds,
            news@,
            skip_view(skip),
            path@,
            min(olds.len() as int, news.len() as int) as nat,
        ) + tail_patches(olds.len() as int, news@, path@),
    decreases olds, 1nat,
{
    let ghost start = patches_view(out@);
    let ghost sv = skip_view(skip);
    let n: usize = if olds.len() < news.len() {
        olds.len()
    } else {
        news.len()
    };
    let mut i: usize = 0;
    while i < n
        invariant
            i <= n,
            n == min(olds.len() as int, news.len() as int),
            sv == skip_view(skip),
            patches_view(out@) == start + children_diff(*olds, news@, sv, path@, i as nat),
        decreases n - i,
    {
        let cs = match skip {
            Some(s) => s.traverse(i),
            None => None,
        };
        assert(skip_view(cs) == child_skip(sv, i as int));
        let cp = path.traverse(i);
        let ghost mid = patches_view(out@);
        diff_node(&olds[i], &news[i], cs, &cp, out);
        assert(children_diff(*olds, news@, sv, path@, (i + 1) as nat) == children_diff(
            *olds,
            news@,
            sv,
            path@,
            i as nat,
        ) + diff_spec(olds[i as int], news@[i as int], child_skip(sv, i as int), path@.push(i)));
        assert(patches_view(out@) =~= start + children_diff(
            *olds,
            news@,
            sv,
            path@,
            (i + 1) as nat,
        ));
        i = i + 1;
    }
    let ghost base = patches_view(out@);
    let ol = olds.len();
    let nl = news.len();
    if nl > ol {
        let mut nodes: Vec<&'a Node> = Vec::new();
        let mut j: usize = ol;
        while j < nl
            invariant
                ol <= j <= nl,
                nl == news.len(),
                nodes.len() == j - ol,
                forall|k: int| 0 <= k < nodes.len() ==> *(#[trigger] nodes@[k]) == news@[ol + k],
            decreases nl - j,
        {
            let r: &'a Node = &news[j];
            nodes.push(r);
            j = j + 1;
        }
        assert(nodes_view(nodes@) =~= news@.subrange(ol as int, nl as int));
        push_patch(out, Patch::AppendChildren { path: path.duplicate(), nodes });
        assert(patches_view(out@) =~= base + tail_patches(ol as int, news@, path@));
    } else if ol > nl {
        let mut j: usize = 0;
        let count = ol - nl;
        while j < count
            invariant
                j <= count,
                count == ol - nl,
                patches_view(out@) == base + removals(ol as int, nl as int, path@).subrange(0, j as int),
            decreases count - j,
        {
            let p = path.traverse(ol - 1 - j);
            push_patch(out, Patch::RemoveNode { path: p });
            j = j + 1;
            assert(patches_view(out@) =~= base + removals(ol as int, nl as int, path@).subrange(
                0,
                j as int,
            ));
        }
        assert(removals(ol as int, nl as int, path@).subrange(0, count as int) =~= removals(
            ol as int,
            nl as int,
            path@,
        ));
        assert(patches_view(out@) =~= base + tail_patches(ol as int, news@, path@));
    } else {
        assert(patches_view(out@) =~= base + tail_patches(ol as int, news@, path@));
    }
}

fn push_replace<'a>(next: &'a Node, path: &TreePath, out: &mut Vec<Patch<'a>>)
    ensures
        patches_view(final(out)@) == patches_view(old(out)@) + seq![
            PatchModel::ReplaceNode { path: path@, node: *next },
        ],
{
    let ghost start = patches_view(out@);
    push_patch(out, Patch::ReplaceNode { path: path.duplicate(), node: next });
    assert(patches_view(out@) =~= start + seq![PatchModel::ReplaceNode { path: path@, node: *next }]);
}

/// Appends the patches that turn `prev` into `next` at `path`.
fn diff_node<'a>(
    prev: &Node,
    next: &'a Node,
    skip: Option<&SkipDiff>,
    path: &TreePath,
    out: &mut Vec<Patch<'a>>,
)
    ensures
        patches_view(final(out)@) == patches_view(old(out)@) + diff_spec(
            *prev,
            *next,
            skip_view(skip),
            path@,
        ),
    decreases prev, 0nat,
{
    let ghost start = patches_view(out@);
    let ghost sv = skip_view(skip);
    let stop = match skip {
        Some(s) => s.shall_skip_node(),
        None => false,
    };
    if stop {
        assert(patches_view(out@) =~= start + diff_spec(*prev, *next, sv, path@));
        return ;
    }
    match (prev, next) {
        (Node::Element(o), Node::Element(n)) => {
            if o.tag.eq(&n.tag) && opt_string_eq(&o.namespace, &n.namespace) {
                let skip_attrs = match skip {
                    Some(s) => s.shall,
                    None => false,
                };
                if !skip_attrs {
                    let om = merge_attributes_of_same_name(&o.attrs);
                    let nm = merge_attributes_of_same_name(&n.attrs);
                    diff_attributes(&om, &nm, path, out);
                }
                let ghost mid = patches_view(out@);
                diff_children(&o.children, &n.children, skip, path, out);
                assert(patches_view(out@) =~= start + diff_spec(*prev, *next, sv, path@));
            } else {
                push_replace(next, path, out);
            }
        },
        (Node::Leaf(Leaf::Text(a)), Node::Leaf(Leaf::Text(b))) => {
            if !a.eq(b) {
                push_patch(out, Patch::SetText { path: path.duplicate(), text: b.clone() });
            }
            assert(patches_view(out@) =~= start + diff_spec(*prev, *next, sv, path@));
        },
        (Node::Leaf(Leaf::Comment(a)), Node::Leaf(Leaf::Comment(b))) => {
            if !a.eq(b) {
                push_replace(next, path, out);
            }
            assert(patches_view(out@) =~= start + diff_spec(*prev, *next, sv, path@));
        },
        (Node::Leaf(Leaf::Fragment(a)), Node::Leaf(Leaf::Fragment(b))) => {
            diff_children(a, b, skip, path, out);
            assert(patches_view(out@) =~= start + diff_spec(*prev, *next, sv, path@));
        },
        (Node::Leaf(Leaf::NodeList(a)), Node::Leaf(Leaf::NodeList(b))) => {
            diff_children(a, b, skip, path, out);
            assert(patches_view(out@) =~= start + diff_spec(*prev, *next, sv, path@));
        },
        (Node::Leaf(Leaf::StatelessComponent(a)), Node::Leaf(Leaf::StatelessComponent(b))) => {
            diff_node(a, b, skip, path, out);
        },
        (Node::Leaf(Leaf::StatefulComponent(a)), Node::Leaf(Leaf::StatefulComponent(b))) => {
            let skip_attrs = match skip {
                Some(s) => s.shall,
                None => false,
            };
            if !skip_attrs {
                let om = merge_attributes_of_same_name(&component_attrs_vec(a));
                let nm = merge_attributes_of_same_name(&component_attrs_vec(b));
                diff_attributes(&om, &nm, path, out);
            }
            assert(patches_view(out@) =~= start + diff_spec(*prev, *next, sv, path@));
        },
        (Node::Leaf(Leaf::TemplatedView(a)), Node::Leaf(Leaf::TemplatedView(b))) => {
            diff_node(a, b, skip, path, out);
        },
        (Node::Leaf(Leaf::SafeHtml(a)), Node::Leaf(Leaf::SafeHtml(b))) => {
            if !a.eq(b) {
                push_replace(next, path, out);
            }
            assert(patches_view(out@) =~= start + diff_spec(*prev, *next, sv, path@));
        },
        (Node::Leaf(Leaf::DocType(a)), Node::Leaf(Leaf::DocType(b))) => {
            if !a.eq(b) {
                push_replace(next, path, out);
            }
            assert(patches_view(out@) =~= start + diff_spec(*prev, *next, sv, path@));
        },
        _ => {
            push_replace(next, path, out);
        },
    }
}

/// The patches that turn `prev` into `next`, addressed from the root of both.
pub fn diff<'a>(prev: &Node, next: &'a Node) -> (r: Vec<Patch<'a>>)
    ensures
        patches_view(r@) == diff_spec(*prev, *next, None, Seq::empty()),
{
    let mut out: Vec<Patch<'a>> = Vec::new();
    let root = TreePath::root();
    diff_node(prev, next, None, &root, &mut out);
    assert(patches_view(out@) =~= diff_spec(*prev, *next, None, Seq::empty()));
    out
}

/// The patches that turn `prev` into `next`, leaving out what the overlay `skip` marks.
pub fn diff_with_skip_diff<'a>(prev: &Node, next: &'a Node, skip: &SkipDiff) -> (r: Vec<Patch<'a>>)
    ensures
        patches_view(r@) == diff_spec(*prev, *next, Some(skip@), Seq::empty()),
{
    let mut out: Vec<Patch<'a>> = Vec::new();
    let root = TreePath::root();
    diff_node(prev, next, Some(skip), &root, &mut out);
    assert(patches_view(out@) =~= diff_spec(*prev, *next, Some(skip@), Seq::empty()));
    out
}

} // verus!

verus! {

/// `om` holds an attribute equal to `a`.
pub open spec fn attr_in(om: Seq<AttrModel>, a: AttrModel) -> bool {
    exists|j: int| 0 <= j < om.len() && #[trigger] om[j] == a
}

/// No attribute is set where every new one is among the old ones and none is a listener.
pub proof fn lemma_added_none(om: Seq<AttrModel>, nm: Seq<AttrModel>)
    requires
        forall|i: int| 0 <= i < nm.len() ==> attr_in(om, #[trigger] nm[i]),
        attrs_listener_free(nm),
    ensures
        added_attrs(om, nm).len() == 0,
    decreases nm.len(),
{
    if nm.len() > 0 {
        let p = nm.drop_last();
        assert forall|i: int| 0 <= i < p.len() implies attr_in(om, #[trigger] p[i]) by {
            assert(p[i] == nm[i]);
        }
        assert(attrs_listener_free(p)) by {
            assert forall|i: int| 0 <= i < p.len() implies !has_listener((#[trigger] p[i]).values) by {
                assert(p[i] == nm[i]);
            }
        }
        lemma_added_none(om, p);
        assert(nm.last() == nm[nm.len() - 1]);
        assert(attr_in(om, nm[nm.len() - 1]));
        assert(!attr_changed(om, nm.last()));
    }
}

/// `nm` holds an attribute called `name`.
pub open spec fn name_in(nm: Seq<AttrModel>, name: Seq<char>) -> bool {
    exists|j: int| 0 <= j < nm.len() && (#[trigger] nm[j]).name == name
}

/// No attribute is removed where every old name is still present.
pub proof fn lemma_removed_none(om: Seq<AttrModel>, nm: Seq<AttrModel>)
    requires
        forall|i: int| 0 <= i < om.len() ==> name_in(nm, (#[trigger] om[i]).name),
    ensures
        removed_names(om, nm).len() == 0,
    decreases om.len(),
{
    if om.len() > 0 {
        let p = om.drop_last();
        assert forall|i: int| 0 <= i < p.len() implies name_in(nm, (#[trigger] p[i]).name) by {
            assert(p[i] == om[i]);
        }
        lemma_removed_none(p, nm);
        assert(om.last() == om[om.len() - 1]);
        assert(name_in(nm, om[om.len() - 1].name));
    }
}

/// Attributes without listeners compared with themselves yield no attribute patch.
pub proof fn lemma_attr_patches_same(attrs: Seq<AttrModel>, path: Seq<usize>)
    requires
        attrs_listener_free(attrs),
    ensures
        attr_patches(merged(attrs), merged(attrs), path).len() == 0,
{
    let m = merged(attrs);
    lemma_merged_listener_free(attrs);
    assert forall|i: int| 0 <= i < m.len() implies attr_in(m, #[trigger] m[i]) by {
        assert(m[i] == m[i]);
    }
    assert forall|i: int| 0 <= i < m.len() implies name_in(m, (#[trigger] m[i]).name) by {
        assert(m[i].name == m[i].name);
    }
    lemma_added_none(m, m);
    lemma_removed_none(m, m);
}

/// Diffing a node that declares no event listener against itself yields no patch,
/// whatever the overlay.
pub proof fn lemma_diff_identical(n: Node, skip: Option<SkipModel>, path: Seq<usize>)
    requires
        listener_free(n),
    ensures
        diff_spec(n, n, skip, path).len() == 0,
    decreases n, 0nat,
{
    if !skips_node(skip) {
        match n {
            Node::Element(e) => {
                if !skips_attrs(skip) {
                    lemma_attr_patches_same(attrs_view(e.attrs@), path);
                }
                lemma_children_identical(e.children, skip, path, e.children.len() as nat);
            },
            Node::Leaf(Leaf::Fragment(v)) => {
                lemma_children_identical(v, skip, path, v.len() as nat);
            },
            Node::Leaf(Leaf::NodeList(v)) => {
                lemma_children_identical(v, skip, path, v.len() as nat);
            },
            Node::Leaf(Leaf::StatelessComponent(b)) => {
                lemma_diff_identical(*b, skip, path);
            },
            Node::Leaf(Leaf::StatefulComponent(c)) => {
                if !skips_attrs(skip) {
                    let ca = component_attrs(c);
                    assert(attrs_listener_free(ca)) by {
                        assert forall|i: int| 0 <= i < ca.len() implies !has_listener(
                            (#[trigger] ca[i]).values,
                        ) by {
                            if i == 0 {
                                let v = ca[0].values;
                                assert(v == seq![ValueModel::Simple("component"@)]);
                                if has_listener(v) {
                                    let k = choose|k: int| 0 <= k < v.len() && (#[trigger] v[k]) is EventListener;
                                    assert(k == 0);
                                }
                            } else {
                                assert(ca[i] == attrs_view(c.attrs@)[i - 1]);
                            }
                        }
                    }
                    lemma_attr_patches_same(ca, path);
                }
            },
            Node::Leaf(Leaf::TemplatedView(b)) => {
                lemma_diff_identical(*b, skip, path);
            },
            _ => {},
        }
    }
}

/// Paired children compared with themselves yield no patch.
pub proof fn lemma_children_identical(v: Vec<Node>, skip: Option<SkipModel>, path: Seq<usize>, k: nat)
    requires
        all_listener_free(v),
        k <= v.len(),
    ensures
        children_diff(v, v@, skip, path, k).len() == 0,
    decreases v, k,
{
    if k > 0 {
        lemma_children_identical(v, skip, path, (k - 1) as nat);
        assert(listener_free(v[k - 1]));
        lemma_diff_identical(v[k - 1], child_skip(skip, k - 1), path.push((k - 1) as usize));
    }
}

} // verus!

verus! {

/// Where the overlay stops at a node, that node and all below it yield no patch.
pub proof fn lemma_skipped_node_yields_nothing(
    prev: Node,
    next: Node,
    skip: SkipModel,
    path: Seq<usize>,
)
    requires
        skip.shall_skip_node(),
    ensures
        diff_spec(prev, next, Some(skip), path).len() == 0,
{
}

/// Where diffing without an overlay finds nothing to change, diffing with any overlay
/// finds nothing either: an overlay only ever leaves patches out.
pub proof fn lemma_skip_diff_sound(
    prev: Node,
    next: Node,
    skip: Option<SkipModel>,
    path: Seq<usize>,
)
    requires
        diff_spec(prev, next, None, path).len() == 0,
    ensures
        diff_spec(prev, next, skip, path).len() == 0,
    decreases prev, 0nat,
{
    if !skips_node(skip) {
        match (prev, next) {
            (Node::Element(o), Node::Element(n)) => {
                if same_element_kind(o, n) {
                    let k = min(o.children.len() as int, n.children.len() as int) as nat;
                    lemma_children_skip_sound(o.children, n.children@, skip, path, k);
                }
            },
            (Node::Leaf(Leaf::Fragment(a)), Node::Leaf(Leaf::Fragment(b))) => {
                let k = min(a.len() as int, b.len() as int) as nat;
                lemma_children_skip_sound(a, b@, skip, path, k);
            },
            (Node::Leaf(Leaf::NodeList(a)), Node::Leaf(Leaf::NodeList(b))) => {
                let k = min(a.len() as int, b.len() as int) as nat;
                lemma_children_skip_sound(a, b@, skip, path, k);
            },
            (Node::Leaf(Leaf::StatelessComponent(a)), Node::Leaf(Leaf::StatelessComponent(b))) => {
                lemma_skip_diff_sound(*a, *b, skip, path);
            },
            (Node::Leaf(Leaf::TemplatedView(a)), Node::Leaf(Leaf::TemplatedView(b))) => {
                lemma_skip_diff_sound(*a, *b, skip, path);
            },
            _ => {},
        }
    }
}

/// Paired children that yield no patch without an overlay yield none with one.
pub proof fn lemma_children_skip_sound(
    olds: Vec<Node>,
    news: Seq<Node>,
    skip: Option<SkipModel>,
    path: Seq<usize>,
    k: nat,
)
    requires
        children_diff(olds, news, None, path, k).len() == 0,
    ensures
        children_diff(olds, news, skip, path, k).len() == 0,
    decreases olds, k,
{
    if k > 0 && k <= olds.len() && k <= news.len() {
        lemma_children_skip_sound(olds, news, skip, path, (k - 1) as nat);
        lemma_skip_diff_sound(
            olds[k - 1],
            news[k - 1],
            child_skip(skip, k - 1),
            path.push((k - 1) as usize),
        );
    }
}

} // verus!

verus! {

/// Every node the overlay flags is, in the pair being diffed, a subtree that diffing
/// without an overlay finds unchanged.
pub open spec fn overlay_sound(skip: Option<SkipModel>, prev: Node, next: Node, path: Seq<usize>) -> bool
    decreases prev, 1nat,
{
    match skip {
        None => true,
        Some(s) => if s.shall {
            diff_spec(prev, next, None, path).len() == 0
        } else {
            match (prev, next) {
                (Node::Element(o), Node::Element(n)) => if same_element_kind(o, n) {
                    kids_sound(
                        s,
                        o.children,
                        n.children@,
                        path,
                        min(o.children.len() as int, n.children.len() as int) as nat,
                    )
                } else {
                    true
                },
                (Node::Leaf(Leaf::Fragment(a)), Node::Leaf(Leaf::Fragment(b))) => kids_sound(
                    s,
                    a,
                    b@,
                    path,
                    min(a.len() as int, b.len() as int) as nat,
                ),
                (Node::Leaf(Leaf::NodeList(a)), Node::Leaf(Leaf::NodeList(b))) => kids_sound(
                    s,
                    a,
                    b@,
                    path,
                    min(a.len() as int, b.len() as int) as nat,
                ),
                (
                    Node::Leaf(Leaf::StatelessComponent(a)),
                    Node::Leaf(Leaf::StatelessComponent(b)),
                ) => overlay_sound(skip, *a, *b, path),
                (Node::Leaf(Leaf::TemplatedView(a)), Node::Leaf(Leaf::TemplatedView(b))) => overlay_sound(
                    skip,
                    *a,
                    *b,
                    path,
                ),
                _ => true,
            }
        },
    }
}

/// The first `k` paired children satisfy `overlay_sound` under the overlay's children.
pub open spec fn kids_sound(s: SkipModel, olds: Vec<Node>, news: Seq<Node>, path: Seq<usize>, k: nat) -> bool
    decreases olds, k,
{
    if k == 0 || k > olds.len() || k > news.len() {
        true
    } else {
        kids_sound(s, olds, news, path, (k - 1) as nat) && overlay_sound(
            child_skip(Some(s), k - 1),
            olds[k - 1],
            news[k - 1],
            path.push((k - 1) as usize),
        )
    }
}

/// Where every subtree the overlay flags is unchanged, diffing with the overlay yields
/// exactly the patches of diffing without it.
pub proof fn lemma_sound_overlay_same_patches(
    skip: Option<SkipModel>,
    prev: Node,
    next: Node,
    path: Seq<usize>,
)
    requires
        overlay_sound(skip, prev, next, path),
    ensures
        diff_spec(prev, next, skip, path) == diff_spec(prev, next, None, path),
    decreases prev, 0nat,
{
    match skip {
        None => {},
        Some(s) => {
            if s.shall {
                lemma_skip_diff_sound(prev, next, skip, path);
                assert(diff_spec(prev, next, skip, path) =~= diff_spec(prev, next, None, path));
            } else {
                match (prev, next) {
                    (Node::Element(o), Node::Element(n)) => {
                        if same_element_kind(o, n) {
                            let k = min(o.children.len() as int, n.children.len() as int) as nat;
                            lemma_kids_sound_same(s, o.children, n.children@, path, k);
                        }
                    },
                    (Node::Leaf(Leaf::Fragment(a)), Node::Leaf(Leaf::Fragment(b))) => {
                        lemma_kids_sound_same(s, a, b@, path, min(a.len() as int, b.len() as int) as nat);
                    },
                    (Node::Leaf(Leaf::NodeList(a)), Node::Leaf(Leaf::NodeList(b))) => {
                        lemma_kids_sound_same(s, a, b@, path, min(a.len() as int, b.len() as int) as nat);
                    },
                    (
                        Node::Leaf(Leaf::StatelessComponent(a)),
                        Node::Leaf(Leaf::StatelessComponent(b)),
                    ) => {
                        lemma_sound_overlay_same_patches(skip, *a, *b, path);
                    },
                    (Node::Leaf(Leaf::TemplatedView(a)), Node::Leaf(Leaf::TemplatedView(b))) => {
                        lemma_sound_overlay_same_patches(skip, *a, *b, path);
                    },
                    _ => {},
                }
            }
        },
    }
}

/// Paired children under a sound overlay yield the patches they yield without one.
pub proof fn lemma_kids_sound_same(s: SkipModel, olds: Vec<Node>, news: Seq<Node>, path: Seq<usize>, k: nat)
    requires
        !s.shall,
        kids_sound(s, olds, news, path, k),
    ensures
        children_diff(olds, news, Some(s), path, k) == children_diff(olds, news, None, path, k),
    decreases olds, k,
{
    if k > 0 && k <= olds.len() && k <= news.len() {
        lemma_kids_sound_same(s, olds, news, path, (k - 1) as nat);
        lemma_sound_overlay_same_patches(
            child_skip(Some(s), k - 1),
            olds[k - 1],
            news[k - 1],
            path.push((k - 1) as usize),
        );
    }
}

} // verus!
