//! Applying the patches of a diff to the realization of the old tree gives the
//! realization of the new tree.
use vstd::prelude::*;
use crate::diff::{
    added_attrs, attr_patches, child_skip, children_diff, diff_spec, min, removals,
    removed_names, tail_patches,
};
use crate::diff::{diff, skips_attrs, skips_node};
use crate::dom_node::{patch_realizable, DomNode};
use crate::patch::patches_view;
use crate::skip_diff::SkipModel;
use crate::dom_node::{
    apply_all, apply_one, edit_effect, local_effect, realize, realize_all, realize_seq, set_attrs,
    without_names, DomModel, PatchError,
};
use crate::patch::PatchModel;
use crate::diff::{attr_changed, attr_in, lemma_removed_none, name_in};
use crate::dom_node::{first_with_name, is_first_with_name, set_attr};
use crate::vdom::{
    all_realizable, attrs_view, merged, names_unique, realizable, same_element_kind, AttrModel,
    component_attrs,
    Leaf, Node,
};

verus! {

/// `m` with the node at `p` replaced by `x`; unchanged where `p` leads nowhere.
pub open spec fn replace_at(m: DomModel, p: Seq<usize>, x: DomModel) -> DomModel
    decreases p.len(),
{
    if p.len() == 0 {
        x
    } else {
        match m.kids() {
            Some(k) => if p[0] < k.len() {
                m.with_kids(k.update(p[0] as int, replace_at(k[p[0] as int], p.drop_first(), x)))
            } else {
                m
            },
            None => m,
        }
    }
}

/// A patch other than a removal, aimed at a node that `p` reaches, does to the whole
/// tree what it does to that node.
pub proof fn lemma_edit_at_path(m: DomModel, p: Seq<usize>, q: PatchModel, y: DomModel)
    requires
        m.at_path(p) == Some(y),
        !q.acts_on_parent(),
    ensures
        edit_effect(m, p, q) == match local_effect(y, q) {
            Ok(z) => Ok(replace_at(m, p, z)),
            Err(e) => Err(e),
        },
    decreases p.len(),
{
    if p.len() > 0 {
        let k = m.kids()->0;
        lemma_edit_at_path(k[p[0] as int], p.drop_first(), q, y);
    }
}

/// Removing child `i` of the node that `p` reaches.
pub proof fn lemma_remove_at_path(m: DomModel, p: Seq<usize>, y: DomModel, i: usize, q: PatchModel)
    requires
        m.at_path(p) == Some(y),
        y.kids() is Some,
        i < y.kids()->0.len(),
        q is RemoveNode,
    ensures
        edit_effect(m, p.push(i), q) == Ok::<DomModel, PatchError>(
            replace_at(m, p, y.with_kids(y.kids()->0.remove(i as int))),
        ),
    decreases p.len(),
{
    if p.len() == 0 {
        assert(p.push(i) =~= seq![i]);
    } else {
        let k = m.kids()->0;
        assert(p.push(i).drop_first() =~= p.drop_first().push(i));
        assert(p.push(i)[0] == p[0]);
        lemma_remove_at_path(k[p[0] as int], p.drop_first(), y, i, q);
    }
}

/// The node at `p.push(j)` is child `j` of the node at `p`.
pub proof fn lemma_at_child(m: DomModel, p: Seq<usize>, y: DomModel, j: usize)
    requires
        m.at_path(p) == Some(y),
        y.kids() is Some,
        0 <= j < y.kids()->0.len(),
    ensures
        m.at_path(p.push(j as usize)) == Some(y.kids()->0[j as int]),
    decreases p.len(),
{
    if p.len() == 0 {
        assert(p.push(j as usize).drop_first() =~= Seq::<usize>::empty());
        assert(p.push(j as usize)[0] == j as usize);
        let c = y.kids()->0[j as int];
        assert(c.at_path(p.push(j as usize).drop_first()) == Some(c));
    } else {
        let k = m.kids()->0;
        assert(p.push(j as usize).drop_first() =~= p.drop_first().push(j as usize));
        assert(p.push(j as usize)[0] == p[0]);
        lemma_at_child(k[p[0] as int], p.drop_first(), y, j);
    }
}

/// After replacing the node at `p` with `x`, `p` reaches `x`.
pub proof fn lemma_at_replaced(m: DomModel, p: Seq<usize>, x: DomModel)
    requires
        m.at_path(p) is Some,
    ensures
        replace_at(m, p, x).at_path(p) == Some(x),
    decreases p.len(),
{
    if p.len() > 0 {
        let k = m.kids()->0;
        lemma_at_replaced(k[p[0] as int], p.drop_first(), x);
        let k2 = k.update(p[0] as int, replace_at(k[p[0] as int], p.drop_first(), x));
        assert(m.with_kids(k2).kids() == Some(k2));
    }
}

/// Replacing twice at the same path keeps the second.
pub proof fn lemma_replace_twice(m: DomModel, p: Seq<usize>, x: DomModel, x2: DomModel)
    requires
        m.at_path(p) is Some,
    ensures
        replace_at(replace_at(m, p, x), p, x2) == replace_at(m, p, x2),
    decreases p.len(),
{
    if p.len() > 0 {
        let k = m.kids()->0;
        let i = p[0] as int;
        lemma_replace_twice(k[i], p.drop_first(), x, x2);
        let k2 = k.update(i, replace_at(k[i], p.drop_first(), x));
        assert(m.with_kids(k2).kids() == Some(k2));
        assert(k2.update(i, replace_at(k2[i], p.drop_first(), x2)) =~= k.update(
            i,
            replace_at(k[i], p.drop_first(), x2),
        ));
    }
}

/// Replacing child `j` of the node at `p` is replacing that node by itself with the
/// one child changed.
pub proof fn lemma_replace_child(m: DomModel, p: Seq<usize>, y: DomModel, j: usize, z: DomModel)
    requires
        m.at_path(p) == Some(y),
        y.kids() is Some,
        0 <= j < y.kids()->0.len(),
    ensures
        replace_at(m, p.push(j as usize), z) == replace_at(
            m,
            p,
            y.with_kids(y.kids()->0.update(j as int, z)),
        ),
    decreases p.len(),
{
    if p.len() == 0 {
        assert(p.push(j as usize).drop_first() =~= Seq::<usize>::empty());
        assert(p.push(j as usize)[0] == j as usize);
        let k = y.kids()->0;
        assert(replace_at(k[j as int], p.push(j as usize).drop_first(), z) == z);
        assert(y.with_kids(k.update(j as int, z)) == m.with_kids(k.update(j as int, z)));
    } else {
        let k = m.kids()->0;
        assert(p.push(j as usize).drop_first() =~= p.drop_first().push(j as usize));
        assert(p.push(j as usize)[0] == p[0]);
        lemma_replace_child(k[p[0] as int], p.drop_first(), y, j, z);
    }
}

/// Replacing a node by itself changes nothing.
pub proof fn lemma_replace_same(m: DomModel, p: Seq<usize>)
    requires
        m.at_path(p) is Some,
    ensures
        replace_at(m, p, m.at_path(p)->0) == m,
    decreases p.len(),
{
    if p.len() > 0 {
        let k = m.kids()->0;
        let i = p[0] as int;
        lemma_replace_same(k[i], p.drop_first());
        assert(k.update(i, k[i]) =~= k);
    }
}

/// Applying `a` then `b` is applying `a + b`.
pub proof fn lemma_apply_concat(m: DomModel, a: Seq<PatchModel>, b: Seq<PatchModel>)
    ensures
        apply_all(m, a + b) == match apply_all(m, a) {
            Ok(m2) => apply_all(m2, b),
            Err(e) => Err(e),
        },
    decreases b.len(),
{
    if b.len() == 0 {
        assert(a + b =~= a);
    } else {
        assert((a + b).drop_last() =~= a + b.drop_last());
        assert((a + b).last() == b.last());
        lemma_apply_concat(m, a, b.drop_last());
    }
}

/// One patch alone.
pub proof fn lemma_apply_single(m: DomModel, q: PatchModel)
    ensures
        apply_all(m, seq![q]) == match apply_one(m, q) {
            Ok(m3) => Ok(m3),
            Err(PatchError::StructuralInconsistency) => Ok(m),
            Err(e) => Err(e),
        },
{
    assert(seq![q].drop_last() =~= Seq::<PatchModel>::empty());
    assert(seq![q].last() == q);
    assert(apply_all(m, Seq::<PatchModel>::empty()) == Ok::<DomModel, PatchError>(m));
}


proof fn lemma_with_own_kids(x: DomModel)
    requires
        x.kids() is Some,
    ensures
        x.with_kids(x.kids()->0) == x,
{
}

proof fn lemma_realize_all_seq(v: Vec<Node>)
    ensures
        realize_all(v) == realize_seq(v@),
{
    assert(realize_all(v) =~= realize_seq(v@));
}

/// The children of `oc`, with the first `k` replaced by the realizations of those of `nc`.
pub open spec fn mixed(oc: Vec<Node>, nc: Seq<Node>, k: int) -> Seq<DomModel> {
    Seq::new(
        oc.len() as nat,
        |j: int|
            if j < k {
                realize(nc[j])
            } else {
                realize(oc[j])
            },
    )
}

/// The attributes an element holds once the attribute patches of a diff are applied.
pub open spec fn patched_attrs(om: Seq<AttrModel>, nm: Seq<AttrModel>) -> Seq<AttrModel> {
    let added = added_attrs(om, nm);
    let removed = removed_names(om, nm);
    let a1 = if added.len() > 0 {
        set_attrs(om, added)
    } else {
        om
    };
    if removed.len() > 0 {
        without_names(a1, removed)
    } else {
        a1
    }
}

/// At every pair of elements that diffing `o` against `n` compares, the attribute
/// patches leave the new attributes in their declared order.
pub open spec fn attrs_reproduced(o: Node, n: Node) -> bool
    decreases o, 1nat,
{
    match (o, n) {
        (Node::Element(oe), Node::Element(ne)) => if same_element_kind(oe, ne) {
            patched_attrs(merged(attrs_view(oe.attrs@)), merged(attrs_view(ne.attrs@))) == merged(
                attrs_view(ne.attrs@),
            ) && pairs_reproduced(
                oe.children,
                ne.children@,
                min(oe.children.len() as int, ne.children.len() as int) as nat,
            )
        } else {
            true
        },
        (Node::Leaf(Leaf::Fragment(a)), Node::Leaf(Leaf::Fragment(b))) => pairs_reproduced(
            a,
            b@,
            min(a.len() as int, b.len() as int) as nat,
        ),
        (Node::Leaf(Leaf::NodeList(a)), Node::Leaf(Leaf::NodeList(b))) => pairs_reproduced(
            a,
            b@,
            min(a.len() as int, b.len() as int) as nat,
        ),
        (
            Node::Leaf(Leaf::StatelessComponent(a)),
            Node::Leaf(Leaf::StatelessComponent(b)),
        ) => attrs_reproduced(*a, *b),
        (
            Node::Leaf(Leaf::StatefulComponent(a)),
            Node::Leaf(Leaf::StatefulComponent(b)),
        ) => patched_attrs(merged(component_attrs(a)), merged(component_attrs(b))) == merged(
            component_attrs(b),
        ),
        _ => true,
    }
}

/// The first `k` paired children satisfy `attrs_reproduced`.
pub open spec fn pairs_reproduced(olds: Vec<Node>, news: Seq<Node>, k: nat) -> bool
    decreases olds, k,
{
    if k == 0 || k > olds.len() || k > news.len() {
        true
    } else {
        pairs_reproduced(olds, news, (k - 1) as nat) && attrs_reproduced(olds[k - 1], news[k - 1])
    }
}

proof fn lemma_attr_step(m: DomModel, p: Seq<usize>, x: DomModel, nm: Seq<AttrModel>)
    requires
        m.at_path(p) == Some(x),
        x matches DomModel::Element { .. },
        patched_attrs(x->attrs, nm) == nm,
    ensures
        apply_all(m, attr_patches(x->attrs, nm, p)) == Ok::<DomModel, PatchError>(
            replace_at(
                m,
                p,
                DomModel::Element {
                    namespace: x->namespace,
                    tag: x->tag,
                    attrs: nm,
                    children: x->Element_children,
                },
            ),
        ),
{
    let om = x->attrs;
    let added = added_attrs(om, nm);
    let removed = removed_names(om, nm);
    let a1 = if added.len() > 0 {
        set_attrs(om, added)
    } else {
        om
    };
    let x1 = DomModel::Element {
        namespace: x->namespace,
        tag: x->tag,
        attrs: a1,
        children: x->Element_children,
    };
    let pa: Seq<PatchModel> = if added.len() > 0 {
        seq![PatchModel::AddAttributes { path: p, attrs: added }]
    } else {
        Seq::empty()
    };
    let pr: Seq<PatchModel> = if removed.len() > 0 {
        seq![PatchModel::RemoveAttributes { path: p, names: removed }]
    } else {
        Seq::empty()
    };
    assert(attr_patches(om, nm, p) == pa + pr);
    lemma_apply_concat(m, pa, pr);
    let m1 = replace_at(m, p, x1);
    if added.len() > 0 {
        let q = PatchModel::AddAttributes { path: p, attrs: added };
        lemma_apply_single(m, q);
        lemma_edit_at_path(m, p, q, x);
    } else {
        assert(x1 == x);
        lemma_replace_same(m, p);
    }
    assert(apply_all(m, pa) == Ok::<DomModel, PatchError>(m1));
    lemma_at_replaced(m, p, x1);
    let x2 = DomModel::Element {
        namespace: x->namespace,
        tag: x->tag,
        attrs: nm,
        children: x->Element_children,
    };
    if removed.len() > 0 {
        let q = PatchModel::RemoveAttributes { path: p, names: removed };
        lemma_apply_single(m1, q);
        lemma_edit_at_path(m1, p, q, x1);
        lemma_replace_twice(m, p, x1, x2);
    } else {
        assert(x1 == x2);
    }
}

proof fn lemma_removals_step(
    m: DomModel,
    p: Seq<usize>,
    x: DomModel,
    kids: Seq<DomModel>,
    ol: int,
    nl: int,
    j: int,
)
    requires
        m.at_path(p) == Some(x),
        x.kids() == Some(kids),
        kids.len() == ol,
        0 <= nl <= ol,
        ol <= usize::MAX,
        0 <= j <= ol - nl,
    ensures
        apply_all(m, removals(ol, nl, p).subrange(0, j)) == Ok::<DomModel, PatchError>(
            replace_at(m, p, x.with_kids(kids.subrange(0, ol - j))),
        ),
    decreases j,
{
    let rs = removals(ol, nl, p);
    if j == 0 {
        assert(rs.subrange(0, 0) =~= Seq::<PatchModel>::empty());
        assert(apply_all(m, Seq::<PatchModel>::empty()) == Ok::<DomModel, PatchError>(m));
        assert(kids.subrange(0, ol) =~= kids);
        lemma_with_own_kids(x);
        lemma_replace_same(m, p);
    } else {
        lemma_removals_step(m, p, x, kids, ol, nl, j - 1);
        let xj = x.with_kids(kids.subrange(0, ol - (j - 1)));
        let mj = replace_at(m, p, xj);
        let q = rs[j - 1];
        assert(rs.subrange(0, j) =~= rs.subrange(0, j - 1) + seq![q]);
        lemma_apply_concat(m, rs.subrange(0, j - 1), seq![q]);
        lemma_apply_single(mj, q);
        lemma_at_replaced(m, p, xj);
        let idx = (ol - 1 - (j - 1)) as usize;
        assert(q == PatchModel::RemoveNode { path: p.push(idx) });
        lemma_remove_at_path(mj, p, xj, idx, q);
        let xj2 = x.with_kids(kids.subrange(0, ol - j));
        assert(xj.with_kids(xj.kids()->0.remove(idx as int)) == xj2) by {
            assert(kids.subrange(0, ol - (j - 1)).remove(idx as int) =~= kids.subrange(0, ol - j));
        }
        lemma_replace_twice(m, p, xj, xj2);
    }
}


proof fn lemma_tail_step(m: DomModel, p: Seq<usize>, x: DomModel, ol: int, nc: Seq<Node>)
    requires
        m.at_path(p) == Some(x),
        x.kids() is Some,
        x.kids()->0.len() == ol,
        ol <= usize::MAX,
        forall|i: int| 0 <= i < min(ol, nc.len() as int) ==> x.kids()->0[i] == realize(#[trigger] nc[i]),
    ensures
        apply_all(m, tail_patches(ol, nc, p)) == Ok::<DomModel, PatchError>(
            replace_at(m, p, x.with_kids(realize_seq(nc))),
        ),
{
    let kids = x.kids()->0;
    let nl = nc.len() as int;
    if nl > ol {
        let q = PatchModel::AppendChildren { path: p, nodes: nc.subrange(ol, nl) };
        lemma_apply_single(m, q);
        lemma_edit_at_path(m, p, q, x);
        assert(kids + realize_seq(nc.subrange(ol, nl)) =~= realize_seq(nc));
    } else if ol > nl {
        lemma_removals_step(m, p, x, kids, ol, nl, ol - nl);
        assert(removals(ol, nl, p).subrange(0, ol - nl) =~= removals(ol, nl, p));
        assert(kids.subrange(0, nl) =~= realize_seq(nc));
    } else {
        assert(tail_patches(ol, nc, p) =~= Seq::<PatchModel>::empty());
        assert(apply_all(m, Seq::<PatchModel>::empty()) == Ok::<DomModel, PatchError>(m));
        assert(kids =~= realize_seq(nc));
        lemma_with_own_kids(x);
        lemma_replace_same(m, p);
    }
}

proof fn lemma_children_equivalence(
    oc: Vec<Node>,
    nc: Seq<Node>,
    p: Seq<usize>,
    m: DomModel,
    x: DomModel,
    k: nat,
)
    requires
        k <= oc.len(),
        k <= nc.len(),
        all_realizable(oc),
        forall|i: int| 0 <= i < nc.len() ==> realizable(#[trigger] nc[i]),
        pairs_reproduced(oc, nc, k),
        x.kids() == Some(realize_all(oc)),
        m.at_path(p) == Some(x),
    ensures
        apply_all(m, children_diff(oc, nc, None, p, k)) == Ok::<DomModel, PatchError>(
            replace_at(m, p, x.with_kids(mixed(oc, nc, k as int))),
        ),
    decreases oc, 0nat, k,
{
    if k == 0 {
        assert(apply_all(m, Seq::<PatchModel>::empty()) == Ok::<DomModel, PatchError>(m));
        assert(mixed(oc, nc, 0) =~= realize_all(oc));
        lemma_with_own_kids(x);
        lemma_replace_same(m, p);
    } else {
        let j = (k - 1) as usize;
        lemma_children_equivalence(oc, nc, p, m, x, (k - 1) as nat);
        let x1 = x.with_kids(mixed(oc, nc, k - 1));
        let m1 = replace_at(m, p, x1);
        let d = diff_spec(oc[j as int], nc[j as int], child_skip(None, j as int), p.push(j));
        lemma_apply_concat(m, children_diff(oc, nc, None, p, (k - 1) as nat), d);
        lemma_at_replaced(m, p, x1);
        assert(x1.kids() == Some(mixed(oc, nc, k - 1)));
        lemma_at_child(m1, p, x1, j);
        assert(realizable(oc[j as int]));
        assert(realizable(nc[j as int]));
        lemma_patch_equivalence_at(oc[j as int], nc[j as int], p.push(j), m1);
        let z = realize(nc[j as int]);
        lemma_replace_child(m1, p, x1, j, z);
        let x2 = x.with_kids(mixed(oc, nc, k as int));
        assert(x1.with_kids(mixed(oc, nc, k - 1).update(j as int, z)) == x2) by {
            assert(mixed(oc, nc, k - 1).update(j as int, z) =~= mixed(oc, nc, k as int));
        }
        lemma_replace_twice(m, p, x1, x2);
    }
}

proof fn lemma_container_equivalence(
    oc: Vec<Node>,
    nc: Vec<Node>,
    p: Seq<usize>,
    m: DomModel,
    x: DomModel,
)
    requires
        all_realizable(oc),
        all_realizable(nc),
        pairs_reproduced(oc, nc@, min(oc.len() as int, nc.len() as int) as nat),
        x.kids() == Some(realize_all(oc)),
        m.at_path(p) == Some(x),
    ensures
        apply_all(
            m,
            children_diff(oc, nc@, None, p, min(oc.len() as int, nc.len() as int) as nat)
                + tail_patches(oc.len() as int, nc@, p),
        ) == Ok::<DomModel, PatchError>(replace_at(m, p, x.with_kids(realize_all(nc)))),
    decreases oc, 1nat, 0nat,
{
    let k = min(oc.len() as int, nc.len() as int) as nat;
    assert forall|i: int| 0 <= i < nc@.len() implies realizable(#[trigger] nc@[i]) by {
        assert(realizable(nc[i]));
    }
    lemma_children_equivalence(oc, nc@, p, m, x, k);
    let x1 = x.with_kids(mixed(oc, nc@, k as int));
    let m1 = replace_at(m, p, x1);
    lemma_apply_concat(m, children_diff(oc, nc@, None, p, k), tail_patches(oc.len() as int, nc@, p));
    lemma_at_replaced(m, p, x1);
    lemma_tail_step(m1, p, x1, oc.len() as int, nc@);
    lemma_realize_all_seq(nc);
    let x2 = x.with_kids(realize_all(nc));
    assert(x1.with_kids(realize_seq(nc@)) == x2);
    lemma_replace_twice(m, p, x1, x2);
}

/// Applying to a tree whose node at `p` realizes `o` the patches that diffing `o`
/// against `n` yields at `p` puts the realization of `n` there.
pub proof fn lemma_patch_equivalence_at(o: Node, n: Node, p: Seq<usize>, m: DomModel)
    requires
        realizable(o),
        realizable(n),
        attrs_reproduced(o, n),
        m.at_path(p) == Some(realize(o)),
    ensures
        apply_all(m, diff_spec(o, n, None, p)) == Ok::<DomModel, PatchError>(
            replace_at(m, p, realize(n)),
        ),
    decreases o, 0nat, 0nat,
{
    let x = realize(o);
    let replace = PatchModel::ReplaceNode { path: p, node: n };
    lemma_apply_single(m, replace);
    lemma_edit_at_path(m, p, replace, x);
    match (o, n) {
        (Node::Element(oe), Node::Element(ne)) => {
            if same_element_kind(oe, ne) {
                let om = merged(attrs_view(oe.attrs@));
                let nm = merged(attrs_view(ne.attrs@));
                lemma_attr_step(m, p, x, nm);
                let xa = DomModel::Element {
                    namespace: x->namespace,
                    tag: x->tag,
                    attrs: nm,
                    children: x->Element_children,
                };
                let ma = replace_at(m, p, xa);
                lemma_at_replaced(m, p, xa);
                let a = attr_patches(om, nm, p);
                let k = min(oe.children.len() as int, ne.children.len() as int) as nat;
                let c = children_diff(oe.children, ne.children@, None, p, k);
                let t = tail_patches(oe.children.len() as int, ne.children@, p);
                assert(diff_spec(o, n, None, p) == a + c + t);
                assert((a + c) + t =~= a + (c + t));
                lemma_apply_concat(m, a, c + t);
                lemma_container_equivalence(oe.children, ne.children, p, ma, xa);
                let xf = xa.with_kids(realize_all(ne.children));
                assert(xf == realize(n));
                lemma_replace_twice(m, p, xa, xf);
            }
        },
        (Node::Leaf(Leaf::Text(a)), Node::Leaf(Leaf::Text(b))) => {
            if a@ == b@ {
                assert(apply_all(m, Seq::<PatchModel>::empty()) == Ok::<DomModel, PatchError>(m));
                lemma_replace_same(m, p);
            } else {
                let q = PatchModel::SetText { path: p, text: b@ };
                lemma_apply_single(m, q);
                lemma_edit_at_path(m, p, q, x);
            }
        },
        (Node::Leaf(Leaf::Comment(a)), Node::Leaf(Leaf::Comment(b))) => {
            if a@ == b@ {
                assert(apply_all(m, Seq::<PatchModel>::empty()) == Ok::<DomModel, PatchError>(m));
                lemma_replace_same(m, p);
            }
        },
        (Node::Leaf(Leaf::Fragment(a)), Node::Leaf(Leaf::Fragment(b))) => {
            lemma_container_equivalence(a, b, p, m, x);
        },
        (Node::Leaf(Leaf::NodeList(a)), Node::Leaf(Leaf::NodeList(b))) => {
            lemma_container_equivalence(a, b, p, m, x);
        },
        (Node::Leaf(Leaf::StatelessComponent(a)), Node::Leaf(Leaf::StatelessComponent(b))) => {
            lemma_patch_equivalence_at(*a, *b, p, m);
        },
        (Node::Leaf(Leaf::StatefulComponent(a)), Node::Leaf(Leaf::StatefulComponent(b))) => {
            let nm = merged(component_attrs(b));
            lemma_attr_step(m, p, x, nm);
        },
        _ => {},
    }
}

/// Patching the realization of `old` with the diff of `old` against `new` gives the
/// realization of `new`, wherever the attribute patches leave each element's
/// attributes in their declared order.
pub proof fn lemma_patch_equivalence(old_tree: Node, new_tree: Node)
    requires
        realizable(old_tree),
        realizable(new_tree),
        attrs_reproduced(old_tree, new_tree),
    ensures
        apply_all(realize(old_tree), diff_spec(old_tree, new_tree, None, Seq::empty()))
            == Ok::<DomModel, PatchError>(realize(new_tree)),
{
    lemma_patch_equivalence_at(old_tree, new_tree, Seq::empty(), realize(old_tree));
}


/// The two lists name the same attributes in the same order.
pub open spec fn same_names(om: Seq<AttrModel>, nm: Seq<AttrModel>) -> bool {
    om.len() == nm.len() && forall|i: int| 0 <= i < om.len() ==> (#[trigger] om[i]).name == nm[i].name
}

/// `om` with its first `k` attributes taken from `nm`.
pub open spec fn first_replaced(om: Seq<AttrModel>, nm: Seq<AttrModel>, k: int) -> Seq<AttrModel> {
    Seq::new(om.len(), |j: int| if j < k { nm[j] } else { om[j] })
}

proof fn lemma_set_in_place(om: Seq<AttrModel>, nm: Seq<AttrModel>, k: int)
    requires
        same_names(om, nm),
        names_unique(om),
        0 <= k <= nm.len(),
    ensures
        set_attrs(om, added_attrs(om, nm.subrange(0, k))) == first_replaced(om, nm, k),
    decreases k,
{
    if k == 0 {
        assert(nm.subrange(0, 0) =~= Seq::<AttrModel>::empty());
        assert(first_replaced(om, nm, 0) =~= om);
    } else {
        lemma_set_in_place(om, nm, k - 1);
        let sub = nm.subrange(0, k);
        assert(sub.drop_last() =~= nm.subrange(0, k - 1));
        assert(sub.last() == nm[k - 1]);
        let prev = added_attrs(om, nm.subrange(0, k - 1));
        let s_prev = first_replaced(om, nm, k - 1);
        let a = nm[k - 1];
        if attr_changed(om, a) {
            assert((prev + seq![a]).drop_last() =~= prev);
            assert((prev + seq![a]).last() == a);
            assert(is_first_with_name(s_prev, a.name, k - 1)) by {
                assert forall|x: int| 0 <= x < k - 1 implies (#[trigger] s_prev[x]).name != a.name by {
                    assert(om[x].name == nm[x].name);
                    assert(om[k - 1].name == a.name);
                }
            }
            assert(first_with_name(s_prev, a.name) == Some(k - 1)) by {
                let c = choose|x: int| is_first_with_name(s_prev, a.name, x);
                if c < k - 1 {
                    assert(s_prev[c].name != a.name);
                } else if c > k - 1 {
                    assert(s_prev[k - 1].name != a.name);
                }
            }
            assert(set_attr(s_prev, a) =~= first_replaced(om, nm, k));
        } else {
            assert(prev + Seq::<AttrModel>::empty() =~= prev);
            assert(attr_in(om, a));
            let j = choose|j: int| 0 <= j < om.len() && #[trigger] om[j] == a;
            assert(om[k - 1].name == a.name);
            assert(j == k - 1);
            assert(first_replaced(om, nm, k - 1) =~= first_replaced(om, nm, k));
        }
    }
}

/// Where two elements name the same attributes in the same order, the attribute
/// patches leave exactly the new attributes.
pub proof fn lemma_same_names_reproduced(om: Seq<AttrModel>, nm: Seq<AttrModel>)
    requires
        same_names(om, nm),
        names_unique(om),
    ensures
        patched_attrs(om, nm) == nm,
{
    lemma_set_in_place(om, nm, nm.len() as int);
    assert(nm.subrange(0, nm.len() as int) =~= nm);
    assert(first_replaced(om, nm, nm.len() as int) =~= nm);
    assert forall|i: int| 0 <= i < om.len() implies name_in(nm, (#[trigger] om[i]).name) by {
        assert(nm[i].name == om[i].name);
    }
    lemma_removed_none(om, nm);
    if added_attrs(om, nm).len() == 0 {
        assert(set_attrs(om, added_attrs(om, nm)) == om);
    }
}

} // verus!

verus! {

/// Every patch of `ps` realizes only nodes that can be realized.
pub open spec fn all_patches_realizable(ps: Seq<PatchModel>) -> bool {
    forall|i: int| 0 <= i < ps.len() ==> patch_realizable(#[trigger] ps[i])
}

proof fn lemma_concat_realizable(a: Seq<PatchModel>, b: Seq<PatchModel>)
    requires
        all_patches_realizable(a),
        all_patches_realizable(b),
    ensures
        all_patches_realizable(a + b),
{
    assert forall|i: int| 0 <= i < (a + b).len() implies patch_realizable(#[trigger] (a + b)[i]) by {
        if i < a.len() {
            assert((a + b)[i] == a[i]);
        } else {
            assert((a + b)[i] == b[i - a.len()]);
        }
    }
}

proof fn lemma_attr_patches_realizable(om: Seq<AttrModel>, nm: Seq<AttrModel>, p: Seq<usize>)
    ensures
        all_patches_realizable(attr_patches(om, nm, p)),
{
}

proof fn lemma_tail_realizable(ol: int, nc: Vec<Node>, p: Seq<usize>)
    requires
        0 <= ol,
        all_realizable(nc),
    ensures
        all_patches_realizable(tail_patches(ol, nc@, p)),
{
    if nc.len() > ol {
        let nodes = nc@.subrange(ol, nc.len() as int);
        assert forall|i: int| 0 <= i < nodes.len() implies realizable(#[trigger] nodes[i]) by {
            assert(nodes[i] == nc[ol + i]);
        }
    }
}

/// Diffing against a tree that can be realized yields patches that realize only such
/// nodes.
pub proof fn lemma_diff_realizable(o: Node, n: Node, skip: Option<SkipModel>, p: Seq<usize>)
    requires
        realizable(n),
    ensures
        all_patches_realizable(diff_spec(o, n, skip, p)),
    decreases o, 0nat,
{
    if !skips_node(skip) {
        match (o, n) {
            (Node::Element(oe), Node::Element(ne)) => {
                if same_element_kind(oe, ne) {
                    let k = min(oe.children.len() as int, ne.children.len() as int) as nat;
                    let a = if skips_attrs(skip) {
                        Seq::empty()
                    } else {
                        attr_patches(merged(attrs_view(oe.attrs@)), merged(attrs_view(ne.attrs@)), p)
                    };
                    lemma_attr_patches_realizable(
                        merged(attrs_view(oe.attrs@)),
                        merged(attrs_view(ne.attrs@)),
                        p,
                    );
                    lemma_children_realizable(oe.children, ne.children, skip, p, k);
                    lemma_tail_realizable(oe.children.len() as int, ne.children, p);
                    lemma_concat_realizable(a, children_diff(oe.children, ne.children@, skip, p, k));
                    lemma_concat_realizable(
                        a + children_diff(oe.children, ne.children@, skip, p, k),
                        tail_patches(oe.children.len() as int, ne.children@, p),
                    );
                }
            },
            (Node::Leaf(Leaf::Fragment(a)), Node::Leaf(Leaf::Fragment(b))) => {
                let k = min(a.len() as int, b.len() as int) as nat;
                lemma_children_realizable(a, b, skip, p, k);
                lemma_tail_realizable(a.len() as int, b, p);
                lemma_concat_realizable(children_diff(a, b@, skip, p, k), tail_patches(a.len() as int, b@, p));
            },
            (Node::Leaf(Leaf::NodeList(a)), Node::Leaf(Leaf::NodeList(b))) => {
                let k = min(a.len() as int, b.len() as int) as nat;
                lemma_children_realizable(a, b, skip, p, k);
                lemma_tail_realizable(a.len() as int, b, p);
                lemma_concat_realizable(children_diff(a, b@, skip, p, k), tail_patches(a.len() as int, b@, p));
            },
            (Node::Leaf(Leaf::StatelessComponent(a)), Node::Leaf(Leaf::StatelessComponent(b))) => {
                lemma_diff_realizable(*a, *b, skip, p);
            },
            _ => {},
        }
    }
}

proof fn lemma_children_realizable(
    olds: Vec<Node>,
    news: Vec<Node>,
    skip: Option<SkipModel>,
    p: Seq<usize>,
    k: nat,
)
    requires
        all_realizable(news),
    ensures
        all_patches_realizable(children_diff(olds, news@, skip, p, k)),
    decreases olds, k,
{
    if k > 0 && k <= olds.len() && k <= news.len() {
        lemma_children_realizable(olds, news, skip, p, (k - 1) as nat);
        assert(realizable(news[k - 1]));
        lemma_diff_realizable(olds[k - 1], news@[k - 1], child_skip(skip, k - 1), p.push((k - 1) as usize));
        lemma_concat_realizable(
            children_diff(olds, news@, skip, p, (k - 1) as nat),
            diff_spec(olds[k - 1], news@[k - 1], child_skip(skip, k - 1), p.push((k - 1) as usize)),
        );
    }
}

/// Brings `live` up to date with `next`: diffs `prev` against `next` and applies the
/// patches in order.
pub fn update_to(live: &mut DomNode, prev: &Node, next: &Node) -> (r: Result<(), PatchError>)
    requires
        realizable(*next),
    ensures
        match apply_all(old(live)@, diff_spec(*prev, *next, None, Seq::empty())) {
            Ok(m) => r is Ok && final(live)@ == m,
            Err(e) => r == Err::<(), PatchError>(e),
        },
{
    let patches = diff(prev, next);
    proof {
        lemma_diff_realizable(*prev, *next, None, Seq::empty());
        assert forall|i: int| 0 <= i < patches.len() implies patch_realizable((#[trigger] patches@[i])@) by {
            assert(patches_view(patches@)[i] == patches@[i]@);
        }
    }
    live.apply_patches(&patches)
}

} // verus!
