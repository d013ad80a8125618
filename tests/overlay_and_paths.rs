use sauron::intern;
use sauron::skip_diff::{skip_if, SkipDiff, SkipPath};
use sauron::tree_path::TreePath;

#[test]
fn tree_path_operations() {
    let root = TreePath::root();
    assert!(root.is_empty());
    let p = root.traverse(1).traverse(2);
    assert_eq!(p.path, vec![1, 2]);
    assert_eq!(p.backtrack().path, vec![1]);
    assert!(root.backtrack().is_empty());
    let mut q = TreePath::new(vec![3, 4]);
    assert_eq!(q.remove_first(), 3);
    assert_eq!(q.path, vec![4]);
    assert!(TreePath::new(vec![1, 2]) == p);
    assert!(TreePath::new(vec![2, 1]) != p);
}

#[test]
fn skip_diff_lookup() {
    let s = skip_if(false, vec![skip_if(true, vec![]), skip_if(false, vec![skip_if(true, vec![])])]);
    assert!(!s.shall_skip_attributes());
    assert!(s.in_path(&TreePath::new(vec![])).is_some());
    assert!(s.in_path(&TreePath::new(vec![0])).unwrap().shall_skip_node());
    assert!(s.in_path(&TreePath::new(vec![1, 0])).unwrap().shall);
    assert!(s.in_path(&TreePath::new(vec![1, 1])).is_none());
    assert!(s.in_path(&TreePath::new(vec![5])).is_none());
    assert!(s.traverse(1).is_some());
    assert!(s.traverse(2).is_none());
}

#[test]
fn skip_diff_flags() {
    let all = SkipDiff::new(true, vec![SkipDiff::new(true, vec![SkipDiff::new(true, vec![])])]);
    assert!(all.is_skippable_recursive());
    assert!(!all.shall_skip_node());
    let some = SkipDiff::new(true, vec![SkipDiff::block()]);
    assert!(!some.is_skippable_recursive());
    assert!(SkipDiff::new(true, vec![]).shall_skip_node());
    assert!(!SkipDiff::block().shall_skip_node());
}

#[test]
fn collapse_children_drops_skippable_lists() {
    let all = SkipDiff::new(true, vec![SkipDiff::new(true, vec![SkipDiff::new(true, vec![])])]);
    let c = all.collapse_children();
    assert!(c.shall);
    assert!(c.children.is_empty());
    assert!(c.shall_skip_node());
    let mixed = SkipDiff::new(
        false,
        vec![SkipDiff::block(), SkipDiff::new(false, vec![SkipDiff::new(true, vec![]), SkipDiff::new(true, vec![])])],
    );
    let c = mixed.collapse_children();
    assert_eq!(c.children.len(), 2);
    assert!(c.children[0].children.is_empty());
    assert!(!c.children[1].shall);
    assert!(c.children[1].children.is_empty());
}

#[test]
fn skip_path_traverse_and_backtrack() {
    let s = skip_if(false, vec![skip_if(true, vec![])]);
    let sp = SkipPath::new(TreePath::root(), s);
    let c = sp.traverse(0);
    assert_eq!(c.path.path, vec![0]);
    assert!(c.skip_diff.as_ref().unwrap().shall);
    let d = sp.traverse(3);
    assert!(d.skip_diff.is_none());
    let b = c.backtrack();
    assert!(b.path.is_empty());
    assert!(b.skip_diff.is_none());
}

#[test]
fn intern_keeps_the_string() {
    assert_eq!(intern("afterend"), "afterend");
}

#[test]
fn skip_diff_equality_is_structural() {
    let a = skip_if(false, vec![skip_if(true, vec![]), SkipDiff::block()]);
    let b = SkipDiff::new(false, vec![SkipDiff::new(true, vec![]), SkipDiff::new(false, vec![])]);
    assert!(a == b);
    let c = skip_if(false, vec![skip_if(true, vec![]), skip_if(true, vec![])]);
    assert!(a != c);
    assert!(a == a.deep_clone());
    assert!(SkipDiff::block() != skip_if(false, vec![SkipDiff::block()]));
}
