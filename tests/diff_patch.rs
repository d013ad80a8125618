use sauron::diff::{diff, diff_with_skip_diff};
use sauron::equivalence::update_to;
use sauron::dom_node::{create_node, create_stateful_component, StatefulComponent, DomNode, PatchError};
use sauron::patch::Patch;
use sauron::skip_diff::SkipDiff;
use sauron::tree_path::TreePath;
use sauron::vdom::{
    comment, element, element_ns, fragment, is_realizable, merge_attributes_of_same_name, node_list, text,
    Attribute, AttributeValue, Leaf, Node, StatefulModel,
};

fn div(children: Vec<Node>) -> Node {
    element("div", vec![], children)
}

fn span(children: Vec<Node>) -> Node {
    element("span", vec![], children)
}

fn li(s: &str) -> Node {
    element("li", vec![], vec![text(s)])
}

fn path_of(p: &Patch) -> Vec<usize> {
    p.path().path.clone()
}

#[test]
fn set_text_scenario() {
    let old = div(vec![span(vec![text("A")])]);
    let new = div(vec![span(vec![text("B")])]);
    let patches = diff(&old, &new);
    assert_eq!(patches.len(), 1);
    match &patches[0] {
        Patch::SetText { path, text } => {
            assert_eq!(path.path, vec![0, 0]);
            assert_eq!(text, "B");
        }
        other => panic!("unexpected patch {:?}", other),
    }
    let mut live = create_node(&old);
    assert_eq!(live.apply_patches(&patches), Ok(()));
    assert_eq!(live.render_to_string(), "<div><span>B</span></div>");
}

#[test]
fn append_children_scenario() {
    let old = element("ul", vec![], vec![li("1")]);
    let new = element("ul", vec![], vec![li("1"), li("2")]);
    let patches = diff(&old, &new);
    assert_eq!(patches.len(), 1);
    match &patches[0] {
        Patch::AppendChildren { path, nodes } => {
            assert!(path.path.is_empty());
            assert_eq!(nodes.len(), 1);
            assert_eq!(create_node(nodes[0]).render_to_string(), "<li>2</li>");
        }
        other => panic!("unexpected patch {:?}", other),
    }
    let mut live = create_node(&old);
    assert_eq!(live.apply_patches(&patches), Ok(()));
    assert_eq!(live.render_to_string(), "<ul><li>1</li><li>2</li></ul>");
}

#[test]
fn identical_trees_give_no_patch() {
    let t = element(
        "main",
        vec![Attribute::simple("class", "app"), Attribute::simple("id", "m")],
        vec![div(vec![text("hello"), comment("note")]), fragment(vec![span(vec![])])],
    );
    let t2 = element(
        "main",
        vec![Attribute::simple("class", "app"), Attribute::simple("id", "m")],
        vec![div(vec![text("hello"), comment("note")]), fragment(vec![span(vec![])])],
    );
    assert!(diff(&t, &t).is_empty());
    assert!(diff(&t, &t2).is_empty());
}

#[test]
fn listener_always_counts_as_changed() {
    let a = element(
        "button",
        vec![Attribute::with_values("click", vec![AttributeValue::EventListener(7)])],
        vec![],
    );
    let patches = diff(&a, &a);
    assert_eq!(patches.len(), 1);
    match &patches[0] {
        Patch::AddAttributes { path, attrs } => {
            assert!(path.path.is_empty());
            assert_eq!(attrs.len(), 1);
            assert_eq!(attrs[0].name, "click");
        }
        other => panic!("unexpected patch {:?}", other),
    }
}

#[test]
fn different_tags_replace_node() {
    let old = div(vec![span(vec![text("x")])]);
    let new = div(vec![element("p", vec![], vec![text("x")])]);
    let patches = diff(&old, &new);
    assert_eq!(patches.len(), 1);
    assert!(matches!(&patches[0], Patch::ReplaceNode { .. }));
    assert_eq!(path_of(&patches[0]), vec![0]);
    let mut live = create_node(&old);
    assert_eq!(live.apply_patches(&patches), Ok(()));
    assert_eq!(live.render_to_string(), "<div><p>x</p></div>");
}

#[test]
fn extra_old_children_removed_last_first() {
    let old = element("ul", vec![], vec![li("1"), li("2"), li("3")]);
    let new = element("ul", vec![], vec![li("1")]);
    let patches = diff(&old, &new);
    assert_eq!(patches.len(), 2);
    assert!(matches!(&patches[0], Patch::RemoveNode { .. }));
    assert_eq!(path_of(&patches[0]), vec![2]);
    assert_eq!(path_of(&patches[1]), vec![1]);
    let mut live = create_node(&old);
    assert_eq!(live.apply_patches(&patches), Ok(()));
    assert_eq!(live.render_to_string(), "<ul><li>1</li></ul>");
}

#[test]
fn attribute_changes_are_batched() {
    let old = element(
        "div",
        vec![Attribute::simple("class", "a"), Attribute::simple("id", "x"), Attribute::simple("title", "t")],
        vec![],
    );
    let new = element(
        "div",
        vec![Attribute::simple("class", "b"), Attribute::simple("id", "x"), Attribute::simple("lang", "en")],
        vec![],
    );
    let patches = diff(&old, &new);
    assert_eq!(patches.len(), 2);
    match &patches[0] {
        Patch::AddAttributes { attrs, .. } => {
            let names: Vec<&str> = attrs.iter().map(|a| a.name.as_str()).collect();
            assert_eq!(names, vec!["class", "lang"]);
        }
        other => panic!("unexpected patch {:?}", other),
    }
    match &patches[1] {
        Patch::RemoveAttributes { names, .. } => assert_eq!(names, &vec!["title".to_string()]),
        other => panic!("unexpected patch {:?}", other),
    }
    let mut live = create_node(&old);
    assert_eq!(live.apply_patches(&patches), Ok(()));
    assert_eq!(live.render_to_string(), "<div class=\"b\" id=\"x\" lang=\"en\"></div>");
    assert_eq!(create_node(&new).render_to_string(), "<div class=\"b\" id=\"x\" lang=\"en\"></div>");
}

#[test]
fn patched_tree_renders_as_new_tree() {
    let old = div(vec![
        span(vec![text("a")]),
        element("ul", vec![], vec![li("1"), li("2")]),
        comment("c"),
    ]);
    let new = div(vec![
        span(vec![text("b")]),
        element("ul", vec![], vec![li("1"), li("2"), li("3")]),
        text("t"),
        element("p", vec![], vec![]),
    ]);
    let patches = diff(&old, &new);
    let mut live = create_node(&old);
    assert_eq!(live.apply_patches(&patches), Ok(()));
    assert_eq!(live.render_to_string(), create_node(&new).render_to_string());
    assert_eq!(
        live.render_to_string(),
        "<div><span>b</span><ul><li>1</li><li>2</li><li>3</li></ul>t<p></p></div>"
    );
}

#[test]
fn realize_then_render() {
    let t = element(
        "section",
        vec![Attribute::simple("id", "s")],
        vec![text("x"), comment("y"), node_list(vec![span(vec![])]), fragment(vec![text("z")])],
    );
    assert_eq!(
        create_node(&t).render_to_string(),
        "<section id=\"s\">x<!--y--><span></span>z</section>"
    );
}

#[test]
fn find_follows_paths() {
    let t = div(vec![span(vec![text("A")]), element("ul", vec![], vec![li("1"), li("2")])]);
    let live = create_node(&t);
    let found = live.find(&TreePath::new(vec![1, 1])).expect("node");
    assert_eq!(found.render_to_string(), "<li>2</li>");
    let leaf = live.find(&TreePath::new(vec![1, 0, 0])).expect("text");
    assert_eq!(leaf.render_to_string(), "1");
    assert!(live.find(&TreePath::new(vec![])).is_some());
    assert!(live.find(&TreePath::new(vec![2])).is_none());
    assert!(live.find(&TreePath::new(vec![0, 5])).is_none());
    assert!(live.find(&TreePath::new(vec![0, 0, 0])).is_none());
}

#[test]
fn unreachable_path_is_passed_over() {
    let old = div(vec![text("a")]);
    let new_text = text("b");
    let mut live = create_node(&old);
    let p = Patch::SetText { path: TreePath::new(vec![4]), text: "b".to_string() };
    assert_eq!(live.apply_patch(&p), Err(PatchError::StructuralInconsistency));
    let patches = vec![p, Patch::ReplaceNode { path: TreePath::new(vec![0]), node: &new_text }];
    assert_eq!(live.apply_patches(&patches), Ok(()));
    assert_eq!(live.render_to_string(), "<div>b</div>");
}

#[test]
fn backend_rejection_ends_the_batch() {
    let old = div(vec![text("a")]);
    let mut live = create_node(&old);
    let p = Patch::SetText { path: TreePath::new(vec![]), text: "b".to_string() };
    assert_eq!(live.apply_patch(&p), Err(PatchError::BackendRejection));
    let q = Patch::SetText { path: TreePath::new(vec![0]), text: "c".to_string() };
    let patches = vec![p, q];
    assert_eq!(live.apply_patches(&patches), Err(PatchError::BackendRejection));
    assert_eq!(live.render_to_string(), "<div>a</div>");
    let r = Patch::RemoveNode { path: TreePath::new(vec![]) };
    assert_eq!(live.apply_patch(&r), Err(PatchError::BackendRejection));
}

#[test]
fn merge_attributes_per_value_kind() {
    let attrs = vec![
        Attribute::simple("class", "a"),
        Attribute::with_values("click", vec![AttributeValue::EventListener(1)]),
        Attribute::with_values("style", vec![AttributeValue::Style("color".to_string(), "red".to_string())]),
        Attribute::simple("class", "b"),
        Attribute::with_values("click", vec![AttributeValue::EventListener(2)]),
        Attribute::with_values("style", vec![AttributeValue::Style("margin".to_string(), "0".to_string())]),
        Attribute::with_values("value", vec![AttributeValue::FunctionCall("x".to_string())]),
        Attribute::with_values("value", vec![AttributeValue::FunctionCall("y".to_string())]),
    ];
    let merged = merge_attributes_of_same_name(&attrs);
    let names: Vec<&str> = merged.iter().map(|a| a.name.as_str()).collect();
    assert_eq!(names, vec!["class", "click", "style", "value"]);
    assert!(matches!(&merged[0].values[..], [AttributeValue::Simple(a), AttributeValue::Simple(b)] if a == "a" && b == "b"));
    assert!(matches!(&merged[1].values[..], [AttributeValue::EventListener(1), AttributeValue::EventListener(2)]));
    assert!(matches!(&merged[2].values[..], [AttributeValue::Style(k1, v1), AttributeValue::Style(k2, v2)]
        if k1 == "color" && v1 == "red" && k2 == "margin" && v2 == "0"));
    assert!(matches!(&merged[3].values[..], [AttributeValue::FunctionCall(a), AttributeValue::FunctionCall(b)] if a == "x" && b == "y"));
    let again = merge_attributes_of_same_name(&merged);
    assert_eq!(again.len(), 4);
    let g = merged[0].group_values();
    assert_eq!(g.plain_values, vec!["a".to_string(), "b".to_string()]);
    assert!(g.listeners.is_empty());
    let g = merged[1].group_values();
    assert_eq!(g.listeners, vec![1, 2]);
    let g = merged[2].group_values();
    assert_eq!(g.styles, vec![("color".to_string(), "red".to_string()), ("margin".to_string(), "0".to_string())]);
    let g = merged[3].group_values();
    assert_eq!(g.function_calls, vec!["x".to_string(), "y".to_string()]);
    assert!(g.plain_values.is_empty());
    let t = element("div", vec![Attribute::simple("class", "a"), Attribute::simple("class", "b")], vec![]);
    assert_eq!(create_node(&t).render_to_string(), "<div class=\"a b\"></div>");
}

#[test]
fn skipped_subtree_yields_no_patch() {
    let old = div(vec![span(vec![text("A")]), span(vec![text("x")])]);
    let new = div(vec![span(vec![text("B")]), span(vec![text("y")])]);
    let full = diff(&old, &new);
    assert_eq!(full.len(), 2);
    let skip = SkipDiff::new(false, vec![SkipDiff::new(true, vec![]), SkipDiff::block()]);
    let patches = diff_with_skip_diff(&old, &new, &skip);
    assert_eq!(patches.len(), 1);
    assert_eq!(path_of(&patches[0]), vec![1, 0]);
    let all = SkipDiff::new(true, vec![]);
    assert!(diff_with_skip_diff(&old, &new, &all).is_empty());
    let same = div(vec![span(vec![text("A")]), span(vec![text("x")])]);
    assert!(diff_with_skip_diff(&old, &same, &skip).is_empty());
}

#[test]
fn skip_attributes_only() {
    let old = element("div", vec![Attribute::simple("class", "a")], vec![text("1")]);
    let new = element("div", vec![Attribute::simple("class", "b")], vec![text("2")]);
    let skip = SkipDiff::new(true, vec![SkipDiff::block()]);
    let patches = diff_with_skip_diff(&old, &new, &skip);
    assert_eq!(patches.len(), 1);
    assert!(matches!(&patches[0], Patch::SetText { .. }));
}

#[test]
fn live_node_helpers() {
    let t = div(vec![span(vec![text("a")]), fragment(vec![text("b")])]);
    let live = create_node(&t);
    let copy = live.deep_clone();
    assert_eq!(copy.render_to_string(), "<div><span>a</span>b</div>");
    assert_eq!(live.tag().map(|s| s.as_str()), Some("div"));
    assert!(!live.is_fragment());
    assert!(live.find(&TreePath::new(vec![1])).unwrap().is_fragment());
    assert!(live.find(&TreePath::new(vec![0, 0])).unwrap().tag().is_none());
    let mut cleared = copy;
    cleared.clear_children();
    assert_eq!(cleared.render_to_string(), "<div></div>");
    cleared.append_child(create_node(&comment("c")));
    assert_eq!(cleared.render_to_string(), "<div><!--c--></div>");
    assert_eq!(live.render_to_string(), "<div><span>a</span>b</div>");
}

#[test]
fn realizability_check() {
    assert!(is_realizable(&div(vec![text("a"), comment("c")])));
    let bad = div(vec![Node::Leaf(Leaf::SafeHtml("<b>x</b>".to_string()))]);
    assert!(!is_realizable(&bad));
    assert!(!is_realizable(&Node::Leaf(Leaf::DocType("html".to_string()))));
    let comp = Node::Leaf(Leaf::StatelessComponent(Box::new(span(vec![text("v")]))));
    assert!(is_realizable(&comp));
    assert_eq!(create_node(&comp).render_to_string(), "<span>v</span>");
    let old_comp = Node::Leaf(Leaf::StatelessComponent(Box::new(span(vec![text("u")]))));
    let patches = diff(&old_comp, &comp);
    assert_eq!(patches.len(), 1);
    assert_eq!(path_of(&patches[0]), vec![0]);
}

#[test]
fn insert_before_and_after() {
    let old = element("ul", vec![], vec![li("2"), li("4")]);
    let one = li("1");
    let three = li("3");
    let five = li("5");
    let mut live = create_node(&old);
    let patches = vec![
        Patch::InsertBeforeNode { path: TreePath::new(vec![0]), nodes: vec![&one] },
        Patch::InsertAfterNode { path: TreePath::new(vec![1]), nodes: vec![&three] },
        Patch::InsertAfterNode { path: TreePath::new(vec![3]), nodes: vec![&five] },
    ];
    assert_eq!(live.apply_patches(&patches), Ok(()));
    assert_eq!(
        live.render_to_string(),
        "<ul><li>1</li><li>2</li><li>3</li><li>4</li><li>5</li></ul>"
    );
    let at_root = Patch::InsertBeforeNode { path: TreePath::new(vec![]), nodes: vec![&one] };
    assert_eq!(live.apply_patch(&at_root), Err(PatchError::BackendRejection));
    let missing = Patch::InsertAfterNode { path: TreePath::new(vec![9]), nodes: vec![&one] };
    assert_eq!(live.apply_patch(&missing), Err(PatchError::StructuralInconsistency));
}

#[test]
fn update_to_brings_live_tree_to_new_tree() {
    let old = div(vec![span(vec![text("A")]), comment("x")]);
    let new = div(vec![
        span(vec![text("B")]),
        element("p", vec![Attribute::simple("class", "k")], vec![]),
        text("tail"),
    ]);
    let mut live = create_node(&old);
    assert_eq!(update_to(&mut live, &old, &new), Ok(()));
    assert_eq!(live.render_to_string(), create_node(&new).render_to_string());
    assert_eq!(live.render_to_string(), "<div><span>B</span><p class=\"k\"></p>tail</div>");
}

#[test]
fn different_namespace_replaces_node() {
    let old = element("svg", vec![], vec![]);
    let new = element_ns("http://www.w3.org/2000/svg", "svg", vec![], vec![]);
    let patches = diff(&old, &new);
    assert_eq!(patches.len(), 1);
    assert!(matches!(&patches[0], Patch::ReplaceNode { .. }));
    assert!(diff(&new, &element_ns("http://www.w3.org/2000/svg", "svg", vec![], vec![])).is_empty());
}

#[test]
fn void_elements_render_self_closing() {
    let t = div(vec![
        element("input", vec![Attribute::simple("type", "text")], vec![]),
        element("br", vec![], vec![]),
        span(vec![]),
    ]);
    assert_eq!(
        create_node(&t).render_to_string(),
        "<div><input type=\"text\"/><br/><span></span></div>"
    );
}

#[test]
fn style_values_render_as_style_attribute() {
    let t = element(
        "div",
        vec![
            Attribute::with_values("style", vec![AttributeValue::Style("color".to_string(), "red".to_string())]),
            Attribute::simple("id", "x"),
            Attribute::with_values("style", vec![AttributeValue::Style("width".to_string(), "10px".to_string())]),
            Attribute::with_values("click", vec![AttributeValue::EventListener(3)]),
        ],
        vec![],
    );
    assert_eq!(
        create_node(&t).render_to_string(),
        "<div style=\"color:red;width:10px;\" id=\"x\"></div>"
    );
    assert_ne!(create_node(&t).render_to_string(), create_node(&div(vec![])).render_to_string());
}

struct Holder {
    children: Vec<DomNode>,
}

impl StatefulComponent for Holder {
    fn append_child(&mut self, child: DomNode) {
        self.children.push(child);
    }
}

fn stateful(attrs: Vec<Attribute>, children: Vec<Node>) -> Node {
    Node::Leaf(Leaf::StatefulComponent(StatefulModel { attrs, children }))
}

#[test]
fn stateful_component_realized_as_container() {
    let model = StatefulModel { attrs: vec![Attribute::simple("id", "c")], children: vec![li("1"), li("2")] };
    let mut holder = Holder { children: vec![] };
    let container = create_stateful_component(&mut holder, &model);
    assert_eq!(container.render_to_string(), "<div class=\"component\" id=\"c\"></div>");
    let handed: Vec<String> = holder.children.iter().map(|c| c.render_to_string()).collect();
    assert_eq!(handed, vec!["<li>1</li>".to_string(), "<li>2</li>".to_string()]);
    let n = stateful(vec![Attribute::simple("class", "big")], vec![]);
    assert_eq!(create_node(&n).render_to_string(), "<div class=\"component big\"></div>");
}

#[test]
fn stateful_components_diff_their_attributes() {
    let old = div(vec![stateful(vec![Attribute::simple("id", "a")], vec![li("x")])]);
    let new = div(vec![stateful(vec![Attribute::simple("id", "b")], vec![li("y")])]);
    let patches = diff(&old, &new);
    assert_eq!(patches.len(), 1);
    assert!(matches!(&patches[0], Patch::AddAttributes { .. }));
    assert_eq!(path_of(&patches[0]), vec![0]);
    assert!(diff(&old, &old).is_empty());
    let mut live = create_node(&old);
    assert_eq!(update_to(&mut live, &old, &new), Ok(()));
    assert_eq!(live.render_to_string(), "<div><div class=\"component\" id=\"b\"></div></div>");
}
