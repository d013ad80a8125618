//! The declarative tree: elements, leaves and attributes, with merging of repeated
//! attribute declarations and grouping of values by kind.
use vstd::prelude::*;
use indexmap::IndexMap;

verus! {

/// What an attribute value is, as plain values.
pub enum ValueModel {
    Simple(Seq<char>),
    Style(Seq<char>, Seq<char>),
    FunctionCall(Seq<char>),
    EventListener(u64),
    Empty,
}

/// What an attribute is: its name and the values declared for it, in order.
pub struct AttrModel {
    pub name: Seq<char>,
    pub values: Seq<ValueModel>,
}

/// One value given to an attribute.
#[derive(Debug)]
pub enum AttributeValue {
    /// A plain value, written into the markup.
    Simple(String),
    /// A style property and its value.
    Style(String, String),
    /// A value set through a property of the element rather than as markup.
    FunctionCall(String),
    /// An event listener, by the handle of its callback.
    EventListener(u64),
    /// No value: the attribute is present without one.
    Empty,
}

impl View for AttributeValue {
    type V = ValueModel;

    open spec fn view(&self) -> ValueModel {
        match self {
            AttributeValue::Simple(s) => ValueModel::Simple(s@),
            AttributeValue::Style(k, v) => ValueModel::Style(k@, v@),
            AttributeValue::FunctionCall(s) => ValueModel::FunctionCall(s@),
            AttributeValue::EventListener(h) => ValueModel::EventListener(*h),
            AttributeValue::Empty => ValueModel::Empty,
        }
    }
}

impl AttributeValue {
    /// A copy of this value.
    pub fn duplicate(&self) -> (r: Self)
        ensures
            r@ == self@,
    {
        match self {
            AttributeValue::Simple(s) => AttributeValue::Simple(s.clone()),
            AttributeValue::Style(k, v) => AttributeValue::Style(k.clone(), v.clone()),
            AttributeValue::FunctionCall(s) => AttributeValue::FunctionCall(s.clone()),
            AttributeValue::EventListener(h) => AttributeValue::EventListener(*h),
            AttributeValue::Empty => AttributeValue::Empty,
        }
    }

    /// Whether two values are the same.
    pub fn same_as(&self, other: &Self) -> (r: bool)
        ensures
            r == (self@ == other@),
    {
        match (self, other) {
            (AttributeValue::Simple(a), AttributeValue::Simple(b)) => a.eq(b),
            (AttributeValue::Style(k1, v1), AttributeValue::Style(k2, v2)) => k1.eq(k2) && v1.eq(v2),
            (AttributeValue::FunctionCall(a), AttributeValue::FunctionCall(b)) => a.eq(b),
            (AttributeValue::EventListener(a), AttributeValue::EventListener(b)) => *a == *b,
            (AttributeValue::Empty, AttributeValue::Empty) => true,
            _ => false,
        }
    }
}

/// An attribute declaration: a name and its values.
#[derive(Debug)]
pub struct Attribute {
    pub name: String,
    pub values: Vec<AttributeValue>,
}

/// The views of the values, in order.
pub open spec fn values_view(v: Seq<AttributeValue>) -> Seq<ValueModel> {
    v.map_values(|x: AttributeValue| x@)
}

/// The views of the attributes, in order.
pub open spec fn attrs_view(v: Seq<Attribute>) -> Seq<AttrModel> {
    v.map_values(|a: Attribute| a@)
}

impl View for Attribute {
    type V = AttrModel;

    open spec fn view(&self) -> AttrModel {
        AttrModel { name: self.name@, values: values_view(self.values@) }
    }
}

/// The index of the attribute called `name`, if there is one.
pub open spec fn find_name(m: Seq<AttrModel>, name: Seq<char>) -> Option<int> {
    if exists|j: int| 0 <= j < m.len() && (#[trigger] m[j]).name == name {
        Some(choose|j: int| 0 <= j < m.len() && (#[trigger] m[j]).name == name)
    } else {
        None
    }
}

/// No two attributes share a name.
pub open spec fn names_unique(m: Seq<AttrModel>) -> bool {
    forall|i: int, j: int| 0 <= i < m.len() && 0 <= j < m.len() && i != j ==> (#[trigger] m[i]).name
        != (#[trigger] m[j]).name
}

/// Adds one declaration: its values go after those of an earlier one of the same name,
/// or it is added at the end.
pub open spec fn merge_one(m: Seq<AttrModel>, a: AttrModel) -> Seq<AttrModel> {
    match find_name(m, a.name) {
        Some(j) => m.update(j, AttrModel { name: a.name, values: m[j].values + a.values }),
        None => m.push(a),
    }
}

/// The declarations merged by name: one attribute per name, in the order in which
/// names first appear, each holding the values of all its declarations in order.
pub open spec fn merged(s: Seq<AttrModel>) -> Seq<AttrModel>
    decreases s.len(),
{
    if s.len() == 0 {
        Seq::empty()
    } else {
        merge_one(merged(s.drop_last()), s.last())
    }
}

/// Where names are unique, the attribute found by name is the one that has it.
pub proof fn lemma_find_unique(m: Seq<AttrModel>, name: Seq<char>, j: int)
    requires
        names_unique(m),
        0 <= j < m.len(),
        m[j].name == name,
    ensures
        find_name(m, name) == Some(j),
{
}

/// Adding a declaration keeps names unique.
pub proof fn lemma_merge_one_unique(m: Seq<AttrModel>, a: AttrModel)
    requires
        names_unique(m),
    ensures
        names_unique(merge_one(m, a)),
{
    let r = merge_one(m, a);
    match find_name(m, a.name) {
        Some(j) => {
            assert forall|x: int, y: int| 0 <= x < r.len() && 0 <= y < r.len() && x != y implies (
            #[trigger] r[x]).name != (#[trigger] r[y]).name by {
                if x != j && y != j {
                    assert(r[x] == m[x] && r[y] == m[y]);
                } else if x == j {
                    assert(r[y] == m[y]);
                } else {
                    assert(r[x] == m[x]);
                }
            }
        },
        None => {
            assert forall|x: int, y: int| 0 <= x < r.len() && 0 <= y < r.len() && x != y implies (
            #[trigger] r[x]).name != (#[trigger] r[y]).name by {
                if x < m.len() && y < m.len() {
                    assert(r[x] == m[x] && r[y] == m[y]);
                } else if x < m.len() {
                    assert(r[x] == m[x]);
                } else {
                    assert(r[y] == m[y]);
                }
            }
        },
    }
}

/// Merged attributes have unique names.
pub proof fn lemma_merged_unique(s: Seq<AttrModel>)
    ensures
        names_unique(merged(s)),
    decreases s.len(),
{
    if s.len() > 0 {
        lemma_merged_unique(s.drop_last());
        lemma_merge_one_unique(merged(s.drop_last()), s.last());
    }
}

/// Repeated declarations merged by name are one attribute per name, and merging
/// them again changes nothing.
pub proof fn lemma_merge_idempotent(s: Seq<AttrModel>)
    ensures
        names_unique(merged(s)),
        merged(merged(s)) == merged(s),
{
    lemma_merged_unique(s);
    lemma_merged_of_unique(merged(s));
}

/// Merging attributes whose names are already unique changes nothing.
pub proof fn lemma_merged_of_unique(m: Seq<AttrModel>)
    requires
        names_unique(m),
    ensures
        merged(m) == m,
    decreases m.len(),
{
    if m.len() > 0 {
        let p = m.drop_last();
        assert(names_unique(p));
        lemma_merged_of_unique(p);
        if let Some(j) = find_name(p, m.last().name) {
            assert(m[j].name == m[m.len() - 1].name);
        }
        assert(merge_one(p, m.last()) =~= m);
    }
}

/// Copies the values of `v`.
pub fn copy_values(v: &Vec<AttributeValue>) -> (r: Vec<AttributeValue>)
    ensures
        values_view(r@) == values_view(v@),
{
    let mut out: Vec<AttributeValue> = Vec::new();
    let mut i: usize = 0;
    while i < v.len()
        invariant
            i <= v.len(),
            out.len() == i,
            forall|j: int| 0 <= j < i ==> (#[trigger] out@[j])@ == v@[j]@,
        decreases v.len() - i,
    {
        let x = v[i].duplicate();
        out.push(x);
        i = i + 1;
    }
    assert(values_view(out@) =~= values_view(v@));
    out
}

impl Attribute {
    /// An attribute with one plain value.
    pub fn simple(name: &str, value: &str) -> (r: Self)
        ensures
            r@.name == name@,
            r@.values == seq![ValueModel::Simple(value@)],
    {
        let mut values: Vec<AttributeValue> = Vec::new();
        values.push(AttributeValue::Simple(value.to_owned()));
        let r = Attribute { name: name.to_owned(), values };
        assert(r@.values =~= seq![ValueModel::Simple(value@)]);
        r
    }

    /// An attribute with the given values.
    pub fn with_values(name: &str, values: Vec<AttributeValue>) -> (r: Self)
        ensures
            r@.name == name@,
            r.values@ == values@,
    {
        Attribute { name: name.to_owned(), values }
    }

    /// A copy of this attribute.
    pub fn duplicate(&self) -> (r: Self)
        ensures
            r@ == self@,
    {
        Attribute { name: self.name.clone(), values: copy_values(&self.values) }
    }

    /// Whether two attributes carry the same name and values.
    pub fn same_as(&self, other: &Self) -> (r: bool)
        ensures
            r == (self@ == other@),
    {
        if self.name != other.name {
            return false;
        }
        if self.values.len() != other.values.len() {
            assert(values_view(self.values@).len() != values_view(other.values@).len());
            return false;
        }
        let mut i: usize = 0;
        while i < self.values.len()
            invariant
                i <= self.values.len(),
                self.values.len() == other.values.len(),
                forall|j: int| 0 <= j < i ==> self.values@[j]@ == (#[trigger] other.values@[j])@,
            decreases self.values.len() - i,
        {
            if !self.values[i].same_as(&other.values[i]) {
                assert(values_view(self.values@)[i as int] != values_view(other.values@)[i as int]);
                return false;
            }
            i = i + 1;
        }
        assert(values_view(self.values@) =~= values_view(other.values@));
        true
    }

    /// Whether one of the values is an event listener.
    pub fn has_listener(&self) -> (r: bool)
        ensures
            r == has_listener(self@.values),
    {
        let mut i: usize = 0;
        while i < self.values.len()
            invariant
                i <= self.values.len(),
                forall|j: int| 0 <= j < i ==> !((#[trigger] self.values@[j])@ is EventListener),
            decreases self.values.len() - i,
        {
            if let AttributeValue::EventListener(_) = &self.values[i] {
                assert(values_view(self.values@)[i as int] is EventListener);
                return true;
            }
            i = i + 1;
        }
        assert forall|j: int| 0 <= j < self@.values.len() implies !(#[trigger] self@.values[j] is EventListener) by {
            assert(self@.values[j] == self.values@[j]@);
        }
        false
    }
}

/// One of the values is an event listener.
pub open spec fn has_listener(v: Seq<ValueModel>) -> bool {
    exists|j: int| 0 <= j < v.len() && (#[trigger] v[j]) is EventListener
}

/// The index in `out` of the attribute called `name`, if there is one.
pub(crate) fn position_of(out: &Vec<Attribute>, name: &String) -> (r: Option<usize>)
    ensures
        match r {
            Some(j) => j < out.len() && out@[j as int]@.name == name@ && forall|k: int|
                0 <= k < j ==> (#[trigger] out@[k])@.name != name@,
            None => forall|j: int| 0 <= j < out.len() ==> (#[trigger] out@[j])@.name != name@,
        },
{
    let mut j: usize = 0;
    while j < out.len()
        invariant
            j <= out.len(),
            forall|k: int| 0 <= k < j ==> (#[trigger] out@[k])@.name != name@,
        decreases out.len() - j,
    {
        if out[j].name == *name {
            return Some(j);
        }
        j = j + 1;
    }
    None
}

#[verifier::external_type_specification]
#[verifier::external_body]
#[verifier::reject_recursive_types(K)]
#[verifier::reject_recursive_types(V)]
#[verifier::reject_recursive_types(S)]
pub struct ExIndexMap<K, V, S>(IndexMap<K, V, S>);

/// The table from an attribute name to its position, as (name, position) pairs in
/// insertion order.
pub uninterp spec fn name_table_entries(m: IndexMap<String, usize>) -> Seq<(Seq<char>, usize)>;

/// No two entries share a key.
pub open spec fn keys_unique(e: Seq<(Seq<char>, usize)>) -> bool {
    forall|i: int, j: int| 0 <= i < e.len() && 0 <= j < e.len() && i != j ==> (#[trigger] e[i]).0
        != (#[trigger] e[j]).0
}

/// Relies on `IndexMap::new`: the new map is empty.
#[verifier::external_body]
fn name_table_new() -> (r: IndexMap<String, usize>)
    ensures
        name_table_entries(r) == Seq::<(Seq<char>, usize)>::empty(),
{
    IndexMap::new()
}

/// Relies on `IndexMap::get`: the value stored under an equal key, if any; keys are
/// unique.
#[verifier::external_body]
fn name_table_get(m: &IndexMap<String, usize>, key: &String) -> (r: Option<usize>)
    ensures
        keys_unique(name_table_entries(*m)) ==> match r {
            Some(v) => exists|i: int|
                0 <= i < name_table_entries(*m).len() && #[trigger] name_table_entries(*m)[i] == (
                key@,
                v,
            ),
            None => forall|i: int|
                0 <= i < name_table_entries(*m).len() ==> (#[trigger] name_table_entries(*m)[i]).0
                    != key@,
        },
{
    m.get(key).copied()
}

/// Relies on `IndexMap::insert`: an equal key keeps its place and takes the new value;
/// otherwise the pair goes last.
#[verifier::external_body]
fn name_table_insert(m: &mut IndexMap<String, usize>, key: String, value: usize)
    ensures
        keys_unique(name_table_entries(*old(m))) ==> keys_unique(name_table_entries(*final(m))),
        keys_unique(name_table_entries(*old(m))) ==> (if exists|i: int|
            0 <= i < name_table_entries(*old(m)).len() && (#[trigger] name_table_entries(
                *old(m),
            )[i]).0 == key@ {
            exists|i: int|
                0 <= i < name_table_entries(*old(m)).len() && (#[trigger] name_table_entries(
                    *old(m),
                )[i]).0 == key@ && name_table_entries(*final(m)) == name_table_entries(
                    *old(m),
                ).update(i, (key@, value))
        } else {
            name_table_entries(*final(m)) == name_table_entries(*old(m)).push((key@, value))
        }),
{
    m.insert(key, value);
}

/// Merges declarations of the same name into one attribute per name: names keep the
/// order of their first declaration, and each attribute holds the values of all its
/// declarations, in order.
pub fn merge_attributes_of_same_name(attrs: &Vec<Attribute>) -> (r: Vec<Attribute>)
    ensures
        attrs_view(r@) == merged(attrs_view(attrs@)),
        names_unique(attrs_view(r@)),
{
    let mut out: Vec<Attribute> = Vec::new();
    let mut table = name_table_new();
    let mut i: usize = 0;
    while i < attrs.len()
        invariant
            i <= attrs.len(),
            attrs_view(out@) == merged(attrs_view(attrs@.subrange(0, i as int))),
            keys_unique(name_table_entries(table)),
            name_table_entries(table).len() == out.len(),
            forall|j: int|
                0 <= j < out.len() ==> #[trigger] name_table_entries(table)[j] == (
                    out@[j]@.name,
                    j as usize,
                ),
        decreases attrs.len() - i,
    {
        let ghost m = attrs_view(out@);
        let ghost old_out = out@;
        let ghost s = attrs_view(attrs@.subrange(0, i as int + 1));
        let ghost e = name_table_entries(table);
        proof {
            assert(s.drop_last() =~= attrs_view(attrs@.subrange(0, i as int)));
            assert(s.last() == attrs@[i as int]@);
            lemma_merged_unique(s.drop_last());
        }
        let a = &attrs[i];
        match name_table_get(&table, &a.name) {
            Some(j) => {
                let ghost x = choose|x: int| 0 <= x < e.len() && #[trigger] e[x] == (a@.name, j);
                assert(e[x] == (old_out[x]@.name, x as usize));
                assert(x == j);
                assert(m[j as int] == old_out[j as int]@);
                proof {
                    lemma_find_unique(m, a@.name, j as int);
                }
                let mut existing = out.remove(j);
                let more = copy_values(&a.values);
                let mut k: usize = 0;
                let ghost before = existing.values@;
                while k < more.len()
                    invariant
                        k <= more.len(),
                        existing.values.len() == before.len() + k,
                        forall|x: int| 0 <= x < before.len() ==> (#[trigger] existing.values@[x])@ == before[x]@,
                        forall|x: int| 0 <= x < k ==> (#[trigger] existing.values@[before.len() + x])@ == more@[x]@,
                        existing.name@ == a.name@,
                    decreases more.len() - k,
                {
                    existing.values.push(more[k].duplicate());
                    k = k + 1;
                }
                assert forall|x: int| 0 <= x < existing.values.len() implies (#[trigger] values_view(existing.values@)[x])
                    == (values_view(before) + values_view(more@))[x] by {
                    if x >= before.len() {
                        assert(existing.values@[before.len() + (x - before.len())]@ == more@[x - before.len()]@);
                    }
                }
                assert(values_view(existing.values@) =~= values_view(before) + values_view(more@));
                out.insert(j, existing);
                assert(attrs_view(out@) =~= merge_one(m, a@));
                assert forall|y: int| 0 <= y < out.len() implies #[trigger] name_table_entries(table)[y]
                    == (out@[y]@.name, y as usize) by {
                    assert(attrs_view(out@)[y] == out@[y]@);
                    assert(m[y] == old_out[y]@);
                    assert(e[y] == (old_out[y]@.name, y as usize));
                }
            },
            None => {
                proof {
                    assert(find_name(m, a@.name) is None) by {
                        if exists|y: int| 0 <= y < m.len() && (#[trigger] m[y]).name == a@.name {
                            let y = choose|y: int| 0 <= y < m.len() && (#[trigger] m[y]).name == a@.name;
                            assert(e[y] == (old_out[y]@.name, y as usize));
                            assert(m[y] == old_out[y]@);
                        }
                    }
                }
                let pos = out.len();
                name_table_insert(&mut table, a.name.clone(), pos);
                out.push(a.duplicate());
                assert(attrs_view(out@) =~= merge_one(m, a@));
                assert(name_table_entries(table) == e.push((a@.name, pos)));
                assert forall|y: int| 0 <= y < out.len() implies #[trigger] name_table_entries(table)[y]
                    == (out@[y]@.name, y as usize) by {
                    if y < pos {
                        assert(e[y] == (old_out[y]@.name, y as usize));
                    }
                }
            },
        }
        i = i + 1;
    }
    assert(attrs@.subrange(0, attrs.len() as int) =~= attrs@);
    proof {
        lemma_merged_unique(attrs_view(attrs@));
    }
    out
}

} // verus!

verus! {

/// An element: a tag, an optional namespace, attribute declarations and children.
#[derive(Debug)]
pub struct Element {
    pub namespace: Option<String>,
    pub tag: String,
    pub attrs: Vec<Attribute>,
    pub children: Vec<Node>,
}

/// A component with state: the attributes of its container and the children the view
/// hands to it.
#[derive(Debug)]
pub struct StatefulModel {
    pub attrs: Vec<Attribute>,
    pub children: Vec<Node>,
}

/// The attribute that marks a component's container.
pub open spec fn component_class() -> AttrModel {
    AttrModel { name: "class"@, values: seq![ValueModel::Simple("component"@)] }
}

/// The attribute declarations of a component's container: its class, then the
/// component's own.
pub open spec fn component_attrs(c: StatefulModel) -> Seq<AttrModel> {
    seq![component_class()] + attrs_view(c.attrs@)
}

/// The attribute declarations of a component's container.
pub fn component_attrs_vec(c: &StatefulModel) -> (r: Vec<Attribute>)
    ensures
        attrs_view(r@) == component_attrs(*c),
{
    let mut out: Vec<Attribute> = Vec::new();
    out.push(Attribute::simple("class", "component"));
    let mut i: usize = 0;
    while i < c.attrs.len()
        invariant
            i <= c.attrs.len(),
            out.len() == i + 1,
            out@[0]@ == component_class(),
            forall|j: int| 0 <= j < i ==> (#[trigger] out@[j + 1])@ == c.attrs@[j]@,
        decreases c.attrs.len() - i,
    {
        out.push(c.attrs[i].duplicate());
        i = i + 1;
    }
    assert forall|j: int| 0 <= j < out.len() implies #[trigger] attrs_view(out@)[j]
        == component_attrs(*c)[j] by {
        if j > 0 {
            assert(out@[(j - 1) + 1]@ == c.attrs@[j - 1]@);
        }
    }
    assert(attrs_view(out@) =~= component_attrs(*c));
    out
}

/// A node that is not an element.
#[derive(Debug)]
pub enum Leaf {
    /// Text content.
    Text(String),
    /// A comment.
    Comment(String),
    /// Sibling nodes with no element of their own around them; may be nested.
    Fragment(Vec<Node>),
    /// Sibling nodes at the root, wrapped in a container when realized.
    NodeList(Vec<Node>),
    /// A component with state of its own, realized as a container; its children are
    /// handed to the component, which manages them from then on.
    StatefulComponent(StatefulModel),
    /// A component without state, by the view it has resolved to.
    StatelessComponent(Box<Node>),
    /// A view not yet resolved from its template.
    TemplatedView(Box<Node>),
    /// Markup not yet parsed into nodes.
    SafeHtml(String),
    /// A document type declaration.
    DocType(String),
}

/// A node of the declarative tree.
#[derive(Debug)]
pub enum Node {
    Element(Element),
    Leaf(Leaf),
}

/// The view of an optional string.
pub open spec fn opt_view(o: Option<String>) -> Option<Seq<char>> {
    match o {
        Some(s) => Some(s@),
        None => None,
    }
}

/// Both are elements with the same tag and namespace.
pub open spec fn same_element_kind(a: Element, b: Element) -> bool {
    a.tag@ == b.tag@ && opt_view(a.namespace) == opt_view(b.namespace)
}

/// A node that can be realized: no templated view, unparsed markup or document
/// type anywhere in it.
pub open spec fn realizable(n: Node) -> bool
    decreases n, 1nat,
{
    match n {
        Node::Element(e) => all_realizable(e.children),
        Node::Leaf(Leaf::Fragment(v)) => all_realizable(v),
        Node::Leaf(Leaf::NodeList(v)) => all_realizable(v),
        Node::Leaf(Leaf::StatelessComponent(b)) => realizable(*b),
        Node::Leaf(Leaf::StatefulComponent(c)) => all_realizable(c.children),
        Node::Leaf(Leaf::Text(_)) => true,
        Node::Leaf(Leaf::Comment(_)) => true,
        _ => false,
    }
}

/// Every node of the list can be realized.
pub open spec fn all_realizable(v: Vec<Node>) -> bool
    decreases v, 0nat,
{
    forall|i: int| 0 <= i < v.len() ==> realizable(#[trigger] v[i])
}

/// Whether two optional strings are equal.
pub fn opt_string_eq(a: &Option<String>, b: &Option<String>) -> (r: bool)
    ensures
        r == (opt_view(*a) == opt_view(*b)),
{
    match (a, b) {
        (Some(x), Some(y)) => x.eq(y),
        (None, None) => true,
        _ => false,
    }
}

/// A text node.
pub fn text(s: &str) -> (r: Node)
    ensures
        r matches Node::Leaf(Leaf::Text(t)) && t@ == s@,
{
    Node::Leaf(Leaf::Text(s.to_owned()))
}

/// A comment node.
pub fn comment(s: &str) -> (r: Node)
    ensures
        r matches Node::Leaf(Leaf::Comment(t)) && t@ == s@,
{
    Node::Leaf(Leaf::Comment(s.to_owned()))
}

/// An element without namespace.
pub fn element(tag: &str, attrs: Vec<Attribute>, children: Vec<Node>) -> (r: Node)
    ensures
        r matches Node::Element(e) && e.tag@ == tag@ && e.namespace is None && e.attrs@ == attrs@
            && e.children@ == children@,
{
    Node::Element(Element { namespace: None, tag: tag.to_owned(), attrs, children })
}

/// An element in the namespace `ns`.
pub fn element_ns(ns: &str, tag: &str, attrs: Vec<Attribute>, children: Vec<Node>) -> (r: Node)
    ensures
        r matches Node::Element(e) && e.tag@ == tag@ && opt_view(e.namespace) == Some(ns@)
            && e.attrs@ == attrs@ && e.children@ == children@,
{
    Node::Element(Element { namespace: Some(ns.to_owned()), tag: tag.to_owned(), attrs, children })
}

/// A fragment of sibling nodes.
pub fn fragment(children: Vec<Node>) -> (r: Node)
    ensures
        r matches Node::Leaf(Leaf::Fragment(v)) && v@ == children@,
{
    Node::Leaf(Leaf::Fragment(children))
}

/// A list of sibling nodes at the root.
pub fn node_list(children: Vec<Node>) -> (r: Node)
    ensures
        r matches Node::Leaf(Leaf::NodeList(v)) && v@ == children@,
{
    Node::Leaf(Leaf::NodeList(children))
}

} // verus!

verus! {

/// No declaration in `attrs` carries an event listener.
pub open spec fn attrs_listener_free(attrs: Seq<AttrModel>) -> bool {
    forall|i: int| 0 <= i < attrs.len() ==> !has_listener((#[trigger] attrs[i]).values)
}

/// No element anywhere in `n` declares an event listener.
pub open spec fn listener_free(n: Node) -> bool
    decreases n, 1nat,
{
    match n {
        Node::Element(e) => attrs_listener_free(attrs_view(e.attrs@)) && all_listener_free(e.children),
        Node::Leaf(Leaf::Fragment(v)) => all_listener_free(v),
        Node::Leaf(Leaf::NodeList(v)) => all_listener_free(v),
        Node::Leaf(Leaf::StatelessComponent(b)) => listener_free(*b),
        Node::Leaf(Leaf::StatefulComponent(c)) => attrs_listener_free(attrs_view(c.attrs@)),
        Node::Leaf(Leaf::TemplatedView(b)) => listener_free(*b),
        _ => true,
    }
}

/// No node of the list declares an event listener anywhere.
pub open spec fn all_listener_free(v: Vec<Node>) -> bool
    decreases v, 0nat,
{
    forall|i: int| 0 <= i < v.len() ==> listener_free(#[trigger] v[i])
}

/// Merging declarations without listeners gives attributes without listeners.
pub proof fn lemma_merged_listener_free(s: Seq<AttrModel>)
    requires
        attrs_listener_free(s),
    ensures
        attrs_listener_free(merged(s)),
    decreases s.len(),
{
    if s.len() > 0 {
        let p = s.drop_last();
        assert(attrs_listener_free(p)) by {
            assert forall|i: int| 0 <= i < p.len() implies !has_listener((#[trigger] p[i]).values) by {
                assert(p[i] == s[i]);
            }
        }
        lemma_merged_listener_free(p);
        let m = merged(p);
        let a = s.last();
        assert(!has_listener(a.values)) by {
            assert(a == s[s.len() - 1]);
        }
        let r = merge_one(m, a);
        assert forall|i: int| 0 <= i < r.len() implies !has_listener((#[trigger] r[i]).values) by {
            if let Some(j) = find_name(m, a.name) {
                if i == j {
                    let vs = m[j].values + a.values;
                    assert(r[i].values == vs);
                    if has_listener(vs) {
                        let k = choose|k: int| 0 <= k < vs.len() && (#[trigger] vs[k]) is EventListener;
                        if k < m[j].values.len() {
                            assert(m[j].values[k] is EventListener);
                        } else {
                            assert(a.values[k - m[j].values.len()] is EventListener);
                        }
                    }
                } else {
                    assert(r[i] == m[i]);
                }
            } else {
                if i < m.len() {
                    assert(r[i] == m[i]);
                }
            }
        }
    }
}

} // verus!

verus! {

fn all_realizable_exec(v: &Vec<Node>) -> (r: bool)
    ensures
        r == all_realizable(*v),
    decreases v, 0nat,
{
    let mut i: usize = 0;
    while i < v.len()
        invariant
            i <= v.len(),
            forall|j: int| 0 <= j < i ==> realizable(#[trigger] v[j]),
        decreases v.len() - i,
    {
        if !is_realizable(&v[i]) {
            return false;
        }
        i = i + 1;
    }
    true
}

/// Whether `n` can be realized: no templated view, unparsed markup or document type
/// anywhere in it.
pub fn is_realizable(n: &Node) -> (r: bool)
    ensures
        r == realizable(*n),
    decreases n, 1nat,
{
    match n {
        Node::Element(e) => all_realizable_exec(&e.children),
        Node::Leaf(Leaf::Fragment(v)) => all_realizable_exec(v),
        Node::Leaf(Leaf::NodeList(v)) => all_realizable_exec(v),
        Node::Leaf(Leaf::StatelessComponent(b)) => is_realizable(b),
        Node::Leaf(Leaf::StatefulComponent(c)) => all_realizable_exec(&c.children),
        Node::Leaf(Leaf::Text(_)) => true,
        Node::Leaf(Leaf::Comment(_)) => true,
        _ => false,
    }
}

} // verus!

verus! {

/// The values of an attribute sorted by kind, each kind in declaration order.
pub struct GroupedModel {
    pub listeners: Seq<u64>,
    pub plain_values: Seq<Seq<char>>,
    pub styles: Seq<(Seq<char>, Seq<char>)>,
    pub function_calls: Seq<Seq<char>>,
}

/// The values sorted by kind: every listener, plain value, style and function-call
/// value is kept, in the order declared; a value-less entry adds nothing.
pub open spec fn grouped(values: Seq<ValueModel>) -> GroupedModel
    decreases values.len(),
{
    if values.len() == 0 {
        GroupedModel {
            listeners: Seq::empty(),
            plain_values: Seq::empty(),
            styles: Seq::empty(),
            function_calls: Seq::empty(),
        }
    } else {
        let g = grouped(values.drop_last());
        match values.last() {
            ValueModel::Simple(s) => GroupedModel { plain_values: g.plain_values.push(s), ..g },
            ValueModel::Style(k, v) => GroupedModel { styles: g.styles.push((k, v)), ..g },
            ValueModel::FunctionCall(s) => GroupedModel {
                function_calls: g.function_calls.push(s),
                ..g
            },
            ValueModel::EventListener(h) => GroupedModel { listeners: g.listeners.push(h), ..g },
            ValueModel::Empty => g,
        }
    }
}

/// The values of an attribute sorted by kind, each handled by its own primitive when
/// applied.
#[derive(Debug)]
pub struct GroupedValues {
    pub listeners: Vec<u64>,
    pub plain_values: Vec<String>,
    pub styles: Vec<(String, String)>,
    pub function_calls: Vec<String>,
}

/// The views of the strings, in order.
pub open spec fn strings_view(v: Seq<String>) -> Seq<Seq<char>> {
    v.map_values(|s: String| s@)
}

/// The views of the pairs of strings, in order.
pub open spec fn pairs_view(v: Seq<(String, String)>) -> Seq<(Seq<char>, Seq<char>)> {
    v.map_values(|p: (String, String)| (p.0@, p.1@))
}

impl View for GroupedValues {
    type V = GroupedModel;

    open spec fn view(&self) -> GroupedModel {
        GroupedModel {
            listeners: self.listeners@,
            plain_values: strings_view(self.plain_values@),
            styles: pairs_view(self.styles@),
            function_calls: strings_view(self.function_calls@),
        }
    }
}

impl Attribute {
    /// The values sorted by kind.
    pub fn group_values(&self) -> (r: GroupedValues)
        ensures
            r@ == grouped(self@.values),
    {
        let ghost vs = self@.values;
        let mut g = GroupedValues {
            listeners: Vec::new(),
            plain_values: Vec::new(),
            styles: Vec::new(),
            function_calls: Vec::new(),
        };
        let mut i: usize = 0;
        assert(vs.subrange(0, 0) =~= Seq::<ValueModel>::empty());
        assert(g@ == grouped(Seq::<ValueModel>::empty())) by {
            assert(g@.plain_values =~= Seq::<Seq<char>>::empty());
            assert(g@.styles =~= Seq::<(Seq<char>, Seq<char>)>::empty());
            assert(g@.function_calls =~= Seq::<Seq<char>>::empty());
        }
        while i < self.values.len()
            invariant
                i <= self.values.len(),
                vs == self@.values,
                vs.len() == self.values.len(),
                g@ == grouped(vs.subrange(0, i as int)),
            decreases self.values.len() - i,
        {
            let ghost before = g@;
            assert(vs.subrange(0, i + 1).drop_last() =~= vs.subrange(0, i as int));
            assert(vs.subrange(0, i + 1).last() == self.values@[i as int]@);
            match &self.values[i] {
                AttributeValue::Simple(s) => {
                    g.plain_values.push(s.clone());
                    assert(g@.plain_values =~= before.plain_values.push(s@));
                },
                AttributeValue::Style(k, v) => {
                    g.styles.push((k.clone(), v.clone()));
                    assert(g@.styles =~= before.styles.push((k@, v@)));
                },
                AttributeValue::FunctionCall(s) => {
                    g.function_calls.push(s.clone());
                    assert(g@.function_calls =~= before.function_calls.push(s@));
                },
                AttributeValue::EventListener(h) => {
                    g.listeners.push(*h);
                },
                AttributeValue::Empty => {},
            }
            i = i + 1;
        }
        assert(vs.subrange(0, self.values.len() as int) =~= vs);
        g
    }
}

} // verus!

verus! {

/// Grouping the values of two declarations merged into one keeps, for each kind, the
/// values of the first followed by those of the second.
pub proof fn lemma_grouped_concat(a: Seq<ValueModel>, b: Seq<ValueModel>)
    ensures
        grouped(a + b).listeners == grouped(a).listeners + grouped(b).listeners,
        grouped(a + b).plain_values == grouped(a).plain_values + grouped(b).plain_values,
        grouped(a + b).styles == grouped(a).styles + grouped(b).styles,
        grouped(a + b).function_calls == grouped(a).function_calls + grouped(b).function_calls,
    decreases b.len(),
{
    if b.len() == 0 {
        assert(a + b =~= a);
        assert(grouped(a).listeners + grouped(b).listeners =~= grouped(a).listeners);
        assert(grouped(a).plain_values + grouped(b).plain_values =~= grouped(a).plain_values);
        assert(grouped(a).styles + grouped(b).styles =~= grouped(a).styles);
        assert(grouped(a).function_calls + grouped(b).function_calls =~= grouped(a).function_calls);
    } else {
        lemma_grouped_concat(a, b.drop_last());
        assert((a + b).drop_last() =~= a + b.drop_last());
        assert((a + b).last() == b.last());
        let ga = grouped(a);
        let gb = grouped(b.drop_last());
        match b.last() {
            ValueModel::Simple(s) => {
                assert(ga.plain_values + gb.plain_values.push(s) =~= (ga.plain_values + gb.plain_values).push(s));
            },
            ValueModel::Style(k, v) => {
                assert(ga.styles + gb.styles.push((k, v)) =~= (ga.styles + gb.styles).push((k, v)));
            },
            ValueModel::FunctionCall(s) => {
                assert(ga.function_calls + gb.function_calls.push(s) =~= (ga.function_calls
                    + gb.function_calls).push(s));
            },
            ValueModel::EventListener(h) => {
                assert(ga.listeners + gb.listeners.push(h) =~= (ga.listeners + gb.listeners).push(h));
            },
            ValueModel::Empty => {},
        }
    }
}

} // verus!

verus! {

/// The values of every declaration called `name`, one declaration after the other.
pub open spec fn values_named(s: Seq<AttrModel>, name: Seq<char>) -> Seq<ValueModel>
    decreases s.len(),
{
    if s.len() == 0 {
        Seq::empty()
    } else {
        values_named(s.drop_last(), name) + if s.last().name == name {
            s.last().values
        } else {
            Seq::empty()
        }
    }
}

/// Some declaration of `s` is called `name`.
pub open spec fn declares(s: Seq<AttrModel>, name: Seq<char>) -> bool {
    exists|i: int| 0 <= i < s.len() && (#[trigger] s[i]).name == name
}

proof fn lemma_values_named_absent(s: Seq<AttrModel>, name: Seq<char>)
    requires
        !declares(s, name),
    ensures
        values_named(s, name) == Seq::<ValueModel>::empty(),
    decreases s.len(),
{
    if s.len() > 0 {
        let p = s.drop_last();
        assert(!declares(p, name)) by {
            if declares(p, name) {
                let i = choose|i: int| 0 <= i < p.len() && (#[trigger] p[i]).name == name;
                assert(s[i] == p[i]);
            }
        }
        lemma_values_named_absent(p, name);
        assert(s.last() == s[s.len() - 1]);
        assert(values_named(s, name) =~= Seq::<ValueModel>::empty());
    }
}

/// Merging by name: a name is merged exactly where some declaration has it, and its
/// attribute holds the values of all declarations of that name, in declaration order.
pub proof fn lemma_merged_values(s: Seq<AttrModel>)
    ensures
        forall|name: Seq<char>| declares(merged(s), name) <==> declares(s, name),
        forall|j: int|
            0 <= j < merged(s).len() ==> (#[trigger] merged(s)[j]).values == values_named(
                s,
                merged(s)[j].name,
            ),
    decreases s.len(),
{
    if s.len() > 0 {
        let p = s.drop_last();
        let a = s.last();
        lemma_merged_values(p);
        lemma_merged_unique(p);
        let m = merged(p);
        let r = merge_one(m, a);
        assert(a == s[s.len() - 1]);
        assert forall|name: Seq<char>| declares(r, name) <==> declares(s, name) by {
            if declares(s, name) {
                let i = choose|i: int| 0 <= i < s.len() && (#[trigger] s[i]).name == name;
                if i < p.len() {
                    assert(p[i] == s[i]);
                    assert(declares(p, name));
                    let k = choose|k: int| 0 <= k < m.len() && (#[trigger] m[k]).name == name;
                    assert(r[k].name == name);
                } else {
                    match find_name(m, a.name) {
                        Some(j) => assert(r[j].name == name),
                        None => assert(r[m.len() as int].name == name),
                    }
                }
            }
            if declares(r, name) {
                let k = choose|k: int| 0 <= k < r.len() && (#[trigger] r[k]).name == name;
                if name == a.name {
                    assert(s[s.len() - 1].name == name);
                } else {
                    match find_name(m, a.name) {
                        Some(j) => {
                            assert(k != j);
                        },
                        None => {
                            assert(k != m.len());
                        },
                    }
                    assert(r[k] == m[k]);
                    assert(declares(m, name));
                    assert(declares(p, name));
                    let i = choose|i: int| 0 <= i < p.len() && (#[trigger] p[i]).name == name;
                    assert(s[i] == p[i]);
                }
            }
        }
        assert forall|j: int| 0 <= j < r.len() implies (#[trigger] r[j]).values == values_named(
            s,
            r[j].name,
        ) by {
            assert(values_named(s, r[j].name) == values_named(p, r[j].name) + if a.name
                == r[j].name {
                a.values
            } else {
                Seq::empty()
            });
            match find_name(m, a.name) {
                Some(i) => {
                    if j == i {
                        assert(m[i].values == values_named(p, m[i].name));
                    } else {
                        assert(r[j] == m[j]);
                        assert(m[j].name != m[i].name);
                        assert(m[j].values + Seq::<ValueModel>::empty() =~= m[j].values);
                    }
                },
                None => {
                    if j < m.len() {
                        assert(r[j] == m[j]);
                        assert(m[j].name != a.name);
                        assert(m[j].values + Seq::<ValueModel>::empty() =~= m[j].values);
                    } else {
                        assert(!declares(m, a.name));
                        assert(!declares(p, a.name));
                        lemma_values_named_absent(p, a.name);
                        assert(Seq::<ValueModel>::empty() + a.values =~= a.values);
                    }
                },
            }
        }
    }
}

} // verus!
