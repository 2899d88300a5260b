//! XML documents as trees that the library edits, read and written with
//! the `xmltree` crate.

use vstd::prelude::*;

use xmltree::{EmitterConfig, Namespace};

use crate::epub::Error;
use crate::text::{str_eq, string_views};

verus! {

#[verifier::external_type_specification]
#[verifier::external_body]
pub struct ExXmlTreeElement(xmltree::Element);

#[verifier::external_type_specification]
#[verifier::external_body]
pub struct ExXmlTreeNode(xmltree::XMLNode);

/// An XML element: its name, namespace, attributes in order, and children.
pub struct XmlElement {
    pub prefix: Option<String>,
    pub namespace: Option<String>,
    /// The namespace declarations in scope: prefix and URI.
    pub namespaces: Option<Vec<(String, String)>>,
    pub name: String,
    pub attributes: Vec<(String, String)>,
    pub children: Vec<XmlNode>,
}

pub enum XmlNode {
    Element(XmlElement),
    Comment(String),
    CData(String),
    Text(String),
    ProcessingInstruction(String, Option<String>),
}

/// The content of an element.
pub struct ElementView {
    pub prefix: Option<Seq<char>>,
    pub namespace: Option<Seq<char>>,
    pub namespaces: Option<Seq<(Seq<char>, Seq<char>)>>,
    pub name: Seq<char>,
    pub attributes: Seq<(Seq<char>, Seq<char>)>,
    pub children: Seq<NodeView>,
}

pub enum NodeView {
    Element(ElementView),
    Comment(Seq<char>),
    CData(Seq<char>),
    Text(Seq<char>),
    ProcessingInstruction(Seq<char>, Option<Seq<char>>),
}

pub open spec fn opt_text(s: Option<String>) -> Option<Seq<char>> {
    match s {
        Some(s) => Some(s@),
        None => None,
    }
}

pub open spec fn pairs_view(pairs: Seq<(String, String)>) -> Seq<(Seq<char>, Seq<char>)> {
    pairs.map_values(|p: (String, String)| (p.0@, p.1@))
}

pub open spec fn opt_pairs_view(pairs: Option<Vec<(String, String)>>) -> Option<
    Seq<(Seq<char>, Seq<char>)>,
> {
    match pairs {
        Some(p) => Some(pairs_view(p@)),
        None => None,
    }
}

pub open spec fn element_view(e: XmlElement) -> ElementView
    decreases e, 2int,
{
    ElementView {
        prefix: opt_text(e.prefix),
        namespace: opt_text(e.namespace),
        namespaces: opt_pairs_view(e.namespaces),
        name: e.name@,
        attributes: pairs_view(e.attributes@),
        children: node_views(e.children@),
    }
}

pub open spec fn node_views(nodes: Seq<XmlNode>) -> Seq<NodeView>
    decreases nodes, 1int,
{
    if nodes.len() == 0 {
        seq![]
    } else {
        node_views(nodes.drop_last()).push(node_view(nodes.last()))
    }
}

pub open spec fn node_view(node: XmlNode) -> NodeView
    decreases node, 0int,
{
    match node {
        XmlNode::Element(e) => NodeView::Element(element_view(e)),
        XmlNode::Comment(s) => NodeView::Comment(s@),
        XmlNode::CData(s) => NodeView::CData(s@),
        XmlNode::Text(s) => NodeView::Text(s@),
        XmlNode::ProcessingInstruction(n, d) => NodeView::ProcessingInstruction(n@, opt_text(d)),
    }
}

pub proof fn lemma_node_views(nodes: Seq<XmlNode>)
    ensures
        node_views(nodes).len() == nodes.len(),
        forall|i: int| 0 <= i < nodes.len() ==> #[trigger] node_views(nodes)[i] == node_view(nodes[i]),
    decreases nodes.len(),
{
    if nodes.len() > 0 {
        lemma_node_views(nodes.drop_last());
        assert forall|i: int| 0 <= i < nodes.len() implies #[trigger] node_views(nodes)[i]
            == node_view(nodes[i]) by {
            if i < nodes.len() - 1 {
                assert(nodes.drop_last()[i] == nodes[i]);
            }
        }
    }
}

/// Whether `node` is an element named `name`.
pub open spec fn is_named(node: NodeView, name: Seq<char>) -> bool {
    node is Element && node->Element_0.name == name
}

/// The position of the first element child named `name`, from `i` on.
pub open spec fn element_position(children: Seq<NodeView>, name: Seq<char>, i: int) -> Option<int>
    decreases children.len() - i,
{
    if i < 0 || i >= children.len() {
        None
    } else if is_named(children[i], name) {
        Some(i)
    } else {
        element_position(children, name, i + 1)
    }
}

pub proof fn lemma_element_position(children: Seq<NodeView>, name: Seq<char>, i: int)
    requires
        0 <= i,
    ensures
        element_position(children, name, i) matches Some(k) ==> i <= k < children.len()
            && is_named(children[k], name),
        element_position(children, name, i) is None ==> forall|k: int|
            i <= k < children.len() ==> !is_named(#[trigger] children[k], name),
    decreases children.len() - i,
{
    if i < children.len() {
        lemma_element_position(children, name, i + 1);
    }
}

pub proof fn lemma_element_position_at(children: Seq<NodeView>, name: Seq<char>, i: int, k: int)
    requires
        0 <= i <= k < children.len(),
        is_named(children[k], name),
        forall|j: int| i <= j < k ==> !is_named(#[trigger] children[j], name),
    ensures
        element_position(children, name, i) == Some(k),
    decreases k - i,
{
    if i < k {
        lemma_element_position_at(children, name, i + 1, k);
    }
}

/// The first element child named `name`.
pub open spec fn child_of(parent: ElementView, name: Seq<char>) -> Option<ElementView> {
    match element_position(parent.children, name, 0) {
        Some(k) => Some(parent.children[k]->Element_0),
        None => None,
    }
}

/// The position of the first attribute named `key`, from `i` on.
pub open spec fn attr_position(attrs: Seq<(Seq<char>, Seq<char>)>, key: Seq<char>, i: int) -> Option<
    int,
>
    decreases attrs.len() - i,
{
    if i < 0 || i >= attrs.len() {
        None
    } else if attrs[i].0 == key {
        Some(i)
    } else {
        attr_position(attrs, key, i + 1)
    }
}

pub proof fn lemma_attr_position(attrs: Seq<(Seq<char>, Seq<char>)>, key: Seq<char>, i: int)
    requires
        0 <= i,
    ensures
        attr_position(attrs, key, i) matches Some(k) ==> i <= k < attrs.len() && attrs[k].0 == key
            && forall|j: int| i <= j < k ==> (#[trigger] attrs[j]).0 != key,
        attr_position(attrs, key, i) is None ==> forall|k: int|
            i <= k < attrs.len() ==> (#[trigger] attrs[k]).0 != key,
    decreases attrs.len() - i,
{
    if i < attrs.len() {
        lemma_attr_position(attrs, key, i + 1);
    }
}

/// Two attribute lists that agree, from `i` on, on which pairs have `key`
/// and on their values, give the same position and value for `key`.
proof fn lemma_attr_position_frame(
    a: Seq<(Seq<char>, Seq<char>)>,
    b: Seq<(Seq<char>, Seq<char>)>,
    key: Seq<char>,
    i: int,
)
    requires
        0 <= i,
        a.len() <= b.len(),
        forall|j: int| i <= j < a.len() ==> ((#[trigger] a[j]).0 == key <==> b[j].0 == key),
        forall|j: int| i <= j < a.len() && (#[trigger] a[j]).0 == key ==> a[j].1 == b[j].1,
        forall|j: int| a.len() <= j < b.len() ==> (#[trigger] b[j]).0 != key,
    ensures
        attr_position(a, key, i) == attr_position(b, key, i),
        attr_position(a, key, i) matches Some(k) ==> a[k].1 == b[k].1,
    decreases b.len() - i,
{
    lemma_attr_position(a, key, i);
    if i < b.len() {
        lemma_attr_position_frame(a, b, key, i + 1);
    }
}

proof fn lemma_attr_position_at(attrs: Seq<(Seq<char>, Seq<char>)>, key: Seq<char>, i: int, k: int)
    requires
        0 <= i <= k < attrs.len(),
        attrs[k].0 == key,
        forall|j: int| i <= j < k ==> (#[trigger] attrs[j]).0 != key,
    ensures
        attr_position(attrs, key, i) == Some(k),
    decreases k - i,
{
    if i < k {
        lemma_attr_position_at(attrs, key, i + 1, k);
    }
}

/// Setting one attribute leaves the others as they were.
pub proof fn lemma_attr_of_with_attr(e: ElementView, key: Seq<char>, value: Seq<char>, other: Seq<char>)
    ensures
        attr_of(with_attr(e, key, value), other) == if other == key {
            Some(value)
        } else {
            attr_of(e, other)
        },
{
    let a = e.attributes;
    let b = put_pair(a, key, value);
    lemma_attr_position(a, key, 0);
    lemma_attr_position(b, other, 0);
    if other == key {
        match attr_position(a, key, 0) {
            Some(k) => {
                assert(b[k] == (key, value));
                lemma_attr_position_at(b, key, 0, k);
            },
            None => {
                assert(b[a.len() as int] == (key, value));
                lemma_attr_position_at(b, key, 0, a.len() as int);
            },
        }
    } else {
        lemma_attr_position_frame(a, b, other, 0);
    }
}

/// The value of attribute `key`.
pub open spec fn attr_of(e: ElementView, key: Seq<char>) -> Option<Seq<char>> {
    match attr_position(e.attributes, key, 0) {
        Some(k) => Some(e.attributes[k].1),
        None => None,
    }
}

/// `attrs` with `key` set to `value`: in its place if it is there, else at
/// the end.
pub open spec fn put_pair(attrs: Seq<(Seq<char>, Seq<char>)>, key: Seq<char>, value: Seq<char>) -> Seq<
    (Seq<char>, Seq<char>),
> {
    match attr_position(attrs, key, 0) {
        Some(k) => attrs.update(k, (key, value)),
        None => attrs.push((key, value)),
    }
}

/// `e` with attribute `key` set to `value`.
pub open spec fn with_attr(e: ElementView, key: Seq<char>, value: Seq<char>) -> ElementView {
    ElementView { attributes: put_pair(e.attributes, key, value), ..e }
}

/// `attrs` without `key`: its place taken by the last pair, as
/// `IndexMap::remove` (a swap-remove) does.
pub open spec fn drop_pair(attrs: Seq<(Seq<char>, Seq<char>)>, key: Seq<char>) -> Seq<
    (Seq<char>, Seq<char>),
> {
    match attr_position(attrs, key, 0) {
        Some(k) => attrs.update(k, attrs.last()).drop_last(),
        None => attrs,
    }
}

/// `e` without attribute `key`.
pub open spec fn without_attr(e: ElementView, key: Seq<char>) -> ElementView {
    ElementView { attributes: drop_pair(e.attributes, key), ..e }
}

/// Setting an attribute to the value it has changes nothing.
pub proof fn lemma_with_attr_same(e: ElementView, key: Seq<char>, value: Seq<char>)
    requires
        attr_of(e, key) == Some(value),
    ensures
        with_attr(e, key, value) == e,
{
    lemma_attr_position(e.attributes, key, 0);
    let k = attr_position(e.attributes, key, 0)->0;
    assert(e.attributes.update(k, (key, value)) =~= e.attributes);
}

/// Attribute names that occur once each, as in an element that was read.
pub open spec fn distinct_keys(attrs: Seq<(Seq<char>, Seq<char>)>) -> bool {
    forall|i: int, j: int|
        0 <= i < j < attrs.len() ==> (#[trigger] attrs[i]).0 != (#[trigger] attrs[j]).0
}

/// Once removed, an attribute whose name occurs once is gone.
pub proof fn lemma_attr_of_without_attr(e: ElementView, key: Seq<char>)
    requires
        distinct_keys(e.attributes),
    ensures
        attr_of(without_attr(e, key), key) is None,
{
    let attrs = e.attributes;
    lemma_attr_position(attrs, key, 0);
    if let Some(k) = attr_position(attrs, key, 0) {
        let b = attrs.update(k, attrs.last()).drop_last();
        assert forall|j: int| 0 <= j < b.len() implies (#[trigger] b[j]).0 != key by {
            if j == k {
                assert(b[j] == attrs[attrs.len() - 1]);
                assert(attrs[k].0 == key);
            } else {
                assert(b[j] == attrs[j]);
                if j < k {
                    assert(attrs[j].0 != attrs[k].0);
                } else {
                    assert(attrs[k].0 != attrs[j].0);
                }
            }
        }
        lemma_attr_position(b, key, 0);
    }
}

/// `e` with `children` in place of its children.
pub open spec fn with_children(e: ElementView, children: Seq<NodeView>) -> ElementView {
    ElementView { children: children, ..e }
}

/// An element named `name` and nothing else (`Element::new`).
pub open spec fn bare_element(name: Seq<char>) -> ElementView {
    ElementView {
        prefix: None,
        namespace: None,
        namespaces: None,
        name: name,
        attributes: seq![],
        children: seq![],
    }
}

// ---------------------------------------------------------------------------
// Executable helpers
// ---------------------------------------------------------------------------

/// An element named `name` and nothing else.
pub fn new_element(name: &str) -> (r: XmlElement)
    ensures
        element_view(r) == bare_element(name@),
{
    let r = XmlElement {
        prefix: None,
        namespace: None,
        namespaces: None,
        name: String::from_str(name),
        attributes: Vec::new(),
        children: Vec::new(),
    };
    proof {
        lemma_node_views(r.children@);
        assert(pairs_view(r.attributes@) =~= Seq::<(Seq<char>, Seq<char>)>::empty());
        assert(node_views(r.children@) =~= Seq::<NodeView>::empty());
    }
    r
}

pub fn copy_optional(s: &Option<String>) -> (r: Option<String>)
    ensures
        opt_text(r) == opt_text(*s),
{
    match s {
        Some(v) => Some(v.clone()),
        None => None,
    }
}

pub fn copy_pairs(pairs: &Vec<(String, String)>) -> (r: Vec<(String, String)>)
    ensures
        pairs_view(r@) == pairs_view(pairs@),
{
    let mut r: Vec<(String, String)> = Vec::new();
    let mut i: usize = 0;
    while i < pairs.len()
        invariant
            0 <= i <= pairs@.len(),
            pairs_view(r@) == pairs_view(pairs@.take(i as int)),
        decreases pairs@.len() - i,
    {
        let ghost before = r@;
        let a = pairs[i].0.clone();
        let b = pairs[i].1.clone();
        assert(a@ == pairs@[i as int].0@ && b@ == pairs@[i as int].1@);
        r.push((a, b));
        assert(pairs_view(r@) =~= pairs_view(before).push((pairs@[i as int].0@, pairs@[i as int].1@)));
        assert(pairs_view(r@) =~= pairs_view(pairs@.take(i + 1))) by {
            assert(pairs@.take(i + 1) =~= pairs@.take(i as int).push(pairs@[i as int]));
            assert(pairs_view(pairs@.take(i + 1)) =~= pairs_view(pairs@.take(i as int)).push(
                (pairs@[i as int].0@, pairs@[i as int].1@),
            ));
        }
        i = i + 1;
    }
    assert(pairs@.take(pairs@.len() as int) =~= pairs@);
    r
}

pub fn copy_optional_pairs(pairs: &Option<Vec<(String, String)>>) -> (r: Option<
    Vec<(String, String)>,
>)
    ensures
        opt_pairs_view(r) == opt_pairs_view(*pairs),
{
    match pairs {
        Some(p) => Some(copy_pairs(p)),
        None => None,
    }
}

/// The value of attribute `key` of `e`.
pub fn attribute<'a>(e: &'a XmlElement, key: &str) -> (r: Option<&'a String>)
    ensures
        match r {
            Some(v) => attr_of(element_view(*e), key@) == Some(v@),
            None => attr_of(element_view(*e), key@) is None,
        },
{
    let ghost attrs = pairs_view(e.attributes@);
    let mut i: usize = 0;
    while i < e.attributes.len()
        invariant
            attrs == pairs_view(e.attributes@),
            0 <= i <= e.attributes@.len(),
            attr_position(attrs, key@, 0) == attr_position(attrs, key@, i as int),
        decreases e.attributes@.len() - i,
    {
        if str_eq(e.attributes[i].0.as_str(), key) {
            assert(attrs[i as int].0 == key@);
            return Some(&e.attributes[i].1);
        }
        i = i + 1;
    }
    None
}

/// Whether attribute `key` of `e` is `value`.
pub fn attribute_is(e: &XmlElement, key: &str, value: &str) -> (r: bool)
    ensures
        r == (attr_of(element_view(*e), key@) == Some(value@)),
{
    match attribute(e, key) {
        Some(v) => str_eq(v.as_str(), value),
        None => false,
    }
}

/// Sets `key` to `value` among `pairs`: in its place if it is there, else
/// at the end.
pub fn put_pair_in(pairs: &mut Vec<(String, String)>, key: &str, value: String)
    ensures
        pairs_view(final(pairs)@) == put_pair(pairs_view(old(pairs)@), key@, value@),
{
    let ghost attrs = pairs_view(pairs@);
    let mut i: usize = 0;
    while i < pairs.len() && !str_eq(pairs[i].0.as_str(), key)
        invariant
            attrs == pairs_view(pairs@),
            0 <= i <= pairs@.len(),
            attr_position(attrs, key@, 0) == attr_position(attrs, key@, i as int),
        decreases pairs@.len() - i,
    {
        i = i + 1;
    }
    let ghost v = value@;
    if i < pairs.len() {
        pairs.set(i, (String::from_str(key), value));
        assert(pairs_view(pairs@) =~= attrs.update(i as int, (key@, v)));
    } else {
        pairs.push((String::from_str(key), value));
        assert(pairs_view(pairs@) =~= attrs.push((key@, v)));
    }
}

/// Sets attribute `key` of `e` to `value`.
pub fn set_attribute(e: &mut XmlElement, key: &str, value: String)
    ensures
        element_view(*final(e)) == with_attr(element_view(*old(e)), key@, value@),
{
    put_pair_in(&mut e.attributes, key, value);
}

/// Removes attribute `key` from `e`, the last attribute taking its place.
pub fn remove_attribute(e: &mut XmlElement, key: &str)
    ensures
        element_view(*final(e)) == without_attr(element_view(*old(e)), key@),
{
    let ghost attrs = pairs_view(e.attributes@);
    let mut i: usize = 0;
    while i < e.attributes.len() && !str_eq(e.attributes[i].0.as_str(), key)
        invariant
            attrs == pairs_view(e.attributes@),
            0 <= i <= e.attributes@.len(),
            attr_position(attrs, key@, 0) == attr_position(attrs, key@, i as int),
        decreases e.attributes@.len() - i,
    {
        i = i + 1;
    }
    if i < e.attributes.len() {
        let ghost before = e.attributes@;
        e.attributes.swap_remove(i);
        assert(pairs_view(e.attributes@) =~= attrs.update(i as int, attrs.last()).drop_last());
    }
}

/// `parent` with `e` as its child at `k`.
pub open spec fn replace_child(parent: ElementView, k: int, e: ElementView) -> ElementView {
    with_children(parent, parent.children.update(k, NodeView::Element(e)))
}

/// The element child at `k`.
pub open spec fn element_at(parent: ElementView, k: int) -> ElementView {
    parent.children[k]->Element_0
}

/// The position of the first element child of `parent` named `name`.
pub fn child_index(parent: &XmlElement, name: &str) -> (r: Option<usize>)
    ensures
        match r {
            Some(k) => element_position(element_view(*parent).children, name@, 0) == Some(
                k as int,
            ),
            None => element_position(element_view(*parent).children, name@, 0) is None,
        },
{
    let ghost children = element_view(*parent).children;
    proof {
        lemma_node_views(parent.children@);
    }
    let mut i: usize = 0;
    while i < parent.children.len()
        invariant
            children == node_views(parent.children@),
            children.len() == parent.children@.len(),
            forall|k: int| 0 <= k < parent.children@.len() ==> #[trigger] children[k] == node_view(parent.children@[k]),
            0 <= i <= parent.children@.len(),
            element_position(children, name@, 0) == element_position(children, name@, i as int),
        decreases parent.children@.len() - i,
    {
        if let XmlNode::Element(e) = &parent.children[i] {
            if str_eq(e.name.as_str(), name) {
                return Some(i);
            }
        }
        i = i + 1;
    }
    None
}

/// Removes the element child at `index` and gives it back.
pub fn take_element(parent: &mut XmlElement, index: usize) -> (r: XmlElement)
    requires
        index < old(parent).children@.len(),
        old(parent).children@[index as int] is Element,
    ensures
        NodeView::Element(element_view(r)) == element_view(*old(parent)).children[index as int],
        element_view(*final(parent)) == with_children(
            element_view(*old(parent)),
            element_view(*old(parent)).children.remove(index as int),
        ),
{
    let ghost before = parent.children@;
    let node = parent.children.remove(index);
    proof {
        lemma_node_views(before);
        lemma_node_views(parent.children@);
        assert(node_views(parent.children@) =~= node_views(before).remove(index as int));
    }
    match node {
        XmlNode::Element(e) => e,
        _ => {
            proof {
                assert(false);
            }
            new_element("")
        },
    }
}

/// Puts `child` back as the child at `index`.
pub fn put_element(parent: &mut XmlElement, index: usize, child: XmlElement)
    requires
        index <= old(parent).children@.len(),
    ensures
        element_view(*final(parent)) == with_children(
            element_view(*old(parent)),
            element_view(*old(parent)).children.insert(
                index as int,
                NodeView::Element(element_view(child)),
            ),
        ),
{
    let ghost before = parent.children@;
    let ghost v = element_view(child);
    parent.children.insert(index, XmlNode::Element(child));
    proof {
        lemma_node_views(before);
        lemma_node_views(parent.children@);
        assert(node_views(parent.children@) =~= node_views(before).insert(
            index as int,
            NodeView::Element(v),
        ));
    }
}

/// Adds `node` as the last child of `parent`.
pub fn push_node(parent: &mut XmlElement, node: XmlNode)
    ensures
        element_view(*final(parent)) == with_children(
            element_view(*old(parent)),
            element_view(*old(parent)).children.push(node_view(node)),
        ),
{
    let ghost before = parent.children@;
    let ghost v = node_view(node);
    parent.children.push(node);
    proof {
        lemma_node_views(before);
        lemma_node_views(parent.children@);
        assert(node_views(parent.children@) =~= node_views(before).push(v));
    }
}

/// Adds `node` as the first child of `parent`.
pub fn prepend_node(parent: &mut XmlElement, node: XmlNode)
    ensures
        element_view(*final(parent)) == with_children(
            element_view(*old(parent)),
            element_view(*old(parent)).children.insert(0, node_view(node)),
        ),
{
    let ghost before = parent.children@;
    let ghost v = node_view(node);
    parent.children.insert(0, node);
    proof {
        lemma_node_views(before);
        lemma_node_views(parent.children@);
        assert(node_views(parent.children@) =~= node_views(before).insert(0, v));
    }
}

// ---------------------------------------------------------------------------
// Reading and writing
// ---------------------------------------------------------------------------

/// The tree that `xmltree` reads from `bytes`, if they hold an XML document.
pub uninterp spec fn parsed_xml(bytes: Seq<u8>) -> Option<ElementView>;

/// The bytes that `xmltree` writes for a tree, without indentation and with
/// an XML declaration, if it can write it.
pub uninterp spec fn written_xml(tree: ElementView) -> Option<Seq<u8>>;

/// Takes an `xmltree` element over, unchanged, into the library's tree.
#[verifier::external_body]
fn element_from_tree(e: xmltree::Element) -> XmlElement {
    XmlElement {
        prefix: e.prefix,
        namespace: e.namespace,
        namespaces: e.namespaces.map(|ns| ns.0.into_iter().collect()),
        name: e.name,
        attributes: e.attributes.into_iter().collect(),
        children: e.children.into_iter().map(node_from_tree).collect(),
    }
}

/// Takes an `xmltree` node over, unchanged, into the library's tree.
#[verifier::external_body]
fn node_from_tree(node: xmltree::XMLNode) -> XmlNode {
    match node {
        xmltree::XMLNode::Element(e) => XmlNode::Element(element_from_tree(e)),
        xmltree::XMLNode::Comment(s) => XmlNode::Comment(s),
        xmltree::XMLNode::CData(s) => XmlNode::CData(s),
        xmltree::XMLNode::Text(s) => XmlNode::Text(s),
        xmltree::XMLNode::ProcessingInstruction(n, d) => XmlNode::ProcessingInstruction(n, d),
    }
}

/// Gives the library's tree, unchanged, to `xmltree`.
#[verifier::external_body]
fn element_to_tree(e: &XmlElement) -> xmltree::Element {
    let mut out = xmltree::Element::new(&e.name);
    out.prefix = e.prefix.clone();
    out.namespace = e.namespace.clone();
    out.namespaces = e.namespaces.as_ref().map(
        |pairs| Namespace(pairs.iter().cloned().collect()),
    );
    out.attributes = e.attributes.iter().cloned().collect();
    out.children = e.children.iter().map(node_to_tree).collect();
    out
}

/// Gives a node of the library's tree, unchanged, to `xmltree`.
#[verifier::external_body]
fn node_to_tree(node: &XmlNode) -> xmltree::XMLNode {
    match node {
        XmlNode::Element(e) => xmltree::XMLNode::Element(element_to_tree(e)),
        XmlNode::Comment(s) => xmltree::XMLNode::Comment(s.clone()),
        XmlNode::CData(s) => xmltree::XMLNode::CData(s.clone()),
        XmlNode::Text(s) => xmltree::XMLNode::Text(s.clone()),
        XmlNode::ProcessingInstruction(n, d) => xmltree::XMLNode::ProcessingInstruction(
            n.clone(),
            d.clone(),
        ),
    }
}

/// Reads the root element of the XML document in `bytes`
/// (`xmltree::Element::parse`). Claims that the outcome is the named
/// function of the bytes.
#[verifier::external_body]
pub(crate) fn parse_xml(bytes: &[u8]) -> (r: Result<XmlElement, Error>)
    ensures
        match r {
            Ok(e) => parsed_xml(bytes@) == Some(element_view(e)),
            Err(err) => parsed_xml(bytes@) is None && err is XmlParse,
        },
{
    xmltree::Element::parse(bytes).map(element_from_tree).map_err(Error::XmlParse)
}

/// Writes `e` as an XML document without indentation and with an XML
/// declaration (`xmltree::Element::write_with_config`). Claims that the
/// outcome is the named function of the tree.
#[verifier::external_body]
pub(crate) fn write_xml(e: &XmlElement) -> (r: Result<Vec<u8>, Error>)
    ensures
        match r {
            Ok(bytes) => written_xml(element_view(*e)) == Some(bytes@),
            Err(err) => written_xml(element_view(*e)) is None && err is XmlWrite,
        },
{
    let mut serialized = Vec::new();
    element_to_tree(e).write_with_config(
        &mut serialized,
        EmitterConfig::new().perform_indent(false).write_document_declaration(true),
    ).map_err(Error::XmlWrite)?;
    Ok(serialized)
}

} // verus!
