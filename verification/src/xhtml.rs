//! Chapters repaired into XHTML: parsed as HTML (as a browser would),
//! given a link to the book's system style sheet, and written back as
//! well-formed XML.

use vstd::prelude::*;
use vstd::utf8::encode_utf8;

use html5ever::tendril::TendrilSink;
use html5ever::{parse_document, ParseOpts};
use markup5ever_rcdom::{Handle, NodeData, RcDom};

use crate::epub::Error;
use crate::paths::{
    dirname, dirname_spec, from_utf8_lossy, manifest_path, manifest_path_spec, relative_path,
    relative_path_spec, utf8_lossy,
};
use crate::text::{chars_of, push_char, str_eq};
use vstd::string::StrSliceExecFns;

verus! {

#[verifier::external_type_specification]
#[verifier::external_body]
pub struct ExRcDomNode(markup5ever_rcdom::Node);

#[verifier::external_type_specification]
#[verifier::external_body]
pub struct ExQualName(html5ever::QualName);

#[verifier::external_type_specification]
#[verifier::external_body]
pub struct ExHtmlAttribute(html5ever::Attribute);

pub const XHTML_NAMESPACE: &'static str = "http://www.w3.org/1999/xhtml";

pub const EPUB_NAMESPACE: &'static str = "http://www.idpf.org/2007/ops";

pub const SVG_NAMESPACE: &'static str = "http://www.w3.org/2000/svg";

pub const MATHML_NAMESPACE: &'static str = "http://www.w3.org/1998/Math/MathML";

pub const XML_NAMESPACE: &'static str = "http://www.w3.org/XML/1998/namespace";

pub const XLINK_NAMESPACE: &'static str = "http://www.w3.org/1999/xlink";

/// A qualified name: optional prefix, namespace URI, local name.
pub struct HtmlName {
    pub prefix: Option<String>,
    pub namespace: String,
    pub local: String,
}

pub struct HtmlAttribute {
    pub name: HtmlName,
    pub value: String,
}

pub struct HtmlElement {
    pub name: HtmlName,
    pub attributes: Vec<HtmlAttribute>,
    /// The children of a `<template>`'s content fragment.
    pub template_contents: Option<Vec<HtmlNode>>,
    pub children: Vec<HtmlNode>,
}

/// A node of an HTML document tree.
pub enum HtmlNode {
    Document(Vec<HtmlNode>),
    Doctype,
    Text(String),
    Comment(String),
    Element(HtmlElement),
    ProcessingInstruction,
}

pub struct NameView {
    pub prefix: Option<Seq<char>>,
    pub namespace: Seq<char>,
    pub local: Seq<char>,
}

pub struct HtmlElementView {
    pub name: NameView,
    pub attributes: Seq<(NameView, Seq<char>)>,
    pub template_contents: Option<Seq<HtmlNodeView>>,
    pub children: Seq<HtmlNodeView>,
}

pub enum HtmlNodeView {
    Document(Seq<HtmlNodeView>),
    Doctype,
    Text(Seq<char>),
    Comment(Seq<char>),
    Element(HtmlElementView),
    ProcessingInstruction,
}

pub open spec fn name_view(n: HtmlName) -> NameView {
    NameView {
        prefix: match n.prefix {
            Some(p) => Some(p@),
            None => None,
        },
        namespace: n.namespace@,
        local: n.local@,
    }
}

pub open spec fn attributes_view(attrs: Seq<HtmlAttribute>) -> Seq<(NameView, Seq<char>)> {
    attrs.map_values(|a: HtmlAttribute| (name_view(a.name), a.value@))
}

pub open spec fn html_element_view(e: HtmlElement) -> HtmlElementView
    decreases e, 2int,
{
    HtmlElementView {
        name: name_view(e.name),
        attributes: attributes_view(e.attributes@),
        template_contents: match e.template_contents {
            Some(nodes) => Some(html_views(nodes@)),
            None => None,
        },
        children: html_views(e.children@),
    }
}

pub open spec fn html_views(nodes: Seq<HtmlNode>) -> Seq<HtmlNodeView>
    decreases nodes, 1int,
{
    if nodes.len() == 0 {
        seq![]
    } else {
        html_views(nodes.drop_last()).push(html_view(nodes.last()))
    }
}

pub open spec fn html_view(node: HtmlNode) -> HtmlNodeView
    decreases node, 0int,
{
    match node {
        HtmlNode::Document(children) => HtmlNodeView::Document(html_views(children@)),
        HtmlNode::Doctype => HtmlNodeView::Doctype,
        HtmlNode::Text(s) => HtmlNodeView::Text(s@),
        HtmlNode::Comment(s) => HtmlNodeView::Comment(s@),
        HtmlNode::Element(e) => HtmlNodeView::Element(html_element_view(e)),
        HtmlNode::ProcessingInstruction => HtmlNodeView::ProcessingInstruction,
    }
}

pub proof fn lemma_html_views(nodes: Seq<HtmlNode>)
    ensures
        html_views(nodes).len() == nodes.len(),
        forall|i: int| 0 <= i < nodes.len() ==> #[trigger] html_views(nodes)[i] == html_view(nodes[i]),
    decreases nodes.len(),
{
    if nodes.len() > 0 {
        lemma_html_views(nodes.drop_last());
        assert forall|i: int| 0 <= i < nodes.len() implies #[trigger] html_views(nodes)[i]
            == html_view(nodes[i]) by {
            if i < nodes.len() - 1 {
                assert(nodes.drop_last()[i] == nodes[i]);
            }
        }
    }
}

// ---------------------------------------------------------------------------
// Finding elements
// ---------------------------------------------------------------------------

/// The first element named `name` in document order, the node itself
/// included; template contents are not searched.
pub open spec fn find_element_spec(node: HtmlNodeView, name: Seq<char>) -> Option<HtmlElementView>
    decreases node, 0int,
{
    match node {
        HtmlNodeView::Element(e) => if e.name.local == name {
            Some(e)
        } else {
            find_in_nodes(e.children, name)
        },
        HtmlNodeView::Document(children) => find_in_nodes(children, name),
        _ => None,
    }
}

pub open spec fn find_in_nodes(nodes: Seq<HtmlNodeView>, name: Seq<char>) -> Option<HtmlElementView>
    decreases nodes, 1int,
{
    if nodes.len() == 0 {
        None
    } else {
        match find_element_spec(nodes[0], name) {
            Some(e) => Some(e),
            None => find_in_nodes(nodes.drop_first(), name),
        }
    }
}

/// The position of the first child element named `name`.
pub open spec fn child_position(children: Seq<HtmlNodeView>, name: Seq<char>, i: int) -> Option<int>
    decreases children.len() - i,
{
    if i < 0 || i >= children.len() {
        None
    } else if children[i] is Element && children[i]->Element_0.name.local == name {
        Some(i)
    } else {
        child_position(children, name, i + 1)
    }
}

/// The value of the first attribute whose local name is `local`.
pub open spec fn attribute_value(attrs: Seq<(NameView, Seq<char>)>, local: Seq<char>, i: int) -> Option<
    Seq<char>,
>
    decreases attrs.len() - i,
{
    if i < 0 || i >= attrs.len() {
        None
    } else if attrs[i].0.local == local {
        Some(attrs[i].1)
    } else {
        attribute_value(attrs, local, i + 1)
    }
}

/// Whether `node` links, from a document in `directory`, to `style_path`.
pub open spec fn links_style(node: HtmlNodeView, directory: Seq<char>, style_path: Seq<char>) -> bool {
    &&& node is Element
    &&& node->Element_0.name.local == "link"@
    &&& attribute_value(node->Element_0.attributes, "href"@, 0) matches Some(href)
    &&& manifest_path_spec(directory + "/document.xhtml"@, href) == style_path
}

/// Whether one of `nodes` from `i` on links to the style sheet.
pub open spec fn has_style_link(nodes: Seq<HtmlNodeView>, directory: Seq<char>, style_path: Seq<char>, i: int) -> bool
    decreases nodes.len() - i,
{
    if i < 0 || i >= nodes.len() {
        false
    } else {
        links_style(nodes[i], directory, style_path) || has_style_link(
            nodes,
            directory,
            style_path,
            i + 1,
        )
    }
}

pub open spec fn html_name(local: Seq<char>) -> NameView {
    NameView { prefix: None, namespace: XHTML_NAMESPACE@, local: local }
}

pub open spec fn plain_name(local: Seq<char>) -> NameView {
    NameView { prefix: None, namespace: seq![], local: local }
}

/// The `<link>` to a style sheet at `href`.
pub open spec fn style_link(href: Seq<char>) -> HtmlNodeView {
    HtmlNodeView::Element(
        HtmlElementView {
            name: html_name("link"@),
            attributes: seq![
                (plain_name("rel"@), "stylesheet"@),
                (plain_name("type"@), "text/css"@),
                (plain_name("href"@), href),
            ],
            template_contents: None,
            children: seq![],
        },
    )
}

// ---------------------------------------------------------------------------
// Serialization
// ---------------------------------------------------------------------------

/// The text with `&`, `<` and `>` escaped.
pub open spec fn escape_text_spec(s: Seq<char>) -> Seq<char>
    decreases s.len(),
{
    if s.len() == 0 {
        seq![]
    } else {
        let c = s.last();
        escape_text_spec(s.drop_last()) + if c == '&' {
            "&amp;"@
        } else if c == '<' {
            "&lt;"@
        } else if c == '>' {
            "&gt;"@
        } else {
            seq![c]
        }
    }
}

/// The text with `&`, `"`, `<` and `>` escaped.
pub open spec fn escape_attribute_spec(s: Seq<char>) -> Seq<char>
    decreases s.len(),
{
    if s.len() == 0 {
        seq![]
    } else {
        let c = s.last();
        escape_attribute_spec(s.drop_last()) + if c == '&' {
            "&amp;"@
        } else if c == '"' {
            "&quot;"@
        } else if c == '<' {
            "&lt;"@
        } else if c == '>' {
            "&gt;"@
        } else {
            seq![c]
        }
    }
}

pub open spec fn qualified_spec(prefix: Option<Seq<char>>, local: Seq<char>) -> Seq<char> {
    match prefix {
        Some(p) => p + ":"@ + local,
        None => local,
    }
}

/// The HTML elements that have no content and no end tag.
pub open spec fn is_void_spec(name: Seq<char>) -> bool {
    ||| name == "area"@
    ||| name == "base"@
    ||| name == "br"@
    ||| name == "col"@
    ||| name == "embed"@
    ||| name == "hr"@
    ||| name == "img"@
    ||| name == "input"@
    ||| name == "link"@
    ||| name == "meta"@
    ||| name == "param"@
    ||| name == "source"@
    ||| name == "track"@
    ||| name == "wbr"@
}

pub open spec fn is_namespace_declaration(local: Seq<char>) -> bool {
    local == "xmlns"@ || (local.len() >= 6 && local.take(6) == "xmlns:"@)
}

/// The prefix written for an attribute.
pub open spec fn attribute_prefix(name: NameView) -> Option<Seq<char>> {
    match name.prefix {
        Some(p) => Some(p),
        None => if name.namespace == XML_NAMESPACE@ {
            Some("xml"@)
        } else if name.namespace == XLINK_NAMESPACE@ {
            Some("xlink"@)
        } else {
            None
        },
    }
}

/// The attributes as written, namespace declarations left out.
pub open spec fn attributes_text(attrs: Seq<(NameView, Seq<char>)>) -> Seq<char>
    decreases attrs.len(),
{
    if attrs.len() == 0 {
        seq![]
    } else {
        let (name, value) = attrs.last();
        attributes_text(attrs.drop_last()) + if is_namespace_declaration(name.local) {
            seq![]
        } else {
            " "@ + qualified_spec(attribute_prefix(name), name.local) + "=\""@
                + escape_attribute_spec(value) + "\""@
        }
    }
}

/// The namespace declarations written on an element's start tag.
pub open spec fn declarations_text(namespace: Seq<char>, parent_namespace: Seq<char>, root: bool) -> Seq<
    char,
> {
    if root {
        " xmlns=\""@ + XHTML_NAMESPACE@ + "\" xmlns:epub=\""@ + EPUB_NAMESPACE@
            + "\" xmlns:xlink=\""@ + XLINK_NAMESPACE@ + "\""@
    } else if namespace != parent_namespace && namespace != XHTML_NAMESPACE@ && (namespace
        == SVG_NAMESPACE@ || namespace == MATHML_NAMESPACE@) {
        " xmlns=\""@ + namespace + "\""@
    } else {
        seq![]
    }
}

/// A node written as XML.
pub open spec fn serialize_spec(node: HtmlNodeView, parent_namespace: Seq<char>, root: bool) -> Seq<
    char,
>
    decreases node, 0int,
{
    match node {
        HtmlNodeView::Text(s) => escape_text_spec(s),
        HtmlNodeView::Comment(s) => "<!--"@ + s + "-->"@,
        HtmlNodeView::Element(e) => {
            let namespace = e.name.namespace;
            let qualified = qualified_spec(e.name.prefix, e.name.local);
            let start = "<"@ + qualified + declarations_text(namespace, parent_namespace, root)
                + attributes_text(e.attributes);
            if namespace == XHTML_NAMESPACE@ && is_void_spec(e.name.local) {
                start + "/>"@
            } else {
                let body = match e.template_contents {
                    Some(contents) => serialize_nodes(contents, namespace),
                    None => serialize_nodes(e.children, namespace),
                };
                start + ">"@ + body + "</"@ + qualified + ">"@
            }
        },
        HtmlNodeView::Document(children) => serialize_nodes(children, parent_namespace),
        _ => seq![],
    }
}

pub open spec fn serialize_nodes(nodes: Seq<HtmlNodeView>, parent_namespace: Seq<char>) -> Seq<char>
    decreases nodes, 1int,
{
    if nodes.len() == 0 {
        seq![]
    } else {
        serialize_nodes(nodes.drop_last(), parent_namespace) + serialize_spec(
            nodes.last(),
            parent_namespace,
            false,
        )
    }
}

/// The HTML document put in place of an empty chapter.
pub open spec fn empty_document() -> Seq<char> {
    "<html><head><title></title></head><body></body></html>"@
}

pub open spec fn xml_prologue() -> Seq<char> {
    "<?xml version=\"1.0\" encoding=\"utf-8\"?>\n<!DOCTYPE html>\n"@
}

pub open spec fn is_ascii_whitespace_byte(b: u8) -> bool {
    b == 32 || b == 9 || b == 10 || b == 12 || b == 13
}

/// The document tree that `html5ever` builds for `source`.
pub uninterp spec fn parsed_html(source: Seq<char>) -> HtmlNodeView;

/// The text parsed for a chapter: an empty document in place of blank
/// content, else the bytes read as UTF-8 (invalid sequences replaced).
pub open spec fn source_text(content: Seq<u8>) -> Seq<char> {
    if forall|i: int| 0 <= i < content.len() ==> is_ascii_whitespace_byte(#[trigger] content[i]) {
        empty_document()
    } else {
        utf8_lossy(content)
    }
}

/// The `head` with a link to the style sheet appended, unless one of its
/// children already links to it.
pub open spec fn linked_head(head: HtmlElementView, directory: Seq<char>, style_path: Seq<char>) -> HtmlElementView {
    if has_style_link(head.children, directory, style_path, 0) {
        head
    } else {
        HtmlElementView {
            children: head.children.push(style_link(relative_path_spec(directory, style_path))),
            ..head
        }
    }
}

/// The document tree `document`, of a chapter stored at `document_path`,
/// as XHTML that links to the style sheet at `style_path`; none when it has
/// no `html` element with a `head` child.
pub open spec fn xhtml_of_tree(document: HtmlNodeView, document_path: Seq<char>, style_path: Seq<char>) -> Option<
    Seq<u8>,
> {
    match find_element_spec(document, "html"@) {
        None => None,
        Some(html) => match child_position(html.children, "head"@, 0) {
            None => None,
            Some(h) => {
                let head = linked_head(
                    html.children[h]->Element_0,
                    dirname_spec(document_path),
                    style_path,
                );
                let html2 = HtmlElementView {
                    children: html.children.update(h, HtmlNodeView::Element(head)),
                    ..html
                };
                Some(
                    encode_utf8(
                        xml_prologue() + serialize_spec(HtmlNodeView::Element(html2), seq![], true),
                    ),
                )
            },
        },
    }
}

/// The chapter `content`, stored at `document_path`, as XHTML that links
/// to the style sheet at `style_path`; none when the document has no `html`
/// element with a `head` child.
pub open spec fn normalized_xhtml(content: Seq<u8>, document_path: Seq<char>, style_path: Seq<char>) -> Option<
    Seq<u8>,
> {
    xhtml_of_tree(parsed_html(source_text(content)), document_path, style_path)
}

// ---------------------------------------------------------------------------
// Executable functions
// ---------------------------------------------------------------------------

/// `prefix:local`, or `local` without a prefix.
pub fn qualified_name(prefix: Option<&str>, local: &str) -> (r: String)
    ensures
        r@ == qualified_spec(
            match prefix {
                Some(p) => Some(p@),
                None => None,
            },
            local@,
        ),
{
    match prefix {
        Some(p) => {
            let mut r = String::from_str(p);
            r.append(":");
            r.append(local);
            r
        },
        None => String::from_str(local),
    }
}

/// Whether `name` is an HTML element that has no content and no end tag.
pub fn is_void(name: &str) -> (r: bool)
    ensures
        r == is_void_spec(name@),
{
    str_eq(name, "area") || str_eq(name, "base") || str_eq(name, "br") || str_eq(name, "col")
        || str_eq(name, "embed") || str_eq(name, "hr") || str_eq(name, "img") || str_eq(
        name,
        "input",
    ) || str_eq(name, "link") || str_eq(name, "meta") || str_eq(name, "param") || str_eq(
        name,
        "source",
    ) || str_eq(name, "track") || str_eq(name, "wbr")
}

/// Appends `value` to `output` with `&`, `<` and `>` escaped.
pub fn escape_text(value: &str, output: &mut String)
    ensures
        final(output)@ == old(output)@ + escape_text_spec(value@),
{
    let v = chars_of(value);
    let mut i: usize = 0;
    while i < v.len()
        invariant
            v@ == value@,
            0 <= i <= v@.len(),
            output@ == old(output)@ + escape_text_spec(v@.take(i as int)),
        decreases v@.len() - i,
    {
        assert(v@.take(i + 1).drop_last() =~= v@.take(i as int));
        let c = v[i];
        if c == '&' {
            output.append("&amp;");
        } else if c == '<' {
            output.append("&lt;");
        } else if c == '>' {
            output.append("&gt;");
        } else {
            push_char(output, c);
        }
        i = i + 1;
        assert(output@ =~= old(output)@ + escape_text_spec(v@.take(i as int)));
    }
    assert(v@.take(v@.len() as int) =~= v@);
}

/// Appends `value` to `output` with `&`, `"`, `<` and `>` escaped.
pub fn escape_attribute(value: &str, output: &mut String)
    ensures
        final(output)@ == old(output)@ + escape_attribute_spec(value@),
{
    let v = chars_of(value);
    let mut i: usize = 0;
    while i < v.len()
        invariant
            v@ == value@,
            0 <= i <= v@.len(),
            output@ == old(output)@ + escape_attribute_spec(v@.take(i as int)),
        decreases v@.len() - i,
    {
        assert(v@.take(i + 1).drop_last() =~= v@.take(i as int));
        let c = v[i];
        if c == '&' {
            output.append("&amp;");
        } else if c == '"' {
            output.append("&quot;");
        } else if c == '<' {
            output.append("&lt;");
        } else if c == '>' {
            output.append("&gt;");
        } else {
            push_char(output, c);
        }
        i = i + 1;
        assert(output@ =~= old(output)@ + escape_attribute_spec(v@.take(i as int)));
    }
    assert(v@.take(v@.len() as int) =~= v@);
}

/// Law: escaped text holds no `<` or `>`, and every `&` in it begins an
/// escape.
pub proof fn lemma_escaped_text_has_no_markup(s: Seq<char>)
    ensures
        forall|k: int| 0 <= k < escape_text_spec(s).len() ==> #[trigger] escape_text_spec(s)[k] != '<'
            && escape_text_spec(s)[k] != '>',
    decreases s.len(),
{
    if s.len() > 0 {
        lemma_escaped_text_has_no_markup(s.drop_last());
        reveal_strlit("&amp;");
        reveal_strlit("&lt;");
        reveal_strlit("&gt;");
        let a = escape_text_spec(s.drop_last());
        let c = s.last();
        let tail = if c == '&' {
            "&amp;"@
        } else if c == '<' {
            "&lt;"@
        } else if c == '>' {
            "&gt;"@
        } else {
            seq![c]
        };
        assert forall|k: int| 0 <= k < escape_text_spec(s).len() implies #[trigger] escape_text_spec(
            s,
        )[k] != '<' && escape_text_spec(s)[k] != '>' by {
            if k >= a.len() {
                assert(escape_text_spec(s)[k] == tail[k - a.len()]);
            } else {
                assert(escape_text_spec(s)[k] == a[k]);
            }
        }
    }
}

/// Law: an escaped attribute value holds no `"`, `<` or `>`, so it cannot
/// end the attribute or the tag.
pub proof fn lemma_escaped_attribute_is_closed(s: Seq<char>)
    ensures
        forall|k: int| 0 <= k < escape_attribute_spec(s).len() ==> {
            let c = #[trigger] escape_attribute_spec(s)[k];
            c != '"' && c != '<' && c != '>'
        },
    decreases s.len(),
{
    if s.len() > 0 {
        lemma_escaped_attribute_is_closed(s.drop_last());
        reveal_strlit("&amp;");
        reveal_strlit("&quot;");
        reveal_strlit("&lt;");
        reveal_strlit("&gt;");
        let a = escape_attribute_spec(s.drop_last());
        let c = s.last();
        let tail = if c == '&' {
            "&amp;"@
        } else if c == '"' {
            "&quot;"@
        } else if c == '<' {
            "&lt;"@
        } else if c == '>' {
            "&gt;"@
        } else {
            seq![c]
        };
        assert forall|k: int| 0 <= k < escape_attribute_spec(s).len() implies {
            let c = #[trigger] escape_attribute_spec(s)[k];
            c != '"' && c != '<' && c != '>'
        } by {
            if k >= a.len() {
                assert(escape_attribute_spec(s)[k] == tail[k - a.len()]);
            } else {
                assert(escape_attribute_spec(s)[k] == a[k]);
            }
        }
    }
}


/// The document tree that `html5ever` builds for `source`, taken over
/// unchanged (`parse_document` into an `RcDom`). Claims that the tree is the
/// named function of the source text.
#[verifier::external_body]
fn parse_html(source: &str) -> (r: HtmlNode)
    ensures
        html_view(r) == parsed_html(source@),
{
    let dom = parse_document(RcDom::default(), ParseOpts::default()).one(source);
    node_from_dom(&dom.document)
}

/// Takes a node of an `RcDom` tree over, unchanged, into the library's tree.
#[verifier::external_body]
fn node_from_dom(handle: &Handle) -> HtmlNode {
    match &handle.data {
        NodeData::Document => HtmlNode::Document(children_from_dom(handle)),
        NodeData::Doctype { .. } => HtmlNode::Doctype,
        NodeData::Text { contents } => HtmlNode::Text(contents.borrow().to_string()),
        NodeData::Comment { contents } => HtmlNode::Comment(contents.to_string()),
        NodeData::Element { .. } => HtmlNode::Element(element_from_dom(handle)),
        NodeData::ProcessingInstruction { .. } => HtmlNode::ProcessingInstruction,
    }
}

/// Takes the children of an `RcDom` node over, unchanged.
#[verifier::external_body]
fn children_from_dom(handle: &Handle) -> Vec<HtmlNode> {
    handle.children.borrow().iter().map(node_from_dom).collect()
}

/// Takes an element of an `RcDom` tree over, unchanged.
#[verifier::external_body]
fn element_from_dom(handle: &Handle) -> HtmlElement {
    let NodeData::Element { name, attrs, template_contents, .. } = &handle.data else {
        return HtmlElement {
            name: HtmlName { prefix: None, namespace: String::new(), local: String::new() },
            attributes: Vec::new(),
            template_contents: None,
            children: Vec::new(),
        };
    };
    HtmlElement {
        name: name_from_dom(name),
        attributes: attrs.borrow().iter().map(attribute_from_dom).collect(),
        template_contents: template_contents.borrow().as_ref().map(children_from_dom),
        children: children_from_dom(handle),
    }
}

/// Takes a qualified name over, unchanged.
#[verifier::external_body]
fn name_from_dom(name: &html5ever::QualName) -> HtmlName {
    HtmlName {
        prefix: name.prefix.as_ref().map(|prefix| prefix.to_string()),
        namespace: name.ns.to_string(),
        local: name.local.to_string(),
    }
}

/// Takes an attribute over, unchanged.
#[verifier::external_body]
fn attribute_from_dom(attribute: &html5ever::Attribute) -> HtmlAttribute {
    HtmlAttribute { name: name_from_dom(&attribute.name), value: attribute.value.to_string() }
}

fn copy_name(n: &HtmlName) -> (r: HtmlName)
    ensures
        name_view(r) == name_view(*n),
{
    HtmlName {
        prefix: match &n.prefix {
            Some(p) => Some(p.clone()),
            None => None,
        },
        namespace: n.namespace.clone(),
        local: n.local.clone(),
    }
}

fn copy_attributes(attrs: &Vec<HtmlAttribute>) -> (r: Vec<HtmlAttribute>)
    ensures
        attributes_view(r@) == attributes_view(attrs@),
{
    let mut r: Vec<HtmlAttribute> = Vec::new();
    let mut i: usize = 0;
    while i < attrs.len()
        invariant
            0 <= i <= attrs@.len(),
            attributes_view(r@) == attributes_view(attrs@.take(i as int)),
        decreases attrs@.len() - i,
    {
        let ghost before = r@;
        let a = HtmlAttribute { name: copy_name(&attrs[i].name), value: attrs[i].value.clone() };
        r.push(a);
        assert(attrs@.take(i + 1) =~= attrs@.take(i as int).push(attrs@[i as int]));
        assert(attributes_view(r@) =~= attributes_view(before).push(
            (name_view(attrs@[i as int].name), attrs@[i as int].value@),
        ));
        assert(attributes_view(attrs@.take(i + 1)) =~= attributes_view(attrs@.take(i as int)).push(
            (name_view(attrs@[i as int].name), attrs@[i as int].value@),
        ));
        i = i + 1;
    }
    assert(attrs@.take(attrs@.len() as int) =~= attrs@);
    r
}

/// A copy of a node.
fn copy_node(node: &HtmlNode) -> (r: HtmlNode)
    ensures
        html_view(r) == html_view(*node),
    decreases node, 0int,
{
    match node {
        HtmlNode::Document(children) => HtmlNode::Document(copy_nodes(children)),
        HtmlNode::Doctype => HtmlNode::Doctype,
        HtmlNode::Text(s) => HtmlNode::Text(s.clone()),
        HtmlNode::Comment(s) => HtmlNode::Comment(s.clone()),
        HtmlNode::Element(e) => HtmlNode::Element(copy_element(e)),
        HtmlNode::ProcessingInstruction => HtmlNode::ProcessingInstruction,
    }
}

/// A copy of an element.
fn copy_element(e: &HtmlElement) -> (r: HtmlElement)
    ensures
        html_element_view(r) == html_element_view(*e),
    decreases e, 2int,
{
    HtmlElement {
        name: copy_name(&e.name),
        attributes: copy_attributes(&e.attributes),
        template_contents: match &e.template_contents {
            Some(nodes) => Some(copy_nodes(nodes)),
            None => None,
        },
        children: copy_nodes(&e.children),
    }
}

/// A copy of a list of nodes.
fn copy_nodes(nodes: &Vec<HtmlNode>) -> (r: Vec<HtmlNode>)
    ensures
        html_views(r@) == html_views(nodes@),
    decreases nodes, 1int,
{
    let mut r: Vec<HtmlNode> = Vec::new();
    let mut i: usize = 0;
    while i < nodes.len()
        invariant
            0 <= i <= nodes@.len(),
            html_views(r@) == html_views(nodes@.take(i as int)),
        decreases nodes@.len() - i,
    {
        let ghost before = r@;
        proof {
            assert(decreases_to!(nodes => nodes@[i as int]));
        }
        let copy = copy_node(&nodes[i]);
        r.push(copy);
        proof {
            assert(r@.drop_last() =~= before);
            assert(nodes@.take(i + 1).drop_last() =~= nodes@.take(i as int));
        }
        i = i + 1;
    }
    assert(nodes@.take(nodes@.len() as int) =~= nodes@);
    r
}

/// The first element named `name` in document order, the node itself
/// included; template contents are not searched.
fn find_element<'a>(node: &'a HtmlNode, name: &str) -> (r: Option<&'a HtmlElement>)
    ensures
        match r {
            Some(e) => find_element_spec(html_view(*node), name@) == Some(html_element_view(*e)),
            None => find_element_spec(html_view(*node), name@) is None,
        },
    decreases node, 0int,
{
    match node {
        HtmlNode::Element(e) => {
            if str_eq(e.name.local.as_str(), name) {
                Some(e)
            } else {
                find_in_children(&e.children, name)
            }
        },
        HtmlNode::Document(children) => find_in_children(children, name),
        _ => None,
    }
}

fn find_in_children<'a>(nodes: &'a Vec<HtmlNode>, name: &str) -> (r: Option<&'a HtmlElement>)
    ensures
        match r {
            Some(e) => find_in_nodes(html_views(nodes@), name@) == Some(html_element_view(*e)),
            None => find_in_nodes(html_views(nodes@), name@) is None,
        },
    decreases nodes, 1int,
{
    let ghost views = html_views(nodes@);
    proof {
        lemma_html_views(nodes@);
        assert(views.skip(0) =~= views);
    }
    let mut i: usize = 0;
    while i < nodes.len()
        invariant
            views == html_views(nodes@),
            views.len() == nodes@.len(),
            forall|k: int| 0 <= k < nodes@.len() ==> #[trigger] views[k] == html_view(nodes@[k]),
            0 <= i <= nodes@.len(),
            find_in_nodes(views, name@) == find_in_nodes(views.skip(i as int), name@),
        decreases nodes@.len() - i,
    {
        proof {
            assert(decreases_to!(nodes => nodes@[i as int]));
            assert(views.skip(i as int)[0] == views[i as int]);
            assert(views.skip(i as int).drop_first() =~= views.skip(i + 1));
        }
        match find_element(&nodes[i], name) {
            Some(e) => {
                return Some(e);
            },
            None => {},
        }
        i = i + 1;
    }
    None
}

/// Writes `node` as XML to `output`.
fn serialize(node: &HtmlNode, output: &mut String, parent_namespace: &str, root: bool)
    ensures
        final(output)@ == old(output)@ + serialize_spec(html_view(*node), parent_namespace@, root),
    decreases node, 0int,
{
    match node {
        HtmlNode::Text(contents) => escape_text(contents.as_str(), output),
        HtmlNode::Comment(contents) => {
            output.append("<!--");
            output.append(contents.as_str());
            output.append("-->");
        },
        HtmlNode::Element(e) => serialize_element(e, output, parent_namespace, root),
        HtmlNode::Document(children) => serialize_children(children, output, parent_namespace),
        _ => {},
    }
}

/// Writes the namespace declarations of a start tag.
fn write_declarations(namespace: &str, parent_namespace: &str, root: bool, output: &mut String)
    ensures
        final(output)@ == old(output)@ + declarations_text(namespace@, parent_namespace@, root),
{
    if root {
        output.append(" xmlns=\"");
        output.append(XHTML_NAMESPACE);
        output.append("\" xmlns:epub=\"");
        output.append(EPUB_NAMESPACE);
        output.append("\" xmlns:xlink=\"");
        output.append(XLINK_NAMESPACE);
        output.append("\"");
    } else if !str_eq(namespace, parent_namespace) && !str_eq(namespace, XHTML_NAMESPACE) && (
    str_eq(namespace, SVG_NAMESPACE) || str_eq(namespace, MATHML_NAMESPACE)) {
        output.append(" xmlns=\"");
        output.append(namespace);
        output.append("\"");
    }
}

/// Writes an element, its attributes and its content as XML.
fn serialize_element(e: &HtmlElement, output: &mut String, parent_namespace: &str, root: bool)
    ensures
        final(output)@ == old(output)@ + serialize_spec(
            HtmlNodeView::Element(html_element_view(*e)),
            parent_namespace@,
            root,
        ),
    decreases e, 2int,
{
    let ghost ev = html_element_view(*e);
    let local = e.name.local.as_str();
    let namespace = e.name.namespace.as_str();
    let prefix: Option<&str> = match &e.name.prefix {
        Some(p) => Some(p.as_str()),
        None => None,
    };
    let qualified = qualified_name(prefix, local);
    let ghost q = qualified@;
    assert(q == qualified_spec(ev.name.prefix, ev.name.local));
    let ghost start = "<"@ + q + declarations_text(ev.name.namespace, parent_namespace@, root)
        + attributes_text(ev.attributes);
    output.append("<");
    output.append(qualified.as_str());
    write_declarations(namespace, parent_namespace, root, output);
    write_attributes(&e.attributes, output);
    assert(output@ =~= old(output)@ + start);
    if str_eq(namespace, XHTML_NAMESPACE) && is_void(local) {
        output.append("/>");
        assert(output@ =~= old(output)@ + (start + "/>"@));
        return ;
    }
    output.append(">");
    let ghost middle = output@;
    match &e.template_contents {
        Some(contents) => serialize_children(contents, output, namespace),
        None => serialize_children(&e.children, output, namespace),
    }
    let ghost body = match ev.template_contents {
        Some(contents) => serialize_nodes(contents, ev.name.namespace),
        None => serialize_nodes(ev.children, ev.name.namespace),
    };
    assert(output@ == middle + body);
    output.append("</");
    output.append(qualified.as_str());
    output.append(">");
    assert(output@ =~= old(output)@ + (start + ">"@ + body + "</"@ + q + ">"@));
}

fn serialize_children(nodes: &Vec<HtmlNode>, output: &mut String, parent_namespace: &str)
    ensures
        final(output)@ == old(output)@ + serialize_nodes(html_views(nodes@), parent_namespace@),
    decreases nodes, 1int,
{
    let ghost views = html_views(nodes@);
    proof {
        lemma_html_views(nodes@);
    }
    let mut i: usize = 0;
    while i < nodes.len()
        invariant
            views == html_views(nodes@),
            views.len() == nodes@.len(),
            forall|k: int| 0 <= k < nodes@.len() ==> #[trigger] views[k] == html_view(nodes@[k]),
            0 <= i <= nodes@.len(),
            output@ == old(output)@ + serialize_nodes(views.take(i as int), parent_namespace@),
        decreases nodes@.len() - i,
    {
        proof {
            assert(decreases_to!(nodes => nodes@[i as int]));
            assert(views.take(i + 1).drop_last() =~= views.take(i as int));
        }
        serialize(&nodes[i], output, parent_namespace, false);
        i = i + 1;
    }
    assert(views.take(nodes@.len() as int) =~= views);
}

fn is_declaration(local: &str) -> (r: bool)
    ensures
        r == is_namespace_declaration(local@),
{
    if str_eq(local, "xmlns") {
        return true;
    }
    let v = chars_of(local);
    if v.len() < 6 {
        return false;
    }
    let r = crate::text::chars_equal(v.as_slice(), 0, 6, "xmlns:");
    assert(v@.subrange(0, 6) == v@.take(6));
    r
}

fn write_attributes(attrs: &Vec<HtmlAttribute>, output: &mut String)
    ensures
        final(output)@ == old(output)@ + attributes_text(attributes_view(attrs@)),
{
    let ghost views = attributes_view(attrs@);
    let mut i: usize = 0;
    while i < attrs.len()
        invariant
            views == attributes_view(attrs@),
            0 <= i <= attrs@.len(),
            output@ == old(output)@ + attributes_text(views.take(i as int)),
        decreases attrs@.len() - i,
    {
        proof {
            assert(views.take(i + 1).drop_last() =~= views.take(i as int));
        }
        let attribute = &attrs[i];
        let local = attribute.name.local.as_str();
        if !is_declaration(local) {
            let namespace = attribute.name.namespace.as_str();
            let prefix: Option<&str> = match &attribute.name.prefix {
                Some(p) => Some(p.as_str()),
                None => if str_eq(namespace, XML_NAMESPACE) {
                    Some("xml")
                } else if str_eq(namespace, XLINK_NAMESPACE) {
                    Some("xlink")
                } else {
                    None
                },
            };
            output.append(" ");
            let q = qualified_name(prefix, local);
            output.append(q.as_str());
            output.append("=\"");
            escape_attribute(attribute.value.as_str(), output);
            output.append("\"");
        }
        i = i + 1;
    }
    assert(views.take(attrs@.len() as int) =~= views);
}

fn all_ascii_whitespace(content: &[u8]) -> (r: bool)
    ensures
        r == forall|i: int| 0 <= i < content@.len() ==> is_ascii_whitespace_byte(#[trigger] content@[i]),
{
    let mut i: usize = 0;
    while i < content.len()
        invariant
            0 <= i <= content@.len(),
            forall|k: int| 0 <= k < i ==> is_ascii_whitespace_byte(#[trigger] content@[k]),
        decreases content@.len() - i,
    {
        let b = content[i];
        if !(b == 32 || b == 9 || b == 10 || b == 12 || b == 13) {
            return false;
        }
        i = i + 1;
    }
    true
}

/// The value of the attribute of `e` whose local name is `expected`.
fn attribute(e: &HtmlElement, expected: &str) -> (r: Option<String>)
    ensures
        match r {
            Some(v) => attribute_value(attributes_view(e.attributes@), expected@, 0) == Some(v@),
            None => attribute_value(attributes_view(e.attributes@), expected@, 0) is None,
        },
{
    let ghost attrs = attributes_view(e.attributes@);
    let mut k: usize = 0;
    while k < e.attributes.len()
        invariant
            attrs == attributes_view(e.attributes@),
            0 <= k <= e.attributes@.len(),
            attribute_value(attrs, expected@, 0) == attribute_value(attrs, expected@, k as int),
        decreases e.attributes@.len() - k,
    {
        if str_eq(e.attributes[k].name.local.as_str(), expected) {
            return Some(e.attributes[k].value.clone());
        }
        k = k + 1;
    }
    None
}

/// Whether one of `nodes` links, from a document in `directory`, to the
/// style sheet at `style_path`.
fn has_stylesheet(nodes: &Vec<HtmlNode>, directory: &str, style_path: &str) -> (r: bool)
    ensures
        r == has_style_link(html_views(nodes@), directory@, style_path@, 0),
{
    let ghost views = html_views(nodes@);
    proof {
        lemma_html_views(nodes@);
    }
    let mut base = String::from_str(directory);
    base.append("/document.xhtml");
    let mut i: usize = 0;
    while i < nodes.len()
        invariant
            views == html_views(nodes@),
            views.len() == nodes@.len(),
            forall|k: int| 0 <= k < nodes@.len() ==> #[trigger] views[k] == html_view(nodes@[k]),
            base@ == directory@ + "/document.xhtml"@,
            0 <= i <= nodes@.len(),
            has_style_link(views, directory@, style_path@, 0) == has_style_link(
                views,
                directory@,
                style_path@,
                i as int,
            ),
        decreases nodes@.len() - i,
    {
        if let HtmlNode::Element(e) = &nodes[i] {
            if str_eq(e.name.local.as_str(), "link") {
                if let Some(href) = attribute(e, "href") {
                    let resolved = manifest_path(base.as_str(), href.as_str());
                    if str_eq(resolved.as_str(), style_path) {
                        return true;
                    }
                }
            }
        }
        i = i + 1;
    }
    false
}

/// Whether `node` is an element whose local name is `name`.
fn is_element_named(node: &HtmlNode, name: &str) -> (r: bool)
    ensures
        r == (html_view(*node) is Element && html_view(*node)->Element_0.name.local == name@),
{
    match node {
        HtmlNode::Element(e) => str_eq(e.name.local.as_str(), name),
        _ => false,
    }
}

/// The chapter `content`, stored at `document_path`, as XHTML that links
/// to the style sheet at `style_path`.
pub fn normalize(content: &[u8], document_path: &str, style_path: &str) -> (r: Result<Vec<u8>, Error>)
    ensures
        match r {
            Ok(bytes) => normalized_xhtml(content@, document_path@, style_path@) == Some(bytes@),
            Err(e) => normalized_xhtml(content@, document_path@, style_path@) is None
                && e is InvalidXhtml,
        },
{
    let source = if all_ascii_whitespace(content) {
        String::from_str("<html><head><title></title></head><body></body></html>")
    } else {
        from_utf8_lossy(content)
    };
    assert(source@ == source_text(content@));
    let document = parse_html(source.as_str());
    normalize_document(&document, document_path, style_path)
}

/// The document tree `document`, of a chapter stored at `document_path`, as
/// XHTML that links to the style sheet at `style_path`: the `head` of its
/// `html` element gets a link to the style sheet unless it has one, and the
/// `html` element is written out as XHTML.
pub fn normalize_document(document: &HtmlNode, document_path: &str, style_path: &str) -> (r: Result<
    Vec<u8>,
    Error,
>)
    ensures
        match r {
            Ok(bytes) => xhtml_of_tree(html_view(*document), document_path@, style_path@) == Some(
                bytes@,
            ),
            Err(e) => xhtml_of_tree(html_view(*document), document_path@, style_path@) is None
                && e is InvalidXhtml,
        },
{
    let found = find_element(document, "html");
    let mut html = match found {
        Some(e) => copy_element(e),
        None => {
            return Err(Error::InvalidXhtml);
        },
    };
    let ghost html_before = html_element_view(html);
    assert(find_element_spec(html_view(*document), "html"@) == Some(html_before));
    proof {
        lemma_html_views(html.children@);
    }
    let mut h: usize = 0;
    while h < html.children.len() && !is_element_named(&html.children[h], "head")
        invariant
            html_before == html_element_view(html),
            html_before.children.len() == html.children@.len(),
            forall|k: int| 0 <= k < html.children@.len() ==> #[trigger] html_before.children[k]
                == html_view(html.children@[k]),
            0 <= h <= html.children@.len(),
            child_position(html_before.children, "head"@, 0) == child_position(
                html_before.children,
                "head"@,
                h as int,
            ),
        decreases html.children@.len() - h,
    {
        h = h + 1;
    }
    if h >= html.children.len() {
        return Err(Error::InvalidXhtml);
    }
    assert(child_position(html_before.children, "head"@, 0) == Some(h as int));
    let directory = dirname(document_path);
    let ghost head_view = html_before.children[h as int]->Element_0;
    let ghost target = HtmlElementView {
        children: html_before.children.update(
            h as int,
            HtmlNodeView::Element(linked_head(head_view, directory@, style_path@)),
        ),
        ..html_before
    };
    let linked = match &html.children[h] {
        HtmlNode::Element(head) => has_stylesheet(&head.children, directory.as_str(), style_path),
        _ => false,
    };
    assert(linked == has_style_link(head_view.children, directory@, style_path@, 0));
    if !linked {
        let href = relative_path(directory.as_str(), style_path);
        let node = html.children.remove(h);
        let mut head = match node {
            HtmlNode::Element(e) => e,
            _ => {
                proof {
                    assert(false);
                }
                return Err(Error::InvalidXhtml);
            },
        };
        assert(html_element_view(head) == head_view);
        let link = HtmlElement {
            name: HtmlName {
                prefix: None,
                namespace: String::from_str(XHTML_NAMESPACE),
                local: String::from_str("link"),
            },
            attributes: vec![
                HtmlAttribute {
                    name: HtmlName {
                        prefix: None,
                        namespace: String::new(),
                        local: String::from_str("rel"),
                    },
                    value: String::from_str("stylesheet"),
                },
                HtmlAttribute {
                    name: HtmlName {
                        prefix: None,
                        namespace: String::new(),
                        local: String::from_str("type"),
                    },
                    value: String::from_str("text/css"),
                },
                HtmlAttribute {
                    name: HtmlName {
                        prefix: None,
                        namespace: String::new(),
                        local: String::from_str("href"),
                    },
                    value: href,
                },
            ],
            template_contents: None,
            children: Vec::new(),
        };
        let ghost link_view = HtmlNodeView::Element(html_element_view(link));
        proof {
            reveal_strlit("");
            assert(html_views(link.children@) =~= Seq::<HtmlNodeView>::empty());
            assert(attributes_view(link.attributes@) =~= style_link(href@)->Element_0.attributes);
            assert(link_view == style_link(href@));
        }
        let ghost children_before = head.children@;
        head.children.push(HtmlNode::Element(link));
        proof {
            lemma_html_views(children_before);
            lemma_html_views(head.children@);
            assert(html_views(head.children@) =~= html_views(children_before).push(link_view));
            assert(html_element_view(head) == linked_head(head_view, directory@, style_path@));
        }
        let ghost rest = html.children@;
        html.children.insert(h, HtmlNode::Element(head));
        proof {
            lemma_html_views(rest);
            lemma_html_views(html.children@);
            assert(html_views(html.children@) =~= html_before.children.update(
                h as int,
                HtmlNodeView::Element(html_element_view(head)),
            ));
        }
    } else {
        assert(html_before.children.update(h as int, HtmlNodeView::Element(head_view))
            =~= html_before.children);
    }
    assert(html_element_view(html) == target);
    let mut output = String::from_str("<?xml version=\"1.0\" encoding=\"utf-8\"?>\n<!DOCTYPE html>\n");
    let root = HtmlNode::Element(html);
    serialize(&root, &mut output, "", true);
    proof {
        reveal_strlit("");
        assert(""@ =~= Seq::<char>::empty());
    }
    let bytes = output.as_str().as_bytes_vec();
    assert(bytes@ == encode_utf8(output@));
    Ok(bytes)
}

} // verus!
