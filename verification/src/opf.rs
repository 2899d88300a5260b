//! Editing the package document (the OPF file) of an EPUB: its metadata,
//! its manifest of items, item properties and identifiers.

use vstd::prelude::*;

use time::format_description::well_known::Rfc3339;
use time::OffsetDateTime;

use crate::book::{query_pred, BookMetadata, SeriesInfo};
use crate::epub::Error;
use crate::json::virtual_narrator;
use crate::paths::find_last;
use crate::text::{
    ascii_lower, chars_equal, chars_of, decimal, decimal_string, eq_ignore_ascii_case, find_from,
    join, join_strings, lemma_decimal_injective, lower_ascii, remove_word, split_words, str_eq,
    is_word, lemma_words_are_words, lemma_words_of_join, lemma_without, string_views, without,
    words,
};
use crate::xml::{
    attr_of, attribute, attribute_is, bare_element, distinct_keys, lemma_attr_of_with_attr,
    lemma_attr_of_without_attr, lemma_with_attr_same, lemma_element_position_at, child_index, child_of, copy_optional,
    copy_optional_pairs, element_at, pairs_view, element_position, element_view, is_named,
    lemma_element_position, lemma_node_views, new_element, node_view, node_views, prepend_node, push_node, put_element, put_pair, put_pair_in,
    remove_attribute, replace_child, set_attribute, take_element, with_attr, with_children,
    without_attr, ElementView, NodeView, XmlElement, XmlNode,
};

verus! {

pub const DC_NAMESPACE: &'static str = "http://purl.org/dc/elements/1.1/";

/// Where the system style sheet goes, relative to the package document.
pub const STYLE_HREF: &'static str = "Styles/yaebook.css";

/// The system style sheet: serif text, sans-serif headings, monospace code,
/// and images that fit the screen.
pub const STYLESHEET: &'static str = "html, body {\n  font-family: serif;\n}\nh1, h2, h3, h4, h5, h6 {\n  font-family: sans-serif;\n}\ncode, pre, kbd, samp {\n  font-family: monospace;\n}\nimg, svg {\n  max-width: 100%;\n  height: auto;\n}\n";

// ---------------------------------------------------------------------------
// New elements
// ---------------------------------------------------------------------------

/// An element named `name` in the namespace (and with the prefix) of
/// `parent`.
pub open spec fn opf_element_spec(parent: ElementView, name: Seq<char>) -> ElementView {
    ElementView { prefix: parent.prefix, namespace: parent.namespace, ..bare_element(name) }
}

/// A Dublin Core element `dc:name` that declares the namespaces of
/// `metadata`.
pub open spec fn dc_element_spec(name: Seq<char>, metadata: ElementView) -> ElementView {
    ElementView {
        prefix: Some("dc"@),
        namespace: Some(DC_NAMESPACE@),
        namespaces: metadata.namespaces,
        ..bare_element(name)
    }
}

/// An element named `name` in the namespace of `parent`.
pub fn opf_element(parent: &XmlElement, name: &str) -> (r: XmlElement)
    ensures
        element_view(r) == opf_element_spec(element_view(*parent), name@),
{
    let mut e = new_element(name);
    e.prefix = copy_optional(&parent.prefix);
    e.namespace = copy_optional(&parent.namespace);
    e
}

/// A Dublin Core element `dc:name` for `metadata`.
pub fn dc_element(name: &str, metadata: &XmlElement) -> (r: XmlElement)
    ensures
        element_view(r) == dc_element_spec(name@, element_view(*metadata)),
{
    let mut e = new_element(name);
    e.prefix = Some(String::from_str("dc"));
    e.namespace = Some(String::from_str(DC_NAMESPACE));
    e.namespaces = copy_optional_pairs(&metadata.namespaces);
    e
}

// ---------------------------------------------------------------------------
// Dropping children
// ---------------------------------------------------------------------------

/// Which children to drop.
pub enum Selector {
    /// Elements with this name.
    Named(String),
    /// Elements with this name whose attribute (second) has this value (third).
    NamedWith(String, String, String),
    /// Manifest items of fonts.
    FontItem,
}

/// Which children to drop, as the contracts speak of it.
pub enum Pick {
    Named(Seq<char>),
    NamedWith(Seq<char>, Seq<char>, Seq<char>),
    FontItem,
}

pub open spec fn pick_of(sel: Selector) -> Pick {
    match sel {
        Selector::Named(name) => Pick::Named(name@),
        Selector::NamedWith(name, key, value) => Pick::NamedWith(name@, key@, value@),
        Selector::FontItem => Pick::FontItem,
    }
}

/// Whether `pick` takes `node`.
pub open spec fn selects(pick: Pick, node: NodeView) -> bool {
    match node {
        NodeView::Element(e) => match pick {
            Pick::Named(name) => e.name == name,
            Pick::NamedWith(name, key, value) => e.name == name && attr_of(e, key) == Some(value),
            Pick::FontItem => e.name == "item"@ && is_font_item_spec(e),
        },
        _ => false,
    }
}

/// The position of the first of `children` from `i` on that `pick` takes.
pub open spec fn pick_position(children: Seq<NodeView>, pick: Pick, i: int) -> Option<int>
    decreases children.len() - i,
{
    if i < 0 || i >= children.len() {
        None
    } else if selects(pick, children[i]) {
        Some(i)
    } else {
        pick_position(children, pick, i + 1)
    }
}

pub proof fn lemma_pick_position(children: Seq<NodeView>, pick: Pick, i: int)
    requires
        0 <= i,
    ensures
        pick_position(children, pick, i) matches Some(k) ==> i <= k < children.len() && selects(
            pick,
            children[k],
        ),
    decreases children.len() - i,
{
    if i < children.len() {
        lemma_pick_position(children, pick, i + 1);
    }
}

/// `children` without those that `sel` picks, the others in their order.
pub open spec fn retained(children: Seq<NodeView>, pick: Pick) -> Seq<NodeView>
    decreases children.len(),
{
    if children.len() == 0 {
        seq![]
    } else if selects(pick, children.last()) {
        retained(children.drop_last(), pick)
    } else {
        retained(children.drop_last(), pick).push(children.last())
    }
}

/// Whether `sel` picks `node`.
pub fn is_selected(sel: &Selector, node: &XmlNode) -> (r: bool)
    ensures
        r == selects(pick_of(*sel), node_view(*node)),
{
    match node {
        XmlNode::Element(e) => match sel {
            Selector::Named(name) => str_eq(e.name.as_str(), name.as_str()),
            Selector::NamedWith(name, key, value) => str_eq(e.name.as_str(), name.as_str())
                && attribute_is(e, key.as_str(), value.as_str()),
            Selector::FontItem => str_eq(e.name.as_str(), "item") && is_font_item(e),
        },
        _ => false,
    }
}

/// The position of the first child of `parent` that `sel` picks.
pub fn find_child(parent: &XmlElement, sel: &Selector) -> (r: Option<usize>)
    ensures
        match r {
            Some(k) => pick_position(element_view(*parent).children, pick_of(*sel), 0) == Some(
                k as int,
            ) && k < parent.children@.len() && parent.children@[k as int] is Element,
            None => pick_position(element_view(*parent).children, pick_of(*sel), 0) is None,
        },
{
    let ghost children = element_view(*parent).children;
    proof {
        lemma_node_views(parent.children@);
    }
    let mut i: usize = 0;
    while i < parent.children.len()
        invariant
            children == element_view(*parent).children,
            children.len() == parent.children@.len(),
            forall|k: int| 0 <= k < parent.children@.len() ==> #[trigger] children[k] == node_view(
                parent.children@[k],
            ),
            0 <= i <= parent.children@.len(),
            pick_position(children, pick_of(*sel), 0) == pick_position(
                children,
                pick_of(*sel),
                i as int,
            ),
        decreases parent.children@.len() - i,
    {
        if is_selected(sel, &parent.children[i]) {
            assert(children[i as int] is Element);
            return Some(i);
        }
        i = i + 1;
    }
    None
}

/// Drops the children of `parent` that `sel` picks.
pub fn retain_children(parent: &mut XmlElement, sel: &Selector)
    ensures
        element_view(*final(parent)) == with_children(
            element_view(*old(parent)),
            retained(element_view(*old(parent)).children, pick_of(*sel)),
        ),
{
    let mut rest: Vec<XmlNode> = Vec::new();
    std::mem::swap(&mut rest, &mut parent.children);
    let ghost all = node_views(rest@);
    let ghost detached = rest@;
    let count = rest.len();
    proof {
        lemma_node_views(rest@);
        lemma_node_views(parent.children@);
        assert(node_views(parent.children@) =~= retained(all.take(0), pick_of(*sel)));
    }
    let mut i: usize = 0;
    while rest.len() > 0
        invariant
            all == node_views(detached),
            all.len() == detached.len(),
            forall|k: int| 0 <= k < detached.len() ==> #[trigger] all[k] == node_view(detached[k]),
            i + rest@.len() == detached.len(),
            detached.len() <= usize::MAX,
            rest@ == detached.skip(i as int),
            node_views(parent.children@) == retained(all.take(i as int), pick_of(*sel)),
            parent.prefix == old(parent).prefix,
            parent.namespace == old(parent).namespace,
            parent.namespaces == old(parent).namespaces,
            parent.name == old(parent).name,
            parent.attributes == old(parent).attributes,
            node_views(old(parent).children@) == all,
        decreases rest@.len(),
    {
        let node = rest.remove(0);
        assert(node == detached[i as int]);
        assert(all.take(i + 1).drop_last() =~= all.take(i as int));
        if !is_selected(sel, &node) {
            let ghost before = parent.children@;
            parent.children.push(node);
            proof {
                lemma_node_views(before);
                lemma_node_views(parent.children@);
                assert(node_views(parent.children@) =~= node_views(before).push(all[i as int]));
            }
        }
        assert(rest@ =~= detached.skip(i + 1));
        i = i + 1;
    }
    assert(all.take(i as int) =~= all);
}

// ---------------------------------------------------------------------------
// Item properties
// ---------------------------------------------------------------------------

/// The words of the `properties` attribute.
pub open spec fn properties_spec(item: ElementView) -> Seq<Seq<char>> {
    match attr_of(item, "properties"@) {
        Some(v) => words(v),
        None => seq![],
    }
}

pub open spec fn has_property_spec(item: ElementView, property: Seq<char>) -> bool {
    properties_spec(item).contains(property)
}

/// `item` with `property` among its properties, added last if new.
pub open spec fn add_property_spec(item: ElementView, property: Seq<char>) -> ElementView {
    let props = properties_spec(item);
    with_attr(
        item,
        "properties"@,
        join(
            if props.contains(property) {
                props
            } else {
                props.push(property)
            },
            " "@,
        ),
    )
}

/// `item` without `property`; without the attribute when none is left.
pub open spec fn remove_property_spec(item: ElementView, property: Seq<char>) -> ElementView {
    let kept = without(properties_spec(item), property);
    if kept.len() == 0 {
        without_attr(item, "properties"@)
    } else {
        with_attr(item, "properties"@, join(kept, " "@))
    }
}

/// The words of the `properties` attribute of `item`.
pub fn properties(item: &XmlElement) -> (r: Vec<String>)
    ensures
        string_views(r@) == properties_spec(element_view(*item)),
{
    match attribute(item, "properties") {
        Some(v) => {
            let chars = chars_of(v.as_str());
            split_words(chars.as_slice())
        },
        None => {
            let r: Vec<String> = Vec::new();
            assert(string_views(r@) =~= Seq::<Seq<char>>::empty());
            r
        },
    }
}

/// Whether `values` holds `value`.
fn holds(values: &Vec<String>, value: &str) -> (r: bool)
    ensures
        r == string_views(values@).contains(value@),
{
    let ghost views = string_views(values@);
    let mut i: usize = 0;
    while i < values.len()
        invariant
            views == string_views(values@),
            0 <= i <= values@.len(),
            forall|k: int| 0 <= k < i ==> views[k] != value@,
        decreases values@.len() - i,
    {
        if str_eq(values[i].as_str(), value) {
            assert(views[i as int] == value@);
            return true;
        }
        i = i + 1;
    }
    false
}

/// Whether `item` has `property`.
pub fn has_property(item: &XmlElement, property: &str) -> (r: bool)
    ensures
        r == has_property_spec(element_view(*item), property@),
{
    let props = properties(item);
    holds(&props, property)
}

/// Adds `property` to the properties of `item`.
pub fn add_property(item: &mut XmlElement, property: &str)
    ensures
        element_view(*final(item)) == add_property_spec(element_view(*old(item)), property@),
{
    let mut props = properties(item);
    let ghost before = string_views(props@);
    if !holds(&props, property) {
        props.push(String::from_str(property));
        assert(string_views(props@) =~= before.push(property@));
    }
    let value = join_strings(&props, " ");
    set_attribute(item, "properties", value);
}

/// Removes `property` from the properties of `item`.
pub fn remove_property(item: &mut XmlElement, property: &str)
    ensures
        element_view(*final(item)) == remove_property_spec(element_view(*old(item)), property@),
{
    let props = properties(item);
    let kept = remove_word(&props, property);
    if kept.len() == 0 {
        remove_attribute(item, "properties");
    } else {
        let value = join_strings(&kept, " ");
        set_attribute(item, "properties", value);
    }
}


// ---------------------------------------------------------------------------
// Fonts
// ---------------------------------------------------------------------------

/// Whether `s` begins with `prefix`.
pub open spec fn starts_with(s: Seq<char>, prefix: Seq<char>) -> bool {
    s.len() >= prefix.len() && s.take(prefix.len() as int) == prefix
}

/// Media types of fonts: `font/...` and the older `application/...` ones.
pub open spec fn is_font_media(media: Seq<char>) -> bool {
    ||| starts_with(media, "font/"@)
    ||| media == "application/font-sfnt"@
    ||| media == "application/font-woff"@
    ||| media == "application/vnd.ms-fontobject"@
    ||| media == "application/vnd.ms-opentype"@
    ||| media == "application/x-font-opentype"@
    ||| media == "application/x-font-ttf"@
    ||| media == "application/x-font-woff"@
}

/// The extension of the path part of `href` (before any `?` or `#`): what
/// follows its last `.`.
pub open spec fn href_extension(href: Seq<char>) -> Option<Seq<char>> {
    let path = match find_from(href, query_pred(), 0) {
        Some(i) => href.take(i),
        None => href,
    };
    match find_last(path, '.') {
        Some(p) => Some(path.skip(p + 1)),
        None => None,
    }
}

/// Font file extensions, in any ASCII case.
pub open spec fn is_font_extension(ext: Seq<char>) -> bool {
    ||| eq_ignore_ascii_case(ext, "eot"@)
    ||| eq_ignore_ascii_case(ext, "otf"@)
    ||| eq_ignore_ascii_case(ext, "ttf"@)
    ||| eq_ignore_ascii_case(ext, "woff"@)
    ||| eq_ignore_ascii_case(ext, "woff2"@)
}

/// Whether a manifest item is a font: by its media type, or by the
/// extension of its `href`.
pub open spec fn is_font_item_spec(item: ElementView) -> bool {
    let media = match attr_of(item, "media-type"@) {
        Some(m) => m,
        None => seq![],
    };
    ||| is_font_media(media)
    ||| (attr_of(item, "href"@) matches Some(h) && href_extension(h) matches Some(e)
        && is_font_extension(e))
}

/// Whether `v[from..to]` equals `expected`, ignoring ASCII case.
fn equal_ignoring_case(v: &[char], from: usize, to: usize, expected: &str) -> (r: bool)
    requires
        from <= to <= v@.len(),
    ensures
        r == eq_ignore_ascii_case(v@.subrange(from as int, to as int), expected@),
{
    let e = chars_of(expected);
    if e.len() != to - from {
        return false;
    }
    let ghost part = v@.subrange(from as int, to as int);
    let mut i: usize = 0;
    while i < e.len()
        invariant
            e@ == expected@,
            part == v@.subrange(from as int, to as int),
            from <= to <= v@.len(),
            e@.len() == to - from,
            0 <= i <= e@.len(),
            forall|k: int| 0 <= k < i ==> ascii_lower(#[trigger] part[k]) == ascii_lower(e@[k]),
        decreases e@.len() - i,
    {
        if lower_ascii(v[from + i]) != lower_ascii(e[i]) {
            assert(part[i as int] == v@[from + i]);
            return false;
        }
        assert(part[i as int] == v@[from + i]);
        i = i + 1;
    }
    true
}

/// Whether `s` begins with `prefix`.
pub fn text_starts_with(s: &str, prefix: &str) -> (r: bool)
    ensures
        r == starts_with(s@, prefix@),
{
    let v = chars_of(s);
    let p = chars_of(prefix);
    if v.len() < p.len() {
        return false;
    }
    let r = chars_equal(v.as_slice(), 0, p.len(), prefix);
    assert(v@.subrange(0, p@.len() as int) == v@.take(p@.len() as int));
    r
}

fn is_font_media_type(media: &str) -> (r: bool)
    ensures
        r == is_font_media(media@),
{
    text_starts_with(media, "font/") || str_eq(media, "application/font-sfnt") || str_eq(
        media,
        "application/font-woff",
    ) || str_eq(media, "application/vnd.ms-fontobject") || str_eq(
        media,
        "application/vnd.ms-opentype",
    ) || str_eq(media, "application/x-font-opentype") || str_eq(media, "application/x-font-ttf")
        || str_eq(media, "application/x-font-woff")
}

/// Whether the extension of `href` is that of a font file.
fn has_font_extension(href: &str) -> (r: bool)
    ensures
        r == (href_extension(href@) matches Some(e) && is_font_extension(e)),
{
    let v = chars_of(href);
    let mut end: usize = 0;
    while end < v.len() && v[end] != '?' && v[end] != '#'
        invariant
            v@ == href@,
            0 <= end <= v@.len(),
            find_from(v@, query_pred(), 0) == find_from(v@, query_pred(), end as int),
        decreases v@.len() - end,
    {
        end = end + 1;
    }
    proof {
        if end < v@.len() {
            assert(find_from(v@, query_pred(), end as int) == Some(end as int));
        } else {
            assert(v@.take(end as int) =~= v@);
        }
    }
    let ghost path = v@.take(end as int);
    assert(path.take(end as int) =~= path);
    let mut dot = end;
    while dot > 0 && v[dot - 1] != '.'
        invariant
            v@ == href@,
            path == v@.take(end as int),
            0 <= dot <= end <= v@.len(),
            find_last(path, '.') == find_last(path.take(dot as int), '.'),
        decreases dot,
    {
        assert(path.take(dot as int).drop_last() =~= path.take(dot - 1));
        dot = dot - 1;
    }
    if dot == 0 {
        assert(path.take(0) =~= Seq::<char>::empty());
        return false;
    }
    assert(find_last(path.take(dot as int), '.') == Some(dot - 1));
    assert(path.skip(dot as int) =~= v@.subrange(dot as int, end as int));
    equal_ignoring_case(v.as_slice(), dot, end, "eot") || equal_ignoring_case(
        v.as_slice(),
        dot,
        end,
        "otf",
    ) || equal_ignoring_case(v.as_slice(), dot, end, "ttf") || equal_ignoring_case(
        v.as_slice(),
        dot,
        end,
        "woff",
    ) || equal_ignoring_case(v.as_slice(), dot, end, "woff2")
}

/// Whether a manifest item is a font.
pub fn is_font_item(item: &XmlElement) -> (r: bool)
    ensures
        r == is_font_item_spec(element_view(*item)),
{
    let media_type = match attribute(item, "media-type") {
        Some(m) => m.as_str(),
        None => "",
    };
    proof {
        reveal_strlit("");
        assert(""@ =~= Seq::<char>::empty());
    }
    assert(media_type@ == match attr_of(element_view(*item), "media-type"@) {
        Some(m) => m,
        None => seq![],
    });
    if is_font_media_type(media_type) {
        return true;
    }
    match attribute(item, "href") {
        Some(href) => has_font_extension(href.as_str()),
        None => false,
    }
}


// ---------------------------------------------------------------------------
// Item identifiers
// ---------------------------------------------------------------------------

/// The `id` of the child at `k`, when it is an `item` element with one.
pub open spec fn item_id(children: Seq<NodeView>, k: int) -> Option<Seq<char>> {
    if is_named(children[k], "item"@) {
        attr_of(children[k]->Element_0, "id"@)
    } else {
        None
    }
}

/// The positions of the children that are items with an `id`.
pub open spec fn id_positions(children: Seq<NodeView>) -> Set<int> {
    Set::new(|k: int| 0 <= k < children.len() && item_id(children, k) is Some)
}

/// The identifiers that the items among `children` use.
pub open spec fn used_ids(children: Seq<NodeView>) -> Set<Seq<char>> {
    id_positions(children).map(|k: int| item_id(children, k)->0)
}

/// `requested` with the number `n` appended: `requested-n`.
pub open spec fn suffixed(requested: Seq<char>, n: nat) -> Seq<char> {
    requested + "-"@ + decimal(n)
}

/// `n` is the first number from 2 on whose suffixed identifier is not in
/// `used`.
pub open spec fn first_free_suffix(used: Set<Seq<char>>, requested: Seq<char>, n: nat) -> bool {
    &&& n >= 2
    &&& !used.contains(suffixed(requested, n))
    &&& forall|m: nat| 2 <= m < n ==> used.contains(#[trigger] suffixed(requested, m))
}

/// An identifier not in `used`: `requested` itself if it is free, else
/// `requested-2`, `requested-3`, ... whichever is free first.
pub open spec fn unique_in(used: Set<Seq<char>>, requested: Seq<char>) -> Seq<char> {
    if !used.contains(requested) {
        requested
    } else {
        suffixed(requested, choose|n: nat| first_free_suffix(used, requested, n))
    }
}

/// An identifier that no item among `children` uses.
pub open spec fn unique_id_spec(children: Seq<NodeView>, requested: Seq<char>) -> Seq<char> {
    unique_in(used_ids(children), requested)
}

/// Leaving out a child that is no item with an `id` leaves the identifiers
/// in use as they are.
pub proof fn lemma_used_ids_remove(children: Seq<NodeView>, k: int)
    requires
        0 <= k < children.len(),
        item_id(children, k) is None,
    ensures
        used_ids(children.remove(k)) == used_ids(children),
{
    let rest = children.remove(k);
    assert forall|id: Seq<char>| used_ids(rest).contains(id) <==> used_ids(children).contains(id) by {
        if used_ids(rest).contains(id) {
            let j = choose|j: int| id_positions(rest).contains(j) && item_id(rest, j)->0 == id;
            let i = if j < k { j } else { j + 1 };
            assert(rest[j] == children[i]);
            assert(id_positions(children).contains(i));
        }
        if used_ids(children).contains(id) {
            let i = choose|i: int| id_positions(children).contains(i) && item_id(children, i)->0 == id;
            assert(i != k);
            let j = if i < k { i } else { i - 1 };
            assert(rest[j] == children[i]);
            assert(id_positions(rest).contains(j));
        }
    }
    assert(used_ids(rest) =~= used_ids(children));
}

proof fn lemma_suffixed_injective(requested: Seq<char>, a: nat, b: nat)
    requires
        suffixed(requested, a) == suffixed(requested, b),
    ensures
        a == b,
{
    reveal_strlit("-");
    let n: int = requested.len() as int + 1;
    assert(suffixed(requested, a).skip(n) =~= decimal(a));
    assert(suffixed(requested, b).skip(n) =~= decimal(b));
    lemma_decimal_injective(a, b);
}

proof fn lemma_used_ids_bounded(children: Seq<NodeView>)
    ensures
        used_ids(children).finite(),
        used_ids(children).len() <= children.len(),
{
    let positions = id_positions(children);
    vstd::set_lib::lemma_int_range(0, children.len() as int);
    assert(positions.subset_of(vstd::set_lib::set_int_range(0, children.len() as int)));
    vstd::set_lib::lemma_len_subset(positions, vstd::set_lib::set_int_range(0, children.len() as int));
    vstd::set_lib::lemma_map_size_bound(positions, used_ids(children), |k: int| item_id(children, k)->0);
}

/// When `requested` and its suffixed forms for 2 to `n` are all used,
/// there are at least `n` items, so the search for a free one ends.
proof fn lemma_suffixes_bounded(children: Seq<NodeView>, requested: Seq<char>, n: nat)
    requires
        n >= 2,
        used_ids(children).contains(requested),
        forall|m: nat| 2 <= m <= n ==> used_ids(children).contains(#[trigger] suffixed(requested, m)),
    ensures
        n <= children.len(),
{
    reveal_strlit("-");
    let range = vstd::set_lib::set_int_range(2, n + 1 as int);
    let f = |m: int| suffixed(requested, m as nat);
    let image = range.map(f);
    vstd::set_lib::lemma_int_range(2, n + 1 as int);
    assert(vstd::relations::injective_on(f, range)) by {
        assert forall|a: int, b: int| range.contains(a) && range.contains(b) && #[trigger] f(a)
            == #[trigger] f(b) implies a == b by {
            lemma_suffixed_injective(requested, a as nat, b as nat);
        }
    }
    vstd::set_lib::lemma_map_size(range, image, f);
    let used = used_ids(children);
    lemma_used_ids_bounded(children);
    assert(image.subset_of(used)) by {
        assert forall|x: Seq<char>| image.contains(x) implies used.contains(x) by {
            let m = choose|m: int| range.contains(m) && f(m) == x;
            assert(used.contains(suffixed(requested, m as nat)));
        }
    }
    assert(!image.contains(requested)) by {
        if image.contains(requested) {
            let m = choose|m: int| range.contains(m) && f(m) == requested;
            assert(f(m).len() > requested.len());
        }
    }
    vstd::set_lib::lemma_len_subset(image.insert(requested), used);
}

/// The identifiers used by the items of `manifest`.
fn item_ids(manifest: &XmlElement) -> (r: Vec<String>)
    ensures
        forall|id: Seq<char>| #[trigger] string_views(r@).contains(id) <==> used_ids(
            element_view(*manifest).children,
        ).contains(id),
{
    let ghost children = element_view(*manifest).children;
    proof {
        lemma_node_views(manifest.children@);
    }
    let mut ids: Vec<String> = Vec::new();
    let mut i: usize = 0;
    while i < manifest.children.len()
        invariant
            children == element_view(*manifest).children,
            children.len() == manifest.children@.len(),
            forall|k: int| 0 <= k < manifest.children@.len() ==> #[trigger] children[k] == node_view(
                manifest.children@[k],
            ),
            0 <= i <= manifest.children@.len(),
            forall|j: int| 0 <= j < ids@.len() ==> exists|k: int|
                0 <= k < i && item_id(children, k) == Some(#[trigger] ids@[j]@),
            forall|k: int| 0 <= k < i && #[trigger] item_id(children, k) is Some ==> string_views(
                ids@,
            ).contains(item_id(children, k)->0),
        decreases manifest.children@.len() - i,
    {
        if let XmlNode::Element(e) = &manifest.children[i] {
            if str_eq(e.name.as_str(), "item") {
                if let Some(id) = attribute(e, "id") {
                    let ghost before = ids@;
                    ids.push(id.clone());
                    assert(item_id(children, i as int) == Some(id@));
                    assert(string_views(ids@)[before.len() as int] == id@);
                    assert forall|k: int| 0 <= k < i + 1 && #[trigger] item_id(children, k) is Some
                        implies string_views(ids@).contains(item_id(children, k)->0) by {
                        if k < i {
                            let x = item_id(children, k)->0;
                            assert(string_views(before).contains(x));
                            let j = choose|j: int| 0 <= j < string_views(before).len() && string_views(before)[j] == x;
                            assert(string_views(ids@)[j] == x);
                        }
                    }
                    assert forall|j: int| 0 <= j < ids@.len() implies exists|k: int|
                        0 <= k < i + 1 && item_id(children, k) == Some(#[trigger] ids@[j]@) by {
                        if j < before.len() {
                            assert(ids@[j] == before[j]);
                        } else {
                            assert(item_id(children, i as int) == Some(ids@[j]@));
                        }
                    }
                }
            }
        }
        i = i + 1;
    }
    proof {
        assert forall|id: Seq<char>| #[trigger] string_views(ids@).contains(id) <==> used_ids(
            children,
        ).contains(id) by {
            if used_ids(children).contains(id) {
                let k = choose|k: int| id_positions(children).contains(k) && item_id(children, k)->0 == id;
                assert(item_id(children, k) is Some);
            }
            if string_views(ids@).contains(id) {
                let j = choose|j: int| 0 <= j < string_views(ids@).len() && string_views(ids@)[j] == id;
                assert(ids@[j]@ == id);
                let k = choose|k: int| 0 <= k < i && item_id(children, k) == Some(ids@[j]@);
                assert(id_positions(children).contains(k));
            }
        }
    }
    ids
}

/// An identifier that no item of `manifest` uses, `requested` if it can be.
pub fn unique_id(manifest: &XmlElement, requested: &str) -> (r: String)
    ensures
        r@ == unique_id_spec(element_view(*manifest).children, requested@),
        !used_ids(element_view(*manifest).children).contains(r@),
{
    let ghost children = element_view(*manifest).children;
    let used = item_ids(manifest);
    if !holds(&used, requested) {
        return String::from_str(requested);
    }
    let mut suffix: u128 = 2;
    let count = manifest.children.len();
    proof {
        lemma_node_views(manifest.children@);
    }
    loop
        invariant
            children == element_view(*manifest).children,
            children.len() <= usize::MAX,
            forall|id: Seq<char>| #[trigger] string_views(used@).contains(id) <==> used_ids(
                children,
            ).contains(id),
            used_ids(children).contains(requested@),
            2 <= suffix <= children.len() + 2,
            forall|m: nat| 2 <= m < suffix ==> used_ids(children).contains(
                #[trigger] suffixed(requested@, m),
            ),
        decreases children.len() + 2 - suffix,
    {
        let mut candidate = String::from_str(requested);
        candidate.append("-");
        let digits = decimal_string(suffix);
        candidate.append(digits.as_str());
        assert(candidate@ == suffixed(requested@, suffix as nat));
        if !holds(&used, candidate.as_str()) {
            proof {
                let n = suffix as nat;
                let used_set = used_ids(children);
                assert(first_free_suffix(used_set, requested@, n));
                let c = choose|c: nat| first_free_suffix(used_set, requested@, c);
                if c < n {
                    assert(used_ids(children).contains(suffixed(requested@, c)));
                } else if c > n {
                    assert(used_ids(children).contains(suffixed(requested@, n)));
                }
            }
            return candidate;
        }
        proof {
            lemma_suffixes_bounded(children, requested@, suffix as nat);
        }
        suffix = suffix + 1;
    }
}

// ---------------------------------------------------------------------------
// Manifest items and children
// ---------------------------------------------------------------------------

/// Whether `node` is an `item` whose `href` is `href`.
pub open spec fn is_item_with_href(node: NodeView, href: Seq<char>) -> bool {
    is_named(node, "item"@) && attr_of(node->Element_0, "href"@) == Some(href)
}

/// The position of the first item among `children` from `i` on whose
/// `href` is `href`.
pub open spec fn item_position(children: Seq<NodeView>, href: Seq<char>, i: int) -> Option<int>
    decreases children.len() - i,
{
    if i < 0 || i >= children.len() {
        None
    } else if is_item_with_href(children[i], href) {
        Some(i)
    } else {
        item_position(children, href, i + 1)
    }
}

pub proof fn lemma_item_position(children: Seq<NodeView>, href: Seq<char>, i: int)
    requires
        0 <= i,
    ensures
        item_position(children, href, i) matches Some(k) ==> i <= k < children.len()
            && is_item_with_href(children[k], href) && forall|j: int|
            i <= j < k ==> !is_item_with_href(#[trigger] children[j], href),
        item_position(children, href, i) is None ==> forall|j: int|
            i <= j < children.len() ==> !is_item_with_href(#[trigger] children[j], href),
    decreases children.len() - i,
{
    if i < children.len() {
        lemma_item_position(children, href, i + 1);
    }
}

proof fn lemma_item_position_at(children: Seq<NodeView>, href: Seq<char>, i: int, k: int)
    requires
        0 <= i <= k < children.len(),
        is_item_with_href(children[k], href),
        forall|j: int| i <= j < k ==> !is_item_with_href(#[trigger] children[j], href),
    ensures
        item_position(children, href, i) == Some(k),
    decreases k - i,
{
    if i < k {
        lemma_item_position_at(children, href, i + 1, k);
    }
}

/// The item that `ensure_manifest_item` settles on is the first that lists
/// `href`, and it has an `id`.
pub proof fn lemma_ensured_item(
    manifest: ElementView,
    requested_id: Seq<char>,
    href: Seq<char>,
    media_type: Seq<char>,
)
    ensures
        ({
            let (m, k) = ensured_item(manifest, requested_id, href, media_type);
            &&& 0 <= k < m.children.len()
            &&& m.children.len() >= manifest.children.len()
            &&& item_position(m.children, href, 0) == Some(k)
            &&& is_named(m.children[k], "item"@)
            &&& attr_of(element_at(m, k), "id"@) is Some
            &&& forall|j: int| 0 <= j < manifest.children.len() && j != k ==> m.children[j]
                == manifest.children[j]
        }),
{
    let (m, k) = ensured_item(manifest, requested_id, href, media_type);
    reveal_strlit("href");
    reveal_strlit("media-type");
    reveal_strlit("id");
    assert("href"@.len() != "media-type"@.len() && "href"@.len() != "id"@.len());
    lemma_item_position(manifest.children, href, 0);
    match item_position(manifest.children, href, 0) {
        Some(k0) => {
            let item = element_at(manifest, k0);
            let with_id = if attr_of(item, "id"@) is None {
                with_attr(item, "id"@, unique_id_spec(manifest.children, requested_id))
            } else {
                item
            };
            lemma_attr_of_with_attr(item, "id"@, unique_id_spec(manifest.children, requested_id), "href"@);
            lemma_attr_of_with_attr(item, "id"@, unique_id_spec(manifest.children, requested_id), "id"@);
            lemma_attr_of_with_attr(with_id, "media-type"@, media_type, "href"@);
            lemma_attr_of_with_attr(with_id, "media-type"@, media_type, "id"@);
            let fin = with_attr(with_id, "media-type"@, media_type);
            lemma_item_position(manifest.children, href, 0);
            assert(is_item_with_href(manifest.children[k0], href));
            assert(attr_of(item, "href"@) == Some(href));
            assert(attr_of(fin, "href"@) == Some(href));
            assert(m.children[k0] == NodeView::Element(fin));
            assert(is_item_with_href(m.children[k0], href));
            lemma_item_position_at(m.children, href, 0, k0);
        },
        None => {
            let uid = unique_id_spec(manifest.children, requested_id);
            let e0 = opf_element_spec(manifest, "item"@);
            let e1 = with_attr(e0, "id"@, uid);
            let e2 = with_attr(e1, "href"@, href);
            lemma_attr_of_with_attr(e0, "id"@, uid, "id"@);
            lemma_attr_of_with_attr(e1, "href"@, href, "id"@);
            lemma_attr_of_with_attr(e1, "href"@, href, "href"@);
            lemma_attr_of_with_attr(e2, "media-type"@, media_type, "id"@);
            lemma_attr_of_with_attr(e2, "media-type"@, media_type, "href"@);
            let fin = with_attr(e2, "media-type"@, media_type);
            assert(attr_of(fin, "href"@) == Some(href));
            assert(m.children[k] == NodeView::Element(fin));
            assert(is_item_with_href(m.children[k], href));
            lemma_item_position_at(m.children, href, 0, k);
        },
    }
}

/// Putting an element in place of a child with the same name leaves the
/// positions of named children as they were.
pub proof fn lemma_same_name_replaced(children: Seq<NodeView>, k: int, e: ElementView, name: Seq<char>, i: int)
    requires
        0 <= k < children.len(),
        0 <= i,
        children[k] is Element,
        children[k]->Element_0.name == e.name,
    ensures
        element_position(children.update(k, NodeView::Element(e)), name, i) == element_position(
            children,
            name,
            i,
        ),
    decreases children.len() - i,
{
    if i < children.len() {
        lemma_same_name_replaced(children, k, e, name, i + 1);
    }
}

/// The position of the first item of `manifest` whose `href` is `href`.
pub fn find_item_by_href(manifest: &XmlElement, href: &str) -> (r: Option<usize>)
    ensures
        match r {
            Some(k) => item_position(element_view(*manifest).children, href@, 0) == Some(k as int),
            None => item_position(element_view(*manifest).children, href@, 0) is None,
        },
{
    let ghost children = element_view(*manifest).children;
    proof {
        lemma_node_views(manifest.children@);
    }
    let mut i: usize = 0;
    while i < manifest.children.len()
        invariant
            children == element_view(*manifest).children,
            children.len() == manifest.children@.len(),
            forall|k: int| 0 <= k < manifest.children@.len() ==> #[trigger] children[k] == node_view(
                manifest.children@[k],
            ),
            0 <= i <= manifest.children@.len(),
            item_position(children, href@, 0) == item_position(children, href@, i as int),
        decreases manifest.children@.len() - i,
    {
        if let XmlNode::Element(e) = &manifest.children[i] {
            if str_eq(e.name.as_str(), "item") && attribute_is(e, "href", href) {
                return Some(i);
            }
        }
        i = i + 1;
    }
    None
}

/// The manifest after `ensure_manifest_item`, and the position of the item.
pub open spec fn ensured_item(
    manifest: ElementView,
    requested_id: Seq<char>,
    href: Seq<char>,
    media_type: Seq<char>,
) -> (ElementView, int) {
    match item_position(manifest.children, href, 0) {
        Some(k) => {
            let item = element_at(manifest, k);
            let with_id = if attr_of(item, "id"@) is None {
                with_attr(item, "id"@, unique_id_spec(manifest.children, requested_id))
            } else {
                item
            };
            (replace_child(manifest, k, with_attr(with_id, "media-type"@, media_type)), k)
        },
        None => {
            let item = with_attr(
                with_attr(
                    with_attr(
                        opf_element_spec(manifest, "item"@),
                        "id"@,
                        unique_id_spec(manifest.children, requested_id),
                    ),
                    "href"@,
                    href,
                ),
                "media-type"@,
                media_type,
            );
            (
                with_children(manifest, manifest.children.push(NodeView::Element(item))),
                manifest.children.len() as int,
            )
        },
    }
}

/// Makes sure that `manifest` lists `href` with `media_type` and an `id`
/// (`requested_id`, or a free variant of it, when the item has none), and
/// gives the position of its item.
pub fn ensure_manifest_item(
    manifest: &mut XmlElement,
    requested_id: &str,
    href: &str,
    media_type: &str,
) -> (r: usize)
    ensures
        (element_view(*final(manifest)), r as int) == ensured_item(
            element_view(*old(manifest)),
            requested_id@,
            href@,
            media_type@,
        ),
        r < final(manifest).children@.len(),
        final(manifest).children@[r as int] is Element,
{
    let ghost before = element_view(*manifest);
    proof {
        lemma_item_position(before.children, href@, 0);
        lemma_node_views(manifest.children@);
    }
    match find_item_by_href(manifest, href) {
        Some(k) => {
            let mut item = take_element(manifest, k);
            if attribute(&item, "id").is_none() {
                proof {
                    lemma_used_ids_remove(before.children, k as int);
                }
                let id = unique_id(manifest, requested_id);
                set_attribute(&mut item, "id", id);
            }
            set_attribute(&mut item, "media-type", String::from_str(media_type));
            proof {
                lemma_node_views(manifest.children@);
            }
            let ghost item_view = element_view(item);
            put_element(manifest, k, item);
            proof {
                assert(element_view(*manifest).children =~= before.children.update(
                    k as int,
                    NodeView::Element(item_view),
                ));
                lemma_node_views(manifest.children@);
                assert(element_view(*manifest).children[k as int] == NodeView::Element(item_view));
                assert(node_view(manifest.children@[k as int]) is Element);
            }
            k
        },
        None => {
            let id = unique_id(manifest, requested_id);
            let mut item = opf_element(manifest, "item");
            set_attribute(&mut item, "id", id);
            set_attribute(&mut item, "href", String::from_str(href));
            set_attribute(&mut item, "media-type", String::from_str(media_type));
            let k = manifest.children.len();
            let ghost item_view = element_view(item);
            proof {
                lemma_node_views(manifest.children@);
            }
            push_node(manifest, XmlNode::Element(item));
            proof {
                lemma_node_views(manifest.children@);
                assert(element_view(*manifest).children[k as int] == NodeView::Element(item_view));
                assert(node_view(manifest.children@[k as int]) is Element);
            }
            k
        },
    }
}


// ---------------------------------------------------------------------------
// Children by name
// ---------------------------------------------------------------------------

/// `parent` with an element child named `name` (added first or last when it
/// has none), and the position of the first such child.
pub open spec fn ensured_child(parent: ElementView, name: Seq<char>, prepend: bool) -> (ElementView, int) {
    match element_position(parent.children, name, 0) {
        Some(k) => (parent, k),
        None => if prepend {
            (
                with_children(
                    parent,
                    parent.children.insert(0, NodeView::Element(opf_element_spec(parent, name))),
                ),
                0,
            )
        } else {
            (
                with_children(
                    parent,
                    parent.children.push(NodeView::Element(opf_element_spec(parent, name))),
                ),
                parent.children.len() as int,
            )
        },
    }
}

pub proof fn lemma_ensured_child(parent: ElementView, name: Seq<char>, prepend: bool)
    ensures
        0 <= ensured_child(parent, name, prepend).1 < ensured_child(parent, name, prepend).0.children.len(),
        is_named(
            ensured_child(parent, name, prepend).0.children[ensured_child(parent, name, prepend).1],
            name,
        ),
{
    lemma_element_position(parent.children, name, 0);
}

/// Makes sure that `parent` has an element child named `name` and gives the
/// position of the first one.
pub fn ensure_child(parent: &mut XmlElement, name: &str, prepend: bool) -> (r: usize)
    ensures
        (element_view(*final(parent)), r as int) == ensured_child(
            element_view(*old(parent)),
            name@,
            prepend,
        ),
        r < final(parent).children@.len(),
        final(parent).children@[r as int] is Element,
{
    let ghost before = element_view(*parent);
    proof {
        lemma_node_views(parent.children@);
        lemma_element_position(before.children, name@, 0);
    }
    match child_index(parent, name) {
        Some(k) => {
            assert(node_view(parent.children@[k as int]) is Element);
            k
        },
        None => {
            let e = opf_element(parent, name);
            let ghost ev = element_view(e);
            if prepend {
                prepend_node(parent, XmlNode::Element(e));
                proof {
                    lemma_node_views(parent.children@);
                    assert(element_view(*parent).children[0] == NodeView::Element(ev));
                    assert(node_view(parent.children@[0]) is Element);
                }
                0
            } else {
                let k = parent.children.len();
                push_node(parent, XmlNode::Element(e));
                proof {
                    lemma_node_views(parent.children@);
                    assert(element_view(*parent).children[k as int] == NodeView::Element(ev));
                    assert(node_view(parent.children@[k as int]) is Element);
                }
                k
            }
        },
    }
}

/// The first element named `name` in document order, `e` itself included.
pub open spec fn find_descendant_spec(e: ElementView, name: Seq<char>) -> Option<ElementView>
    decreases e, 1int,
{
    if e.name == name {
        Some(e)
    } else {
        descendant_in(e.children, name)
    }
}

pub open spec fn descendant_in(nodes: Seq<NodeView>, name: Seq<char>) -> Option<ElementView>
    decreases nodes, 0int,
{
    if nodes.len() == 0 {
        None
    } else {
        match nodes[0] {
            NodeView::Element(c) => match find_descendant_spec(c, name) {
                Some(x) => Some(x),
                None => descendant_in(nodes.drop_first(), name),
            },
            _ => descendant_in(nodes.drop_first(), name),
        }
    }
}

/// The first element named `name` in document order, `parent` itself
/// included.
pub fn find_descendant<'a>(parent: &'a XmlElement, name: &str) -> (r: Option<&'a XmlElement>)
    ensures
        match r {
            Some(e) => find_descendant_spec(element_view(*parent), name@) == Some(element_view(*e)),
            None => find_descendant_spec(element_view(*parent), name@) is None,
        },
    decreases parent, 1int,
{
    if str_eq(parent.name.as_str(), name) {
        return Some(parent);
    }
    descendant_among(&parent.children, name)
}

fn descendant_among<'a>(nodes: &'a Vec<XmlNode>, name: &str) -> (r: Option<&'a XmlElement>)
    ensures
        match r {
            Some(e) => descendant_in(node_views(nodes@), name@) == Some(element_view(*e)),
            None => descendant_in(node_views(nodes@), name@) is None,
        },
    decreases nodes, 0int,
{
    let ghost views = node_views(nodes@);
    proof {
        lemma_node_views(nodes@);
        assert(views.skip(0) =~= views);
    }
    let mut i: usize = 0;
    while i < nodes.len()
        invariant
            views == node_views(nodes@),
            views.len() == nodes@.len(),
            forall|k: int| 0 <= k < nodes@.len() ==> #[trigger] views[k] == node_view(nodes@[k]),
            0 <= i <= nodes@.len(),
            descendant_in(views, name@) == descendant_in(views.skip(i as int), name@),
        decreases nodes@.len() - i,
    {
        proof {
            assert(views.skip(i as int)[0] == views[i as int]);
            assert(views.skip(i as int).drop_first() =~= views.skip(i + 1));
        }
        if let XmlNode::Element(c) = &nodes[i] {
            proof {
                assert(decreases_to!(nodes => nodes@[i as int]));
            }
            match find_descendant(c, name) {
                Some(e) => {
                    return Some(e);
                },
                None => {},
            }
        }
        i = i + 1;
    }
    None
}

// ---------------------------------------------------------------------------
// Dublin Core metadata
// ---------------------------------------------------------------------------

/// `values` without the empty ones.
pub open spec fn nonempty_spec(values: Seq<Seq<char>>) -> Seq<Seq<char>>
    decreases values.len(),
{
    if values.len() == 0 {
        seq![]
    } else if values.last().len() == 0 {
        nonempty_spec(values.drop_last())
    } else {
        nonempty_spec(values.drop_last()).push(values.last())
    }
}

/// `values` without the empty ones.
pub fn nonempty(values: &Vec<String>) -> (r: Vec<String>)
    ensures
        string_views(r@) == nonempty_spec(string_views(values@)),
{
    let ghost all = string_views(values@);
    let mut r: Vec<String> = Vec::new();
    let mut i: usize = 0;
    while i < values.len()
        invariant
            all == string_views(values@),
            0 <= i <= values@.len(),
            string_views(r@) == nonempty_spec(all.take(i as int)),
        decreases values@.len() - i,
    {
        assert(all.take(i + 1).drop_last() =~= all.take(i as int));
        assert(all[i as int] == values@[i as int]@);
        if !values[i].as_str().is_empty() {
            let ghost before = string_views(r@);
            r.push(values[i].clone());
            assert(string_views(r@) =~= before.push(all[i as int]));
        }
        i = i + 1;
    }
    assert(all.take(values@.len() as int) =~= all);
    r
}

/// A `dc:name` element of `metadata` that holds the text `value`.
pub open spec fn dc_text_element(name: Seq<char>, metadata: ElementView, value: Seq<char>) -> ElementView {
    ElementView { children: seq![NodeView::Text(value)], ..dc_element_spec(name, metadata) }
}

pub open spec fn dc_nodes(name: Seq<char>, metadata: ElementView, values: Seq<Seq<char>>) -> Seq<
    NodeView,
>
    decreases values.len(),
{
    if values.len() == 0 {
        seq![]
    } else {
        dc_nodes(name, metadata, values.drop_last()).push(
            NodeView::Element(dc_text_element(name, metadata, values.last())),
        )
    }
}

/// `metadata` with its `name` elements replaced by one `dc:name` element
/// per value, added last; unchanged when there are no values.
pub open spec fn replace_dc_spec(metadata: ElementView, name: Seq<char>, values: Seq<Seq<char>>) -> ElementView {
    if values.len() == 0 {
        metadata
    } else {
        with_children(
            metadata,
            retained(metadata.children, Pick::Named(name)) + dc_nodes(name, metadata, values),
        )
    }
}

/// Replaces the `name` elements of `metadata` with one `dc:name` element per
/// value; leaves `metadata` alone when there are no values.
pub fn replace_dc(metadata: &mut XmlElement, name: &str, values: Vec<String>)
    ensures
        element_view(*final(metadata)) == replace_dc_spec(
            element_view(*old(metadata)),
            name@,
            string_views(values@),
        ),
{
    if values.len() == 0 {
        return ;
    }
    let ghost before = element_view(*metadata);
    let sel = Selector::Named(String::from_str(name));
    retain_children(metadata, &sel);
    let ghost kept = element_view(*metadata).children;
    let ghost all = string_views(values@);
    let mut i: usize = 0;
    while i < values.len()
        invariant
            all == string_views(values@),
            0 <= i <= values@.len(),
            kept == retained(before.children, Pick::Named(name@)),
            element_view(*metadata) == with_children(
                before,
                kept + dc_nodes(name@, before, all.take(i as int)),
            ),
        decreases values@.len() - i,
    {
        assert(all.take(i + 1).drop_last() =~= all.take(i as int));
        let mut e = dc_element(name, metadata);
        let text = XmlNode::Text(values[i].clone());
        let ghost ev = element_view(e);
        push_node(&mut e, text);
        assert(element_view(e) == dc_text_element(name@, before, all[i as int])) by {
            assert(element_view(e).children =~= seq![NodeView::Text(all[i as int])]);
        }
        push_node(metadata, XmlNode::Element(e));
        assert(element_view(*metadata).children =~= kept + dc_nodes(
            name@,
            before,
            all.take(i + 1),
        ));
        i = i + 1;
    }
    assert(all.take(values@.len() as int) =~= all);
}


// ---------------------------------------------------------------------------
// Book metadata
// ---------------------------------------------------------------------------

/// Whether the package is EPUB 3: it has no `version`, or one that begins
/// with `3`.
pub open spec fn is_epub3(package: ElementView) -> bool {
    match attr_of(package, "version"@) {
        None => true,
        Some(v) => v.len() > 0 && v[0] == '3',
    }
}

/// Whether the book's identifier is added: there is one, and the package
/// has no metadata or metadata without an `identifier`.
pub open spec fn adds_identifier(package: ElementView, uuid: Seq<char>) -> bool {
    &&& uuid.len() > 0
    &&& match child_of(package, "metadata"@) {
        None => true,
        Some(m) => element_position(m.children, "identifier"@, 0) is None,
    }
}

/// The `dc:relation` text of a series: its title and, when there is one,
/// the book's position in it.
pub open spec fn relation_text(series: SeriesInfo) -> Seq<char> {
    if series.position_label@.len() == 0 {
        "Series: "@ + series.title@
    } else {
        "Series: "@ + series.title@ + ", Number: "@ + series.position_label@
    }
}

/// The relation texts of the series that have a title.
pub open spec fn relations_spec(series: Seq<SeriesInfo>) -> Seq<Seq<char>>
    decreases series.len(),
{
    if series.len() == 0 {
        seq![]
    } else if series.last().title@.len() == 0 {
        relations_spec(series.drop_last())
    } else {
        relations_spec(series.drop_last()).push(relation_text(series.last()))
    }
}

pub open spec fn optional_list(value: Option<String>) -> Seq<Seq<char>> {
    match value {
        Some(v) => seq![v@],
        None => seq![],
    }
}

/// The `dc:identifier` element that names the book by its identifier.
pub open spec fn identifier_element(metadata: ElementView, uuid: Seq<char>) -> ElementView {
    ElementView {
        children: seq![NodeView::Text("urn:uuid:"@ + uuid)],
        ..with_attr(dc_element_spec("identifier"@, metadata), "id"@, "bookid"@)
    }
}

/// The metadata element with the book's values: the Dublin Core namespace
/// declared, title, authors, description, publishers, subjects (the
/// "virtual narrator" genre left out), source, date, rights and series
/// replaced where the book has them, and the identifier added when asked.
pub open spec fn described_metadata(metadata: ElementView, values: BookMetadata, add_identifier: bool) -> ElementView {
    let namespaces = match metadata.namespaces {
        Some(n) => n,
        None => seq![],
    };
    let m0 = ElementView {
        namespaces: Some(put_pair(namespaces, "dc"@, DC_NAMESPACE@)),
        ..metadata
    };
    let m1 = replace_dc_spec(m0, "title"@, nonempty_spec(seq![values.title@]));
    let m2 = replace_dc_spec(m1, "creator"@, nonempty_spec(string_views(values.authors@)));
    let m3 = replace_dc_spec(m2, "description"@, nonempty_spec(seq![values.annotation@]));
    let m4 = replace_dc_spec(m3, "publisher"@, nonempty_spec(string_views(values.publishers@)));
    let m5 = replace_dc_spec(
        m4,
        "subject"@,
        nonempty_spec(without(string_views(values.genres@), virtual_narrator())),
    );
    let m6 = replace_dc_spec(m5, "source"@, nonempty_spec(seq![values.source@]));
    let m7 = replace_dc_spec(m6, "date"@, nonempty_spec(optional_list(values.original_year)));
    let m8 = replace_dc_spec(m7, "rights"@, nonempty_spec(optional_list(values.rights)));
    let m9 = replace_dc_spec(m8, "relation"@, relations_spec(values.series@));
    if add_identifier {
        with_children(
            m9,
            m9.children.push(NodeView::Element(identifier_element(m9, values.uuid@))),
        )
    } else {
        m9
    }
}

/// The picks of the `dcterms:modified` element.
pub open spec fn modified_pick() -> Pick {
    Pick::NamedWith("meta"@, "property"@, "dcterms:modified"@)
}

/// `metadata` with the time of modification `modified`: in the first
/// `dcterms:modified` element, or in a new one added last.
pub open spec fn stamped(metadata: ElementView, modified: Seq<char>) -> ElementView {
    match pick_position(metadata.children, modified_pick(), 0) {
        Some(j) => replace_child(
            metadata,
            j,
            with_children(element_at(metadata, j), seq![NodeView::Text(modified)]),
        ),
        None => with_children(
            metadata,
            metadata.children.push(
                NodeView::Element(
                    ElementView {
                        children: seq![NodeView::Text(modified)],
                        ..with_attr(
                            opf_element_spec(metadata, "meta"@),
                            "property"@,
                            "dcterms:modified"@,
                        )
                    },
                ),
            ),
        ),
    }
}

/// The package with the identifier attribute set when the identifier is
/// added, and with a metadata element; and the position of that element.
pub open spec fn metadata_base(package: ElementView, values: BookMetadata) -> (ElementView, int) {
    let p0 = if adds_identifier(package, values.uuid@) {
        with_attr(package, "unique-identifier"@, "bookid"@)
    } else {
        package
    };
    ensured_child(p0, "metadata"@, true)
}

/// The package with the book's metadata, and the time of modification when
/// one is given.
pub open spec fn updated_package(package: ElementView, values: BookMetadata, modified: Option<Seq<char>>) -> ElementView {
    let (p1, k) = metadata_base(package, values);
    let m = described_metadata(element_at(p1, k), values, adds_identifier(package, values.uuid@));
    replace_child(
        p1,
        k,
        match modified {
            Some(t) => stamped(m, t),
            None => m,
        },
    )
}

/// The shape of an RFC 3339 time in UTC without fractions of a second:
/// `YYYY-MM-DDTHH:MM:SSZ`.
pub open spec fn is_utc_timestamp(t: Seq<char>) -> bool {
    &&& t.len() == 20
    &&& forall|i: int|
        0 <= i < 20 && i != 4 && i != 7 && i != 10 && i != 13 && i != 16 && i != 19 ==> '0'
            <= #[trigger] t[i] <= '9'
    &&& t[4] == '-' && t[7] == '-' && t[10] == 'T'
    &&& t[13] == ':' && t[16] == ':' && t[19] == 'Z'
}

/// The current time in UTC, to the second, as RFC 3339 text
/// (`OffsetDateTime::now_utc`, `replace_nanosecond(0)`, `format(&Rfc3339)`).
/// Claims the shape of the text, as the crate's formatting code writes it
/// for a UTC time without nanoseconds; which time it is, is not stated.
#[verifier::external_body]
fn utc_timestamp() -> (r: Result<String, Error>)
    ensures
        match r {
            Ok(t) => is_utc_timestamp(t@),
            Err(e) => e is Time,
        },
{
    let now = OffsetDateTime::now_utc().replace_nanosecond(0).map_err(
        |error| Error::Time(error.to_string()),
    )?;
    now.format(&Rfc3339).map_err(|error| Error::Time(error.to_string()))
}

fn single(value: &String) -> (r: Vec<String>)
    ensures
        string_views(r@) == seq![value@],
{
    let mut r: Vec<String> = Vec::new();
    r.push(value.clone());
    assert(string_views(r@) =~= seq![value@]);
    r
}

fn listed_option(value: &Option<String>) -> (r: Vec<String>)
    ensures
        string_views(r@) == optional_list(*value),
{
    let mut r: Vec<String> = Vec::new();
    if let Some(v) = value {
        r.push(v.clone());
    }
    assert(string_views(r@) =~= optional_list(*value));
    r
}

/// The relation texts of the series that have a title.
pub fn relations(series: &Vec<SeriesInfo>) -> (r: Vec<String>)
    ensures
        string_views(r@) == relations_spec(series@),
{
    let mut r: Vec<String> = Vec::new();
    let mut i: usize = 0;
    while i < series.len()
        invariant
            0 <= i <= series@.len(),
            string_views(r@) == relations_spec(series@.take(i as int)),
        decreases series@.len() - i,
    {
        assert(series@.take(i + 1).drop_last() =~= series@.take(i as int));
        let entry = &series[i];
        if !entry.title.as_str().is_empty() {
            let mut text = String::from_str("Series: ");
            text.append(entry.title.as_str());
            if !entry.position_label.as_str().is_empty() {
                text.append(", Number: ");
                text.append(entry.position_label.as_str());
            }
            let ghost before = string_views(r@);
            r.push(text);
            assert(string_views(r@) =~= before.push(relation_text(series@[i as int])));
        }
        i = i + 1;
    }
    assert(series@.take(series@.len() as int) =~= series@);
    r
}

/// Whether the package is EPUB 3.
pub fn epub3(package: &XmlElement) -> (r: bool)
    ensures
        r == is_epub3(element_view(*package)),
{
    match attribute(package, "version") {
        None => true,
        Some(v) => {
            let chars = chars_of(v.as_str());
            chars.len() > 0 && chars[0] == '3'
        },
    }
}

/// Whether the book's identifier is added to the package.
fn identifier_wanted(package: &XmlElement, uuid: &String) -> (r: bool)
    ensures
        r == adds_identifier(element_view(*package), uuid@),
{
    if uuid.as_str().is_empty() {
        return false;
    }
    proof {
        lemma_node_views(package.children@);
        lemma_element_position(element_view(*package).children, "metadata"@, 0);
    }
    match child_index(package, "metadata") {
        None => true,
        Some(k) => match &package.children[k] {
            XmlNode::Element(m) => child_index(m, "identifier").is_none(),
            _ => {
                assert(false);
                true
            },
        },
    }
}

/// Writes the book's values into the metadata element (everything but the
/// time of modification), and the identifier when `add_identifier` holds.
pub fn describe_metadata(metadata: &mut XmlElement, values: &BookMetadata, add_identifier: bool)
    ensures
        element_view(*final(metadata)) == described_metadata(
            element_view(*old(metadata)),
            *values,
            add_identifier,
        ),
{
    let ghost m = element_view(*metadata);
    let ghost old_namespaces = match m.namespaces {
        Some(n) => n,
        None => seq![],
    };
    let mut namespaces: Option<Vec<(String, String)>> = None;
    std::mem::swap(&mut namespaces, &mut metadata.namespaces);
    let mut pairs = match namespaces {
        Some(n) => n,
        None => Vec::new(),
    };
    assert(pairs_view(pairs@) =~= old_namespaces);
    put_pair_in(&mut pairs, "dc", String::from_str(DC_NAMESPACE));
    metadata.namespaces = Some(pairs);
    let ghost m0 = ElementView {
        namespaces: Some(put_pair(old_namespaces, "dc"@, DC_NAMESPACE@)),
        ..m
    };
    assert(element_view(*metadata) == m0);
    replace_dc(metadata, "title", nonempty(&single(&values.title)));
    replace_dc(metadata, "creator", nonempty(&values.authors));
    replace_dc(metadata, "description", nonempty(&single(&values.annotation)));
    replace_dc(metadata, "publisher", nonempty(&values.publishers));
    let genres = remove_word(&values.genres, "Виртуальный рассказчик");
    assert(string_views(genres@) == without(string_views(values.genres@), virtual_narrator()));
    replace_dc(metadata, "subject", nonempty(&genres));
    replace_dc(metadata, "source", nonempty(&single(&values.source)));
    replace_dc(metadata, "date", nonempty(&listed_option(&values.original_year)));
    replace_dc(metadata, "rights", nonempty(&listed_option(&values.rights)));
    replace_dc(metadata, "relation", relations(&values.series));
    if add_identifier {
        let mut identifier = dc_element("identifier", metadata);
        set_attribute(&mut identifier, "id", String::from_str("bookid"));
        let mut text = String::from_str("urn:uuid:");
        text.append(values.uuid.as_str());
        let ghost before = element_view(identifier);
        push_node(&mut identifier, XmlNode::Text(text));
        assert(element_view(identifier).children =~= seq![NodeView::Text("urn:uuid:"@ + values.uuid@)]);
        push_node(metadata, XmlNode::Element(identifier));
    }
}

/// Writes the book's metadata into the package (everything but the time of
/// modification) and gives the position of its metadata element.
pub fn describe_book(package: &mut XmlElement, values: &BookMetadata) -> (r: usize)
    ensures
        element_view(*final(package)) == updated_package(element_view(*old(package)), *values, None),
        r as int == metadata_base(element_view(*old(package)), *values).1,
        r < final(package).children@.len(),
        final(package).children@[r as int] is Element,
{
    let add_identifier = identifier_wanted(package, &values.uuid);
    if add_identifier {
        set_attribute(package, "unique-identifier", String::from_str("bookid"));
    }
    let k = ensure_child(package, "metadata", true);
    let ghost p1 = element_view(*package);
    proof {
        lemma_node_views(package.children@);
    }
    let mut metadata = take_element(package, k);
    describe_metadata(&mut metadata, values, add_identifier);
    proof {
        lemma_node_views(package.children@);
    }
    let ghost mv = element_view(metadata);
    put_element(package, k, metadata);
    proof {
        lemma_node_views(package.children@);
        assert(element_view(*package).children =~= p1.children.update(k as int, NodeView::Element(mv)));
        assert(element_view(*package).children[k as int] == NodeView::Element(mv));
        assert(node_view(package.children@[k as int]) is Element);
    }
    k
}

/// Writes the time of modification `modified` into the metadata element at
/// `k`.
pub fn stamp_modified(package: &mut XmlElement, k: usize, modified: &str)
    requires
        k < old(package).children@.len(),
        old(package).children@[k as int] is Element,
    ensures
        element_view(*final(package)) == replace_child(
            element_view(*old(package)),
            k as int,
            stamped(element_at(element_view(*old(package)), k as int), modified@),
        ),
{
    let ghost p = element_view(*package);
    proof {
        lemma_node_views(package.children@);
    }
    let mut metadata = take_element(package, k);
    let ghost m = element_view(metadata);
    let sel = Selector::NamedWith(
        String::from_str("meta"),
        String::from_str("property"),
        String::from_str("dcterms:modified"),
    );
    proof {
        lemma_pick_position(m.children, modified_pick(), 0);
        lemma_node_views(metadata.children@);
    }
    match find_child(&metadata, &sel) {
        Some(j) => {
            let mut meta = take_element(&mut metadata, j);
            let ghost before = element_view(meta);
            let mut children: Vec<XmlNode> = Vec::new();
            children.push(XmlNode::Text(String::from_str(modified)));
            meta.children = children;
            proof {
                lemma_node_views(meta.children@);
                assert(element_view(meta) == with_children(before, seq![NodeView::Text(modified@)]));
                lemma_node_views(metadata.children@);
            }
            let ghost meta_view = element_view(meta);
            put_element(&mut metadata, j, meta);
            assert(element_view(metadata).children =~= m.children.update(
                j as int,
                NodeView::Element(meta_view),
            ));
        },
        None => {
            let mut meta = opf_element(&metadata, "meta");
            set_attribute(&mut meta, "property", String::from_str("dcterms:modified"));
            let ghost before = element_view(meta);
            push_node(&mut meta, XmlNode::Text(String::from_str(modified)));
            assert(element_view(meta).children =~= seq![NodeView::Text(modified@)]);
            push_node(&mut metadata, XmlNode::Element(meta));
        },
    }
    proof {
        lemma_node_views(package.children@);
    }
    let ghost mv = element_view(metadata);
    put_element(package, k, metadata);
    assert(element_view(*package).children =~= p.children.update(k as int, NodeView::Element(mv)));
}

/// Writes the book's metadata into the package and, for EPUB 3, the current
/// time as the time of modification. The time is read only after the rest is
/// written, and a failure to read it leaves the rest written.
pub fn update_metadata(package: &mut XmlElement, values: &BookMetadata) -> (r: Result<(), Error>)
    ensures
        match r {
            Ok(()) => if is_epub3(element_view(*old(package))) {
                exists|t: Seq<char>|
                    is_utc_timestamp(t) && element_view(*final(package)) == updated_package(
                        element_view(*old(package)),
                        *values,
                        Some(t),
                    )
            } else {
                element_view(*final(package)) == updated_package(
                    element_view(*old(package)),
                    *values,
                    None,
                )
            },
            Err(e) => e is Time && is_epub3(element_view(*old(package))) && element_view(
                *final(package),
            ) == updated_package(element_view(*old(package)), *values, None),
        },
{
    let ghost before = element_view(*package);
    let is3 = epub3(package);
    let k = describe_book(package, values);
    proof {
        lemma_node_views(package.children@);
    }
    if is3 {
        let ghost described = element_view(*package);
        let modified = utc_timestamp()?;
        stamp_modified(package, k, modified.as_str());
        proof {
            let (p1, kk) = metadata_base(before, *values);
            let m = described_metadata(element_at(p1, kk), *values, adds_identifier(before, values.uuid@));
            let p0 = if adds_identifier(before, values.uuid@) {
                with_attr(before, "unique-identifier"@, "bookid"@)
            } else {
                before
            };
            lemma_ensured_child(p0, "metadata"@, true);
            assert(kk < p1.children.len());
            assert(described.children[kk] == NodeView::Element(m));
            assert(element_at(described, k as int) == m);
            assert(element_view(*package).children =~= updated_package(before, *values, Some(modified@)).children);
            assert(element_view(*package) == updated_package(before, *values, Some(modified@)));
        }
    }
    Ok(())
}


/// The number of element children named `name`.
pub open spec fn count_named(children: Seq<NodeView>, name: Seq<char>) -> nat
    decreases children.len(),
{
    if children.len() == 0 {
        0
    } else {
        count_named(children.drop_last(), name) + if is_named(children.last(), name) {
            1nat
        } else {
            0nat
        }
    }
}

/// Every child named `name` is `node`.
pub open spec fn all_named_are(children: Seq<NodeView>, name: Seq<char>, node: NodeView) -> bool {
    forall|k: int| 0 <= k < children.len() && is_named(#[trigger] children[k], name) ==> children[k] == node
}

proof fn lemma_count_concat(a: Seq<NodeView>, b: Seq<NodeView>, name: Seq<char>)
    ensures
        count_named(a + b, name) == count_named(a, name) + count_named(b, name),
    decreases b.len(),
{
    if b.len() == 0 {
        assert(a + b =~= a);
    } else {
        lemma_count_concat(a, b.drop_last(), name);
        assert((a + b).drop_last() =~= a + b.drop_last());
        assert((a + b).last() == b.last());
    }
}

proof fn lemma_retained_named(children: Seq<NodeView>, n: Seq<char>, d: Seq<char>, node: NodeView)
    ensures
        count_named(retained(children, Pick::Named(n)), d) == if n == d {
            0
        } else {
            count_named(children, d)
        },
        all_named_are(children, d, node) ==> all_named_are(retained(children, Pick::Named(n)), d, node),
        forall|k: int|
            0 <= k < retained(children, Pick::Named(n)).len() ==> !is_named(
                #[trigger] retained(children, Pick::Named(n))[k],
                n,
            ),
    decreases children.len(),
{
    if children.len() > 0 {
        let init = children.drop_last();
        lemma_retained_named(init, n, d, node);
        let r0 = retained(init, Pick::Named(n));
        let r = retained(children, Pick::Named(n));
        if !selects(Pick::Named(n), children.last()) {
            assert(r.drop_last() =~= r0);
            assert(r.last() == children.last());
        }
        if all_named_are(children, d, node) {
            assert forall|k: int| 0 <= k < init.len() && is_named(#[trigger] init[k], d) implies init[k]
                == node by {
                assert(init[k] == children[k]);
            }
            assert forall|k: int| 0 <= k < r.len() && is_named(#[trigger] r[k], d) implies r[k] == node by {
                if k < r0.len() {
                    assert(r[k] == r0[k]);
                } else {
                    assert(r[k] == children[children.len() - 1]);
                }
            }
        }
        assert forall|k: int| 0 <= k < r.len() implies !is_named(#[trigger] r[k], n) by {
            if k < r0.len() {
                assert(r[k] == r0[k]);
            }
        }
    }
}

proof fn lemma_dc_nodes_named(n: Seq<char>, metadata: ElementView, values: Seq<Seq<char>>, d: Seq<char>)
    requires
        n != d,
    ensures
        count_named(dc_nodes(n, metadata, values), d) == 0,
        forall|k: int|
            0 <= k < dc_nodes(n, metadata, values).len() ==> !is_named(
                #[trigger] dc_nodes(n, metadata, values)[k],
                d,
            ),
    decreases values.len(),
{
    if values.len() > 0 {
        lemma_dc_nodes_named(n, metadata, values.drop_last(), d);
        let init = dc_nodes(n, metadata, values.drop_last());
        assert(dc_nodes(n, metadata, values).drop_last() =~= init);
        assert forall|k: int| 0 <= k < dc_nodes(n, metadata, values).len() implies !is_named(
            #[trigger] dc_nodes(n, metadata, values)[k],
            d,
        ) by {
            if k < init.len() {
                assert(dc_nodes(n, metadata, values)[k] == init[k]);
            }
        }
    }
}

/// Replacing the elements of another name leaves those named `d` as they
/// were.
proof fn lemma_replace_other(m: ElementView, n: Seq<char>, values: Seq<Seq<char>>, d: Seq<char>, node: NodeView)
    requires
        n != d,
        all_named_are(m.children, d, node),
    ensures
        count_named(replace_dc_spec(m, n, values).children, d) == count_named(m.children, d),
        all_named_are(replace_dc_spec(m, n, values).children, d, node),
{
    if values.len() > 0 {
        let kept = retained(m.children, Pick::Named(n));
        let added = dc_nodes(n, m, values);
        lemma_retained_named(m.children, n, d, node);
        lemma_dc_nodes_named(n, m, values, d);
        lemma_count_concat(kept, added, d);
        let c = kept + added;
        assert forall|k: int| 0 <= k < c.len() && is_named(#[trigger] c[k], d) implies c[k] == node by {
            if k < kept.len() {
                assert(c[k] == kept[k]);
            } else {
                assert(c[k] == added[k - kept.len()]);
            }
        }
    }
}

/// Law: a book with an annotation is described by exactly one
/// `dc:description` element, whose text is the annotation; any description
/// the package had is replaced.
pub proof fn lemma_description_written(metadata: ElementView, values: BookMetadata, add_identifier: bool)
    requires
        values.annotation@.len() > 0,
    ensures
        ({
            let r = described_metadata(metadata, values, add_identifier);
            &&& count_named(r.children, "description"@) == 1
            &&& forall|k: int|
                0 <= k < r.children.len() && is_named(#[trigger] r.children[k], "description"@)
                    ==> r.children[k]->Element_0.children == seq![NodeView::Text(values.annotation@)]
                    && r.children[k]->Element_0.prefix == Some("dc"@)
        }),
{
    let d = "description"@;
    reveal_strlit("description");
    reveal_strlit("title");
    reveal_strlit("creator");
    reveal_strlit("publisher");
    reveal_strlit("subject");
    reveal_strlit("source");
    reveal_strlit("date");
    reveal_strlit("rights");
    reveal_strlit("relation");
    reveal_strlit("identifier");
    let namespaces = match metadata.namespaces {
        Some(n) => n,
        None => seq![],
    };
    let m0 = ElementView { namespaces: Some(put_pair(namespaces, "dc"@, DC_NAMESPACE@)), ..metadata };
    let m1 = replace_dc_spec(m0, "title"@, nonempty_spec(seq![values.title@]));
    let m2 = replace_dc_spec(m1, "creator"@, nonempty_spec(string_views(values.authors@)));
    let ann = values.annotation@;
    assert(seq![ann].drop_last() =~= Seq::<Seq<char>>::empty());
    assert(seq![ann].last() == ann);
    assert(nonempty_spec(seq![ann].drop_last()) =~= Seq::<Seq<char>>::empty());
    assert(nonempty_spec(seq![ann]) =~= seq![ann]);
    let node = NodeView::Element(dc_text_element(d, m2, ann));
    let m3 = replace_dc_spec(m2, d, nonempty_spec(seq![ann]));
    let kept = retained(m2.children, Pick::Named(d));
    lemma_retained_named(m2.children, d, d, node);
    assert(seq![ann].drop_last() =~= Seq::<Seq<char>>::empty());
    assert(dc_nodes(d, m2, seq![ann].drop_last()) =~= Seq::<NodeView>::empty());
    assert(dc_nodes(d, m2, seq![ann]) =~= seq![node]);
    lemma_count_concat(kept, seq![node], d);
    assert(count_named(seq![node], d) == 1) by {
        assert(seq![node].drop_last() =~= Seq::<NodeView>::empty());
        assert(dc_text_element(d, m2, ann).name == d);
        assert(is_named(seq![node].last(), d));
        assert(count_named(seq![node].drop_last(), d) == 0);
    }
    assert("publisher"@.len() != d.len() && "subject"@.len() != d.len() && "source"@.len()
        != d.len() && "date"@.len() != d.len() && "rights"@.len() != d.len() && "relation"@.len()
        != d.len() && "identifier"@.len() != d.len());
    assert(all_named_are(m3.children, d, node)) by {
        assert forall|k: int| 0 <= k < m3.children.len() && is_named(#[trigger] m3.children[k], d)
            implies m3.children[k] == node by {
            if k < kept.len() {
                assert(m3.children[k] == kept[k]);
            }
        }
    }
    let m4 = replace_dc_spec(m3, "publisher"@, nonempty_spec(string_views(values.publishers@)));
    lemma_replace_other(m3, "publisher"@, nonempty_spec(string_views(values.publishers@)), d, node);
    let m5 = replace_dc_spec(
        m4,
        "subject"@,
        nonempty_spec(without(string_views(values.genres@), virtual_narrator())),
    );
    lemma_replace_other(
        m4,
        "subject"@,
        nonempty_spec(without(string_views(values.genres@), virtual_narrator())),
        d,
        node,
    );
    let m6 = replace_dc_spec(m5, "source"@, nonempty_spec(seq![values.source@]));
    lemma_replace_other(m5, "source"@, nonempty_spec(seq![values.source@]), d, node);
    let m7 = replace_dc_spec(m6, "date"@, nonempty_spec(optional_list(values.original_year)));
    lemma_replace_other(m6, "date"@, nonempty_spec(optional_list(values.original_year)), d, node);
    let m8 = replace_dc_spec(m7, "rights"@, nonempty_spec(optional_list(values.rights)));
    lemma_replace_other(m7, "rights"@, nonempty_spec(optional_list(values.rights)), d, node);
    let m9 = replace_dc_spec(m8, "relation"@, relations_spec(values.series@));
    lemma_replace_other(m8, "relation"@, relations_spec(values.series@), d, node);
    let r = described_metadata(metadata, values, add_identifier);
    if add_identifier {
        let id = NodeView::Element(identifier_element(m9, values.uuid@));
        assert(r.children == m9.children.push(id));
        assert(!is_named(id, d));
        assert(r.children.drop_last() =~= m9.children);
        assert forall|k: int| 0 <= k < r.children.len() && is_named(#[trigger] r.children[k], d) implies r.children[k]
            == node by {
            if k < m9.children.len() {
                assert(r.children[k] == m9.children[k]);
            }
        }
    } else {
        assert(r == m9);
    }
    assert(all_named_are(r.children, d, node));
    assert forall|k: int| 0 <= k < r.children.len() && is_named(#[trigger] r.children[k], d) implies r.children[k]->Element_0.children
        == seq![NodeView::Text(ann)] && r.children[k]->Element_0.prefix == Some("dc"@) by {
        assert(r.children[k] == node);
    }
}

/// Law: once added, an item has the property, and every property it had.
pub proof fn lemma_property_added(item: ElementView, property: Seq<char>)
    requires
        is_word(property),
    ensures
        has_property_spec(add_property_spec(item, property), property),
        forall|q: Seq<char>|
            has_property_spec(item, q) ==> has_property_spec(add_property_spec(item, property), q),
{
    let props = properties_spec(item);
    if let Some(v) = attr_of(item, "properties"@) {
        lemma_words_are_words(v);
    }
    let list = if props.contains(property) {
        props
    } else {
        props.push(property)
    };
    assert forall|i: int| 0 <= i < list.len() implies is_word(#[trigger] list[i]) by {
        if i < props.len() {
            assert(list[i] == props[i]);
        }
    }
    lemma_words_of_join(list);
    lemma_attr_of_with_attr(item, "properties"@, join(list, " "@), "properties"@);
    assert(properties_spec(add_property_spec(item, property)) == list);
    if !props.contains(property) {
        assert(list[props.len() as int] == property);
    }
    assert forall|q: Seq<char>| has_property_spec(item, q) implies has_property_spec(
        add_property_spec(item, property),
        q,
    ) by {
        let i = choose|i: int| 0 <= i < props.len() && props[i] == q;
        assert(list[i] == q);
    }
}

/// Law: once removed, an item lacks the property and keeps every other one
/// it had (its attributes named once each, as in a package that was read).
pub proof fn lemma_property_removed(item: ElementView, property: Seq<char>)
    requires
        distinct_keys(item.attributes),
    ensures
        !has_property_spec(remove_property_spec(item, property), property),
        forall|q: Seq<char>|
            q != property && has_property_spec(item, q) ==> has_property_spec(
                remove_property_spec(item, property),
                q,
            ),
{
    let props = properties_spec(item);
    if let Some(v) = attr_of(item, "properties"@) {
        lemma_words_are_words(v);
    }
    let kept = without(props, property);
    lemma_without(props, property);
    if kept.len() == 0 {
        lemma_attr_of_without_attr(item, "properties"@);
        assert(properties_spec(remove_property_spec(item, property)) =~= Seq::<Seq<char>>::empty());
        assert forall|q: Seq<char>| q != property && has_property_spec(item, q) implies has_property_spec(
            remove_property_spec(item, property),
            q,
        ) by {
            assert(kept.contains(q));
        }
    } else {
        assert forall|i: int| 0 <= i < kept.len() implies is_word(#[trigger] kept[i]) by {
            let j = choose|j: int| 0 <= j < props.len() && kept[i] == props[j];
        }
        lemma_words_of_join(kept);
        lemma_attr_of_with_attr(item, "properties"@, join(kept, " "@), "properties"@);
        assert(properties_spec(remove_property_spec(item, property)) == kept);
    }
}


/// Law: listing an item a second time, with the same `href` and media type,
/// changes nothing and settles on the same item.
pub proof fn lemma_manifest_item_once(
    manifest: ElementView,
    requested_id: Seq<char>,
    href: Seq<char>,
    media_type: Seq<char>,
)
    ensures
        ({
            let (listed, k) = ensured_item(manifest, requested_id, href, media_type);
            ensured_item(listed, requested_id, href, media_type) == (listed, k)
        }),
{
    let (listed, k) = ensured_item(manifest, requested_id, href, media_type);
    lemma_ensured_item(manifest, requested_id, href, media_type);
    reveal_strlit("media-type");
    reveal_strlit("id");
    reveal_strlit("href");
    assert("id"@.len() != "media-type"@.len());
    assert("href"@.len() != "media-type"@.len());
    let item = element_at(manifest, k);
    match item_position(manifest.children, href, 0) {
        Some(k0) => {
            let with_id = if attr_of(item, "id"@) is None {
                with_attr(item, "id"@, unique_id_spec(manifest.children, requested_id))
            } else {
                item
            };
            lemma_attr_of_with_attr(with_id, "media-type"@, media_type, "media-type"@);
            lemma_item_position(manifest.children, href, 0);
            assert(k == k0);
            assert(listed.children[k0] == NodeView::Element(
                with_attr(with_id, "media-type"@, media_type),
            ));
        },
        None => {
            let uid = unique_id_spec(manifest.children, requested_id);
            let e0 = opf_element_spec(manifest, "item"@);
            let e1 = with_attr(e0, "id"@, uid);
            let e2 = with_attr(e1, "href"@, href);
            lemma_attr_of_with_attr(e2, "media-type"@, media_type, "media-type"@);
            assert(listed.children[k] == NodeView::Element(with_attr(e2, "media-type"@, media_type)));
        },
    }
    let found = element_at(listed, k);
    assert(attr_of(found, "media-type"@) == Some(media_type));
    assert(attr_of(found, "id"@) is Some);
    lemma_with_attr_same(found, "media-type"@, media_type);
    assert(listed.children.update(k, NodeView::Element(found)) =~= listed.children);
}

/// Law: asking for a child a second time changes nothing and gives the same
/// position.
pub proof fn lemma_child_once(parent: ElementView, name: Seq<char>, prepend: bool)
    ensures
        ({
            let (p, k) = ensured_child(parent, name, prepend);
            ensured_child(p, name, prepend) == (p, k)
        }),
{
    let (p, k) = ensured_child(parent, name, prepend);
    lemma_element_position(parent.children, name, 0);
    lemma_ensured_child(parent, name, prepend);
    if element_position(parent.children, name, 0) is None {
        assert forall|j: int| 0 <= j < k implies !is_named(#[trigger] p.children[j], name) by {
            if prepend {
            } else {
                assert(p.children[j] == parent.children[j]);
            }
        }
        lemma_element_position_at(p.children, name, 0, k);
    }
}

} // verus!
