//! The cover of a book: its image, its manifest item, a cover page, and the
//! references to them that reading systems look for.

use vstd::prelude::*;
use vstd::slice::slice_to_vec;
use vstd::string::StrSliceExecFns;
use vstd::utf8::encode_utf8;

use crate::archive::Archive;
use crate::epub::Error;

use crate::opf::{
    add_property, add_property_spec, ensure_child, ensure_manifest_item, ensured_child,
    ensured_item, epub3, find_item_by_href, has_property, is_epub3, lemma_same_name_replaced,
    has_property_spec, item_position, lemma_ensured_item, lemma_item_position, lemma_property_added,
    lemma_ensured_child, lemma_property_removed, opf_element, opf_element_spec, pick_position,
    properties_spec, remove_property, remove_property_spec, retain_children, retained, selects,
    starts_with, text_starts_with, unique_id, unique_id_spec, Pick, Selector,
};
use crate::paths::{
    dirname, dirname_spec, find_last, manifest_path, manifest_path_spec, relative_path,
    relative_path_spec,
};
use crate::text::{ascii_lower, chars_of, is_word, join, lower_ascii, str_eq, string_views};
use crate::xhtml::escape_attribute_spec;
use crate::xml::{
    attr_of, attribute, attribute_is, child_index, distinct_keys, element_at, element_position, element_view,
    is_named, lemma_attr_of_with_attr, lemma_element_position, lemma_element_position_at,
    lemma_node_views, node_view, node_views, prepend_node, push_node, put_element, replace_child,
    set_attribute, take_element, with_attr, with_children, ElementView, NodeView, XmlElement,
    XmlNode,
};

verus! {

// ---------------------------------------------------------------------------
// Images
// ---------------------------------------------------------------------------

/// The file extension and media type of an image.
pub struct ImageInfo {
    pub extension: &'static str,
    pub media_type: &'static str,
}

pub open spec fn starts_with_bytes(content: Seq<u8>, prefix: Seq<u8>) -> bool {
    content.len() >= prefix.len() && content.take(prefix.len() as int) == prefix
}

/// The extension and media type of a JPEG, PNG or GIF image, told by its
/// first bytes.
pub open spec fn image_kind(content: Seq<u8>) -> Option<(Seq<char>, Seq<char>)> {
    if starts_with_bytes(content, seq![0xffu8, 0xd8u8, 0xffu8]) {
        Some(("jpg"@, "image/jpeg"@))
    } else if starts_with_bytes(content, seq![137u8, 80u8, 78u8, 71u8, 13u8, 10u8, 26u8, 10u8]) {
        Some(("png"@, "image/png"@))
    } else if starts_with_bytes(content, seq![71u8, 73u8, 70u8, 56u8, 55u8, 97u8])
        || starts_with_bytes(content, seq![71u8, 73u8, 70u8, 56u8, 57u8, 97u8]) {
        Some(("gif"@, "image/gif"@))
    } else {
        None
    }
}

/// Whether `content` begins with `prefix`.
fn bytes_start(content: &[u8], prefix: &[u8]) -> (r: bool)
    ensures
        r == starts_with_bytes(content@, prefix@),
{
    if content.len() < prefix.len() {
        return false;
    }
    let mut i: usize = 0;
    while i < prefix.len()
        invariant
            content@.len() >= prefix@.len(),
            0 <= i <= prefix@.len(),
            forall|k: int| 0 <= k < i ==> content@[k] == prefix@[k],
        decreases prefix@.len() - i,
    {
        if content[i] != prefix[i] {
            assert(content@.take(prefix@.len() as int)[i as int] != prefix@[i as int]);
            return false;
        }
        i = i + 1;
    }
    assert(content@.take(prefix@.len() as int) =~= prefix@);
    true
}

/// The kind of image `content` holds, if it is a JPEG, PNG or GIF image.
pub fn detect_image(content: &[u8]) -> (r: Option<ImageInfo>)
    ensures
        match r {
            Some(info) => image_kind(content@) == Some((info.extension@, info.media_type@)),
            None => image_kind(content@) is None,
        },
{
    let jpeg: [u8; 3] = [0xff, 0xd8, 0xff];
    let png: [u8; 8] = [137, 80, 78, 71, 13, 10, 26, 10];
    let gif87: [u8; 6] = [71, 73, 70, 56, 55, 97];
    let gif89: [u8; 6] = [71, 73, 70, 56, 57, 97];
    assert(jpeg@ =~= seq![0xffu8, 0xd8u8, 0xffu8]);
    assert(png@ =~= seq![137u8, 80u8, 78u8, 71u8, 13u8, 10u8, 26u8, 10u8]);
    assert(gif87@ =~= seq![71u8, 73u8, 70u8, 56u8, 55u8, 97u8]);
    assert(gif89@ =~= seq![71u8, 73u8, 70u8, 56u8, 57u8, 97u8]);
    if bytes_start(content, jpeg.as_slice()) {
        Some(ImageInfo { extension: "jpg", media_type: "image/jpeg" })
    } else if bytes_start(content, png.as_slice()) {
        Some(ImageInfo { extension: "png", media_type: "image/png" })
    } else if bytes_start(content, gif87.as_slice()) || bytes_start(content, gif89.as_slice()) {
        Some(ImageInfo { extension: "gif", media_type: "image/gif" })
    } else {
        None
    }
}

// ---------------------------------------------------------------------------
// The cover page
// ---------------------------------------------------------------------------

pub open spec fn cover_page_head() -> Seq<char> {
    "<?xml version=\"1.0\" encoding=\"utf-8\"?>\n<!DOCTYPE html>\n<html xmlns=\"http://www.w3.org/1999/xhtml\" xmlns:epub=\"http://www.idpf.org/2007/ops\" lang=\"ru\" xml:lang=\"ru\">\n  <head>\n    <title>Cover</title>\n    <style type=\"text/css\">body{margin:0;padding:0;text-align:center}img{display:block;width:auto;height:auto;max-width:100%;max-height:100%;margin:auto}</style>\n  </head>\n  <body><div><img src=\""@
}

pub open spec fn cover_page_tail() -> Seq<char> {
    "\" alt=\"Cover\"/></div></body>\n</html>"@
}

/// The XHTML page that shows the cover image at `image_href`.
pub open spec fn cover_page_spec(image_href: Seq<char>) -> Seq<char> {
    cover_page_head() + escape_attribute_spec(image_href) + cover_page_tail()
}

/// `value` with `&`, `"`, `<` and `>` escaped for an attribute.
pub fn escape_attribute(value: &str) -> (r: String)
    ensures
        r@ == escape_attribute_spec(value@),
{
    let mut out = String::new();
    crate::xhtml::escape_attribute(value, &mut out);
    out
}

/// The XHTML page that shows the cover image at `image_href`.
pub fn cover_page(image_href: &str) -> (r: String)
    ensures
        r@ == cover_page_spec(image_href@),
{
    let mut page = String::from_str(
        "<?xml version=\"1.0\" encoding=\"utf-8\"?>\n<!DOCTYPE html>\n<html xmlns=\"http://www.w3.org/1999/xhtml\" xmlns:epub=\"http://www.idpf.org/2007/ops\" lang=\"ru\" xml:lang=\"ru\">\n  <head>\n    <title>Cover</title>\n    <style type=\"text/css\">body{margin:0;padding:0;text-align:center}img{display:block;width:auto;height:auto;max-width:100%;max-height:100%;margin:auto}</style>\n  </head>\n  <body><div><img src=\"",
    );
    let escaped = escape_attribute(image_href);
    page.append(escaped.as_str());
    page.append("\" alt=\"Cover\"/></div></body>\n</html>");
    page
}

// ---------------------------------------------------------------------------
// Finding the cover item
// ---------------------------------------------------------------------------

/// The `content` of the `<meta name="cover">` elements among `children`:
/// the identifiers of cover items in the older EPUB 2 way.
pub open spec fn legacy_ids_spec(children: Seq<NodeView>) -> Seq<Seq<char>>
    decreases children.len(),
{
    if children.len() == 0 {
        seq![]
    } else {
        let rest = legacy_ids_spec(children.drop_last());
        let node = children.last();
        if selects(Pick::NamedWith("meta"@, "name"@, "cover"@), node) && attr_of(
            node->Element_0,
            "content"@,
        ) is Some {
            rest.push(attr_of(node->Element_0, "content"@)->0)
        } else {
            rest
        }
    }
}

/// The identifiers that the metadata names as the cover's.
pub fn legacy_ids(metadata: &XmlElement) -> (r: Vec<String>)
    ensures
        string_views(r@) == legacy_ids_spec(element_view(*metadata).children),
{
    let ghost children = element_view(*metadata).children;
    proof {
        lemma_node_views(metadata.children@);
    }
    let mut ids: Vec<String> = Vec::new();
    let mut i: usize = 0;
    while i < metadata.children.len()
        invariant
            children == element_view(*metadata).children,
            children.len() == metadata.children@.len(),
            forall|k: int| 0 <= k < metadata.children@.len() ==> #[trigger] children[k] == node_view(
                metadata.children@[k],
            ),
            0 <= i <= metadata.children@.len(),
            string_views(ids@) == legacy_ids_spec(children.take(i as int)),
        decreases metadata.children@.len() - i,
    {
        assert(children.take(i + 1).drop_last() =~= children.take(i as int));
        assert(children.take(i + 1).last() == children[i as int]);
        if let XmlNode::Element(e) = &metadata.children[i] {
            if str_eq(e.name.as_str(), "meta") && attribute_is(e, "name", "cover") {
                if let Some(content) = attribute(e, "content") {
                    let ghost before = string_views(ids@);
                    ids.push(content.clone());
                    assert(string_views(ids@) =~= before.push(content@));
                }
            }
        }
        i = i + 1;
    }
    assert(children.take(children.len() as int) =~= children);
    ids
}

/// The last part of a path, after its last `/`.
pub open spec fn basename(path: Seq<char>) -> Seq<char> {
    match find_last(path, '/') {
        Some(p) => path.skip(p + 1),
        None => path,
    }
}

pub open spec fn lowercase(s: Seq<char>) -> Seq<char> {
    s.map_values(|c: char| ascii_lower(c))
}

/// The three ways of finding the cover item, tried in turn: the item marked
/// with the `cover-image` property; an item whose `id` the metadata names;
/// an image item whose file name begins with `cover.`.
pub open spec fn cover_test(test: int, legacy: Seq<Seq<char>>, node: NodeView) -> bool {
    &&& is_named(node, "item"@)
    &&& if test == 0 {
        has_property_spec(node->Element_0, "cover-image"@)
    } else if test == 1 {
        attr_of(node->Element_0, "id"@) matches Some(id) && legacy.contains(id)
    } else {
        let href = match attr_of(node->Element_0, "href"@) {
            Some(h) => h,
            None => seq![],
        };
        &&& starts_with(lowercase(basename(href)), "cover."@)
        &&& attr_of(node->Element_0, "media-type"@) matches Some(m) && starts_with(m, "image/"@)
    }
}

/// The position of the first of `children` from `i` on that passes `test`.
pub open spec fn test_position(children: Seq<NodeView>, test: int, legacy: Seq<Seq<char>>, i: int) -> Option<
    int,
>
    decreases children.len() - i,
{
    if i < 0 || i >= children.len() {
        None
    } else if cover_test(test, legacy, children[i]) {
        Some(i)
    } else {
        test_position(children, test, legacy, i + 1)
    }
}

pub proof fn lemma_test_position(children: Seq<NodeView>, test: int, legacy: Seq<Seq<char>>, i: int)
    requires
        0 <= i,
    ensures
        test_position(children, test, legacy, i) matches Some(k) ==> i <= k < children.len()
            && cover_test(test, legacy, children[k]),
    decreases children.len() - i,
{
    if i < children.len() {
        lemma_test_position(children, test, legacy, i + 1);
    }
}

/// The position of the cover item among the children of `manifest`.
pub open spec fn cover_item_position(manifest: ElementView, legacy: Seq<Seq<char>>) -> Option<int> {
    match test_position(manifest.children, 0, legacy, 0) {
        Some(k) => Some(k),
        None => match test_position(manifest.children, 1, legacy, 0) {
            Some(k) => Some(k),
            None => test_position(manifest.children, 2, legacy, 0),
        },
    }
}

/// Whether `s` lowercased begins with `prefix` (which is lowercase).
fn lower_starts_with(s: &[char], from: usize, prefix: &str) -> (r: bool)
    requires
        from <= s@.len(),
    ensures
        r == starts_with(lowercase(s@.skip(from as int)), prefix@),
{
    let p = chars_of(prefix);
    let ghost rest = s@.skip(from as int);
    let n = s.len();
    if s.len() - from < p.len() {
        return false;
    }
    let mut i: usize = 0;
    while i < p.len()
        invariant
            p@ == prefix@,
            rest == s@.skip(from as int),
            from <= s@.len(),
            s@.len() - from >= p@.len(),
            s@.len() == n,
            0 <= i <= p@.len(),
            forall|k: int| 0 <= k < i ==> lowercase(rest)[k] == p@[k],
        decreases p@.len() - i,
    {
        if lower_ascii(s[from + i]) != p[i] {
            assert(lowercase(rest).take(p@.len() as int)[i as int] != prefix@[i as int]);
            return false;
        }
        i = i + 1;
    }
    assert(lowercase(rest).take(p@.len() as int) =~= prefix@);
    true
}

/// Whether `node` passes the cover test `test`.
fn passes_cover_test(test: u8, legacy: &Vec<String>, node: &XmlNode) -> (r: bool)
    requires
        test <= 2,
    ensures
        r == cover_test(test as int, string_views(legacy@), node_view(*node)),
{
    let e = match node {
        XmlNode::Element(e) => e,
        _ => {
            return false;
        },
    };
    if !str_eq(e.name.as_str(), "item") {
        return false;
    }
    if test == 0 {
        has_property(e, "cover-image")
    } else if test == 1 {
        match attribute(e, "id") {
            Some(id) => {
                let ghost views = string_views(legacy@);
                let mut i: usize = 0;
                while i < legacy.len()
                    invariant
                        views == string_views(legacy@),
                        test == 1,
                        node_view(*node) == NodeView::Element(element_view(*e)),
                        e.name@ == "item"@,
                        attr_of(element_view(*e), "id"@) == Some(id@),
                        0 <= i <= legacy@.len(),
                        forall|k: int| 0 <= k < i ==> views[k] != id@,
                    decreases legacy@.len() - i,
                {
                    if str_eq(legacy[i].as_str(), id.as_str()) {
                        assert(views[i as int] == id@);
                        assert(views.contains(id@));
                        return true;
                    }
                    i = i + 1;
                }
                false
            },
            None => false,
        }
    } else {
        let href: &str = match attribute(e, "href") {
            Some(h) => h.as_str(),
            None => "",
        };
        proof {
            reveal_strlit("");
            assert(""@ =~= Seq::<char>::empty());
        }
        let v = chars_of(href);
        let mut start = v.len();
        assert(v@.take(v@.len() as int) =~= v@);
        while start > 0 && v[start - 1] != '/'
            invariant
                v@ == href@,
                0 <= start <= v@.len(),
                find_last(v@, '/') == find_last(v@.take(start as int), '/'),
            decreases start,
        {
            assert(v@.take(start as int).drop_last() =~= v@.take(start - 1));
            start = start - 1;
        }
        proof {
            if start == 0 {
                assert(v@.take(0) =~= Seq::<char>::empty());
                assert(v@.skip(0) =~= v@);
            } else {
                assert(find_last(v@.take(start as int), '/') == Some(start - 1));
            }
        }
        lower_starts_with(v.as_slice(), start, "cover.") && match attribute(e, "media-type") {
            Some(m) => text_starts_with(m.as_str(), "image/"),
            None => false,
        }
    }
}

/// The position of the first child of `manifest` that passes `test`.
fn first_passing(manifest: &XmlElement, test: u8, legacy: &Vec<String>) -> (r: Option<usize>)
    requires
        test <= 2,
    ensures
        match r {
            Some(k) => test_position(
                element_view(*manifest).children,
                test as int,
                string_views(legacy@),
                0,
            ) == Some(k as int),
            None => test_position(
                element_view(*manifest).children,
                test as int,
                string_views(legacy@),
                0,
            ) is None,
        },
{
    let ghost children = element_view(*manifest).children;
    proof {
        lemma_node_views(manifest.children@);
    }
    let mut i: usize = 0;
    while i < manifest.children.len()
        invariant
            test <= 2,
            children == element_view(*manifest).children,
            children.len() == manifest.children@.len(),
            forall|k: int| 0 <= k < manifest.children@.len() ==> #[trigger] children[k] == node_view(
                manifest.children@[k],
            ),
            0 <= i <= manifest.children@.len(),
            test_position(children, test as int, string_views(legacy@), 0) == test_position(
                children,
                test as int,
                string_views(legacy@),
                i as int,
            ),
        decreases manifest.children@.len() - i,
    {
        if passes_cover_test(test, legacy, &manifest.children[i]) {
            return Some(i);
        }
        i = i + 1;
    }
    None
}

/// The position of the cover item in `manifest`, found by the names that
/// `legacy_ids` gives.
pub fn find_cover_item(manifest: &XmlElement, legacy_ids: &Vec<String>) -> (r: Option<usize>)
    ensures
        match r {
            Some(k) => cover_item_position(element_view(*manifest), string_views(legacy_ids@))
                == Some(k as int),
            None => cover_item_position(element_view(*manifest), string_views(legacy_ids@)) is None,
        },
{
    match first_passing(manifest, 0, legacy_ids) {
        Some(k) => Some(k),
        None => match first_passing(manifest, 1, legacy_ids) {
            Some(k) => Some(k),
            None => first_passing(manifest, 2, legacy_ids),
        },
    }
}


// ---------------------------------------------------------------------------
// Marking the cover
// ---------------------------------------------------------------------------

/// An item without the `cover-image` property; other nodes as they are.
pub open spec fn unmarked(node: NodeView) -> NodeView {
    if is_named(node, "item"@) {
        NodeView::Element(remove_property_spec(node->Element_0, "cover-image"@))
    } else {
        node
    }
}

pub open spec fn unmark_all(children: Seq<NodeView>) -> Seq<NodeView> {
    children.map_values(|node: NodeView| unmarked(node))
}

/// The manifest with the item at `i` as the only one marked as the cover
/// (for EPUB 3) and given an `id` if it has none, and with an item for the
/// cover page; and the identifiers of the cover item and of the cover page.
pub open spec fn cover_manifest(manifest: ElementView, i: int, epub3: bool) -> (ElementView, Seq<char>, Seq<char>) {
    let m1 = with_children(manifest, unmark_all(manifest.children));
    let item = element_at(m1, i);
    let with_id = if attr_of(item, "id"@) is None {
        with_attr(item, "id"@, unique_id_spec(m1.children, "yaebook-cover-image"@))
    } else {
        item
    };
    let marked = if epub3 {
        add_property_spec(with_id, "cover-image"@)
    } else {
        with_id
    };
    let m2 = replace_child(m1, i, marked);
    let (m3, j) = ensured_item(
        m2,
        "yaebook-cover-page"@,
        "Text/cover.xhtml"@,
        "application/xhtml+xml"@,
    );
    (m3, attr_of(marked, "id"@)->0, attr_of(element_at(m3, j), "id"@)->0)
}

/// Takes the `cover-image` property from every item of `manifest`.
fn unmark_items(manifest: &mut XmlElement)
    ensures
        element_view(*final(manifest)) == with_children(
            element_view(*old(manifest)),
            unmark_all(element_view(*old(manifest)).children),
        ),
{
    let ghost before_edit = element_view(*manifest).children;
    proof {
        lemma_node_views(manifest.children@);
        assert(unmark_all(before_edit).take(0) + before_edit.skip(0) =~= before_edit);
    }
    let mut i: usize = 0;
    while i < manifest.children.len()
        invariant
            0 <= i <= manifest.children@.len(),
            before_edit.len() == manifest.children@.len(),
            element_view(*manifest) == with_children(
                element_view(*old(manifest)),
                unmark_all(before_edit).take(i as int) + before_edit.skip(i as int),
            ),
            before_edit == element_view(*old(manifest)).children,
        decreases manifest.children@.len() - i,
    {
        let ghost current = element_view(*manifest).children;
        proof {
            lemma_node_views(manifest.children@);
            assert(current[i as int] == before_edit[i as int]);
        }
        let is_item = match &manifest.children[i] {
            XmlNode::Element(e) => str_eq(e.name.as_str(), "item"),
            _ => false,
        };
        if is_item {
            let mut item = take_element(manifest, i);
            remove_property(&mut item, "cover-image");
            proof {
                lemma_node_views(manifest.children@);
            }
            put_element(manifest, i, item);
        }
        proof {
            lemma_node_views(manifest.children@);
            assert(element_view(*manifest).children =~= unmark_all(before_edit).take(i + 1)
                + before_edit.skip(i + 1));
        }
        i = i + 1;
    }
    assert(unmark_all(before_edit).take(i as int) + before_edit.skip(i as int) =~= unmark_all(before_edit));
}

/// Marks the item at `index` as the cover and adds the cover page to the
/// manifest; gives the identifiers of the cover item and of the cover page.
pub fn mark_cover_item(manifest: &mut XmlElement, index: usize, epub3: bool) -> (r: (String, String))
    requires
        index < old(manifest).children@.len(),
        is_named(element_view(*old(manifest)).children[index as int], "item"@),
    ensures
        (element_view(*final(manifest)), r.0@, r.1@) == cover_manifest(
            element_view(*old(manifest)),
            index as int,
            epub3,
        ),
{
    let ghost m0 = element_view(*manifest);
    proof {
        lemma_node_views(manifest.children@);
    }
    unmark_items(manifest);
    let ghost m1 = element_view(*manifest);
    proof {
        lemma_node_views(manifest.children@);
        assert(m1.children[index as int] == unmarked(m0.children[index as int]));
    }
    let mut item = take_element(manifest, index);
    let ghost item0 = element_view(item);
    if attribute(&item, "id").is_none() {
        proof {
            crate::opf::lemma_used_ids_remove(m1.children, index as int);
        }
        let id = unique_id(manifest, "yaebook-cover-image");
        set_attribute(&mut item, "id", id);
    }
    let ghost with_id = element_view(item);
    proof {
        reveal_strlit("id");
        reveal_strlit("properties");
        assert("id"@.len() != "properties"@.len());
        lemma_attr_of_with_attr(item0, "id"@, unique_id_spec(m1.children, "yaebook-cover-image"@), "id"@);
        lemma_attr_of_with_attr(
            with_id,
            "properties"@,
            join(
                if properties_spec(with_id).contains("cover-image"@) {
                    properties_spec(with_id)
                } else {
                    properties_spec(with_id).push("cover-image"@)
                },
                " "@,
            ),
            "id"@,
        );
    }
    if epub3 {
        add_property(&mut item, "cover-image");
    }
    let cover_id = match attribute(&item, "id") {
        Some(id) => id.clone(),
        None => {
            proof {
                assert(false);
            }
            String::new()
        },
    };
    proof {
        lemma_node_views(manifest.children@);
    }
    let ghost marked = element_view(item);
    put_element(manifest, index, item);
    let ghost m2 = element_view(*manifest);
    assert(m2.children =~= m1.children.update(index as int, NodeView::Element(marked)));
    let j = ensure_manifest_item(
        manifest,
        "yaebook-cover-page",
        "Text/cover.xhtml",
        "application/xhtml+xml",
    );
    proof {
        lemma_ensured_item(m2, "yaebook-cover-page"@, "Text/cover.xhtml"@, "application/xhtml+xml"@);
        lemma_node_views(manifest.children@);
    }
    let page_id = match &manifest.children[j] {
        XmlNode::Element(page) => match attribute(page, "id") {
            Some(id) => id.clone(),
            None => {
                proof {
                    assert(false);
                }
                String::new()
            },
        },
        _ => {
            proof {
                assert(false);
            }
            String::new()
        },
    };
    (cover_id, page_id)
}

/// A manifest item that carries the `cover-image` property.
pub open spec fn marked_as_cover(node: NodeView) -> bool {
    is_named(node, "item"@) && has_property_spec(node->Element_0, "cover-image"@)
}

/// Setting an attribute other than `properties` leaves the properties alone.
proof fn lemma_properties_kept(e: ElementView, key: Seq<char>, value: Seq<char>)
    requires
        key != "properties"@,
    ensures
        properties_spec(with_attr(e, key, value)) == properties_spec(e),
        with_attr(e, key, value).name == e.name,
{
    lemma_attr_of_with_attr(e, key, value, "properties"@);
}

/// Law: in an EPUB 3 package, once the cover is marked, the chosen item is
/// the one item of the manifest with the `cover-image` property (the
/// attributes of each element named once each, as in a package that was
/// read).
pub proof fn lemma_single_cover_item(manifest: ElementView, i: int)
    requires
        0 <= i < manifest.children.len(),
        is_named(manifest.children[i], "item"@),
        forall|k: int|
            0 <= k < manifest.children.len() && (#[trigger] manifest.children[k]) is Element
                ==> distinct_keys(manifest.children[k]->Element_0.attributes),
    ensures
        ({
            let m = cover_manifest(manifest, i, true).0;
            forall|k: int| 0 <= k < m.children.len() ==> (marked_as_cover(#[trigger] m.children[k]) <==> k == i)
        }),
{
    reveal_strlit("id");
    reveal_strlit("properties");
    reveal_strlit("media-type");
    reveal_strlit("cover-image");
    assert("id"@.len() != "properties"@.len());
    assert("media-type"@[0] != "properties"@[0]);
    assert(is_word("cover-image"@));
    let m1 = with_children(manifest, unmark_all(manifest.children));
    assert forall|k: int| 0 <= k < m1.children.len() implies !marked_as_cover(#[trigger] m1.children[k]) by {
        let node = manifest.children[k];
        if is_named(node, "item"@) {
            lemma_property_removed(node->Element_0, "cover-image"@);
        }
    }
    let item = element_at(m1, i);
    let with_id = if attr_of(item, "id"@) is None {
        with_attr(item, "id"@, unique_id_spec(m1.children, "yaebook-cover-image"@))
    } else {
        item
    };
    lemma_properties_kept(item, "id"@, unique_id_spec(m1.children, "yaebook-cover-image"@));
    let marked = add_property_spec(with_id, "cover-image"@);
    lemma_property_added(with_id, "cover-image"@);
    let m2 = replace_child(m1, i, marked);
    assert(marked_as_cover(m2.children[i]));
    assert forall|k: int| 0 <= k < m2.children.len() implies (marked_as_cover(#[trigger] m2.children[k])
        <==> k == i) by {
        if k != i {
            assert(m2.children[k] == m1.children[k]);
        }
    }
    let (m3, j) = ensured_item(m2, "yaebook-cover-page"@, "Text/cover.xhtml"@, "application/xhtml+xml"@);
    assert(m3 == cover_manifest(manifest, i, true).0);
    lemma_ensured_item(m2, "yaebook-cover-page"@, "Text/cover.xhtml"@, "application/xhtml+xml"@);
    match item_position(m2.children, "Text/cover.xhtml"@, 0) {
        Some(k0) => {
            lemma_item_position(m2.children, "Text/cover.xhtml"@, 0);
            let old_item = element_at(m2, k0);
            let uid = unique_id_spec(m2.children, "yaebook-cover-page"@);
            let with_page_id = if attr_of(old_item, "id"@) is None {
                with_attr(old_item, "id"@, uid)
            } else {
                old_item
            };
            lemma_properties_kept(old_item, "id"@, uid);
            lemma_properties_kept(with_page_id, "media-type"@, "application/xhtml+xml"@);
            assert(m3.children[k0] == NodeView::Element(
                with_attr(with_page_id, "media-type"@, "application/xhtml+xml"@),
            ));
            assert(marked_as_cover(m3.children[k0]) == marked_as_cover(m2.children[k0]));
            assert(m3.children.len() == m2.children.len());
        },
        None => {
            let uid = unique_id_spec(m2.children, "yaebook-cover-page"@);
            let e0 = opf_element_spec(m2, "item"@);
            let e1 = with_attr(e0, "id"@, uid);
            let e2 = with_attr(e1, "href"@, "Text/cover.xhtml"@);
            reveal_strlit("href");
            assert("href"@.len() != "properties"@.len());
            lemma_properties_kept(e0, "id"@, uid);
            lemma_properties_kept(e1, "href"@, "Text/cover.xhtml"@);
            lemma_properties_kept(e2, "media-type"@, "application/xhtml+xml"@);
            assert(properties_spec(e0) =~= Seq::<Seq<char>>::empty());
            assert(m3.children[j] == NodeView::Element(
                with_attr(e2, "media-type"@, "application/xhtml+xml"@),
            ));
            assert(!marked_as_cover(m3.children[j]));
        },
    }
}

/// The metadata with one `<meta name="cover">` element, for `cover_id`,
/// added last in place of any others.
pub open spec fn cover_meta(metadata: ElementView, cover_id: Seq<char>) -> ElementView {
    let kept = retained(metadata.children, Pick::NamedWith("meta"@, "name"@, "cover"@));
    with_children(
        metadata,
        kept.push(
            NodeView::Element(
                with_attr(
                    with_attr(opf_element_spec(metadata, "meta"@), "name"@, "cover"@),
                    "content"@,
                    cover_id,
                ),
            ),
        ),
    )
}

/// The spine with the cover page first, and not again further on.
pub open spec fn spine_with_cover(spine: ElementView, page_id: Seq<char>) -> ElementView {
    let kept = retained(spine.children, Pick::NamedWith("itemref"@, "idref"@, page_id));
    with_children(
        spine,
        kept.insert(
            0,
            NodeView::Element(with_attr(opf_element_spec(spine, "itemref"@), "idref"@, page_id)),
        ),
    )
}

/// The guide with one cover reference, to the cover page, added last in
/// place of any others.
pub open spec fn guide_with_cover(guide: ElementView) -> ElementView {
    let kept = retained(guide.children, Pick::NamedWith("reference"@, "type"@, "cover"@));
    with_children(
        guide,
        kept.push(
            NodeView::Element(
                with_attr(
                    with_attr(
                        with_attr(opf_element_spec(guide, "reference"@), "type"@, "cover"@),
                        "title"@,
                        "Cover"@,
                    ),
                    "href"@,
                    "Text/cover.xhtml"@,
                ),
            ),
        ),
    )
}

fn add_cover_meta(metadata: &mut XmlElement, cover_id: String)
    ensures
        element_view(*final(metadata)) == cover_meta(element_view(*old(metadata)), cover_id@),
{
    let sel = Selector::NamedWith(
        String::from_str("meta"),
        String::from_str("name"),
        String::from_str("cover"),
    );
    retain_children(metadata, &sel);
    let mut meta = opf_element(metadata, "meta");
    set_attribute(&mut meta, "name", String::from_str("cover"));
    set_attribute(&mut meta, "content", cover_id);
    push_node(metadata, XmlNode::Element(meta));
}

fn add_cover_to_spine(spine: &mut XmlElement, page_id: String)
    ensures
        element_view(*final(spine)) == spine_with_cover(element_view(*old(spine)), page_id@),
{
    let sel = Selector::NamedWith(
        String::from_str("itemref"),
        String::from_str("idref"),
        page_id.clone(),
    );
    retain_children(spine, &sel);
    let mut reference = opf_element(spine, "itemref");
    set_attribute(&mut reference, "idref", page_id);
    prepend_node(spine, XmlNode::Element(reference));
}

fn add_cover_to_guide(guide: &mut XmlElement)
    ensures
        element_view(*final(guide)) == guide_with_cover(element_view(*old(guide))),
{
    let sel = Selector::NamedWith(
        String::from_str("reference"),
        String::from_str("type"),
        String::from_str("cover"),
    );
    retain_children(guide, &sel);
    let mut reference = opf_element(guide, "reference");
    set_attribute(&mut reference, "type", String::from_str("cover"));
    set_attribute(&mut reference, "title", String::from_str("Cover"));
    set_attribute(&mut reference, "href", String::from_str("Text/cover.xhtml"));
    push_node(guide, XmlNode::Element(reference));
}


// ---------------------------------------------------------------------------
// Adding the cover
// ---------------------------------------------------------------------------

pub open spec fn opt_bytes(cover: Option<&[u8]>) -> Option<Seq<u8>> {
    match cover {
        Some(c) => Some(c@),
        None => None,
    }
}

/// What is taken as the cover: its `href`, the manifest once the image is
/// listed, the position of the cover item, and the files once the image is
/// stored. A JPEG, PNG or GIF image given as `cover` is stored as
/// `Images/cover.<ext>` and listed in the cover item found (or a new one);
/// without one, the cover item found is kept if its file is there. None when
/// there is no cover.
pub open spec fn cover_source(
    manifest: ElementView,
    legacy: Seq<Seq<char>>,
    contents: Map<Seq<char>, Seq<u8>>,
    opf_name: Seq<char>,
    cover: Option<Seq<u8>>,
) -> Option<(Seq<char>, ElementView, int, Map<Seq<char>, Seq<u8>>)> {
    let found = cover_item_position(manifest, legacy);
    let image = match cover {
        Some(c) => image_kind(c),
        None => None,
    };
    if cover is Some && image is Some {
        let (ext, media) = image->0;
        let href = "Images/cover."@ + ext;
        let stored = contents.insert(manifest_path_spec(opf_name, href), cover->0);
        match found {
            Some(i) => Some(
                (
                    href,
                    replace_child(
                        manifest,
                        i,
                        with_attr(
                            with_attr(element_at(manifest, i), "href"@, href),
                            "media-type"@,
                            media,
                        ),
                    ),
                    i,
                    stored,
                ),
            ),
            None => {
                let (m, k) = ensured_item(manifest, "yaebook-cover-image"@, href, media);
                Some((href, m, k, stored))
            },
        }
    } else {
        match found {
            Some(i) => match attr_of(element_at(manifest, i), "href"@) {
                Some(h) => if contents.contains_key(manifest_path_spec(opf_name, h)) {
                    Some((h, manifest, i, contents))
                } else {
                    None
                },
                None => None,
            },
            None => None,
        }
    }
}

/// The package and files with the cover in place: the cover item marked and
/// listed in the metadata, a cover page stored, first in the spine, and
/// referenced from the guide. Unchanged when there is no cover; none when
/// the package has no metadata or no manifest.
pub open spec fn covered(
    package: ElementView,
    contents: Map<Seq<char>, Seq<u8>>,
    opf_name: Seq<char>,
    cover: Option<Seq<u8>>,
) -> Option<(ElementView, Map<Seq<char>, Seq<u8>>)> {
    match element_position(package.children, "metadata"@, 0) {
        None => None,
        Some(mi) => match element_position(package.children, "manifest"@, 0) {
            None => None,
            Some(ni) => {
                let metadata = element_at(package, mi);
                let manifest = element_at(package, ni);
                match cover_source(
                    manifest,
                    legacy_ids_spec(metadata.children),
                    contents,
                    opf_name,
                    cover,
                ) {
                    None => Some((package, contents)),
                    Some(source) => {
                        let (href, manifest1, i, stored) = source;
                        Some(
                            placed(
                                replace_child(package, ni, manifest1),
                                stored,
                                opf_name,
                                mi,
                                ni,
                                href,
                                i,
                            ),
                        )
                    },
                }
            },
        },
    }
}

/// Whether there is no cover to place: the package has its metadata and
/// manifest, but no usable cover is given and no cover item names a file
/// of the archive.
pub open spec fn without_cover(
    package: ElementView,
    contents: Map<Seq<char>, Seq<u8>>,
    opf_name: Seq<char>,
    cover: Option<Seq<u8>>,
) -> bool {
    match element_position(package.children, "metadata"@, 0) {
        None => false,
        Some(mi) => match element_position(package.children, "manifest"@, 0) {
            None => false,
            Some(ni) => cover_source(
                element_at(package, ni),
                legacy_ids_spec(element_at(package, mi).children),
                contents,
                opf_name,
                cover,
            ) is None,
        },
    }
}

/// No child before the first of a name has that name.
proof fn lemma_position_first(children: Seq<NodeView>, name: Seq<char>, i: int)
    requires
        0 <= i,
        element_position(children, name, i) is Some,
    ensures
        forall|j: int|
            i <= j < element_position(children, name, i)->0 ==> !is_named(#[trigger] children[j], name),
    decreases children.len() - i,
{
    if i < children.len() && !is_named(children[i], name) {
        lemma_position_first(children, name, i + 1);
    }
}

/// Appending a child leaves the first child of a name where it was.
proof fn lemma_position_after_push(children: Seq<NodeView>, x: NodeView, name: Seq<char>)
    requires
        element_position(children, name, 0) is Some,
    ensures
        element_position(children.push(x), name, 0) == element_position(children, name, 0),
{
    lemma_element_position(children, name, 0);
    lemma_position_first(children, name, 0);
    let k = element_position(children, name, 0)->0;
    assert forall|j: int| 0 <= j < k implies !is_named(#[trigger] children.push(x)[j], name) by {
        assert(children.push(x)[j] == children[j]);
    }
    assert(children.push(x)[k] == children[k]);
    lemma_element_position_at(children.push(x), name, 0, k);
}

/// The first `spine` of a package once the cover is referenced: the spine
/// that the package had, or a new one, with an `itemref` to the cover page
/// first.
proof fn lemma_spine_first(package: ElementView, page_id: Seq<char>)
    ensures
        ({
            let p = with_cover_referenced(package, page_id);
            &&& element_position(p.children, "spine"@, 0) matches Some(si) && {
                let first = element_at(p, si).children[0];
                &&& element_at(p, si).children.len() > 0
                &&& is_named(first, "itemref"@)
                &&& attr_of(first->Element_0, "idref"@) == Some(page_id)
            }
        }),
{
    reveal_strlit("spine");
    reveal_strlit("guide");
    reveal_strlit("itemref");
    reveal_strlit("idref");
    assert("spine"@ != "guide"@) by {
        assert("spine"@[0] != "guide"@[0]);
    }
    let (p3, si) = ensured_child(package, "spine"@, false);
    lemma_ensured_child(package, "spine"@, false);
    lemma_element_position(package.children, "spine"@, 0);
    assert(element_position(p3.children, "spine"@, 0) == Some(si)) by {
        if element_position(package.children, "spine"@, 0) is None {
            assert forall|j: int| 0 <= j < si implies !is_named(#[trigger] p3.children[j], "spine"@) by {
                assert(p3.children[j] == package.children[j]);
            }
            lemma_element_position_at(p3.children, "spine"@, 0, si);
        }
    }
    let spine = spine_with_cover(element_at(p3, si), page_id);
    let p4 = replace_child(p3, si, spine);
    lemma_same_name_replaced(p3.children, si, spine, "spine"@, 0);
    let (p5, gi) = ensured_child(p4, "guide"@, false);
    lemma_ensured_child(p4, "guide"@, false);
    if element_position(p4.children, "guide"@, 0) is None {
        lemma_position_after_push(p4.children, NodeView::Element(opf_element_spec(p4, "guide"@)), "spine"@);
    }
    assert(element_position(p5.children, "spine"@, 0) == Some(si));
    assert(gi != si);
    let guide = guide_with_cover(element_at(p5, gi));
    let p = replace_child(p5, gi, guide);
    lemma_same_name_replaced(p5.children, gi, guide, "spine"@, 0);
    assert(p == with_cover_referenced(package, page_id));
    assert(p.children[si] == p5.children[si]);
    assert(p5.children[si] == p4.children[si]);
    let itemref = with_attr(opf_element_spec(element_at(p3, si), "itemref"@), "idref"@, page_id);
    assert(element_at(p, si) == spine);
    assert(spine.children[0] == NodeView::Element(itemref));
    lemma_attr_of_with_attr(opf_element_spec(element_at(p3, si), "itemref"@), "idref"@, page_id, "idref"@);
}

/// Law: without a usable cover image, a cover item whose file is in the
/// archive is made the cover: a cover page that shows that file is stored,
/// and an `itemref` to the cover page comes first in the spine.
pub proof fn lemma_existing_cover_kept(
    package: ElementView,
    contents: Map<Seq<char>, Seq<u8>>,
    opf_name: Seq<char>,
    cover: Option<Seq<u8>>,
    mi: int,
    ni: int,
    i: int,
    href: Seq<char>,
)
    requires
        element_position(package.children, "metadata"@, 0) == Some(mi),
        element_position(package.children, "manifest"@, 0) == Some(ni),
        cover matches Some(bytes) ==> image_kind(bytes) is None,
        cover_item_position(
            element_at(package, ni),
            legacy_ids_spec(element_at(package, mi).children),
        ) == Some(i),
        attr_of(element_at(element_at(package, ni), i), "href"@) == Some(href),
        contents.contains_key(manifest_path_spec(opf_name, href)),
    ensures
        ({
            let page_path = manifest_path_spec(opf_name, "Text/cover.xhtml"@);
            let r = covered(package, contents, opf_name, cover);
            let out = r->0;
            let p = out.0;
            let files = out.1;
            &&& r is Some
            &&& files.contains_key(page_path)
            &&& files[page_path] == encode_utf8(
                cover_page_spec(
                    relative_path_spec(dirname_spec(page_path), manifest_path_spec(opf_name, href)),
                ),
            )
            &&& element_position(p.children, "spine"@, 0) matches Some(si) && {
                let first = element_at(p, si).children[0];
                &&& element_at(p, si).children.len() > 0
                &&& is_named(first, "itemref"@)
                &&& attr_of(first->Element_0, "idref"@) is Some
            }
        }),
{
    let manifest = element_at(package, ni);
    lemma_element_position(package.children, "manifest"@, 0);
    assert(replace_child(package, ni, manifest).children =~= package.children);
    assert(replace_child(package, ni, manifest) == package);
    let (p2, page_id) = with_cover_listed(package, mi, ni, i);
    lemma_spine_first(p2, page_id);
}

/// The package with its manifest (at `ni`) marking the item at `i` as the
/// cover and listing the cover page, and its metadata (at `mi`) naming the
/// cover item; and the identifier of the cover page.
pub open spec fn with_cover_listed(package: ElementView, mi: int, ni: int, i: int) -> (ElementView, Seq<char>) {
    let (manifest2, cover_id, page_id) = cover_manifest(element_at(package, ni), i, is_epub3(package));
    let p1 = replace_child(package, ni, manifest2);
    (replace_child(p1, mi, cover_meta(element_at(p1, mi), cover_id)), page_id)
}

/// The package with the cover page first in its spine and referenced from
/// its guide.
pub open spec fn with_cover_referenced(package: ElementView, page_id: Seq<char>) -> ElementView {
    let (p3, si) = ensured_child(package, "spine"@, false);
    let p4 = replace_child(p3, si, spine_with_cover(element_at(p3, si), page_id));
    let (p5, gi) = ensured_child(p4, "guide"@, false);
    replace_child(p5, gi, guide_with_cover(element_at(p5, gi)))
}

/// Where the cover page goes, and its bytes, for a cover image at `href`.
pub open spec fn cover_page_file(opf_name: Seq<char>, href: Seq<char>) -> (Seq<char>, Seq<u8>) {
    let page_path = manifest_path_spec(opf_name, "Text/cover.xhtml"@);
    let image_href = relative_path_spec(dirname_spec(page_path), manifest_path_spec(opf_name, href));
    (page_path, encode_utf8(cover_page_spec(image_href)))
}

/// The package (its metadata at `mi`, its manifest at `ni` with the cover
/// item at `i`) and the files once the cover at `href` is put in place.
pub open spec fn placed(
    package: ElementView,
    contents: Map<Seq<char>, Seq<u8>>,
    opf_name: Seq<char>,
    mi: int,
    ni: int,
    href: Seq<char>,
    i: int,
) -> (ElementView, Map<Seq<char>, Seq<u8>>) {
    let (p2, page_id) = with_cover_listed(package, mi, ni, i);
    let (page_path, page) = cover_page_file(opf_name, href);
    (with_cover_referenced(p2, page_id), contents.insert(page_path, page))
}

fn list_cover(package: &mut XmlElement, mi: usize, ni: usize, i: usize) -> (r: String)
    requires
        element_position(element_view(*old(package)).children, "metadata"@, 0) == Some(mi as int),
        mi != ni,
        ni < old(package).children@.len(),
        element_view(*old(package)).children[ni as int] is Element,
        0 <= i < element_at(element_view(*old(package)), ni as int).children.len(),
        is_named(element_at(element_view(*old(package)), ni as int).children[i as int], "item"@),
    ensures
        with_cover_listed(element_view(*old(package)), mi as int, ni as int, i as int) == (
            element_view(*final(package)),
            r@,
        ),
{
    let ghost p0 = element_view(*package);
    proof {
        lemma_node_views(package.children@);
        lemma_element_position(p0.children, "metadata"@, 0);
    }
    let is3 = epub3(package);
    let mut manifest = take_element(package, ni);
    proof {
        lemma_node_views(manifest.children@);
    }
    let (cover_id, page_id) = mark_cover_item(&mut manifest, i, is3);
    let ghost manifest2 = element_view(manifest);
    proof {
        lemma_node_views(package.children@);
    }
    put_element(package, ni, manifest);
    let ghost p1 = element_view(*package);
    proof {
        assert(p1.children =~= p0.children.update(ni as int, NodeView::Element(manifest2)));
        lemma_node_views(package.children@);
        assert(p1.children[mi as int] == p0.children[mi as int]);
        assert(node_view(package.children@[mi as int]) is Element);
    }
    let mut metadata = take_element(package, mi);
    add_cover_meta(&mut metadata, cover_id);
    let ghost meta2 = element_view(metadata);
    proof {
        lemma_node_views(package.children@);
    }
    put_element(package, mi, metadata);
    assert(element_view(*package).children =~= p1.children.update(mi as int, NodeView::Element(meta2)));
    page_id
}

fn reference_cover(package: &mut XmlElement, page_id: String)
    ensures
        element_view(*final(package)) == with_cover_referenced(element_view(*old(package)), page_id@),
{
    let si = ensure_child(package, "spine", false);
    let ghost p3 = element_view(*package);
    proof {
        lemma_node_views(package.children@);
    }
    let mut spine = take_element(package, si);
    add_cover_to_spine(&mut spine, page_id);
    let ghost spine2 = element_view(spine);
    proof {
        lemma_node_views(package.children@);
    }
    put_element(package, si, spine);
    let ghost p4 = element_view(*package);
    assert(p4.children =~= p3.children.update(si as int, NodeView::Element(spine2)));
    let gi = ensure_child(package, "guide", false);
    let ghost p5 = element_view(*package);
    proof {
        lemma_node_views(package.children@);
    }
    let mut guide = take_element(package, gi);
    add_cover_to_guide(&mut guide);
    let ghost guide2 = element_view(guide);
    proof {
        lemma_node_views(package.children@);
    }
    put_element(package, gi, guide);
    assert(element_view(*package).children =~= p5.children.update(gi as int, NodeView::Element(guide2)));
}

/// Takes the cover item's `href` and stores the cover image, when there is
/// one; gives the `href` and the position of the cover item, or none when
/// there is no cover.
fn settle_cover_image(
    archive: &mut Archive,
    opf_name: &str,
    manifest: &mut XmlElement,
    legacy: &Vec<String>,
    cover: Option<&[u8]>,
) -> (r: Option<(String, usize)>)
    requires
        old(archive).wf(),
    ensures
        final(archive).wf(),
        final(archive).sound() == old(archive).sound(),
        final(archive).bytes() == old(archive).bytes(),
        match cover_source(
            element_view(*old(manifest)),
            string_views(legacy@),
            old(archive).contents(),
            opf_name@,
            opt_bytes(cover),
        ) {
            None => r is None && element_view(*final(manifest)) == element_view(*old(manifest))
                && *final(archive) == *old(archive),
            Some((href, m, i, stored)) => r matches Some((h, k)) && h@ == href && k == i
                && element_view(*final(manifest)) == m && final(archive).contents() == stored
                && k < final(manifest).children@.len() && 0 <= i < m.children.len() && is_named(
                m.children[i],
                "item"@,
            ),
        },
{
    let ghost m0 = element_view(*manifest);
    let found = find_cover_item(manifest, legacy);
    proof {
        lemma_node_views(manifest.children@);
        lemma_test_position(m0.children, 0, string_views(legacy@), 0);
        lemma_test_position(m0.children, 1, string_views(legacy@), 0);
        lemma_test_position(m0.children, 2, string_views(legacy@), 0);
    }
    let image = match cover {
        Some(c) => detect_image(c),
        None => None,
    };
    match (cover, image) {
        (Some(content), Some(info)) => {
            let mut href = String::from_str("Images/cover.");
            href.append(info.extension);
            let path = manifest_path(opf_name, href.as_str());
            archive.set(path, slice_to_vec(content));
            match found {
                Some(i) => {
                    let mut item = take_element(manifest, i);
                    set_attribute(&mut item, "href", href.clone());
                    set_attribute(&mut item, "media-type", String::from_str(info.media_type));
                    proof {
                        lemma_node_views(manifest.children@);
                    }
                    let ghost iv = element_view(item);
                    put_element(manifest, i, item);
                    proof {
                        assert(element_view(*manifest).children =~= m0.children.update(
                            i as int,
                            NodeView::Element(iv),
                        ));
                        lemma_node_views(manifest.children@);
                    }
                    Some((href, i))
                },
                None => {
                    ensure_manifest_item(manifest, "yaebook-cover-image", href.as_str(), info.media_type);
                    proof {
                        lemma_ensured_item(m0, "yaebook-cover-image"@, href@, info.media_type@);
                        lemma_node_views(manifest.children@);
                    }
                    match find_item_by_href(manifest, href.as_str()) {
                        Some(k) => Some((href, k)),
                        None => {
                            proof {
                                assert(false);
                            }
                            None
                        },
                    }
                },
            }
        },
        _ => match found {
            Some(i) => {
                let href = match &manifest.children[i] {
                    XmlNode::Element(item) => match attribute(item, "href") {
                        Some(h) => h.clone(),
                        None => {
                            return None;
                        },
                    },
                    _ => {
                        proof {
                            assert(false);
                        }
                        return None;
                    },
                };
                let path = manifest_path(opf_name, href.as_str());
                if !archive.contains(path.as_str()) {
                    return None;
                }
                Some((href, i))
            },
            None => None,
        },
    }
}

/// Puts the cover at `href` in place, the cover item being at `i` in the
/// manifest at `ni`, and the metadata at `mi`.
fn place_cover(
    archive: &mut Archive,
    opf_name: &str,
    package: &mut XmlElement,
    mi: usize,
    ni: usize,
    href: &str,
    i: usize,
)
    requires
        old(archive).wf(),
        element_position(element_view(*old(package)).children, "metadata"@, 0) == Some(mi as int),
        mi != ni,
        ni < old(package).children@.len(),
        element_view(*old(package)).children[ni as int] is Element,
        0 <= i < element_at(element_view(*old(package)), ni as int).children.len(),
        is_named(element_at(element_view(*old(package)), ni as int).children[i as int], "item"@),
    ensures
        final(archive).wf(),
        final(archive).sound() == old(archive).sound(),
        final(archive).bytes() == old(archive).bytes(),
        placed(
            element_view(*old(package)),
            old(archive).contents(),
            opf_name@,
            mi as int,
            ni as int,
            href@,
            i as int,
        ) == (element_view(*final(package)), final(archive).contents()),
{
    let page_id = list_cover(package, mi, ni, i);
    let page_path = manifest_path(opf_name, "Text/cover.xhtml");
    let image_path = manifest_path(opf_name, href);
    let page_directory = dirname(page_path.as_str());
    let image_href = relative_path(page_directory.as_str(), image_path.as_str());
    let page = cover_page(image_href.as_str());
    archive.set(page_path, page.as_str().as_bytes_vec());
    reference_cover(package, page_id);
}

/// Puts the cover in place: marks the cover item (storing the given image
/// first, when it is a JPEG, PNG or GIF image), names it in the metadata,
/// stores a cover page, puts it first in the spine and references it from
/// the guide.
pub fn add_cover(
    archive: &mut Archive,
    opf_name: &str,
    package: &mut XmlElement,
    cover: Option<&[u8]>,
) -> (r: Result<(), Error>)
    requires
        old(archive).wf(),
    ensures
        final(archive).wf(),
        final(archive).sound() == old(archive).sound(),
        final(archive).bytes() == old(archive).bytes(),
        match r {
            Ok(()) => covered(
                element_view(*old(package)),
                old(archive).contents(),
                opf_name@,
                opt_bytes(cover),
            ) == Some((element_view(*final(package)), final(archive).contents())),
            Err(e) => e is MissingPackage && covered(
                element_view(*old(package)),
                old(archive).contents(),
                opf_name@,
                opt_bytes(cover),
            ) is None,
        },
        without_cover(element_view(*old(package)), old(archive).contents(), opf_name@, opt_bytes(cover))
            ==> *final(archive) == *old(archive) && element_view(*final(package)) == element_view(
            *old(package),
        ),
{
    let ghost p0 = element_view(*package);
    proof {
        lemma_node_views(package.children@);
        lemma_element_position(p0.children, "metadata"@, 0);
        lemma_element_position(p0.children, "manifest"@, 0);
    }
    let mi = match child_index(package, "metadata") {
        Some(k) => k,
        None => {
            return Err(Error::MissingPackage);
        },
    };
    let legacy = match &package.children[mi] {
        XmlNode::Element(metadata) => legacy_ids(metadata),
        _ => {
            proof {
                assert(false);
            }
            return Err(Error::MissingPackage);
        },
    };
    let ni = match child_index(package, "manifest") {
        Some(k) => k,
        None => {
            return Err(Error::MissingPackage);
        },
    };
    let mut manifest = take_element(package, ni);
    let ghost manifest0 = element_view(manifest);
    let settled = settle_cover_image(archive, opf_name, &mut manifest, &legacy, cover);
    let ghost manifest1 = element_view(manifest);
    proof {
        lemma_node_views(package.children@);
    }
    put_element(package, ni, manifest);
    let (cover_href, index) = match settled {
        Some(found) => found,
        None => {
            assert(element_view(*package).children =~= p0.children);
            return Ok(());
        },
    };
    let ghost p_listed = element_view(*package);
    assert(p_listed.children =~= p0.children.update(ni as int, NodeView::Element(manifest1)));
    proof {
        lemma_same_name_replaced(p0.children, ni as int, manifest1, "metadata"@, 0);
        lemma_node_views(package.children@);
        assert(p_listed.children[ni as int] == NodeView::Element(manifest1));
        reveal_strlit("metadata");
        reveal_strlit("manifest");
        assert("metadata"@[2] != "manifest"@[2]);
        assert(mi != ni);
    }
    place_cover(archive, opf_name, package, mi, ni, cover_href.as_str(), index);
    Ok(())
}

} // verus!
