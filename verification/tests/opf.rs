use yaebook::book::{BookMetadata, SeriesInfo};
use yaebook::cover::{
    cover_page, detect_image, escape_attribute, find_cover_item, legacy_ids, mark_cover_item,
};
use yaebook::css::strip_font_face_rules;
use yaebook::opf::{
    add_property, describe_book, ensure_child, ensure_manifest_item, find_descendant,
    has_property, is_font_item, nonempty, properties, relations, remove_property,
    retain_children, stamp_modified, unique_id, Selector,
};
use yaebook::xml::{XmlElement, XmlNode};

fn element(name: &str, attributes: &[(&str, &str)], children: Vec<XmlNode>) -> XmlElement {
    XmlElement {
        prefix: None,
        namespace: None,
        namespaces: None,
        name: name.into(),
        attributes: attributes.iter().map(|(k, v)| (k.to_string(), v.to_string())).collect(),
        children,
    }
}

fn item(attributes: &[(&str, &str)]) -> XmlNode {
    XmlNode::Element(element("item", attributes, Vec::new()))
}

fn attribute<'a>(e: &'a XmlElement, key: &str) -> Option<&'a str> {
    e.attributes.iter().find(|(k, _)| k == key).map(|(_, v)| v.as_str())
}

fn child(e: &XmlElement, index: usize) -> &XmlElement {
    match &e.children[index] {
        XmlNode::Element(child) => child,
        _ => panic!("not an element"),
    }
}

fn text(e: &XmlElement) -> String {
    e.children
        .iter()
        .filter_map(|node| match node {
            XmlNode::Text(text) => Some(text.as_str()),
            _ => None,
        })
        .collect()
}

#[test]
fn strips_font_face_rules_without_touching_comments_or_strings() {
    let source = br#"/* @font-face { keep comment } */
.label::after { content: "@font-face { keep string }"; }
@FONT-FACE /* remove rule */ { font-family: Fixture; src: url('fixture.woff2'); }
body { color: black; }"#;
    let result = String::from_utf8(strip_font_face_rules(source)).unwrap();

    assert!(result.contains("/* @font-face { keep comment } */"));
    assert!(result.contains("\"@font-face { keep string }\""));
    assert!(!result.contains("@FONT-FACE"));
    assert!(result.contains("body { color: black; }"));
}

#[test]
fn css_without_rules_is_kept_as_it_is() {
    let source = b"p { margin: 0 } /* @font-faced */ @font-feature-values x {}";
    assert_eq!(strip_font_face_rules(source), source.to_vec());
    assert_eq!(strip_font_face_rules(b"@font-face { a: b; } "), b" ".to_vec());
    assert_eq!(strip_font_face_rules(b"x @font-face;"), b"x @font-face;".to_vec());
}

#[test]
fn picks_free_identifiers() {
    let manifest = element(
        "manifest",
        &[],
        vec![item(&[("id", "cover")]), item(&[("id", "cover-2")]), item(&[("href", "x")])],
    );
    assert_eq!(unique_id(&manifest, "page"), "page");
    assert_eq!(unique_id(&manifest, "cover"), "cover-3");
    assert_eq!(unique_id(&manifest, "cover-2"), "cover-2-2");
}

#[test]
fn edits_item_properties() {
    let mut e = element("item", &[("properties", "nav  svg"), ("id", "a"), ("href", "b")], Vec::new());
    assert_eq!(properties(&e), ["nav", "svg"]);
    assert!(has_property(&e, "svg"));
    add_property(&mut e, "cover-image");
    assert_eq!(attribute(&e, "properties"), Some("nav svg cover-image"));
    add_property(&mut e, "nav");
    assert_eq!(attribute(&e, "properties"), Some("nav svg cover-image"));
    remove_property(&mut e, "svg");
    remove_property(&mut e, "nav");
    remove_property(&mut e, "cover-image");
    assert_eq!(attribute(&e, "properties"), None);
    assert_eq!(e.attributes, vec![("href".to_string(), "b".to_string()), ("id".to_string(), "a".to_string())]);
}

#[test]
fn recognises_fonts() {
    assert!(is_font_item(&element("item", &[("media-type", "font/woff2")], Vec::new())));
    assert!(is_font_item(&element("item", &[("media-type", "application/x-font-ttf")], Vec::new())));
    assert!(is_font_item(&element("item", &[("href", "Fonts/a.OTF?v=1")], Vec::new())));
    assert!(!is_font_item(&element("item", &[("href", "Fonts/a.otf.txt")], Vec::new())));
    assert!(!is_font_item(&element("item", &[("href", "woff")], Vec::new())));
}

#[test]
fn lists_items_once() {
    let mut manifest = element("manifest", &[], vec![item(&[("id", "s"), ("href", "a.css")])]);
    let k = ensure_manifest_item(&mut manifest, "style", "b.css", "text/css");
    assert_eq!(k, 1);
    let added = child(&manifest, 1);
    assert_eq!(added.attributes, vec![
        ("id".to_string(), "style".to_string()),
        ("href".to_string(), "b.css".to_string()),
        ("media-type".to_string(), "text/css".to_string()),
    ]);
    let count = manifest.children.len();
    assert_eq!(ensure_manifest_item(&mut manifest, "style", "b.css", "text/css"), 1);
    assert_eq!(manifest.children.len(), count);
    assert_eq!(child(&manifest, 1).attributes.len(), 3);
    let again = ensure_manifest_item(&mut manifest, "s", "a.css", "text/plain");
    assert_eq!(again, 0);
    assert_eq!(attribute(child(&manifest, 0), "media-type"), Some("text/plain"));
    assert_eq!(manifest.children.len(), 2);
}

#[test]
fn adds_missing_children() {
    let mut package = element("package", &[], vec![XmlNode::Element(element("manifest", &[], Vec::new()))]);
    assert_eq!(ensure_child(&mut package, "metadata", true), 0);
    assert_eq!(ensure_child(&mut package, "spine", false), 2);
    assert_eq!(ensure_child(&mut package, "manifest", false), 1);
    assert_eq!(package.children.len(), 3);
}

#[test]
fn drops_selected_children() {
    let mut parent = element(
        "spine",
        &[],
        vec![
            XmlNode::Element(element("itemref", &[("idref", "a")], Vec::new())),
            XmlNode::Text("x".into()),
            XmlNode::Element(element("itemref", &[("idref", "b")], Vec::new())),
        ],
    );
    retain_children(&mut parent, &Selector::NamedWith("itemref".into(), "idref".into(), "a".into()));
    assert_eq!(parent.children.len(), 2);
    assert_eq!(attribute(child(&parent, 1), "idref"), Some("b"));
}

#[test]
fn finds_descendants_in_document_order() {
    let tree = element(
        "container",
        &[],
        vec![XmlNode::Element(element(
            "rootfiles",
            &[],
            vec![XmlNode::Element(element("rootfile", &[("full-path", "A.opf")], Vec::new()))],
        ))],
    );
    assert_eq!(find_descendant(&tree, "rootfile").map(|e| e.attributes.len()), Some(1));
    assert!(find_descendant(&tree, "missing").is_none());
}

#[test]
fn describes_the_book_in_the_metadata() {
    let metadata = element(
        "metadata",
        &[],
        vec![
            XmlNode::Element(element("title", &[], vec![XmlNode::Text("Old".into())])),
            XmlNode::Element(element("meta", &[("property", "dcterms:modified")], Vec::new())),
        ],
    );
    let mut package = element("package", &[("version", "3.0")], vec![XmlNode::Element(metadata)]);
    let values = BookMetadata {
        uuid: "id-1".into(),
        title: "Новая".into(),
        authors: vec!["A".into(), "".into()],
        genres: vec!["Виртуальный рассказчик".into(), "Проза".into()],
        series: vec![
            SeriesInfo { title: "S".into(), position_label: "2".into(), uuid: String::new() },
            SeriesInfo { title: String::new(), position_label: "3".into(), uuid: String::new() },
        ],
        ..BookMetadata::default()
    };
    let k = describe_book(&mut package, &values);
    assert_eq!(k, 0);
    assert_eq!(attribute(&package, "unique-identifier"), Some("bookid"));
    stamp_modified(&mut package, k, "2024-01-02T03:04:05Z");
    let metadata = child(&package, 0);
    let names: Vec<&str> = metadata
        .children
        .iter()
        .filter_map(|node| match node {
            XmlNode::Element(e) => Some(e.name.as_str()),
            _ => None,
        })
        .collect();
    assert_eq!(names, ["meta", "title", "creator", "subject", "relation", "identifier"]);
    assert_eq!(text(child(metadata, 0)), "2024-01-02T03:04:05Z");
    assert_eq!(text(child(metadata, 1)), "Новая");
    assert_eq!(child(metadata, 1).prefix.as_deref(), Some("dc"));
    assert_eq!(text(child(metadata, 3)), "Проза");
    assert_eq!(text(child(metadata, 4)), "Series: S, Number: 2");
    assert_eq!(text(child(metadata, 5)), "urn:uuid:id-1");
    assert_eq!(
        metadata.namespaces,
        Some(vec![("dc".to_string(), "http://purl.org/dc/elements/1.1/".to_string())])
    );
}

#[test]
fn keeps_only_nonempty_values() {
    let values = vec!["a".to_string(), String::new(), "b".to_string()];
    assert_eq!(nonempty(&values), ["a", "b"]);
    let series = vec![SeriesInfo { title: "T".into(), position_label: String::new(), uuid: String::new() }];
    assert_eq!(relations(&series), ["Series: T"]);
}

#[test]
fn detects_cover_images() {
    assert_eq!(detect_image(&[0xff, 0xd8, 0xff, 0]).map(|i| i.extension), Some("jpg"));
    assert_eq!(detect_image(&[137, 80, 78, 71, 13, 10, 26, 10]).map(|i| i.media_type), Some("image/png"));
    assert_eq!(detect_image(b"GIF89a..").map(|i| i.extension), Some("gif"));
    assert!(detect_image(b"GIF88a").is_none());
    assert!(detect_image(&[0xff, 0xd8]).is_none());
}

#[test]
fn writes_the_cover_page() {
    assert_eq!(escape_attribute("a&b\"<>"), "a&amp;b&quot;&lt;&gt;");
    let page = cover_page("../Images/cover.jpg");
    assert!(page.starts_with("<?xml version=\"1.0\" encoding=\"utf-8\"?>\n<!DOCTYPE html>\n"));
    assert!(page.contains("<img src=\"../Images/cover.jpg\" alt=\"Cover\"/>"));
    assert!(page.contains("body{margin:0;padding:0;text-align:center}"));
    assert!(page.ends_with("</html>"));
}

#[test]
fn finds_the_cover_item() {
    let metadata = element(
        "metadata",
        &[],
        vec![XmlNode::Element(element("meta", &[("name", "cover"), ("content", "img2")], Vec::new()))],
    );
    let legacy = legacy_ids(&metadata);
    assert_eq!(legacy, ["img2"]);
    let manifest = element(
        "manifest",
        &[],
        vec![
            item(&[("id", "img1"), ("href", "Images/COVER.png"), ("media-type", "image/png")]),
            item(&[("id", "img2"), ("href", "b.png"), ("media-type", "image/png")]),
            item(&[("id", "img3"), ("href", "c.png"), ("properties", "cover-image")]),
        ],
    );
    assert_eq!(find_cover_item(&manifest, &legacy), Some(2));
    let mut no_mark = manifest;
    no_mark.children.pop();
    assert_eq!(find_cover_item(&no_mark, &legacy), Some(1));
    assert_eq!(find_cover_item(&no_mark, &Vec::new()), Some(0));
}

#[test]
fn marks_a_single_cover_item() {
    let mut manifest = element(
        "manifest",
        &[],
        vec![
            item(&[("id", "a"), ("href", "a.png"), ("properties", "cover-image nav")]),
            item(&[("href", "b.png")]),
            item(&[("id", "c"), ("href", "c.png"), ("properties", "cover-image")]),
        ],
    );
    let (cover_id, page_id) = mark_cover_item(&mut manifest, 1, true);
    assert_eq!(cover_id, "yaebook-cover-image");
    assert_eq!(page_id, "yaebook-cover-page");
    assert_eq!(manifest.children.len(), 4);
    let marked: Vec<usize> = (0..manifest.children.len())
        .filter(|&k| has_property(child(&manifest, k), "cover-image"))
        .collect();
    assert_eq!(marked, [1]);
    assert_eq!(attribute(child(&manifest, 0), "properties"), Some("nav"));
    assert_eq!(attribute(child(&manifest, 2), "properties"), None);
    assert_eq!(attribute(child(&manifest, 3), "href"), Some("Text/cover.xhtml"));
    assert_eq!(attribute(child(&manifest, 3), "media-type"), Some("application/xhtml+xml"));
}
