use yaebook::xhtml::{
    escape_attribute, escape_text, is_void, normalize, normalize_document, qualified_name, HtmlAttribute,
    HtmlElement, HtmlName, HtmlNode, XHTML_NAMESPACE,
};

#[test]
fn repairs_html_and_injects_relative_stylesheet() {
    let source = r#"<!DOCTYPE html><html><head><meta charset="UTF-8"><title></title>
        <body><p>До&nbsp;После</p></body></html>"#;
    let result =
        normalize(source.as_bytes(), "EPUB/Text/chapter.html", "EPUB/Styles/system.css").unwrap();
    let result = String::from_utf8(result).unwrap();

    assert!(result.contains("xmlns=\"http://www.w3.org/1999/xhtml\""));
    assert!(result.contains("href=\"../Styles/system.css\""));
    assert!(result.contains("До\u{a0}После"));
    assert!(result.contains("<meta charset=\"UTF-8\"/>"));
    assert!(result.contains("<body><p>"));
}

#[test]
fn preserves_template_contents() {
    let source = r"<html><head><title></title></head><body>
        <template><p>Шаблон</p></template>
    </body></html>";
    let result =
        normalize(source.as_bytes(), "EPUB/Text/chapter.xhtml", "EPUB/Styles/system.css").unwrap();
    let result = String::from_utf8(result).unwrap();

    assert!(result.contains("<template><p>Шаблон</p></template>"));
}

#[test]
fn keeps_an_existing_link_to_the_style_sheet() {
    let source = r#"<html><head><link rel="stylesheet" href="../Styles/system.css"></head><body></body></html>"#;
    let result =
        normalize(source.as_bytes(), "EPUB/Text/a.xhtml", "EPUB/Styles/system.css").unwrap();
    let result = String::from_utf8(result).unwrap();
    assert_eq!(result.matches("system.css").count(), 1);
    assert!(result.starts_with("<?xml version=\"1.0\" encoding=\"utf-8\"?>\n<!DOCTYPE html>\n<html"));
}

#[test]
fn blank_chapter_becomes_an_empty_document() {
    let result = normalize(b" \n\t", "EPUB/empty.xhtml", "EPUB/Styles/s.css").unwrap();
    let result = String::from_utf8(result).unwrap();
    assert!(result.contains("<head><title></title><link rel=\"stylesheet\" type=\"text/css\" href=\"Styles/s.css\"/></head>"));
    assert!(result.contains("<body></body>"));
}

#[test]
fn writes_foreign_namespaces_and_escapes() {
    let source = r#"<html><head></head><body><svg><a xlink:href="x&quot;y">1 &lt; 2</a></svg></body></html>"#;
    let result = normalize(source.as_bytes(), "a.xhtml", "s.css").unwrap();
    let result = String::from_utf8(result).unwrap();
    assert!(result.contains("<svg xmlns=\"http://www.w3.org/2000/svg\">"));
    assert!(result.contains("xlink:href=\"x&quot;y\""));
    assert!(result.contains("1 &lt; 2"));
}

#[test]
fn escapes_markup_characters() {
    let mut text = String::new();
    escape_text("a<b>&c\"", &mut text);
    assert_eq!(text, "a&lt;b&gt;&amp;c\"");
    let mut attribute = String::new();
    escape_attribute("a<b>&c\"", &mut attribute);
    assert_eq!(attribute, "a&lt;b&gt;&amp;c&quot;");
}

#[test]
fn names_and_void_elements() {
    assert_eq!(qualified_name(Some("epub"), "type"), "epub:type");
    assert_eq!(qualified_name(None, "p"), "p");
    assert!(is_void("br"));
    assert!(is_void("img"));
    assert!(!is_void("p"));
}

fn html_element(local: &str, attributes: Vec<(&str, &str)>, children: Vec<HtmlNode>) -> HtmlNode {
    HtmlNode::Element(HtmlElement {
        name: HtmlName { prefix: None, namespace: XHTML_NAMESPACE.into(), local: local.into() },
        attributes: attributes
            .into_iter()
            .map(|(name, value)| HtmlAttribute {
                name: HtmlName { prefix: None, namespace: String::new(), local: name.into() },
                value: value.into(),
            })
            .collect(),
        template_contents: None,
        children,
    })
}

#[test]
fn links_the_style_sheet_in_a_given_tree() {
    let document = HtmlNode::Document(vec![html_element(
        "html",
        vec![],
        vec![
            html_element("head", vec![], vec![]),
            html_element("body", vec![], vec![HtmlNode::Text("a < b".into())]),
        ],
    )]);
    let bytes = normalize_document(&document, "EPUB/Text/ch.xhtml", "EPUB/Styles/system.css").unwrap();
    let text = String::from_utf8(bytes).unwrap();
    assert_eq!(
        text,
        "<?xml version=\"1.0\" encoding=\"utf-8\"?>\n<!DOCTYPE html>\n<html xmlns=\"http://www.w3.org/1999/xhtml\" xmlns:epub=\"http://www.idpf.org/2007/ops\" xmlns:xlink=\"http://www.w3.org/1999/xlink\"><head><link rel=\"stylesheet\" type=\"text/css\" href=\"../Styles/system.css\"/></head><body>a &lt; b</body></html>"
    );
    let linked = HtmlNode::Document(vec![html_element(
        "html",
        vec![],
        vec![html_element(
            "head",
            vec![],
            vec![html_element("link", vec![("href", "../Styles/system.css")], vec![])],
        )],
    )]);
    let again = String::from_utf8(normalize_document(&linked, "EPUB/Text/ch.xhtml", "EPUB/Styles/system.css").unwrap()).unwrap();
    assert_eq!(again.matches("<link").count(), 1);
    let headless = HtmlNode::Document(vec![html_element("html", vec![], vec![])]);
    assert!(normalize_document(&headless, "a.xhtml", "s.css").is_err());
}
