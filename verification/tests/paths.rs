use yaebook::paths::{dirname, manifest_path, normalize, percent_decode, relative_path};

#[test]
fn resolves_manifest_paths_and_relatives() {
    assert_eq!(
        manifest_path("EPUB/content.opf", "Text/Chapter%201.xhtml#part"),
        "EPUB/Text/Chapter 1.xhtml"
    );
    assert_eq!(relative_path("EPUB/Text", "EPUB/Styles/system.css"), "../Styles/system.css");
}

#[test]
fn resolves_parent_and_current_segments() {
    assert_eq!(manifest_path("OEBPS/content.opf", "../Images/./a.png"), "Images/a.png");
    assert_eq!(manifest_path("content.opf", "Text/ch.xhtml"), "Text/ch.xhtml");
    assert_eq!(normalize("a//b/./c/../d"), "a/b/d");
}

#[test]
fn relative_path_of_same_directory_is_the_name() {
    assert_eq!(relative_path("EPUB", "EPUB/Styles/a.css"), "Styles/a.css");
    assert_eq!(relative_path("EPUB/Text", "EPUB/Text"), ".");
    assert_eq!(dirname("EPUB/Text/cover.xhtml"), "EPUB/Text");
    assert_eq!(dirname("cover.xhtml"), "");
}

#[test]
fn decodes_percent_escapes() {
    assert_eq!(percent_decode("a%20b%2Fc"), "a b/c");
    assert_eq!(percent_decode("100%"), "100%");
    assert_eq!(percent_decode("%zz"), "%zz");
}

#[test]
fn relative_references_resolve_back_to_their_target() {
    for (directory, target) in [
        ("EPUB/Text", "EPUB/Styles/system.css"),
        ("OEBPS", "OEBPS/Styles/a.css"),
        ("", "Styles/a.css"),
        ("a/b/c", "x/y.css"),
        ("EPUB/Text", "EPUB/Text"),
    ] {
        let reference = relative_path(directory, target);
        let joined = format!("{directory}/{reference}");
        assert_eq!(normalize(&joined), normalize(target));
    }
}

#[test]
fn manifest_path_undoes_relative_path() {
    for (directory, target) in [
        ("EPUB/Text", "EPUB/Styles/system.css"),
        ("OEBPS/Главы", "OEBPS/Стили/основной.css"),
        ("a/b", "a/b/c.xhtml"),
        ("", "Styles/a.css"),
    ] {
        let reference = relative_path(directory, target);
        assert_eq!(manifest_path(&format!("{directory}/document.xhtml"), &reference), target);
    }
}
