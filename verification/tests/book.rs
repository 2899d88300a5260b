use yaebook::book::{
    build_output_path, format_author_name, parse_book_id, sanitize_filename, BookMetadata,
    Error, SeriesInfo,
};
use yaebook::json::{extract_metadata, JsonValue};

fn json(value: &serde_json::Value) -> JsonValue {
    match value {
        serde_json::Value::Null => JsonValue::Null,
        serde_json::Value::Bool(flag) => JsonValue::Bool(*flag),
        serde_json::Value::Number(number) => JsonValue::Number(number.to_string()),
        serde_json::Value::String(text) => JsonValue::String(text.clone()),
        serde_json::Value::Array(items) => JsonValue::Array(items.iter().map(json).collect()),
        serde_json::Value::Object(members) => JsonValue::Object(
            members.iter().map(|(key, value)| (key.clone(), json(value))).collect(),
        ),
    }
}

#[test]
fn parses_book_urls_and_raw_ids() {
    assert_eq!(
        parse_book_id("https://books.yandex.ru/books/AbCd_123?from=search").unwrap(),
        "AbCd_123"
    );
    assert_eq!(parse_book_id("AbCd-123").unwrap(), "AbCd-123");
    assert!(parse_book_id("https://books.yandex.ru/series/AbCd_123").is_err());
    assert!(parse_book_id("https://evilbooks.yandex.ru/books/AbCd_123").is_err());
}

#[test]
fn extracts_metadata_from_api_shape() {
    let data: serde_json::Value = serde_json::from_str(
        r#"{
            "authors_objects": [{"name": "Тест Автор"}],
            "cover": {"large": "https://example.test/cover.jpg"},
            "book": {
                "uuid": "test-book",
                "title": "Тестовая книга",
                "annotation": "Описание",
                "topics": [{"title": "Тест"}, {"title": "Виртуальный рассказчик"}],
                "publishers": [{"name": "Издательство"}],
                "series_list": [{"title": "Цикл", "position": 2}],
                "original_year": 2024,
                "owner_catalog_title": "Правообладатель"
            }
        }"#,
    )
    .unwrap();
    let root = json(&data);
    let book = json(&data["book"]);
    let metadata = extract_metadata(&root, &book, "fallback");

    assert_eq!(metadata.uuid, "test-book");
    assert_eq!(metadata.authors, ["Тест Автор"]);
    assert_eq!(metadata.genres, ["Тест"]);
    assert_eq!(metadata.series[0].position_label, "2");
    assert_eq!(metadata.original_year.as_deref(), Some("2024"));
}

#[test]
fn places_epub_directly_in_output_directory() {
    let metadata = BookMetadata {
        title: "Тестовая книга".into(),
        authors: vec!["Тест Автор".into()],
        series: vec![SeriesInfo { title: "Цикл".into(), ..SeriesInfo::default() }],
        ..BookMetadata::default()
    };
    assert_eq!(
        build_output_path("/tmp/books", &metadata),
        "/tmp/books/Автор Тест. Тестовая книга.epub"
    );
}

#[test]
fn sanitizes_unsafe_filename_characters() {
    assert_eq!(sanitize_filename("  A/B: C?  "), "A-B; C!");
    assert_eq!(sanitize_filename(".."), "Unknown");
}

#[test]
fn bare_identifier_names_itself() {
    assert_eq!(parse_book_id("HLwwn7ea").unwrap(), "HLwwn7ea");
    assert_eq!(parse_book_id("  HLwwn7ea/  ").unwrap(), "HLwwn7ea");
}

#[test]
fn rejects_empty_and_malformed_identifiers() {
    assert_eq!(parse_book_id(""), Err(Error::InvalidBook));
    assert_eq!(parse_book_id("abc def"), Err(Error::InvalidBook));
    assert_eq!(parse_book_id("https://books.yandex.ru/books/"), Err(Error::InvalidBook));
    assert_eq!(parse_book_id("HTTP://BOOKS.YANDEX.RU/books/Xy_1#top").unwrap(), "Xy_1");
}

#[test]
fn sanitized_names_are_never_empty_or_dots() {
    assert_eq!(sanitize_filename(""), "Unknown");
    assert_eq!(sanitize_filename("."), "Unknown");
    assert_eq!(sanitize_filename("a\\b|c"), "a-b-c");
    assert_eq!(sanitize_filename("x<y>\"z\""), "x(y)'z'");
    assert_eq!(sanitize_filename("tab\there"), "tab here");
}

#[test]
fn puts_the_family_name_first() {
    assert_eq!(format_author_name("Лев Николаевич Толстой"), "Толстой Лев Николаевич");
    assert_eq!(format_author_name("  Платон  "), "  Платон  ");
    assert_eq!(format_author_name("Иван Петров"), "Петров Иван");
    assert_eq!(format_author_name(""), "");
}

#[test]
fn names_the_file_after_author_and_title() {
    let metadata = BookMetadata { title: "Книга".into(), ..BookMetadata::default() };
    assert_eq!(build_output_path("out", &metadata), "out/author Unknown. Книга.epub");
    let untitled = BookMetadata::default();
    assert_eq!(build_output_path("out/", &untitled), "out/author Unknown. Unknown title.epub");
    let bare = BookMetadata { authors: vec!["A/B".into()], title: "T?".into(), ..BookMetadata::default() };
    assert_eq!(build_output_path("", &bare), "A-B. T!.epub");
}

#[test]
fn recognises_book_identifiers() {
    assert!(yaebook::book::valid_uuid_str("AbC-12_x"));
    assert!(!yaebook::book::valid_uuid_str(""));
    assert!(!yaebook::book::valid_uuid_str("a/b"));
    assert!(!yaebook::book::valid_uuid_str("кириллица"));
}

#[test]
fn keeps_names_once_each() {
    let mut values = vec!["a".to_string()];
    yaebook::json::push_unique(&mut values, Some("a".into()));
    yaebook::json::push_unique(&mut values, Some(String::new()));
    yaebook::json::push_unique(&mut values, None);
    yaebook::json::push_unique(&mut values, Some("b".into()));
    assert_eq!(values, ["a", "b"]);
}

#[test]
fn sanitizing_twice_changes_nothing() {
    for value in ["  A/B: C?  ", "", "..", "a\tb\u{7}c", "Автор. Книга.epub"] {
        let once = sanitize_filename(value);
        assert_eq!(sanitize_filename(&once), once);
        assert_eq!(once.split_whitespace().collect::<Vec<_>>().join(" "), once);
    }
}

#[test]
fn turning_a_two_word_name_twice_restores_it() {
    for name in ["Лев Толстой", "  First   Last "] {
        let twice = format_author_name(&format_author_name(name));
        assert_eq!(twice, name.split_whitespace().collect::<Vec<_>>().join(" "));
    }
}

#[test]
fn an_extracted_identifier_names_itself() {
    for input in ["https://books.yandex.ru/books/AbCd_123?from=search", " AbCd-123 ", "HTTP://BOOKS.YANDEX.RU/books/x1/"] {
        let id = parse_book_id(input).unwrap();
        assert_eq!(parse_book_id(&id).unwrap(), id);
    }
}
