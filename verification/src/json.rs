//! Book metadata read from the JSON that the Yandex Books API returns.

use vstd::prelude::*;

use crate::book::{BookMetadata, SeriesInfo};
use crate::paths::{split_chars, split_spec};
use crate::text::{chars_of, remove_word, str_eq, string_views, trim, without};

verus! {

/// A JSON document, as the API returns it. Numbers keep the text that
/// `serde_json` prints for them; object members keep their keys once each.
#[derive(Debug)]
pub enum JsonValue {
    Null,
    Bool(bool),
    Number(String),
    String(String),
    Array(Vec<JsonValue>),
    Object(Vec<(String, JsonValue)>),
}

/// The genre that Yandex Books gives to audio books read by a synthetic
/// voice; it says nothing about the book.
pub open spec fn virtual_narrator() -> Seq<char> {
    "Виртуальный рассказчик"@
}

/// The value of the first member of `members` from `i` on named `key`.
pub open spec fn member_from(members: Seq<(String, JsonValue)>, key: Seq<char>, i: int) -> Option<
    JsonValue,
>
    decreases members.len() - i,
{
    if i < 0 || i >= members.len() {
        None
    } else if members[i].0@ == key {
        Some(members[i].1)
    } else {
        member_from(members, key, i + 1)
    }
}

/// `value[key]` when `value` is an object that has the member.
pub open spec fn json_get(value: JsonValue, key: Seq<char>) -> Option<JsonValue> {
    match value {
        JsonValue::Object(members) => member_from(members@, key, 0),
        _ => None,
    }
}

/// The text of a JSON string.
pub open spec fn json_string(value: Option<JsonValue>) -> Option<Seq<char>> {
    match value {
        Some(JsonValue::String(s)) => Some(s@),
        _ => None,
    }
}

/// The text of a JSON string or number.
pub open spec fn json_scalar(value: Option<JsonValue>) -> Option<Seq<char>> {
    match value {
        Some(JsonValue::String(s)) => Some(s@),
        Some(JsonValue::Number(n)) => Some(n@),
        _ => None,
    }
}

pub open spec fn json_array(value: Option<JsonValue>) -> Option<Seq<JsonValue>> {
    match value {
        Some(JsonValue::Array(items)) => Some(items@),
        _ => None,
    }
}

pub open spec fn nonempty_text(value: Option<Seq<char>>) -> Option<Seq<char>> {
    match value {
        Some(s) => if s.len() > 0 {
            Some(s)
        } else {
            None
        },
        None => None,
    }
}

pub open spec fn or_else(first: Option<Seq<char>>, second: Option<Seq<char>>) -> Option<Seq<char>> {
    if first is Some {
        first
    } else {
        second
    }
}

pub open spec fn text_or_default(value: Option<Seq<char>>) -> Seq<char> {
    match value {
        Some(s) => s,
        None => seq![],
    }
}

/// `values` with `value` added at the end, unless it is absent, empty, or
/// already there.
pub open spec fn push_unique_spec(values: Seq<Seq<char>>, value: Option<Seq<char>>) -> Seq<
    Seq<char>,
> {
    match value {
        Some(v) => if v.len() > 0 && !values.contains(v) {
            values.push(v)
        } else {
            values
        },
        None => values,
    }
}

/// `push_unique` with each of `names` in turn.
pub open spec fn collect_unique(start: Seq<Seq<char>>, names: Seq<Option<Seq<char>>>) -> Seq<
    Seq<char>,
>
    decreases names.len(),
{
    if names.len() == 0 {
        start
    } else {
        push_unique_spec(collect_unique(start, names.drop_last()), names.last())
    }
}

/// The name of an entry of `authors_objects`: its `name`, else its `title`.
pub open spec fn author_object_name(value: JsonValue) -> Option<Seq<char>> {
    or_else(json_string(json_get(value, "name"@)), json_string(json_get(value, "title"@)))
}

/// The name of an entry of an `authors` array.
pub open spec fn author_entry_name(value: JsonValue) -> Option<Seq<char>> {
    match value {
        JsonValue::String(s) => Some(s@),
        JsonValue::Object(_) => json_string(json_get(value, "name"@)),
        _ => None,
    }
}

/// The name of an entry of a list of topics or publishers: the string, or
/// the object's `title`, else its `name`.
pub open spec fn named_entry(value: JsonValue) -> Option<Seq<char>> {
    match value {
        JsonValue::String(s) => Some(s@),
        JsonValue::Object(_) => or_else(
            json_string(json_get(value, "title"@)),
            json_string(json_get(value, "name"@)),
        ),
        _ => None,
    }
}

pub open spec fn author_object_names(values: Seq<JsonValue>) -> Seq<Option<Seq<char>>> {
    values.map_values(|v: JsonValue| author_object_name(v))
}

pub open spec fn author_entry_names(values: Seq<JsonValue>) -> Seq<Option<Seq<char>>> {
    values.map_values(|v: JsonValue| author_entry_name(v))
}

pub open spec fn named_entries(values: Seq<JsonValue>) -> Seq<Option<Seq<char>>> {
    values.map_values(|v: JsonValue| named_entry(v))
}

/// The comma-separated names of an `authors` string, trimmed.
pub open spec fn author_string_names(value: Seq<char>) -> Seq<Option<Seq<char>>> {
    split_spec(value, ',').map_values(|part: Seq<char>| Some(trim(part)))
}

/// The authors that an object of the API lists, each once, in order.
pub open spec fn authors_spec(data: JsonValue) -> Seq<Seq<char>> {
    let from_objects = match json_array(json_get(data, "authors_objects"@)) {
        Some(values) => collect_unique(seq![], author_object_names(values)),
        None => seq![],
    };
    match json_get(data, "authors"@) {
        Some(JsonValue::String(s)) => collect_unique(from_objects, author_string_names(s@)),
        Some(JsonValue::Array(values)) => collect_unique(from_objects, author_entry_names(values@)),
        _ => from_objects,
    }
}

/// The names in a list of topics or publishers, each once, in order.
pub open spec fn named_spec(value: Option<JsonValue>) -> Seq<Seq<char>> {
    match json_array(value) {
        Some(values) => collect_unique(seq![], named_entries(values)),
        None => seq![],
    }
}


/// A series entry: title, position label, identifier.
pub open spec fn series_entry(value: JsonValue) -> (Seq<char>, Seq<char>, Seq<char>) {
    (
        text_or_default(json_string(json_get(value, "title"@))),
        text_or_default(
            or_else(
                json_scalar(json_get(value, "position_label"@)),
                json_scalar(json_get(value, "position"@)),
            ),
        ),
        text_or_default(json_string(json_get(value, "uuid"@))),
    )
}

/// The series list of the book, else of the response root.
pub open spec fn series_source(root: JsonValue, book: JsonValue) -> Seq<JsonValue> {
    match json_array(json_get(book, "series_list"@)) {
        Some(values) => values,
        None => match json_array(json_get(root, "series_list"@)) {
            Some(values) => values,
            None => seq![],
        },
    }
}

pub open spec fn series_spec(root: JsonValue, book: JsonValue) -> Seq<
    (Seq<char>, Seq<char>, Seq<char>),
> {
    series_source(root, book).map_values(|v: JsonValue| series_entry(v))
}

pub open spec fn series_views(series: Seq<SeriesInfo>) -> Seq<(Seq<char>, Seq<char>, Seq<char>)> {
    series.map_values(|s: SeriesInfo| (s.title@, s.position_label@, s.uuid@))
}

pub open spec fn is_nonempty_object(value: JsonValue) -> bool {
    value is Object && value->Object_0@.len() > 0
}

/// The cover object: the root's when it is a non-empty object, else the
/// book's.
pub open spec fn cover_object(root: JsonValue, book: JsonValue) -> JsonValue {
    match json_get(root, "cover"@) {
        Some(c) => if is_nonempty_object(c) {
            c
        } else {
            match json_get(book, "cover"@) {
                Some(b) => b,
                None => JsonValue::Null,
            }
        },
        None => match json_get(book, "cover"@) {
            Some(b) => b,
            None => JsonValue::Null,
        },
    }
}

/// The largest cover image that the metadata names.
pub open spec fn cover_url_spec(root: JsonValue, book: JsonValue) -> Option<Seq<char>> {
    let cover = cover_object(root, book);
    or_else(
        nonempty_text(json_string(json_get(cover, "large"@))),
        or_else(
            nonempty_text(json_string(json_get(cover, "medium"@))),
            nonempty_text(json_string(json_get(cover, "small"@))),
        ),
    )
}

pub open spec fn opt_view(value: Option<String>) -> Option<Seq<char>> {
    match value {
        Some(s) => Some(s@),
        None => None,
    }
}

/// The metadata that the API response `root`, with its book object `book`,
/// gives for the book requested as `requested`.
pub open spec fn metadata_matches(
    m: BookMetadata,
    root: JsonValue,
    book: JsonValue,
    requested: Seq<char>,
) -> bool {
    &&& m.uuid@ == match nonempty_text(json_string(json_get(book, "uuid"@))) {
        Some(u) => u,
        None => requested,
    }
    &&& m.title@ == match nonempty_text(json_string(json_get(book, "title"@))) {
        Some(t) => t,
        None => "Unknown title"@,
    }
    &&& string_views(m.authors@) == if authors_spec(root).len() > 0 {
        authors_spec(root)
    } else {
        authors_spec(book)
    }
    &&& m.annotation@ == text_or_default(json_string(json_get(book, "annotation"@)))
    &&& string_views(m.genres@) == without(
        named_spec(json_get(book, "topics"@)),
        virtual_narrator(),
    )
    &&& string_views(m.publishers@) == named_spec(json_get(book, "publishers"@))
    &&& series_views(m.series@) == series_spec(root, book)
    &&& opt_view(m.cover_url) == cover_url_spec(root, book)
    &&& m.source@ == "https://books.yandex.ru/books/"@ + requested
    &&& opt_view(m.original_year) == json_scalar(json_get(book, "original_year"@))
    &&& opt_view(m.rights) == nonempty_text(json_string(json_get(book, "owner_catalog_title"@)))
}

/// The non-empty text of the member `key` of a cover object.
pub open spec fn cover_at(cover: JsonValue, key: Seq<char>) -> Option<Seq<char>> {
    match json_get(cover, key) {
        Some(JsonValue::String(url)) => if url@.len() > 0 {
            Some(url@)
        } else {
            None
        },
        _ => None,
    }
}

/// Law: the cover taken is the largest that the cover object names: its
/// `large` image when there is one, else its `medium` one, else its `small`
/// one; none when it names none. The cover object is the response's own
/// when that is a non-empty object, else the book's.
pub proof fn lemma_largest_cover(m: BookMetadata, root: JsonValue, book: JsonValue, requested: Seq<char>, cover: JsonValue)
    requires
        metadata_matches(m, root, book, requested),
        (json_get(root, "cover"@) == Some(cover) && cover is Object && cover->Object_0@.len() > 0)
            || ((json_get(root, "cover"@) matches Some(c) ==> !(c is Object && c->Object_0@.len() > 0))
            && json_get(book, "cover"@) == Some(cover)),
    ensures
        cover_at(cover, "large"@) is Some ==> opt_view(m.cover_url) == cover_at(cover, "large"@),
        cover_at(cover, "large"@) is None && cover_at(cover, "medium"@) is Some ==> opt_view(
            m.cover_url,
        ) == cover_at(cover, "medium"@),
        cover_at(cover, "large"@) is None && cover_at(cover, "medium"@) is None ==> opt_view(
            m.cover_url,
        ) == cover_at(cover, "small"@),
{
    assert(cover_object(root, book) == cover);
}

// ---------------------------------------------------------------------------
// Executable functions
// ---------------------------------------------------------------------------

/// `value[key]` when `value` is an object that has the member.
pub fn get<'a>(value: &'a JsonValue, key: &str) -> (r: Option<&'a JsonValue>)
    ensures
        match r {
            Some(v) => json_get(*value, key@) == Some(*v),
            None => json_get(*value, key@) is None,
        },
{
    match value {
        JsonValue::Object(members) => {
            let mut i: usize = 0;
            while i < members.len()
                invariant
                    0 <= i <= members@.len(),
                    json_get(*value, key@) == member_from(members@, key@, 0),
                    member_from(members@, key@, 0) == member_from(members@, key@, i as int),
                decreases members@.len() - i,
            {
                if str_eq(members[i].0.as_str(), key) {
                    assert(member_from(members@, key@, i as int) == Some(members@[i as int].1));
                    return Some(&members[i].1);
                }
                i = i + 1;
            }
            None
        },
        _ => None,
    }
}

/// The text of a JSON string.
pub fn string(value: Option<&JsonValue>) -> (r: Option<String>)
    ensures
        opt_view(r) == json_string(
            match value {
                Some(v) => Some(*v),
                None => None,
            },
        ),
{
    match value {
        Some(JsonValue::String(s)) => Some(s.clone()),
        _ => None,
    }
}

/// The text of a JSON string or number.
pub fn scalar_string(value: Option<&JsonValue>) -> (r: Option<String>)
    ensures
        opt_view(r) == json_scalar(
            match value {
                Some(v) => Some(*v),
                None => None,
            },
        ),
{
    match value {
        Some(JsonValue::String(s)) => Some(s.clone()),
        Some(JsonValue::Number(n)) => Some(n.clone()),
        _ => None,
    }
}

fn contains_string(values: &Vec<String>, value: &String) -> (r: bool)
    ensures
        r == string_views(values@).contains(value@),
{
    let mut i: usize = 0;
    while i < values.len()
        invariant
            0 <= i <= values@.len(),
            forall|k: int| 0 <= k < i ==> values@[k]@ != value@,
        decreases values@.len() - i,
    {
        if values[i] == *value {
            assert(string_views(values@)[i as int] == value@);
            return true;
        }
        i = i + 1;
    }
    assert forall|k: int| 0 <= k < string_views(values@).len() implies string_views(
        values@,
    )[k] != value@ by {
        assert(string_views(values@)[k] == values@[k]@);
    }
    false
}

/// Adds `value` at the end of `values` unless it is absent, empty, or
/// already there.
pub fn push_unique(values: &mut Vec<String>, value: Option<String>)
    ensures
        string_views(final(values)@) == push_unique_spec(string_views(old(values)@), opt_view(value)),
{
    if let Some(v) = value {
        if !v.as_str().is_empty() && !contains_string(values, &v) {
            let ghost before = string_views(values@);
            values.push(v);
            assert(string_views(values@) =~= before.push(v@));
        }
    }
}

/// Law: a list built with `push_unique` holds each name once and no empty
/// name.
pub proof fn lemma_push_unique_keeps_distinct(values: Seq<Seq<char>>, value: Option<Seq<char>>)
    requires
        forall|i: int, j: int| 0 <= i < j < values.len() ==> values[i] != values[j],
        forall|i: int| 0 <= i < values.len() ==> (#[trigger] values[i]).len() > 0,
    ensures
        ({
            let r = push_unique_spec(values, value);
            &&& forall|i: int, j: int| 0 <= i < j < r.len() ==> r[i] != r[j]
            &&& forall|i: int| 0 <= i < r.len() ==> (#[trigger] r[i]).len() > 0
        }),
{
    let r = push_unique_spec(values, value);
    if r.len() > values.len() {
        let v = value->0;
        assert forall|i: int, j: int| 0 <= i < j < r.len() implies r[i] != r[j] by {
            if j == values.len() as int {
                assert(r[j] == v);
                assert(r[i] == values[i]);
                if values[i] == v {
                    assert(values.contains(v));
                }
            } else {
                assert(r[i] == values[i] && r[j] == values[j]);
            }
        }
    }
}

/// The authors that an object of the API lists, each once, in order.
pub fn extract_authors(data: &JsonValue) -> (r: Vec<String>)
    ensures
        string_views(r@) == authors_spec(*data),
{
    let mut authors: Vec<String> = Vec::new();
    if let Some(JsonValue::Array(values)) = get(data, "authors_objects") {
        let mut i: usize = 0;
        while i < values.len()
            invariant
                0 <= i <= values@.len(),
                string_views(authors@) == collect_unique(
                    seq![],
                    author_object_names(values@).take(i as int),
                ),
            decreases values@.len() - i,
        {
            let author = &values[i];
            let name = match string(get(author, "name")) {
                Some(n) => Some(n),
                None => string(get(author, "title")),
            };
            assert(opt_view(name) == author_object_names(values@)[i as int]);
            push_unique(&mut authors, name);
            assert(author_object_names(values@).take(i + 1).drop_last() =~= author_object_names(
                values@,
            ).take(i as int));
            i = i + 1;
        }
        assert(author_object_names(values@).take(values@.len() as int) =~= author_object_names(
            values@,
        ));
    }
    let ghost from_objects = string_views(authors@);
    assert(from_objects == match json_array(json_get(*data, "authors_objects"@)) {
        Some(values) => collect_unique(seq![], author_object_names(values)),
        None => seq![],
    });
    match get(data, "authors") {
        Some(JsonValue::String(value)) => {
            let chars = chars_of(value.as_str());
            let parts = split_chars(chars.as_slice(), ',');
            let ghost names = author_string_names(value@);
            assert(string_views(parts@) == split_spec(value@, ','));
            let mut i: usize = 0;
            while i < parts.len()
                invariant
                    0 <= i <= parts@.len(),
                    names == author_string_names(value@),
                    names.len() == parts@.len(),
                    forall|k: int| 0 <= k < parts@.len() ==> names[k] == Some(trim(#[trigger] parts@[k]@)),
                    string_views(authors@) == collect_unique(from_objects, names.take(i as int)),
                decreases parts@.len() - i,
            {
                let part_chars = chars_of(parts[i].as_str());
                let trimmed = trim_string(part_chars.as_slice());
                push_unique(&mut authors, Some(trimmed));
                assert(names.take(i + 1).drop_last() =~= names.take(i as int));
                i = i + 1;
            }
            assert(names.take(parts@.len() as int) =~= names);
        },
        Some(JsonValue::Array(values)) => {
            let mut i: usize = 0;
            while i < values.len()
                invariant
                    0 <= i <= values@.len(),
                    string_views(authors@) == collect_unique(
                        from_objects,
                        author_entry_names(values@).take(i as int),
                    ),
                decreases values@.len() - i,
            {
                let author = match &values[i] {
                    JsonValue::String(s) => Some(s.clone()),
                    JsonValue::Object(_) => string(get(&values[i], "name")),
                    _ => None,
                };
                assert(opt_view(author) == author_entry_names(values@)[i as int]);
                push_unique(&mut authors, author);
                assert(author_entry_names(values@).take(i + 1).drop_last() =~= author_entry_names(
                    values@,
                ).take(i as int));
                i = i + 1;
            }
            assert(author_entry_names(values@).take(values@.len() as int) =~= author_entry_names(
                values@,
            ));
        },
        _ => {},
    }
    assert(string_views(authors@) == authors_spec(*data));
    authors
}

/// The trimmed text of `v`.
fn trim_string(v: &[char]) -> (r: String)
    ensures
        r@ == trim(v@),
{
    let t = crate::text::trimmed(v);
    crate::text::string_of(t.as_slice(), 0, t.len())
}

/// The names in a list of topics or publishers, each once, in order.
pub fn extract_named(value: Option<&JsonValue>) -> (r: Vec<String>)
    ensures
        string_views(r@) == named_spec(
            match value {
                Some(v) => Some(*v),
                None => None,
            },
        ),
{
    let mut result: Vec<String> = Vec::new();
    if let Some(JsonValue::Array(values)) = value {
        let mut i: usize = 0;
        while i < values.len()
            invariant
                0 <= i <= values@.len(),
                string_views(result@) == collect_unique(
                    seq![],
                    named_entries(values@).take(i as int),
                ),
            decreases values@.len() - i,
        {
            let name = match &values[i] {
                JsonValue::String(s) => Some(s.clone()),
                JsonValue::Object(_) => match string(get(&values[i], "title")) {
                    Some(t) => Some(t),
                    None => string(get(&values[i], "name")),
                },
                _ => None,
            };
            assert(opt_view(name) == named_entries(values@)[i as int]);
            push_unique(&mut result, name);
            assert(named_entries(values@).take(i + 1).drop_last() =~= named_entries(values@).take(
                i as int,
            ));
            i = i + 1;
        }
        assert(named_entries(values@).take(values@.len() as int) =~= named_entries(values@));
    }
    result
}

fn text_or_empty(value: Option<String>) -> (r: String)
    ensures
        r@ == text_or_default(opt_view(value)),
{
    match value {
        Some(s) => s,
        None => String::new(),
    }
}

/// The series that the book belongs to.
pub fn extract_series(root: &JsonValue, book: &JsonValue) -> (r: Vec<SeriesInfo>)
    ensures
        series_views(r@) == series_spec(*root, *book),
{
    let empty: Vec<JsonValue> = Vec::new();
    let values: &Vec<JsonValue> = match get(book, "series_list") {
        Some(JsonValue::Array(values)) => values,
        _ => match get(root, "series_list") {
            Some(JsonValue::Array(values)) => values,
            _ => &empty,
        },
    };
    assert(values@ == series_source(*root, *book));
    let mut result: Vec<SeriesInfo> = Vec::new();
    let mut i: usize = 0;
    while i < values.len()
        invariant
            0 <= i <= values@.len(),
            series_views(result@) == values@.take(i as int).map_values(
                |v: JsonValue| series_entry(v),
            ),
        decreases values@.len() - i,
    {
        let series = &values[i];
        let title = text_or_empty(string(get(series, "title")));
        let label = match scalar_string(get(series, "position_label")) {
            Some(l) => Some(l),
            None => scalar_string(get(series, "position")),
        };
        let position_label = text_or_empty(label);
        let uuid = text_or_empty(string(get(series, "uuid")));
        let ghost before = series_views(result@);
        let ghost entry = series_entry(values@[i as int]);
        assert(title@ == entry.0);
        assert(position_label@ == entry.1);
        assert(uuid@ == entry.2);
        result.push(SeriesInfo { title, position_label, uuid });
        assert(series_views(result@) =~= before.push(entry));
        assert(values@.take(i + 1).map_values(|v: JsonValue| series_entry(v)) =~= values@.take(
            i as int,
        ).map_values(|v: JsonValue| series_entry(v)).push(entry));
        assert(series_views(result@) =~= values@.take(i + 1).map_values(
            |v: JsonValue| series_entry(v),
        ));
        i = i + 1;
    }
    assert(values@.take(values@.len() as int) =~= values@);
    result
}

fn nonempty_string(value: Option<String>) -> (r: Option<String>)
    ensures
        opt_view(r) == nonempty_text(opt_view(value)),
{
    match value {
        Some(s) => if s.as_str().is_empty() {
            None
        } else {
            Some(s)
        },
        None => None,
    }
}

/// The largest cover image that the metadata names.
pub fn extract_cover_url(root: &JsonValue, book: &JsonValue) -> (r: Option<String>)
    ensures
        opt_view(r) == cover_url_spec(*root, *book),
{
    let null = JsonValue::Null;
    let root_cover = get(root, "cover");
    let use_root = match root_cover {
        Some(JsonValue::Object(members)) => members.len() > 0,
        _ => false,
    };
    let cover: &JsonValue = if use_root {
        root_cover.unwrap()
    } else {
        match get(book, "cover") {
            Some(b) => b,
            None => &null,
        }
    };
    assert(*cover == cover_object(*root, *book));
    match nonempty_string(string(get(cover, "large"))) {
        Some(url) => Some(url),
        None => match nonempty_string(string(get(cover, "medium"))) {
            Some(url) => Some(url),
            None => nonempty_string(string(get(cover, "small"))),
        },
    }
}

/// The book metadata in an API response `root` whose book object is `book`,
/// for the book requested as `requested_uuid`.
pub fn extract_metadata(root: &JsonValue, book: &JsonValue, requested_uuid: &str) -> (r:
    BookMetadata)
    ensures
        metadata_matches(r, *root, *book, requested_uuid@),
{
    let root_authors = extract_authors(root);
    let authors = if root_authors.len() == 0 {
        extract_authors(book)
    } else {
        root_authors
    };
    let genres = remove_word(&extract_named(get(book, "topics")), "Виртуальный рассказчик");
    let uuid = match nonempty_string(string(get(book, "uuid"))) {
        Some(u) => u,
        None => String::from_str(requested_uuid),
    };
    let title = match nonempty_string(string(get(book, "title"))) {
        Some(t) => t,
        None => String::from_str("Unknown title"),
    };
    let annotation = text_or_empty(string(get(book, "annotation")));
    let publishers = extract_named(get(book, "publishers"));
    let series = extract_series(root, book);
    let cover_url = extract_cover_url(root, book);
    let mut source = String::from_str("https://books.yandex.ru/books/");
    source.append(requested_uuid);
    let original_year = scalar_string(get(book, "original_year"));
    let rights = nonempty_string(string(get(book, "owner_catalog_title")));
    BookMetadata {
        uuid,
        title,
        authors,
        annotation,
        genres,
        publishers,
        series,
        cover_url,
        source,
        original_year,
        rights,
    }
}

} // verus!
