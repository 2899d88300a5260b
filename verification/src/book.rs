//! The shared book model, book identifiers and output file naming.

use vstd::prelude::*;

use crate::text::{
    ascii_lower, chars_of, eq_ignore_ascii_case, find_from, is_ascii_alphanumeric, is_whitespace,
    is_control, is_control_char, trimmed, is_whitespace_char, join, join_strings, lemma_join_keeps,
    lemma_words_keep, lower_ascii, split_words, str_eq, string_views, whitespace_pred, words, string_of, trim, trim_end_with, trim_start_with,
    is_word, lemma_words_are_words, lemma_words_of_join,
};

verus! {

/// What can go wrong while talking to Yandex Books.
#[derive(Debug, Clone, PartialEq, Eq)]
pub enum Error {
    InvalidBook,
    InvalidToken,
    Unavailable,
    Http(u16),
    Transport(String),
    InvalidResponse(String),
}

#[derive(Clone, Debug, Default, Eq, PartialEq)]
pub struct SeriesInfo {
    pub title: String,
    pub position_label: String,
    pub uuid: String,
}

#[derive(Clone, Debug, Default, Eq, PartialEq)]
pub struct BookMetadata {
    pub uuid: String,
    pub title: String,
    pub authors: Vec<String>,
    pub annotation: String,
    pub genres: Vec<String>,
    pub publishers: Vec<String>,
    pub series: Vec<SeriesInfo>,
    pub cover_url: Option<String>,
    pub source: String,
    pub original_year: Option<String>,
    pub rights: Option<String>,
}

#[derive(Debug)]
pub struct DownloadedBook {
    pub metadata: BookMetadata,
    pub epub: Vec<u8>,
    pub cover: Option<Vec<u8>>,
}

// ---------------------------------------------------------------------------
// Book identifiers
// ---------------------------------------------------------------------------

/// A book identifier: non-empty, ASCII letters, digits, `_` and `-` only.
pub open spec fn valid_uuid(value: Seq<char>) -> bool {
    &&& value.len() > 0
    &&& forall|i: int| 0 <= i < value.len() ==> is_uuid_char(#[trigger] value[i])
}

pub open spec fn is_uuid_char(c: char) -> bool {
    is_ascii_alphanumeric(c) || c == '_' || c == '-'
}

/// `value` without `prefix`, compared ignoring ASCII case.
pub open spec fn strip_ascii_prefix_spec(value: Seq<char>, prefix: Seq<char>) -> Option<
    Seq<char>,
> {
    if value.len() >= prefix.len() && eq_ignore_ascii_case(value.take(prefix.len() as int), prefix) {
        Some(value.skip(prefix.len() as int))
    } else {
        None
    }
}

/// The part of the input that names a book: trimmed, cut at the first `?`
/// or `#`, and without trailing slashes.
pub open spec fn book_reference(input: Seq<char>) -> Seq<char> {
    let t = trim(input);
    let end = match find_from(t, query_pred(), 0) {
        Some(i) => i,
        None => t.len() as int,
    };
    trim_end_with(t.take(end), slash_pred())
}

pub open spec fn query_pred() -> spec_fn(char) -> bool {
    |c: char| c == '?' || c == '#'
}

pub open spec fn slash_pred() -> spec_fn(char) -> bool {
    |c: char| c == '/'
}

pub open spec fn without_scheme(value: Seq<char>) -> Seq<char> {
    match strip_ascii_prefix_spec(value, "https://"@) {
        Some(rest) => rest,
        None => match strip_ascii_prefix_spec(value, "http://"@) {
            Some(rest) => rest,
            None => value,
        },
    }
}

/// The book identifier named by a book URL or a bare identifier.
pub open spec fn book_id_of(input: Seq<char>) -> Option<Seq<char>> {
    let value = book_reference(input);
    let path = strip_ascii_prefix_spec(without_scheme(value), "books.yandex.ru/books/"@);
    if path is Some && valid_uuid(path->0) {
        path
    } else if valid_uuid(value) {
        Some(value)
    } else {
        None
    }
}

fn valid_uuid_chars(value: &[char]) -> (r: bool)
    ensures
        r == valid_uuid(value@),
{
    if value.len() == 0 {
        return false;
    }
    let mut i: usize = 0;
    while i < value.len()
        invariant
            0 <= i <= value@.len(),
            forall|k: int| 0 <= k < i ==> is_uuid_char(#[trigger] value@[k]),
        decreases value@.len() - i,
    {
        let c = value[i];
        if !(('0' <= c && c <= '9') || ('a' <= c && c <= 'z') || ('A' <= c && c <= 'Z') || c
            == '_' || c == '-') {
            return false;
        }
        i = i + 1;
    }
    true
}

/// Whether `value` is a book identifier.
pub fn valid_uuid_str(value: &str) -> (r: bool)
    ensures
        r == valid_uuid(value@),
{
    let v = chars_of(value);
    valid_uuid_chars(v.as_slice())
}

fn strip_ascii_prefix(value: &[char], prefix: &str) -> (r: Option<Vec<char>>)
    ensures
        match r {
            Some(rest) => strip_ascii_prefix_spec(value@, prefix@) == Some(rest@),
            None => strip_ascii_prefix_spec(value@, prefix@) is None,
        },
{
    let p = chars_of(prefix);
    if value.len() < p.len() {
        return None;
    }
    let mut i: usize = 0;
    while i < p.len()
        invariant
            p@ == prefix@,
            p@.len() <= value@.len(),
            0 <= i <= p@.len(),
            forall|k: int| 0 <= k < i ==> ascii_lower(#[trigger] value@[k]) == ascii_lower(p@[k]),
        decreases p@.len() - i,
    {
        if lower_ascii(value[i]) != lower_ascii(p[i]) {
            assert(value@.take(p@.len() as int)[i as int] == value@[i as int]);
            return None;
        }
        i = i + 1;
    }
    assert(eq_ignore_ascii_case(value@.take(p@.len() as int), prefix@));
    let mut rest: Vec<char> = Vec::new();
    let mut j = p.len();
    while j < value.len()
        invariant
            p@.len() <= j <= value@.len(),
            rest@ == value@.subrange(p@.len() as int, j as int),
        decreases value@.len() - j,
    {
        rest.push(value[j]);
        j = j + 1;
    }
    assert(rest@ =~= value@.skip(p@.len() as int));
    Some(rest)
}

/// The identifier of the book that `input` names: a book URL such as
/// `https://books.yandex.ru/books/UUID`, or the identifier itself.
pub fn parse_book_id(input: &str) -> (r: Result<String, Error>)
    ensures
        match r {
            Ok(id) => book_id_of(input@) == Some(id@) && valid_uuid(id@),
            Err(e) => book_id_of(input@) is None && e == Error::InvalidBook,
        },
{
    let all = chars_of(input);
    let t = trimmed(all.as_slice());
    let ghost stop = query_pred();
    let mut end: usize = 0;
    while end < t.len() && !(t[end] == '?' || t[end] == '#')
        invariant
            0 <= end <= t@.len(),
            stop == query_pred(),
            find_from(t@, stop, 0) == find_from(t@, stop, end as int),
        decreases t@.len() - end,
    {
        end = end + 1;
    }
    assert(end < t@.len() ==> find_from(t@, stop, end as int) == Some(end as int));
    assert(end == t@.len() ==> find_from(t@, stop, end as int) is None);
    let ghost slash = slash_pred();
    while end > 0 && t[end - 1] == '/'
        invariant
            0 <= end <= t@.len(),
            slash == slash_pred(),
            book_reference(input@) == trim_end_with(t@.take(end as int), slash),
        decreases end,
    {
        assert(t@.take(end as int).drop_last() =~= t@.take(end - 1));
        end = end - 1;
    }
    let mut value: Vec<char> = Vec::new();
    let mut i: usize = 0;
    while i < end
        invariant
            0 <= i <= end <= t@.len(),
            value@ == t@.take(i as int),
        decreases end - i,
    {
        value.push(t[i]);
        i = i + 1;
    }
    assert(value@ == book_reference(input@));
    let stripped = match strip_ascii_prefix(value.as_slice(), "https://") {
        Some(rest) => rest,
        None => match strip_ascii_prefix(value.as_slice(), "http://") {
            Some(rest) => rest,
            None => value.clone(),
        },
    };
    assert(stripped@ == without_scheme(value@));
    if let Some(uuid) = strip_ascii_prefix(stripped.as_slice(), "books.yandex.ru/books/") {
        if valid_uuid_chars(uuid.as_slice()) {
            return Ok(string_of(uuid.as_slice(), 0, uuid.len()));
        }
    }
    if valid_uuid_chars(value.as_slice()) {
        return Ok(string_of(value.as_slice(), 0, value.len()));
    }
    Err(Error::InvalidBook)
}

/// Law: a bare book identifier names itself.
pub proof fn lemma_bare_identifier_names_itself(input: Seq<char>)
    requires
        valid_uuid(input),
    ensures
        book_id_of(input) == Some(input),
{
    let ws = whitespace_pred();
    let stop = query_pred();
    let slash = slash_pred();
    assert(!ws(input[0]));
    assert(trim_start_with(input, ws) == input);
    assert(!ws(input.last())) by {
        assert(is_uuid_char(input[input.len() - 1]));
    }
    assert(trim(input) == input);
    lemma_find_none(input, stop, 0);
    assert(input.take(input.len() as int) =~= input);
    assert(!slash(input.last())) by {
        assert(is_uuid_char(input[input.len() - 1]));
    }
    assert(book_reference(input) == input);
    assert(strip_ascii_prefix_spec(input, "https://"@) is None) by {
        reveal_strlit("https://");
        if input.len() >= 8 {
            assert(is_uuid_char(input[5]));
            assert(input.take(8)[5] == input[5]);
        }
    }
    assert(strip_ascii_prefix_spec(input, "http://"@) is None) by {
        reveal_strlit("http://");
        if input.len() >= 7 {
            assert(is_uuid_char(input[4]));
            assert(input.take(7)[4] == input[4]);
        }
    }
    assert(strip_ascii_prefix_spec(input, "books.yandex.ru/books/"@) is None) by {
        reveal_strlit("books.yandex.ru/books/");
        if input.len() >= 22 {
            assert(is_uuid_char(input[5]));
            assert(input.take(22)[5] == input[5]);
        }
    }
}

/// Law: an identifier taken from a book URL or a bare identifier is itself
/// accepted, unchanged, as a bare identifier.
pub proof fn lemma_identifier_names_itself(input: Seq<char>)
    requires
        book_id_of(input) is Some,
    ensures
        valid_uuid(book_id_of(input)->0),
        book_id_of(book_id_of(input)->0) == book_id_of(input),
{
    lemma_bare_identifier_names_itself(book_id_of(input)->0);
}

/// `a` is `prefix` followed by something, ignoring ASCII case.
proof fn lemma_strip_exact(prefix: Seq<char>, rest: Seq<char>)
    ensures
        strip_ascii_prefix_spec(prefix + rest, prefix) == Some(rest),
{
    let v = prefix + rest;
    assert(v.take(prefix.len() as int) =~= prefix);
    assert(v.skip(prefix.len() as int) =~= rest);
}

/// The book path of the store, before the identifier.
pub open spec fn book_path() -> Seq<char> {
    "books.yandex.ru/books/"@
}

/// `s` is a book URL without scheme, and neither surrounding whitespace,
/// a query, a fragment nor a trailing slash is in it.
proof fn lemma_book_reference_plain(s: Seq<char>, head: Seq<char>, id: Seq<char>)
    requires
        s == head + id,
        valid_uuid(id),
        head.len() > 0,
        !is_whitespace(head[0]),
        forall|k: int| 0 <= k < head.len() ==> head[k] != '?' && head[k] != '#',
    ensures
        book_reference(s) == s,
{
    let ws = whitespace_pred();
    let stop = query_pred();
    let slash = slash_pred();
    assert(s[0] == head[0]);
    assert(trim_start_with(s, ws) == s);
    assert(s[s.len() - 1] == id[id.len() - 1]);
    assert(is_uuid_char(id[id.len() - 1]));
    assert(!ws(s.last()));
    assert(trim(s) == s);
    assert forall|k: int| 0 <= k < s.len() implies !stop(#[trigger] s[k]) by {
        if k < head.len() {
            assert(s[k] == head[k]);
        } else {
            assert(s[k] == id[k - head.len()]);
            assert(is_uuid_char(id[k - head.len()]));
        }
    }
    lemma_find_none(s, stop, 0);
    assert(s.take(s.len() as int) =~= s);
    assert(!slash(s.last()));
}

/// The characters of a known text, checked one by one.
proof fn lemma_no_query_chars(t: Seq<char>)
    requires
        t == book_path() || t == "https://"@ + book_path() || t == "http://"@ + book_path(),
    ensures
        forall|k: int| 0 <= k < t.len() ==> t[k] != '?' && t[k] != '#',
        !is_whitespace(t[0]),
{
    reveal_strlit("books.yandex.ru/books/");
    reveal_strlit("https://");
    reveal_strlit("http://");
    assert forall|k: int| 0 <= k < t.len() implies t[k] != '?' && t[k] != '#' by {
        assert(0 <= k < 30);
        assert(k == 0 || k == 1 || k == 2 || k == 3 || k == 4 || k == 5 || k == 6 || k == 7 || k == 8
            || k == 9 || k == 10 || k == 11 || k == 12 || k == 13 || k == 14 || k == 15 || k == 16
            || k == 17 || k == 18 || k == 19 || k == 20 || k == 21 || k == 22 || k == 23 || k == 24
            || k == 25 || k == 26 || k == 27 || k == 28 || k == 29);
    }
}

/// Law: the store's URL of a book, with or without an `http://` or
/// `https://` scheme, names the book's identifier.
pub proof fn lemma_book_url_names_book(id: Seq<char>)
    requires
        valid_uuid(id),
    ensures
        book_id_of(book_path() + id) == Some(id),
        book_id_of("https://"@ + book_path() + id) == Some(id),
        book_id_of("http://"@ + book_path() + id) == Some(id),
{
    reveal_strlit("books.yandex.ru/books/");
    reveal_strlit("https://");
    reveal_strlit("http://");
    let path = book_path();
    let secure = "https://"@ + path;
    let plain = "http://"@ + path;
    lemma_no_query_chars(path);
    lemma_no_query_chars(secure);
    lemma_no_query_chars(plain);
    lemma_strip_exact(path, id);
    // Without a scheme.
    let s0 = path + id;
    lemma_book_reference_plain(s0, path, id);
    assert(strip_ascii_prefix_spec(s0, "https://"@) is None) by {
        assert(s0[0] == 'b');
        if s0.len() >= 8 {
            assert(s0.take(8)[0] == 'b');
            assert(ascii_lower(s0.take(8)[0]) != ascii_lower("https://"@[0]));
        }
    }
    assert(strip_ascii_prefix_spec(s0, "http://"@) is None) by {
        assert(s0[0] == 'b');
        if s0.len() >= 7 {
            assert(s0.take(7)[0] == 'b');
            assert(ascii_lower(s0.take(7)[0]) != ascii_lower("http://"@[0]));
        }
    }
    assert(without_scheme(s0) == s0);
    // With `https://`.
    let s1 = "https://"@ + path + id;
    assert(s1 =~= secure + id);
    lemma_book_reference_plain(s1, secure, id);
    assert(s1 =~= "https://"@ + (path + id));
    lemma_strip_exact("https://"@, path + id);
    assert(without_scheme(s1) == path + id);
    // With `http://`.
    let s2 = "http://"@ + path + id;
    assert(s2 =~= plain + id);
    lemma_book_reference_plain(s2, plain, id);
    assert(s2 =~= "http://"@ + (path + id));
    lemma_strip_exact("http://"@, path + id);
    assert(strip_ascii_prefix_spec(s2, "https://"@) is None) by {
        assert(s2.take(8)[4] == ':');
        assert(ascii_lower(s2.take(8)[4]) != ascii_lower("https://"@[4]));
    }
    assert(without_scheme(s2) == path + id);
}

/// No character of `s` from `i` on satisfies `p`.
pub proof fn lemma_find_none(s: Seq<char>, p: spec_fn(char) -> bool, i: int)
    requires
        0 <= i,
        forall|k: int| i <= k < s.len() ==> !p(#[trigger] s[k]),
    ensures
        find_from(s, p, i) is None,
    decreases s.len() - i,
{
    if i < s.len() {
        lemma_find_none(s, p, i + 1);
    }
}

// ---------------------------------------------------------------------------
// File names
// ---------------------------------------------------------------------------

/// The replacement that file names get for one character.
pub open spec fn sanitize_char(c: char) -> char {
    if c == '\\' || c == '/' || c == '|' {
        '-'
    } else if c == ':' {
        ';'
    } else if c == '*' {
        'x'
    } else if c == '?' {
        '!'
    } else if c == '"' {
        '\''
    } else if c == '<' {
        '('
    } else if c == '>' {
        ')'
    } else if is_control(c) {
        ' '
    } else {
        c
    }
}

/// A character that may stand in a sanitized file name.
pub open spec fn filename_safe(c: char) -> bool {
    &&& c != '\\' && c != '/' && c != '|' && c != ':' && c != '*'
    &&& c != '?' && c != '"' && c != '<' && c != '>'
    &&& !is_control(c)
}

pub open spec fn filename_safe_pred() -> spec_fn(char) -> bool {
    |c: char| filename_safe(c)
}

/// A file name made of `value`: reserved characters replaced, runs of
/// whitespace collapsed to one space, and `Unknown` for a name that would be
/// empty, `.` or `..`.
pub open spec fn sanitize_filename_spec(value: Seq<char>) -> Seq<char> {
    let cleaned = join(words(value.map_values(|c: char| sanitize_char(c))), " "@);
    if cleaned.len() == 0 || cleaned == "."@ || cleaned == ".."@ {
        "Unknown"@
    } else {
        cleaned
    }
}

fn sanitize_one(c: char) -> (r: char)
    ensures
        r == sanitize_char(c),
{
    if c == '\\' || c == '/' || c == '|' {
        '-'
    } else if c == ':' {
        ';'
    } else if c == '*' {
        'x'
    } else if c == '?' {
        '!'
    } else if c == '"' {
        '\''
    } else if c == '<' {
        '('
    } else if c == '>' {
        ')'
    } else if is_control_char(c) {
        ' '
    } else {
        c
    }
}

/// A file name made of `value`, safe on the common file systems.
pub fn sanitize_filename(value: &str) -> (r: String)
    ensures
        r@ == sanitize_filename_spec(value@),
        r@.len() > 0,
        r@ != "."@,
        r@ != ".."@,
        forall|k: int| 0 <= k < r@.len() ==> filename_safe(#[trigger] r@[k]),
{
    let v = chars_of(value);
    let mut mapped: Vec<char> = Vec::new();
    let mut i: usize = 0;
    while i < v.len()
        invariant
            0 <= i <= v@.len(),
            mapped@ == v@.take(i as int).map_values(|c: char| sanitize_char(c)),
        decreases v@.len() - i,
    {
        mapped.push(sanitize_one(v[i]));
        i = i + 1;
        assert(mapped@ =~= v@.take(i as int).map_values(|c: char| sanitize_char(c)));
    }
    assert(v@.take(v@.len() as int) =~= v@);
    let parts = split_words(mapped.as_slice());
    let cleaned = join_strings(&parts, " ");
    proof {
        lemma_sanitized_chars_safe(value@);
    }
    if cleaned.as_str().is_empty() || str_eq(cleaned.as_str(), ".") || str_eq(
        cleaned.as_str(),
        "..",
    ) {
        let r = String::from_str("Unknown");
        proof {
            reveal_strlit("Unknown");
            reveal_strlit(".");
            reveal_strlit("..");
        }
        r
    } else {
        cleaned
    }
}

/// Law: a sanitized file name holds no path separator, no reserved
/// character and no control character, and is neither empty, `.` nor `..`.
pub proof fn lemma_sanitized_chars_safe(value: Seq<char>)
    ensures
        ({
            let r = sanitize_filename_spec(value);
            &&& r.len() > 0
            &&& r != "."@
            &&& r != ".."@
            &&& forall|k: int| 0 <= k < r.len() ==> filename_safe(#[trigger] r[k])
        }),
{
    let p = filename_safe_pred();
    let mapped = value.map_values(|c: char| sanitize_char(c));
    assert forall|k: int| 0 <= k < mapped.len() implies p(#[trigger] mapped[k]) by {
        assert(mapped[k] == sanitize_char(value[k]));
    }
    lemma_words_keep(mapped, p);
    reveal_strlit(" ");
    lemma_join_keeps(words(mapped), " "@, p);
    reveal_strlit("Unknown");
    reveal_strlit(".");
    reveal_strlit("..");
    let cleaned = join(words(mapped), " "@);
    if !(cleaned.len() == 0 || cleaned == "."@ || cleaned == ".."@) {
        assert forall|k: int| 0 <= k < cleaned.len() implies filename_safe(#[trigger] cleaned[k]) by {
            assert(p(cleaned[k]));
        }
    } else {
        let u = "Unknown"@;
        assert forall|k: int| 0 <= k < u.len() implies filename_safe(#[trigger] u[k]) by {
            assert(u.len() == 7);
            assert(k == 0 || k == 1 || k == 2 || k == 3 || k == 4 || k == 5 || k == 6);
        }
        assert(u != "."@) by {
            assert(u.len() != "."@.len());
        }
        assert(u != ".."@) by {
            assert(u.len() != ".."@.len());
        }
    }
}

/// Law: a sanitized name is its words joined by single spaces (no leading,
/// trailing or repeated whitespace), and sanitizing it again changes
/// nothing.
pub proof fn lemma_sanitize_idempotent(value: Seq<char>)
    ensures
        join(words(sanitize_filename_spec(value)), " "@) == sanitize_filename_spec(value),
        sanitize_filename_spec(sanitize_filename_spec(value)) == sanitize_filename_spec(value),
{
    let r = sanitize_filename_spec(value);
    lemma_sanitized_chars_safe(value);
    let mapped = value.map_values(|c: char| sanitize_char(c));
    lemma_words_are_words(mapped);
    lemma_words_of_join(words(mapped));
    reveal_strlit("Unknown");
    reveal_strlit(".");
    reveal_strlit("..");
    reveal_strlit(" ");
    let u = "Unknown"@;
    if r == u {
        assert(is_word(u)) by {
            assert forall|j: int| 0 <= j < u.len() implies !is_whitespace(#[trigger] u[j]) by {
                assert(j == 0 || j == 1 || j == 2 || j == 3 || j == 4 || j == 5 || j == 6);
            }
        }
        lemma_words_of_join(seq![u]);
        assert(join(seq![u], " "@) == u);
    }
    assert(words(r) == if r == u { seq![u] } else { words(mapped) });
    assert(join(words(r), " "@) == r);
    let again = r.map_values(|c: char| sanitize_char(c));
    assert(again =~= r) by {
        assert forall|k: int| 0 <= k < r.len() implies again[k] == r[k] by {
            assert(filename_safe(r[k]));
        }
    }
}

/// Law: turning a two-word name round twice gives its words back, joined
/// by one space.
pub proof fn lemma_author_name_round_trip(name: Seq<char>)
    requires
        words(name).len() == 2,
    ensures
        format_author_name_spec(format_author_name_spec(name)) == join(words(name), " "@),
{
    let parts = words(name);
    lemma_words_are_words(name);
    let swapped = seq![parts[1], parts[0]];
    assert(is_word(swapped[0]) && is_word(swapped[1]));
    lemma_words_of_join(swapped);
    reveal_strlit(" ");
    assert(join(swapped, " "@) == parts[1] + " "@ + parts[0]) by {
        assert(swapped.drop_last() =~= seq![parts[1]]);
        assert(join(seq![parts[1]], " "@) == parts[1]);
        assert(swapped.last() == parts[0]);
    }
    assert(join(parts, " "@) == parts[0] + " "@ + parts[1]) by {
        assert(parts.drop_last() =~= seq![parts[0]]);
        assert(join(seq![parts[0]], " "@) == parts[0]);
        assert(parts.last() == parts[1]);
    }
}

/// A name given as "First Last" or "First Middle Last", turned round to
/// "Last First" or "Last First Middle"; any other name as it is.
pub open spec fn format_author_name_spec(name: Seq<char>) -> Seq<char> {
    let parts = words(name);
    if parts.len() == 2 {
        parts[1] + " "@ + parts[0]
    } else if parts.len() == 3 {
        parts[2] + " "@ + parts[0] + " "@ + parts[1]
    } else {
        name
    }
}

/// The author's name with the family name first.
pub fn format_author_name(name: &str) -> (r: String)
    ensures
        r@ == format_author_name_spec(name@),
{
    let v = chars_of(name);
    let parts = split_words(v.as_slice());
    assert(string_views(parts@).len() == parts@.len());
    if parts.len() == 2 {
        assert(string_views(parts@)[0] == parts@[0]@);
        assert(string_views(parts@)[1] == parts@[1]@);
        let mut r = parts[1].clone();
        r.append(" ");
        r.append(parts[0].as_str());
        r
    } else if parts.len() == 3 {
        assert(string_views(parts@)[0] == parts@[0]@);
        assert(string_views(parts@)[1] == parts@[1]@);
        assert(string_views(parts@)[2] == parts@[2]@);
        let mut r = parts[2].clone();
        r.append(" ");
        r.append(parts[0].as_str());
        r.append(" ");
        r.append(parts[1].as_str());
        r
    } else {
        String::from_str(name)
    }
}

/// The author that a book's file is named after.
pub open spec fn naming_author(metadata: BookMetadata) -> Seq<char> {
    if metadata.authors@.len() > 0 && metadata.authors@[0]@.len() > 0 {
        metadata.authors@[0]@
    } else {
        "Unknown author"@
    }
}

/// The title that a book's file is named after.
pub open spec fn naming_title(metadata: BookMetadata) -> Seq<char> {
    if metadata.title@.len() > 0 {
        metadata.title@
    } else {
        "Unknown title"@
    }
}

/// The file name of a book: "Author. Title.epub", each part sanitized.
pub open spec fn output_file_name_spec(metadata: BookMetadata) -> Seq<char> {
    let author = sanitize_filename_spec(format_author_name_spec(naming_author(metadata)));
    let title = sanitize_filename_spec(naming_title(metadata));
    sanitize_filename_spec(author + ". "@ + title + ".epub"@)
}

/// `PathBuf::join` of a relative name that holds no separator.
pub open spec fn join_path(directory: Seq<char>, name: Seq<char>) -> Seq<char> {
    if directory.len() == 0 {
        name
    } else if directory.last() == '/' {
        directory + name
    } else {
        directory + "/"@ + name
    }
}

/// The file name under which a book is saved.
pub fn output_file_name(metadata: &BookMetadata) -> (r: String)
    ensures
        r@ == output_file_name_spec(*metadata),
{
    let source_author: &str = if metadata.authors.len() > 0 && !metadata.authors[0].as_str().is_empty() {
        metadata.authors[0].as_str()
    } else {
        "Unknown author"
    };
    let author = sanitize_filename(format_author_name(source_author).as_str());
    let title_source: &str = if metadata.title.as_str().is_empty() {
        "Unknown title"
    } else {
        metadata.title.as_str()
    };
    let title = sanitize_filename(title_source);
    let mut name = author;
    name.append(". ");
    name.append(title.as_str());
    name.append(".epub");
    sanitize_filename(name.as_str())
}

/// The path under `output_directory` where a book is saved.
pub fn build_output_path(output_directory: &str, metadata: &BookMetadata) -> (r: String)
    ensures
        r@ == join_path(output_directory@, output_file_name_spec(*metadata)),
{
    let name = output_file_name(metadata);
    let d = chars_of(output_directory);
    if d.len() == 0 {
        name
    } else if d[d.len() - 1] == '/' {
        let mut r = String::from_str(output_directory);
        r.append(name.as_str());
        r
    } else {
        let mut r = String::from_str(output_directory);
        r.append("/");
        r.append(name.as_str());
        r
    }
}

} // verus!
