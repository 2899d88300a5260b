use yaebook::book::Error;
use yaebook::client::{
    book_url, check_epub, content_url, metadata_from_response, request_step, start_request,
    Outcome, Step, MAX_ATTEMPTS,
};
use yaebook::json::JsonValue;

#[test]
fn retries_with_growing_waits_then_gives_up() {
    let mut state = start_request();
    assert_eq!(request_step(&mut state, Outcome::Status(503)), Step::RetryAfter(1));
    assert_eq!(request_step(&mut state, Outcome::Status(429)), Step::RetryAfter(2));
    assert_eq!(state.attempt, MAX_ATTEMPTS - 1);
    assert_eq!(
        request_step(&mut state, Outcome::Status(500)),
        Step::Fail(Error::Transport("server error 500".into()))
    );
}

#[test]
fn stops_at_once_on_final_answers() {
    let mut state = start_request();
    assert_eq!(request_step(&mut state, Outcome::Success), Step::Deliver);
    assert_eq!(request_step(&mut state, Outcome::Status(401)), Step::Fail(Error::InvalidToken));
    assert_eq!(request_step(&mut state, Outcome::Status(404)), Step::Fail(Error::Http(404)));
    assert_eq!(state.attempt, 0);
    assert_eq!(state.last_error, "unknown error");
    assert_eq!(
        request_step(&mut state, Outcome::Transport("timed out".into())),
        Step::RetryAfter(1)
    );
    assert_eq!(state.last_error, "timed out");
}

#[test]
fn builds_api_addresses() {
    assert_eq!(book_url("X1"), "https://api.bookmate.yandex.net/api/v5/books/X1");
    assert_eq!(content_url("X1"), "https://api.bookmate.yandex.net/api/v5/books/X1/content/v4");
}

#[test]
fn accepts_only_zip_archives() {
    assert_eq!(check_epub(b"PK\x03\x04".to_vec()), Ok(b"PK\x03\x04".to_vec()));
    assert_eq!(
        check_epub(b"<html>".to_vec()),
        Err(Error::InvalidResponse("the server returned a file that is not an EPUB".into()))
    );
}

#[test]
fn refuses_books_that_cannot_be_read() {
    let data = JsonValue::Object(vec![(
        "book".into(),
        JsonValue::Object(vec![("can_be_read".into(), JsonValue::Bool(false))]),
    )]);
    assert_eq!(metadata_from_response(&data, "X").map(|m| m.uuid), Err(Error::Unavailable));
    let readable = JsonValue::Object(vec![(
        "book".into(),
        JsonValue::Object(vec![("title".into(), JsonValue::String("T".into()))]),
    )]);
    let metadata = metadata_from_response(&readable, "X").unwrap();
    assert_eq!(metadata.uuid, "X");
    assert_eq!(metadata.title, "T");
    assert_eq!(metadata.source, "https://books.yandex.ru/books/X");
}
