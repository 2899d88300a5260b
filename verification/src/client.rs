//! The decisions of the Yandex Books client: where to ask, when to ask
//! again, and what to make of the answers. The requests themselves are made
//! by the caller, which hands each outcome back.

use vstd::prelude::*;

use crate::book::{BookMetadata, Error};
use crate::json::{extract_metadata, get, json_get, metadata_matches, JsonValue};
use crate::text::{decimal, decimal_string, push_char};

verus! {

pub const BASE_URL: &'static str = "https://api.bookmate.yandex.net/api/v5";

pub const APP_USER_AGENT: &'static str = "Google/Pixel_4a Android/12 Bookmate/6.66.0";

/// How many times one request is made before giving up.
pub const MAX_ATTEMPTS: usize = 3;

pub open spec fn base_url() -> Seq<char> {
    "https://api.bookmate.yandex.net/api/v5"@
}

/// The address of a book's details.
pub fn book_url(uuid: &str) -> (r: String)
    ensures
        r@ == base_url() + "/books/"@ + uuid@,
{
    let mut r = String::from_str(BASE_URL);
    r.append("/books/");
    r.append(uuid);
    r
}

/// The address of a book's EPUB file.
pub fn content_url(uuid: &str) -> (r: String)
    ensures
        r@ == base_url() + "/books/"@ + uuid@ + "/content/v4"@,
{
    let mut r = book_url(uuid);
    r.append("/content/v4");
    r
}

/// What came of one request.
pub enum Outcome {
    /// The server answered with success.
    Success,
    /// The server answered with this error status.
    Status(u16),
    /// No answer came; the text says why.
    Transport(String),
}

/// What to do after an outcome.
#[derive(Debug, PartialEq, Eq)]
pub enum Step {
    /// Hand the answer to the caller.
    Deliver,
    /// Give up with this error.
    Fail(Error),
    /// Wait this many seconds, then make the request again.
    RetryAfter(u64),
}

/// The state of one request across its attempts.
pub struct RequestState {
    pub attempt: usize,
    pub last_error: String,
}

pub open spec fn retryable(status: u16) -> bool {
    status == 429 || status >= 500
}

/// The description of a failed attempt that may be retried.
pub open spec fn failure_text(outcome: Outcome) -> Seq<char> {
    match outcome {
        Outcome::Status(status) => if status == 429 {
            "too many requests"@
        } else {
            "server error "@ + decimal(status as nat)
        },
        Outcome::Transport(text) => text@,
        Outcome::Success => seq![],
    }
}

/// Whether `outcome` ends the request at once, and how.
pub open spec fn final_step(outcome: Outcome) -> Option<Step> {
    match outcome {
        Outcome::Success => Some(Step::Deliver),
        Outcome::Status(status) => if status == 401 {
            Some(Step::Fail(Error::InvalidToken))
        } else if retryable(status) {
            None
        } else {
            Some(Step::Fail(Error::Http(status)))
        },
        Outcome::Transport(_) => None,
    }
}

/// `2^attempt` seconds: the wait before the next attempt.
pub open spec fn backoff(attempt: nat) -> u64
    decreases attempt,
{
    if attempt == 0 {
        1
    } else {
        (2 * backoff((attempt - 1) as nat)) as u64
    }
}

/// A request that has not been made yet.
pub fn start_request() -> (r: RequestState)
    ensures
        r.attempt == 0,
        r.last_error@ == "unknown error"@,
{
    RequestState { attempt: 0, last_error: String::from_str("unknown error") }
}

/// What to do after `outcome`, the outcome of attempt `state.attempt`.
pub fn request_step(state: &mut RequestState, outcome: Outcome) -> (r: Step)
    requires
        old(state).attempt < MAX_ATTEMPTS,
    ensures
        match final_step(outcome) {
            Some(step) => r == step && *final(state) == *old(state),
            None => {
                &&& final(state).last_error@ == failure_text(outcome)
                &&& if old(state).attempt + 1 < MAX_ATTEMPTS {
                    &&& r == Step::RetryAfter(backoff(old(state).attempt as nat))
                    &&& final(state).attempt == old(state).attempt + 1
                } else {
                    &&& r matches Step::Fail(Error::Transport(text))
                    &&& text@ == failure_text(outcome)
                    &&& final(state).attempt == old(state).attempt
                }
            },
        },
{
    let ghost outcome_spec = outcome;
    match outcome {
        Outcome::Success => {
            return Step::Deliver;
        },
        Outcome::Status(status) => {
            if status == 401 {
                return Step::Fail(Error::InvalidToken);
            }
            if !(status == 429 || status >= 500) {
                return Step::Fail(Error::Http(status));
            }
            if status == 429 {
                state.last_error = String::from_str("too many requests");
            } else {
                let mut text = String::from_str("server error ");
                let digits = decimal_string(status as u128);
                text.append(digits.as_str());
                state.last_error = text;
            }
        },
        Outcome::Transport(text) => {
            state.last_error = text;
        },
    }
    assert(state.last_error@ == failure_text(outcome_spec));
    if state.attempt + 1 < MAX_ATTEMPTS {
        let delay: u64 = if state.attempt == 0 {
            1
        } else {
            2
        };
        assert(backoff(1) == 2) by {
            reveal_with_fuel(backoff, 2);
        }
        state.attempt = state.attempt + 1;
        Step::RetryAfter(delay)
    } else {
        Step::Fail(Error::Transport(state.last_error.clone()))
    }
}

/// The object that describes the book in a details response: its `book`
/// member, else the response itself.
pub open spec fn book_object(data: JsonValue) -> JsonValue {
    match json_get(data, "book"@) {
        Some(b) => b,
        None => data,
    }
}

/// Whether the details response says that the account may not read the book.
pub open spec fn unreadable(data: JsonValue) -> bool {
    json_get(book_object(data), "can_be_read"@) == Some(JsonValue::Bool(false))
}

/// The metadata in a details response for the book `uuid`, unless the
/// response says that the account may not read it.
pub fn metadata_from_response(data: &JsonValue, uuid: &str) -> (r: Result<BookMetadata, Error>)
    ensures
        match r {
            Ok(m) => !unreadable(*data) && metadata_matches(m, *data, book_object(*data), uuid@),
            Err(e) => unreadable(*data) && e == Error::Unavailable,
        },
{
    let book: &JsonValue = match get(data, "book") {
        Some(b) => b,
        None => data,
    };
    let refused = match get(book, "can_be_read") {
        Some(JsonValue::Bool(flag)) => !*flag,
        _ => false,
    };
    if refused {
        return Err(Error::Unavailable);
    }
    Ok(extract_metadata(data, book, uuid))
}

/// The downloaded file, if it looks like an EPUB (a ZIP archive).
pub fn check_epub(epub: Vec<u8>) -> (r: Result<Vec<u8>, Error>)
    ensures
        match r {
            Ok(bytes) => bytes@ == epub@ && epub@.len() >= 2 && epub@[0] == 80 && epub@[1] == 75,
            Err(e) => {
                &&& !(epub@.len() >= 2 && epub@[0] == 80 && epub@[1] == 75)
                &&& e is InvalidResponse
                &&& e->InvalidResponse_0@ == "the server returned a file that is not an EPUB"@
            },
        },
{
    if epub.len() >= 2 && epub[0] == 80 && epub[1] == 75 {
        Ok(epub)
    } else {
        Err(
            Error::InvalidResponse(
                String::from_str("the server returned a file that is not an EPUB"),
            ),
        )
    }
}

} // verus!
