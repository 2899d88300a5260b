//! Removal of `@font-face` rules from style sheets, leaving comments and
//! strings that merely mention them alone.

use vstd::prelude::*;

verus! {

/// The bytes of `@font-face`.
pub open spec fn font_face_bytes() -> Seq<u8> {
    seq![64u8, 102, 111, 110, 116, 45, 102, 97, 99, 101]
}

pub open spec fn is_ascii_alphanumeric_byte(b: u8) -> bool {
    (48 <= b <= 57) || (65 <= b <= 90) || (97 <= b <= 122)
}

/// `u8::is_ascii_whitespace`: space, tab, line feed, form feed, carriage return.
pub open spec fn is_ascii_whitespace_byte(b: u8) -> bool {
    b == 32 || b == 9 || b == 10 || b == 12 || b == 13
}

pub open spec fn ascii_lower_byte(b: u8) -> u8 {
    if 65 <= b <= 90 {
        (b + 32) as u8
    } else {
        b
    }
}

/// Whether a comment opens at `i`.
pub open spec fn comment_at(c: Seq<u8>, i: int) -> bool {
    0 <= i && i + 1 < c.len() && c[i] == 47 && c[i + 1] == 42
}

/// Whether a quote opens at `i`.
pub open spec fn quote_at(c: Seq<u8>, i: int) -> bool {
    0 <= i < c.len() && (c[i] == 39 || c[i] == 34)
}

/// The index just past the comment whose body starts at `i`, or the end.
pub open spec fn skip_comment_spec(c: Seq<u8>, i: int) -> int
    decreases c.len() - i,
{
    if i >= 0 && i + 1 < c.len() {
        if c[i] == 42 && c[i + 1] == 47 {
            i + 2
        } else {
            skip_comment_spec(c, i + 1)
        }
    } else {
        c.len() as int
    }
}

/// The index just past the string, quoted by `quote`, whose body starts at
/// `i`, or the end.
pub open spec fn skip_string_spec(c: Seq<u8>, i: int, quote: u8) -> int
    decreases c.len() - i,
{
    if 0 <= i < c.len() {
        if c[i] == 92 {
            skip_string_spec(c, if i + 2 < c.len() { i + 2 } else { c.len() as int }, quote)
        } else if c[i] == quote {
            i + 1
        } else {
            skip_string_spec(c, i + 1, quote)
        }
    } else {
        c.len() as int
    }
}

pub proof fn lemma_skip_comment_bounds(c: Seq<u8>, i: int)
    requires
        0 <= i <= c.len(),
    ensures
        i <= skip_comment_spec(c, i) <= c.len(),
    decreases c.len() - i,
{
    if i + 1 < c.len() && !(c[i] == 42 && c[i + 1] == 47) {
        lemma_skip_comment_bounds(c, i + 1);
    }
}

pub proof fn lemma_skip_string_bounds(c: Seq<u8>, i: int, quote: u8)
    requires
        0 <= i <= c.len(),
    ensures
        i <= skip_string_spec(c, i, quote) <= c.len(),
    decreases c.len() - i,
{
    if i < c.len() {
        if c[i] == 92 {
            lemma_skip_string_bounds(
                c,
                if i + 2 < c.len() {
                    i + 2
                } else {
                    c.len() as int
                },
                quote,
            );
        } else if c[i] != quote {
            lemma_skip_string_bounds(c, i + 1, quote);
        }
    }
}

/// Whether an `@font-face` keyword, in any ASCII case and not followed by a
/// name character, starts at `i`.
pub open spec fn font_face_at(c: Seq<u8>, i: int) -> bool {
    &&& 0 <= i
    &&& i + 10 <= c.len()
    &&& forall|k: int|
        0 <= k < 10 ==> ascii_lower_byte(#[trigger] c[i + k]) == font_face_bytes()[k]
    &&& (i + 10 == c.len() || !(is_ascii_alphanumeric_byte(c[i + 10]) || c[i + 10] == 45 || c[
        i + 10
    ] == 95))
}

/// The index of the next `@font-face` keyword from `i` on that stands
/// outside comments and strings.
pub open spec fn next_font_face_spec(c: Seq<u8>, i: int) -> Option<int>
    decreases c.len() - i,
{
    if 0 <= i < c.len() {
        if comment_at(c, i) {
            proof {
                lemma_skip_comment_bounds(c, i + 2);
            }
            next_font_face_spec(c, skip_comment_spec(c, i + 2))
        } else if quote_at(c, i) {
            proof {
                lemma_skip_string_bounds(c, i + 1, c[i]);
            }
            next_font_face_spec(c, skip_string_spec(c, i + 1, c[i]))
        } else if font_face_at(c, i) {
            Some(i)
        } else {
            next_font_face_spec(c, i + 1)
        }
    } else {
        None
    }
}

/// The index of the first byte from `i` on that is not whitespace and not
/// in a comment.
pub open spec fn block_open_spec(c: Seq<u8>, i: int) -> int
    decreases c.len() - i,
{
    if 0 <= i < c.len() {
        if comment_at(c, i) {
            proof {
                lemma_skip_comment_bounds(c, i + 2);
            }
            block_open_spec(c, skip_comment_spec(c, i + 2))
        } else if is_ascii_whitespace_byte(c[i]) {
            block_open_spec(c, i + 1)
        } else {
            i
        }
    } else {
        i
    }
}

/// The index just past the `}` that closes a block open `depth` levels deep
/// at `i`, skipping comments and strings.
pub open spec fn block_close_spec(c: Seq<u8>, i: int, depth: nat) -> Option<int>
    decreases c.len() - i,
{
    if 0 <= i < c.len() {
        if comment_at(c, i) {
            proof {
                lemma_skip_comment_bounds(c, i + 2);
            }
            block_close_spec(c, skip_comment_spec(c, i + 2), depth)
        } else if quote_at(c, i) {
            proof {
                lemma_skip_string_bounds(c, i + 1, c[i]);
            }
            block_close_spec(c, skip_string_spec(c, i + 1, c[i]), depth)
        } else if c[i] == 123 {
            block_close_spec(c, i + 1, depth + 1)
        } else if c[i] == 125 {
            if depth <= 1 {
                Some(i + 1)
            } else {
                block_close_spec(c, i + 1, (depth - 1) as nat)
            }
        } else {
            block_close_spec(c, i + 1, depth)
        }
    } else {
        None
    }
}

/// The end of the `{ ... }` block that follows `i` after whitespace and
/// comments, if there is one.
pub open spec fn css_block_end_spec(c: Seq<u8>, i: int) -> Option<int> {
    let open = block_open_spec(c, i);
    if 0 <= open < c.len() && c[open] == 123 {
        block_close_spec(c, open + 1, 1)
    } else {
        None
    }
}

pub proof fn lemma_next_font_face_bounds(c: Seq<u8>, i: int)
    requires
        0 <= i,
    ensures
        next_font_face_spec(c, i) matches Some(s) ==> i <= s && font_face_at(c, s),
    decreases c.len() - i,
{
    if 0 <= i < c.len() {
        if comment_at(c, i) {
            lemma_skip_comment_bounds(c, i + 2);
            lemma_next_font_face_bounds(c, skip_comment_spec(c, i + 2));
        } else if quote_at(c, i) {
            lemma_skip_string_bounds(c, i + 1, c[i]);
            lemma_next_font_face_bounds(c, skip_string_spec(c, i + 1, c[i]));
        } else if !font_face_at(c, i) {
            lemma_next_font_face_bounds(c, i + 1);
        }
    }
}

pub proof fn lemma_block_open_bounds(c: Seq<u8>, i: int)
    requires
        0 <= i,
    ensures
        i <= block_open_spec(c, i),
    decreases c.len() - i,
{
    if 0 <= i < c.len() {
        if comment_at(c, i) {
            lemma_skip_comment_bounds(c, i + 2);
            lemma_block_open_bounds(c, skip_comment_spec(c, i + 2));
        } else if is_ascii_whitespace_byte(c[i]) {
            lemma_block_open_bounds(c, i + 1);
        }
    }
}

pub proof fn lemma_block_close_bounds(c: Seq<u8>, i: int, depth: nat)
    requires
        0 <= i,
    ensures
        block_close_spec(c, i, depth) matches Some(e) ==> i < e <= c.len(),
    decreases c.len() - i,
{
    if 0 <= i < c.len() {
        if comment_at(c, i) {
            lemma_skip_comment_bounds(c, i + 2);
            lemma_block_close_bounds(c, skip_comment_spec(c, i + 2), depth);
        } else if quote_at(c, i) {
            lemma_skip_string_bounds(c, i + 1, c[i]);
            lemma_block_close_bounds(c, skip_string_spec(c, i + 1, c[i]), depth);
        } else if c[i] == 123 {
            lemma_block_close_bounds(c, i + 1, depth + 1);
        } else if c[i] == 125 {
            if depth > 1 {
                lemma_block_close_bounds(c, i + 1, (depth - 1) as nat);
            }
        } else {
            lemma_block_close_bounds(c, i + 1, depth);
        }
    }
}

pub proof fn lemma_block_end_bounds(c: Seq<u8>, i: int)
    requires
        0 <= i,
    ensures
        css_block_end_spec(c, i) matches Some(e) ==> i < e <= c.len(),
{
    lemma_block_open_bounds(c, i);
    let open = block_open_spec(c, i);
    if 0 <= open < c.len() && c[open] == 123 {
        lemma_block_close_bounds(c, open + 1, 1);
    }
}

/// The text from `copied` on, with every `@font-face` rule found from
/// `search` on left out.
pub open spec fn strip_from(c: Seq<u8>, copied: int, search: int) -> Seq<u8>
    decreases c.len() + 1 - search,
{
    if search < 0 || copied < 0 || copied > search || search > c.len() {
        c.subrange(if 0 <= copied <= c.len() { copied } else { c.len() as int }, c.len() as int)
    } else {
        match next_font_face_spec(c, search) {
            None => c.subrange(copied, c.len() as int),
            Some(start) => {
                proof {
                    lemma_next_font_face_bounds(c, search);
                    lemma_block_end_bounds(c, start + 10);
                }
                match css_block_end_spec(c, start + 10) {
                    None => strip_from(c, copied, start + 10),
                    Some(end) => c.subrange(copied, start) + strip_from(c, end, end),
                }
            },
        }
    }
}

/// A style sheet without its `@font-face` rules.
pub open spec fn strip_font_face_rules_spec(c: Seq<u8>) -> Seq<u8> {
    strip_from(c, 0, 0)
}

// ---------------------------------------------------------------------------
// Scanning does not look back
// ---------------------------------------------------------------------------

proof fn lemma_shift_skip_comment(p: Seq<u8>, r: Seq<u8>, j: int)
    requires
        0 <= j,
    ensures
        skip_comment_spec(p + r, p.len() + j) == p.len() + skip_comment_spec(r, j),
    decreases r.len() - j,
{
    let c = p + r;
    let n = p.len() as int;
    if j + 1 < r.len() {
        assert(c[n + j] == r[j] && c[n + j + 1] == r[j + 1]);
        if !(r[j] == 42 && r[j + 1] == 47) {
            lemma_shift_skip_comment(p, r, j + 1);
        }
    }
}

proof fn lemma_shift_skip_string(p: Seq<u8>, r: Seq<u8>, j: int, quote: u8)
    requires
        0 <= j,
    ensures
        skip_string_spec(p + r, p.len() + j, quote) == p.len() + skip_string_spec(r, j, quote),
    decreases r.len() - j,
{
    let c = p + r;
    let n = p.len() as int;
    if j < r.len() {
        assert(c[n + j] == r[j]);
        if r[j] == 92 {
            if j + 2 < r.len() {
                lemma_shift_skip_string(p, r, j + 2, quote);
            } else {
                lemma_shift_skip_string(p, r, r.len() as int, quote);
            }
        } else if r[j] != quote {
            lemma_shift_skip_string(p, r, j + 1, quote);
        }
    }
}

proof fn lemma_shift_at(p: Seq<u8>, r: Seq<u8>, j: int)
    requires
        0 <= j,
    ensures
        comment_at(p + r, p.len() + j) == comment_at(r, j),
        quote_at(p + r, p.len() + j) == quote_at(r, j),
        font_face_at(p + r, p.len() + j) == font_face_at(r, j),
        j < r.len() ==> (p + r)[p.len() + j] == r[j],
{
    let c = p + r;
    let n = p.len() as int;
    if j < r.len() {
        assert(c[n + j] == r[j]);
    }
    if j + 1 < r.len() {
        assert(c[n + j + 1] == r[j + 1]);
    }
    if j + 10 < r.len() {
        assert(c[n + j + 10] == r[j + 10]);
    }
    if j + 10 <= r.len() {
        assert forall|k: int| 0 <= k < 10 implies #[trigger] c[n + j + k] == r[j + k] by {}
        if (forall|k: int| 0 <= k < 10 ==> ascii_lower_byte(#[trigger] r[j + k]) == font_face_bytes()[k]) {
            assert forall|k: int| 0 <= k < 10 implies ascii_lower_byte(#[trigger] c[n + j + k])
                == font_face_bytes()[k] by {
                assert(c[n + j + k] == r[j + k]);
            }
        }
        if (forall|k: int| 0 <= k < 10 ==> ascii_lower_byte(#[trigger] c[n + j + k]) == font_face_bytes()[k]) {
            assert forall|k: int| 0 <= k < 10 implies ascii_lower_byte(#[trigger] r[j + k])
                == font_face_bytes()[k] by {
                assert(c[n + j + k] == r[j + k]);
            }
        }
    }
}

proof fn lemma_shift_next(p: Seq<u8>, r: Seq<u8>, j: int)
    requires
        0 <= j,
    ensures
        next_font_face_spec(p + r, p.len() + j) == match next_font_face_spec(r, j) {
            Some(s) => Some(p.len() + s),
            None => None,
        },
    decreases r.len() - j,
{
    let c = p + r;
    let n = p.len() as int;
    lemma_shift_at(p, r, j);
    if j < r.len() {
        if comment_at(r, j) {
            lemma_skip_comment_bounds(r, j + 2);
            lemma_shift_skip_comment(p, r, j + 2);
            lemma_shift_next(p, r, skip_comment_spec(r, j + 2));
        } else if quote_at(r, j) {
            lemma_skip_string_bounds(r, j + 1, r[j]);
            lemma_shift_skip_string(p, r, j + 1, r[j]);
            lemma_shift_next(p, r, skip_string_spec(r, j + 1, r[j]));
        } else if !font_face_at(r, j) {
            lemma_shift_next(p, r, j + 1);
        }
    }
}

proof fn lemma_shift_block_open(p: Seq<u8>, r: Seq<u8>, j: int)
    requires
        0 <= j,
    ensures
        block_open_spec(p + r, p.len() + j) == p.len() + block_open_spec(r, j),
    decreases r.len() - j,
{
    lemma_shift_at(p, r, j);
    if j < r.len() {
        if comment_at(r, j) {
            lemma_skip_comment_bounds(r, j + 2);
            lemma_shift_skip_comment(p, r, j + 2);
            lemma_shift_block_open(p, r, skip_comment_spec(r, j + 2));
        } else if is_ascii_whitespace_byte(r[j]) {
            lemma_shift_block_open(p, r, j + 1);
        }
    }
}

proof fn lemma_shift_block_close(p: Seq<u8>, r: Seq<u8>, j: int, depth: nat)
    requires
        0 <= j,
    ensures
        block_close_spec(p + r, p.len() + j, depth) == match block_close_spec(r, j, depth) {
            Some(e) => Some(p.len() + e),
            None => None,
        },
    decreases r.len() - j,
{
    lemma_shift_at(p, r, j);
    if j < r.len() {
        if comment_at(r, j) {
            lemma_skip_comment_bounds(r, j + 2);
            lemma_shift_skip_comment(p, r, j + 2);
            lemma_shift_block_close(p, r, skip_comment_spec(r, j + 2), depth);
        } else if quote_at(r, j) {
            lemma_skip_string_bounds(r, j + 1, r[j]);
            lemma_shift_skip_string(p, r, j + 1, r[j]);
            lemma_shift_block_close(p, r, skip_string_spec(r, j + 1, r[j]), depth);
        } else if r[j] == 123 {
            lemma_shift_block_close(p, r, j + 1, depth + 1);
        } else if r[j] == 125 {
            if depth > 1 {
                lemma_shift_block_close(p, r, j + 1, (depth - 1) as nat);
            }
        } else {
            lemma_shift_block_close(p, r, j + 1, depth);
        }
    }
}

proof fn lemma_shift_block_end(p: Seq<u8>, r: Seq<u8>, j: int)
    requires
        0 <= j,
    ensures
        css_block_end_spec(p + r, p.len() + j) == match css_block_end_spec(r, j) {
            Some(e) => Some(p.len() + e),
            None => None,
        },
{
    lemma_shift_block_open(p, r, j);
    lemma_block_open_bounds(r, j);
    let open = block_open_spec(r, j);
    lemma_shift_at(p, r, open);
    lemma_shift_block_close(p, r, open + 1, 1);
}

/// Stripping what follows a prefix is stripping it alone.
proof fn lemma_shift_strip(p: Seq<u8>, r: Seq<u8>, a: int, b: int)
    requires
        0 <= a <= b <= r.len(),
    ensures
        strip_from(p + r, p.len() + a, p.len() + b) == strip_from(r, a, b),
    decreases r.len() + 1 - b,
{
    let c = p + r;
    let n = p.len() as int;
    lemma_shift_next(p, r, b);
    lemma_next_font_face_bounds(r, b);
    match next_font_face_spec(r, b) {
        None => {
            assert(c.subrange(n + a, c.len() as int) =~= r.subrange(a, r.len() as int));
        },
        Some(start) => {
            lemma_shift_block_end(p, r, start + 10);
            lemma_block_end_bounds(r, start + 10);
            match css_block_end_spec(r, start + 10) {
                None => {
                    lemma_shift_strip(p, r, a, start + 10);
                },
                Some(end) => {
                    lemma_shift_strip(p, r, end, end);
                    assert(c.subrange(n + a, n + start) =~= r.subrange(a, start));
                },
            }
        },
    }
}

/// Law: a style sheet that begins with an `@font-face` rule (the keyword,
/// whitespace, then a block without braces, quotes or comments) strips to
/// what the rest strips to. Any whitespace or `{` after the keyword ends
/// it.
pub proof fn lemma_leading_rule_stripped(space: Seq<u8>, body: Seq<u8>, rest: Seq<u8>)
    requires
        forall|k: int| 0 <= k < space.len() ==> is_ascii_whitespace_byte(#[trigger] space[k]),
        forall|k: int|
            0 <= k < body.len() ==> #[trigger] body[k] != 123 && body[k] != 125 && body[k] != 34
                && body[k] != 39,
        forall|k: int| 0 <= k < body.len() - 1 ==> !(#[trigger] body[k] == 47 && body[k + 1] == 42),
    ensures
        strip_font_face_rules_spec(font_face_bytes() + space + seq![123u8] + body + seq![125u8] + rest)
            == strip_font_face_rules_spec(rest),
{
    let head = font_face_bytes() + space + seq![123u8] + body + seq![125u8];
    let c = head + rest;
    assert(c =~= font_face_bytes() + space + seq![123u8] + body + seq![125u8] + rest);
    let open: int = 10 + space.len() as int;
    let close: int = open + 1 + body.len() as int;
    assert(head.len() == close + 1);
    assert forall|k: int| 0 <= k < 10 implies #[trigger] c[k] == font_face_bytes()[k] by {}
    assert(c[open] == 123);
    assert(c[close] == 125);
    assert forall|k: int| 0 <= k < space.len() implies #[trigger] c[10 + k] == space[k] by {}
    assert forall|k: int| 0 <= k < body.len() implies #[trigger] c[open + 1 + k] == body[k] by {}
    // The keyword is found at the start.
    assert(font_face_at(c, 0)) by {
        assert forall|k: int| 0 <= k < 10 implies ascii_lower_byte(#[trigger] c[0 + k]) == font_face_bytes()[k] by {
            assert(c[k] == font_face_bytes()[k]);
        }
        if space.len() > 0 {
            assert(c[10] == space[0]);
        }
    }
    assert(!comment_at(c, 0) && !quote_at(c, 0)) by {
        assert(c[0] == 64);
    }
    assert(next_font_face_spec(c, 0) == Some(0int));
    // The block opens after the whitespace.
    lemma_open_after_space(c, 10, open);
    // And closes at the first `}`.
    lemma_close_at_brace(c, open + 1, close);
    assert(css_block_end_spec(c, 10) == Some(close + 1));
    assert(c.subrange(0, 0) =~= Seq::<u8>::empty());
    lemma_shift_strip(head, rest, 0, 0);
    assert(strip_from(c, 0, 0) == c.subrange(0, 0) + strip_from(c, close + 1, close + 1));
}

proof fn lemma_open_after_space(c: Seq<u8>, i: int, open: int)
    requires
        0 <= i <= open < c.len(),
        c[open] == 123,
        forall|k: int| i <= k < open ==> is_ascii_whitespace_byte(#[trigger] c[k]),
    ensures
        block_open_spec(c, i) == open,
    decreases open - i,
{
    if i < open {
        assert(is_ascii_whitespace_byte(c[i]));
        assert(!comment_at(c, i));
        lemma_open_after_space(c, i + 1, open);
    } else {
        assert(!comment_at(c, i));
    }
}

proof fn lemma_close_at_brace(c: Seq<u8>, i: int, close: int)
    requires
        0 <= i <= close < c.len(),
        c[close] == 125,
        forall|k: int|
            i <= k < close ==> #[trigger] c[k] != 123 && c[k] != 125 && c[k] != 34 && c[k] != 39,
        forall|k: int| i <= k < close ==> !(#[trigger] c[k] == 47 && c[k + 1] == 42),
    ensures
        block_close_spec(c, i, 1) == Some(close + 1),
    decreases close - i,
{
    if i < close {
        assert(!comment_at(c, i));
        assert(!quote_at(c, i));
        lemma_close_at_brace(c, i + 1, close);
    } else {
        assert(!comment_at(c, i));
        assert(!quote_at(c, i));
    }
}

// ---------------------------------------------------------------------------
// Executable functions
// ---------------------------------------------------------------------------

fn starts_comment(content: &[u8], index: usize) -> (r: bool)
    ensures
        r == comment_at(content@, index as int),
{
    index < content.len() && content.len() - index > 1 && content[index] == 47 && content[index
        + 1] == 42
}

fn skip_css_comment(content: &[u8], index: usize) -> (r: usize)
    requires
        index <= content@.len(),
    ensures
        r == skip_comment_spec(content@, index as int),
{
    let mut i = index;
    while i < content.len() && content.len() - i > 1
        invariant
            i <= content@.len(),
            skip_comment_spec(content@, index as int) == skip_comment_spec(content@, i as int),
        decreases content@.len() - i,
    {
        if content[i] == 42 && content[i + 1] == 47 {
            return i + 2;
        }
        i = i + 1;
    }
    content.len()
}

fn skip_css_string(content: &[u8], index: usize, quote: u8) -> (r: usize)
    requires
        index <= content@.len(),
    ensures
        r == skip_string_spec(content@, index as int, quote),
{
    let mut i = index;
    while i < content.len()
        invariant
            i <= content@.len(),
            skip_string_spec(content@, index as int, quote) == skip_string_spec(
                content@,
                i as int,
                quote,
            ),
        decreases content@.len() - i,
    {
        if content[i] == 92 {
            i = if content.len() - i > 2 {
                i + 2
            } else {
                content.len()
            };
        } else if content[i] == quote {
            return i + 1;
        } else {
            i = i + 1;
        }
    }
    content.len()
}

fn is_name_byte(b: u8) -> (r: bool)
    ensures
        r == (is_ascii_alphanumeric_byte(b) || b == 45 || b == 95),
{
    (48 <= b && b <= 57) || (65 <= b && b <= 90) || (97 <= b && b <= 122) || b == 45 || b == 95
}

fn lower_byte(b: u8) -> (r: u8)
    ensures
        r == ascii_lower_byte(b),
{
    if 65 <= b && b <= 90 {
        b + 32
    } else {
        b
    }
}

fn is_font_face_at(content: &[u8], index: usize) -> (r: bool)
    ensures
        r == font_face_at(content@, index as int),
{
    let keyword: [u8; 10] = [64, 102, 111, 110, 116, 45, 102, 97, 99, 101];
    assert(keyword@ == font_face_bytes());
    if index > content.len() || content.len() - index < 10 {
        return false;
    }
    let mut k: usize = 0;
    while k < 10
        invariant
            keyword@ == font_face_bytes(),
            index + 10 <= content.len(),
            0 <= k <= 10,
            forall|j: int|
                0 <= j < k ==> ascii_lower_byte(#[trigger] content@[index + j])
                    == font_face_bytes()[j],
        decreases 10 - k,
    {
        let at = index + k;
        if lower_byte(content[at]) != keyword[k] {
            return false;
        }
        k = k + 1;
    }
    index + 10 == content.len() || !is_name_byte(content[index + 10])
}

/// The index of the next `@font-face` keyword from `index` on that stands
/// outside comments and strings.
fn next_font_face(content: &[u8], index: usize) -> (r: Option<usize>)
    ensures
        match r {
            Some(s) => next_font_face_spec(content@, index as int) == Some(s as int),
            None => next_font_face_spec(content@, index as int) is None,
        },
{
    let mut i = index;
    while i < content.len()
        invariant
            next_font_face_spec(content@, index as int) == next_font_face_spec(
                content@,
                i as int,
            ),
        decreases content@.len() - i,
    {
        if starts_comment(content, i) {
            proof {
                lemma_skip_comment_bounds(content@, i + 2);
            }
            i = skip_css_comment(content, i + 2);
        } else if content[i] == 39 || content[i] == 34 {
            proof {
                lemma_skip_string_bounds(content@, i + 1, content@[i as int]);
            }
            i = skip_css_string(content, i + 1, content[i]);
        } else if is_font_face_at(content, i) {
            return Some(i);
        } else {
            i = i + 1;
        }
    }
    None
}

/// The end of the `{ ... }` block that follows `index` after whitespace and
/// comments, if there is one.
fn css_block_end(content: &[u8], index: usize) -> (r: Option<usize>)
    ensures
        match r {
            Some(e) => css_block_end_spec(content@, index as int) == Some(e as int),
            None => css_block_end_spec(content@, index as int) is None,
        },
{
    let mut i = index;
    while i < content.len()
        invariant
            block_open_spec(content@, index as int) == block_open_spec(content@, i as int),
        ensures
            block_open_spec(content@, index as int) == i as int,
        decreases content@.len() - i,
    {
        if starts_comment(content, i) {
            proof {
                lemma_skip_comment_bounds(content@, i + 2);
            }
            i = skip_css_comment(content, i + 2);
        } else if content[i] == 32 || content[i] == 9 || content[i] == 10
            || content[i] == 12 || content[i] == 13 {
            i = i + 1;
        } else {
            break;
        }
    }
    let ghost open = i as int;
    assert(block_open_spec(content@, index as int) == open);
    if i >= content.len() || content[i] != 123 {
        return None;
    }
    let mut depth: usize = 1;
    i = i + 1;
    while i < content.len()
        invariant
            open < i <= content@.len(),
            1 <= depth <= i,
            css_block_end_spec(content@, index as int) == block_close_spec(
                content@,
                i as int,
                depth as nat,
            ),
        decreases content@.len() - i,
    {
        if starts_comment(content, i) {
            proof {
                lemma_skip_comment_bounds(content@, i + 2);
            }
            i = skip_css_comment(content, i + 2);
        } else if content[i] == 39 || content[i] == 34 {
            proof {
                lemma_skip_string_bounds(content@, i + 1, content@[i as int]);
            }
            i = skip_css_string(content, i + 1, content[i]);
        } else {
            if content[i] == 123 {
                depth = depth + 1;
            } else if content[i] == 125 {
                if depth <= 1 {
                    return Some(i + 1);
                }
                depth = depth - 1;
            }
            i = i + 1;
        }
    }
    None
}

fn extend_from_range(output: &mut Vec<u8>, content: &[u8], from: usize, to: usize)
    requires
        from <= to <= content@.len(),
    ensures
        final(output)@ == old(output)@ + content@.subrange(from as int, to as int),
{
    let mut i = from;
    while i < to
        invariant
            from <= i <= to <= content@.len(),
            output@ == old(output)@ + content@.subrange(from as int, i as int),
        decreases to - i,
    {
        output.push(content[i]);
        i = i + 1;
        assert(output@ =~= old(output)@ + content@.subrange(from as int, i as int));
    }
}

/// A style sheet without its `@font-face` rules; comments and strings that
/// mention `@font-face` stay as they are.
pub fn strip_font_face_rules(content: &[u8]) -> (r: Vec<u8>)
    ensures
        r@ == strip_font_face_rules_spec(content@),
{
    let mut output: Vec<u8> = Vec::new();
    let mut copied_until: usize = 0;
    let mut search_from: usize = 0;
    loop
        invariant
            copied_until <= search_from <= content@.len(),
            output@ + strip_from(content@, copied_until as int, search_from as int)
                == strip_font_face_rules_spec(content@),
        ensures
            copied_until <= content@.len(),
            output@ + content@.subrange(copied_until as int, content@.len() as int)
                == strip_font_face_rules_spec(content@),
        decreases content@.len() + 1 - search_from,
    {
        match next_font_face(content, search_from) {
            None => {
                break ;
            },
            Some(start) => {
                proof {
                    lemma_next_font_face_bounds(content@, search_from as int);
                    lemma_block_end_bounds(content@, start + 10);
                    assert(start + 10 <= content.len());
                }
                match css_block_end(content, start + 10) {
                    None => {
                        search_from = start + 10;
                    },
                    Some(end) => {
                        let ghost before = output@;
                        extend_from_range(&mut output, content, copied_until, start);
                        assert(before + strip_from(
                            content@,
                            copied_until as int,
                            search_from as int,
                        ) =~= output@ + strip_from(content@, end as int, end as int));
                        copied_until = end;
                        search_from = end;
                    },
                }
            },
        }
    }
    extend_from_range(&mut output, content, copied_until, content.len());
    output
}

/// Law: a style sheet with no `@font-face` keyword outside comments and
/// strings comes out unchanged.
pub proof fn lemma_strip_without_rules_is_identity(c: Seq<u8>)
    requires
        next_font_face_spec(c, 0) is None,
    ensures
        strip_font_face_rules_spec(c) == c,
{
    assert(c.subrange(0, c.len() as int) =~= c);
}

} // verus!
