//! Character classes, word splitting and string building shared by the
//! rest of the library.

use vstd::prelude::*;

verus! {

/// `char::is_whitespace`: the Unicode `White_Space` property.
pub open spec fn is_whitespace(c: char) -> bool {
    ||| ('\u{9}' <= c && c <= '\u{d}')
    ||| c == ' '
    ||| c == '\u{85}'
    ||| c == '\u{a0}'
    ||| c == '\u{1680}'
    ||| ('\u{2000}' <= c && c <= '\u{200a}')
    ||| c == '\u{2028}'
    ||| c == '\u{2029}'
    ||| c == '\u{202f}'
    ||| c == '\u{205f}'
    ||| c == '\u{3000}'
}

/// `char::is_control`: the Unicode general category `Cc`.
pub open spec fn is_control(c: char) -> bool {
    c <= '\u{1f}' || ('\u{7f}' <= c && c <= '\u{9f}')
}

pub open spec fn is_ascii_alphanumeric(c: char) -> bool {
    ||| ('0' <= c && c <= '9')
    ||| ('a' <= c && c <= 'z')
    ||| ('A' <= c && c <= 'Z')
}

/// `char::to_ascii_lowercase`.
pub open spec fn ascii_lower(c: char) -> char {
    if 'A' <= c && c <= 'Z' {
        ((c as u32) + 32) as char
    } else {
        c
    }
}

/// `eq_ignore_ascii_case` on two character sequences.
pub open spec fn eq_ignore_ascii_case(a: Seq<char>, b: Seq<char>) -> bool {
    &&& a.len() == b.len()
    &&& forall|i: int| 0 <= i < a.len() ==> ascii_lower(#[trigger] a[i]) == ascii_lower(b[i])
}

/// The words of `s`, as `str::split_whitespace` yields them, paired with the
/// word that is still open at the end of `s`.
pub open spec fn words_acc(s: Seq<char>) -> (Seq<Seq<char>>, Seq<char>)
    decreases s.len(),
{
    if s.len() == 0 {
        (seq![], seq![])
    } else {
        let (done, open) = words_acc(s.drop_last());
        let c = s.last();
        if is_whitespace(c) {
            if open.len() > 0 {
                (done.push(open), seq![])
            } else {
                (done, seq![])
            }
        } else {
            (done, open.push(c))
        }
    }
}

/// `str::split_whitespace`.
pub open spec fn words(s: Seq<char>) -> Seq<Seq<char>> {
    let (done, open) = words_acc(s);
    if open.len() > 0 {
        done.push(open)
    } else {
        done
    }
}

/// `[..].join(sep)` on character sequences.
pub open spec fn join(parts: Seq<Seq<char>>, sep: Seq<char>) -> Seq<char>
    decreases parts.len(),
{
    if parts.len() == 0 {
        seq![]
    } else if parts.len() == 1 {
        parts[0]
    } else {
        join(parts.drop_last(), sep) + sep + parts.last()
    }
}

/// The character sequences that a vector of strings holds.
pub open spec fn string_views(v: Seq<String>) -> Seq<Seq<char>> {
    v.map_values(|s: String| s@)
}

/// `s` without its leading characters that satisfy `p`.
pub open spec fn trim_start_with(s: Seq<char>, p: spec_fn(char) -> bool) -> Seq<char>
    decreases s.len(),
{
    if s.len() > 0 && p(s[0]) {
        trim_start_with(s.drop_first(), p)
    } else {
        s
    }
}

/// `s` without its trailing characters that satisfy `p`.
pub open spec fn trim_end_with(s: Seq<char>, p: spec_fn(char) -> bool) -> Seq<char>
    decreases s.len(),
{
    if s.len() > 0 && p(s.last()) {
        trim_end_with(s.drop_last(), p)
    } else {
        s
    }
}

/// The whitespace test as a predicate value.
pub open spec fn whitespace_pred() -> spec_fn(char) -> bool {
    |c: char| is_whitespace(c)
}

/// `str::trim`.
pub open spec fn trim(s: Seq<char>) -> Seq<char> {
    trim_end_with(trim_start_with(s, whitespace_pred()), whitespace_pred())
}

/// The index of the first character of `s` that satisfies `p`, from `i` on.
pub open spec fn find_from(s: Seq<char>, p: spec_fn(char) -> bool, i: int) -> Option<int>
    decreases s.len() - i,
{
    if i < 0 || i >= s.len() {
        None
    } else if p(s[i]) {
        Some(i)
    } else {
        find_from(s, p, i + 1)
    }
}

/// The test for one character as a predicate value.
pub open spec fn char_pred(c: char) -> spec_fn(char) -> bool {
    |x: char| x == c
}

/// `s` up to (not including) its first `c`, as `split(c).next()` gives it.
pub open spec fn before_first(s: Seq<char>, c: char) -> Seq<char> {
    match find_from(s, char_pred(c), 0) {
        Some(i) => s.take(i),
        None => s,
    }
}

/// Appends one character: `String::push`.
#[verifier::external_body]
pub(crate) fn push_char(s: &mut String, c: char)
    ensures
        final(s)@ == old(s)@.push(c),
{
    s.push(c);
}

/// The characters of `s`, one per element.
pub fn chars_of(s: &str) -> (v: Vec<char>)
    ensures
        v@ == s@,
{
    let mut v: Vec<char> = Vec::new();
    for c in it: s.chars()
        invariant
            it.seq() == s@,
            v@ == s@.take(it.index() as int),
    {
        v.push(c);
    }
    v
}

/// The string made of `v[from..to]`.
pub fn string_of(v: &[char], from: usize, to: usize) -> (r: String)
    requires
        from <= to <= v@.len(),
    ensures
        r@ == v@.subrange(from as int, to as int),
{
    let mut r = String::new();
    let mut i = from;
    while i < to
        invariant
            from <= i <= to <= v@.len(),
            r@ == v@.subrange(from as int, i as int),
        decreases to - i,
    {
        push_char(&mut r, v[i]);
        i = i + 1;
    }
    r
}

/// Whether the characters `v[from..to]` are those of `expected`.
pub fn chars_equal(v: &[char], from: usize, to: usize, expected: &str) -> (r: bool)
    requires
        from <= to <= v@.len(),
    ensures
        r == (v@.subrange(from as int, to as int) == expected@),
{
    let e = chars_of(expected);
    if e.len() != to - from {
        return false;
    }
    let mut i: usize = 0;
    while i < e.len()
        invariant
            e@ == expected@,
            from <= to <= v@.len(),
            e@.len() == to - from,
            0 <= i <= e@.len(),
            forall|k: int| 0 <= k < i ==> v@[from + k] == e@[k],
        decreases e@.len() - i,
    {
        if v[from + i] != e[i] {
            assert(v@.subrange(from as int, to as int)[i as int] != expected@[i as int]);
            return false;
        }
        i = i + 1;
    }
    assert(v@.subrange(from as int, to as int) =~= expected@);
    true
}

/// Whether two strings hold the same characters.
pub fn str_eq(a: &str, b: &str) -> (r: bool)
    ensures
        r == (a@ == b@),
{
    let v = chars_of(a);
    assert(v@.subrange(0, v@.len() as int) =~= v@);
    chars_equal(v.as_slice(), 0, v.len(), b)
}

/// Law: joining with a separator keeps a property that all parts and the
/// separator have.
pub proof fn lemma_join_keeps(parts: Seq<Seq<char>>, sep: Seq<char>, p: spec_fn(char) -> bool)
    requires
        forall|i: int, j: int| 0 <= i < parts.len() && 0 <= j < parts[i].len() ==> p(
            #[trigger] parts[i][j],
        ),
        forall|j: int| 0 <= j < sep.len() ==> p(#[trigger] sep[j]),
    ensures
        forall|k: int| 0 <= k < join(parts, sep).len() ==> p(#[trigger] join(parts, sep)[k]),
    decreases parts.len(),
{
    if parts.len() == 1 {
        assert forall|k: int| 0 <= k < join(parts, sep).len() implies p(
            #[trigger] join(parts, sep)[k],
        ) by {
            assert(join(parts, sep)[k] == parts[0][k]);
        }
    } else if parts.len() > 1 {
        let init = parts.drop_last();
        assert forall|i: int, j: int| 0 <= i < init.len() && 0 <= j < init[i].len() implies p(
            #[trigger] init[i][j],
        ) by {
            assert(init[i] == parts[i]);
        }
        lemma_join_keeps(init, sep, p);
        let a = join(init, sep);
        let l = parts.last();
        assert forall|k: int| 0 <= k < join(parts, sep).len() implies p(
            #[trigger] join(parts, sep)[k],
        ) by {
            if k < a.len() {
                assert(join(parts, sep)[k] == a[k]);
            } else if k < a.len() + sep.len() {
                assert(join(parts, sep)[k] == sep[k - a.len()]);
            } else {
                assert(join(parts, sep)[k] == l[k - a.len() - sep.len()]);
                assert(parts[parts.len() - 1] == l);
            }
        }
    }
}

/// Law: every character of every word of `s` is a character of `s` that is
/// not whitespace; in particular the words keep every property that all
/// characters of `s` have.
pub proof fn lemma_words_keep(s: Seq<char>, p: spec_fn(char) -> bool)
    requires
        forall|k: int| 0 <= k < s.len() ==> p(#[trigger] s[k]),
    ensures
        forall|i: int, j: int|
            0 <= i < words(s).len() && 0 <= j < words(s)[i].len() ==> p(#[trigger] words(s)[i][j])
                && !is_whitespace(words(s)[i][j]),
{
    lemma_words_acc_keep(s, p);
    let (done, open) = words_acc(s);
    assert forall|i: int, j: int|
        0 <= i < words(s).len() && 0 <= j < words(s)[i].len() implies p(
            #[trigger] words(s)[i][j],
        ) && !is_whitespace(words(s)[i][j]) by {
        if i < done.len() {
            assert(words(s)[i] == done[i]);
        } else {
            assert(words(s)[i] == open);
        }
    }
}

proof fn lemma_words_acc_keep(s: Seq<char>, p: spec_fn(char) -> bool)
    requires
        forall|k: int| 0 <= k < s.len() ==> p(#[trigger] s[k]),
    ensures
        ({
            let (done, open) = words_acc(s);
            &&& forall|i: int, j: int|
                0 <= i < done.len() && 0 <= j < done[i].len() ==> p(#[trigger] done[i][j])
                    && !is_whitespace(done[i][j])
            &&& forall|j: int| 0 <= j < open.len() ==> p(#[trigger] open[j]) && !is_whitespace(
                open[j],
            )
        }),
    decreases s.len(),
{
    if s.len() > 0 {
        let init = s.drop_last();
        assert forall|k: int| 0 <= k < init.len() implies p(#[trigger] init[k]) by {
            assert(init[k] == s[k]);
        }
        lemma_words_acc_keep(init, p);
        let (done0, open0) = words_acc(init);
        let c = s.last();
        assert(p(s[s.len() - 1]));
        let (done, open) = words_acc(s);
        if is_whitespace(c) {
            if open0.len() > 0 {
                assert forall|i: int, j: int|
                    0 <= i < done.len() && 0 <= j < done[i].len() implies p(
                        #[trigger] done[i][j],
                    ) && !is_whitespace(done[i][j]) by {
                    if i < done0.len() {
                        assert(done[i] == done0[i]);
                    } else {
                        assert(done[i] == open0);
                    }
                }
            }
        } else {
            assert forall|j: int| 0 <= j < open.len() implies p(#[trigger] open[j])
                && !is_whitespace(open[j]) by {
                if j < open0.len() {
                    assert(open[j] == open0[j]);
                }
            }
        }
    }
}

pub fn is_whitespace_char(c: char) -> (r: bool)
    ensures
        r == is_whitespace(c),
{
    ('\u{9}' <= c && c <= '\u{d}') || c == ' ' || c == '\u{85}' || c == '\u{a0}' || c
        == '\u{1680}' || ('\u{2000}' <= c && c <= '\u{200a}') || c == '\u{2028}' || c
        == '\u{2029}' || c == '\u{202f}' || c == '\u{205f}' || c == '\u{3000}'
}

pub fn is_control_char(c: char) -> (r: bool)
    ensures
        r == is_control(c),
{
    c <= '\u{1f}' || ('\u{7f}' <= c && c <= '\u{9f}')
}

pub fn lower_ascii(c: char) -> (r: char)
    ensures
        r == ascii_lower(c),
{
    if 'A' <= c && c <= 'Z' {
        let b = c as u8;
        assert(b as u32 == c as u32);
        (b + 32) as char
    } else {
        c
    }
}

/// The words of `s`, as `str::split_whitespace` yields them.
pub fn split_words(s: &[char]) -> (r: Vec<String>)
    ensures
        string_views(r@) == words(s@),
{
    let mut done: Vec<String> = Vec::new();
    let mut open = String::new();
    let mut i: usize = 0;
    while i < s.len()
        invariant
            0 <= i <= s@.len(),
            (string_views(done@), open@) == words_acc(s@.take(i as int)),
        decreases s@.len() - i,
    {
        let c = s[i];
        proof {
            assert(s@.take(i + 1).drop_last() =~= s@.take(i as int));
        }
        if is_whitespace_char(c) {
            if !open.as_str().is_empty() {
                done.push(open);
                open = String::new();
            }
        } else {
            push_char(&mut open, c);
        }
        proof {
            assert(string_views(done@) =~= words_acc(s@.take(i + 1)).0);
        }
        i = i + 1;
    }
    proof {
        assert(s@.take(s@.len() as int) =~= s@);
    }
    if !open.as_str().is_empty() {
        done.push(open);
        proof {
            assert(string_views(done@) =~= words(s@));
        }
    }
    done
}

/// `parts.join(sep)`.
pub fn join_strings(parts: &Vec<String>, sep: &str) -> (r: String)
    ensures
        r@ == join(string_views(parts@), sep@),
{
    let mut r = String::new();
    let mut i: usize = 0;
    while i < parts.len()
        invariant
            0 <= i <= parts@.len(),
            r@ == join(string_views(parts@).take(i as int), sep@),
        decreases parts@.len() - i,
    {
        proof {
            let v = string_views(parts@);
            assert(v.take(i + 1).drop_last() =~= v.take(i as int));
        }
        if i > 0 {
            r.append(sep);
        }
        r.append(parts[i].as_str());
        i = i + 1;
    }
    proof {
        assert(string_views(parts@).take(parts@.len() as int) =~= string_views(parts@));
    }
    r
}

/// The characters of `v` without leading and trailing whitespace.
pub fn trimmed(v: &[char]) -> (r: Vec<char>)
    ensures
        r@ == trim(v@),
{
    let ghost p = whitespace_pred();
    assert(v@.skip(0) =~= v@);
    let mut start: usize = 0;
    while start < v.len() && is_whitespace_char(v[start])
        invariant
            0 <= start <= v@.len(),
            p == whitespace_pred(),
            trim_start_with(v@, p) == trim_start_with(v@.skip(start as int), p),
        decreases v@.len() - start,
    {
        assert(v@.skip(start as int).drop_first() =~= v@.skip(start + 1));
        start = start + 1;
    }
    let mut end: usize = v.len();
    assert(v@.skip(start as int) =~= v@.subrange(start as int, end as int));
    while end > start && is_whitespace_char(v[end - 1])
        invariant
            0 <= start <= end <= v@.len(),
            trim_start_with(v@, p) == v@.skip(start as int),
            p == whitespace_pred(),
            trim(v@) == trim_end_with(v@.subrange(start as int, end as int), p),
        decreases end,
    {
        assert(v@.subrange(start as int, end as int).drop_last() =~= v@.subrange(
            start as int,
            end - 1,
        ));
        end = end - 1;
    }
    let mut r: Vec<char> = Vec::new();
    let mut i = start;
    while i < end
        invariant
            start <= i <= end <= v@.len(),
            r@ == v@.subrange(start as int, i as int),
        decreases end - i,
    {
        r.push(v[i]);
        i = i + 1;
    }
    r
}

/// The decimal digits of `n`.
pub open spec fn decimal(n: nat) -> Seq<char>
    decreases n,
{
    if n < 10 {
        seq![digit_char(n)]
    } else {
        decimal(n / 10).push(digit_char(n % 10))
    }
}

pub open spec fn digit_char(d: nat) -> char {
    if d < 10 {
        ((48 + d) as u8) as char
    } else {
        '?'
    }
}

/// The decimal text of `n`, as `to_string` gives it.
pub fn decimal_string(n: u128) -> (r: String)
    ensures
        r@ == decimal(n as nat),
    decreases n,
{
    if n < 10 {
        let mut r = String::new();
        push_char(&mut r, ((48 + n) as u8) as char);
        r
    } else {
        let mut r = decimal_string(n / 10);
        push_char(&mut r, ((48 + n % 10) as u8) as char);
        r
    }
}

/// Different numbers have different decimal texts.
pub proof fn lemma_decimal_injective(a: nat, b: nat)
    requires
        decimal(a) == decimal(b),
    ensures
        a == b,
    decreases a,
{
    lemma_decimal_len(a);
    lemma_decimal_len(b);
    if a >= 10 && b >= 10 {
        assert(decimal(a).drop_last() == decimal(a / 10));
        assert(decimal(b).drop_last() == decimal(b / 10));
        lemma_decimal_injective(a / 10, b / 10);
        lemma_digit_char(a % 10);
        lemma_digit_char(b % 10);
        assert(decimal(a).last() == digit_char(a % 10));
        assert(decimal(b).last() == digit_char(b % 10));
        assert(a % 10 == b % 10);
        assert(a == 10 * (a / 10) + a % 10);
        assert(b == 10 * (b / 10) + b % 10);
        assert(a == b);
    } else if a < 10 && b < 10 {
        lemma_digit_char(a);
        lemma_digit_char(b);
        assert(decimal(a)[0] == digit_char(a));
        assert(decimal(b)[0] == digit_char(b));
        assert(a == b);
    } else {
        assert(decimal(a).len() != decimal(b).len());
    }
}

pub proof fn lemma_digit_char(d: nat)
    requires
        d < 10,
    ensures
        digit_char(d) as u32 == 48 + d,
{
}

pub proof fn lemma_decimal_len(n: nat)
    ensures
        decimal(n).len() >= 1,
        n < 10 ==> decimal(n).len() == 1,
        n >= 10 ==> decimal(n).len() >= 2,
    decreases n,
{
    if n >= 10 {
        lemma_decimal_len(n / 10);
    }
}

/// `values` without `word`.
pub open spec fn without(values: Seq<Seq<char>>, word: Seq<char>) -> Seq<Seq<char>>
    decreases values.len(),
{
    if values.len() == 0 {
        seq![]
    } else if values.last() == word {
        without(values.drop_last(), word)
    } else {
        without(values.drop_last(), word).push(values.last())
    }
}

/// `values` without `word`.
pub fn remove_word(values: &Vec<String>, word: &str) -> (r: Vec<String>)
    ensures
        string_views(r@) == without(string_views(values@), word@),
{
    let mut result: Vec<String> = Vec::new();
    let mut i: usize = 0;
    while i < values.len()
        invariant
            0 <= i <= values@.len(),
            string_views(result@) == without(string_views(values@).take(i as int), word@),
        decreases values@.len() - i,
    {
        let ghost v = string_views(values@);
        assert(v.take(i + 1).drop_last() =~= v.take(i as int));
        assert(v.take(i + 1).last() == values@[i as int]@);
        if !str_eq(values[i].as_str(), word) {
            let ghost before = string_views(result@);
            result.push(values[i].clone());
            assert(string_views(result@) =~= before.push(values@[i as int]@));
        }
        i = i + 1;
    }
    assert(string_views(values@).take(values@.len() as int) =~= string_views(values@));
    result
}


/// A word: not empty, and without whitespace.
pub open spec fn is_word(w: Seq<char>) -> bool {
    w.len() > 0 && forall|j: int| 0 <= j < w.len() ==> !is_whitespace(#[trigger] w[j])
}

proof fn lemma_words_acc_append(s: Seq<char>, t: Seq<char>)
    requires
        forall|j: int| 0 <= j < t.len() ==> !is_whitespace(#[trigger] t[j]),
    ensures
        words_acc(s + t) == (words_acc(s).0, words_acc(s).1 + t),
    decreases t.len(),
{
    if t.len() == 0 {
        assert(s + t =~= s);
        assert(words_acc(s).1 + t =~= words_acc(s).1);
    } else {
        let init = t.drop_last();
        lemma_words_acc_append(s, init);
        assert((s + t).drop_last() =~= s + init);
        assert((s + t).last() == t.last());
        assert(words_acc(s).1 + init + seq![t.last()] =~= words_acc(s).1 + t);
        assert(words_acc(s + init).1.push(t.last()) =~= words_acc(s).1 + t);
    }
}

proof fn lemma_words_join_acc(parts: Seq<Seq<char>>)
    requires
        parts.len() > 0,
        forall|i: int| 0 <= i < parts.len() ==> is_word(#[trigger] parts[i]),
    ensures
        words_acc(join(parts, " "@)) == (parts.drop_last(), parts.last()),
    decreases parts.len(),
{
    reveal_strlit(" ");
    if parts.len() == 1 {
        assert(parts[0] == parts.last());
        lemma_words_acc_append(seq![], parts[0]);
        assert(Seq::<char>::empty() + parts[0] =~= parts[0]);
        assert(words_acc(Seq::<char>::empty()).1 + parts[0] =~= parts[0]);
        assert(parts.drop_last() =~= Seq::<Seq<char>>::empty());
    } else {
        let init = parts.drop_last();
        assert forall|i: int| 0 <= i < init.len() implies is_word(#[trigger] init[i]) by {
            assert(init[i] == parts[i]);
        }
        lemma_words_join_acc(init);
        let j = join(init, " "@);
        let spaced = j + " "@;
        assert(spaced.drop_last() =~= j);
        assert(spaced.last() == ' ');
        assert(is_word(init.last()));
        assert(words_acc(spaced) == (init, Seq::<char>::empty())) by {
            assert(init.drop_last().push(init.last()) =~= init);
        }
        assert(is_word(parts.last()));
        lemma_words_acc_append(spaced, parts.last());
        assert(join(parts, " "@) == spaced + parts.last());
        assert(Seq::<char>::empty() + parts.last() =~= parts.last());
    }
}

/// Law: splitting words joined with spaces gives the words back.
pub proof fn lemma_words_of_join(parts: Seq<Seq<char>>)
    requires
        forall|i: int| 0 <= i < parts.len() ==> is_word(#[trigger] parts[i]),
    ensures
        words(join(parts, " "@)) == parts,
{
    if parts.len() > 0 {
        lemma_words_join_acc(parts);
        assert(is_word(parts[parts.len() - 1]));
        assert(parts.drop_last().push(parts.last()) =~= parts);
    } else {
        assert(words(seq![]) =~= Seq::<Seq<char>>::empty());
    }
}

proof fn lemma_words_acc_are_words(s: Seq<char>)
    ensures
        forall|i: int| 0 <= i < words_acc(s).0.len() ==> is_word(#[trigger] words_acc(s).0[i]),
        forall|j: int| 0 <= j < words_acc(s).1.len() ==> !is_whitespace(#[trigger] words_acc(s).1[j]),
    decreases s.len(),
{
    if s.len() > 0 {
        lemma_words_acc_are_words(s.drop_last());
        let (done0, open0) = words_acc(s.drop_last());
        let (done, open) = words_acc(s);
        if is_whitespace(s.last()) {
            if open0.len() > 0 {
                assert forall|i: int| 0 <= i < done.len() implies is_word(#[trigger] done[i]) by {
                    if i < done0.len() {
                        assert(done[i] == done0[i]);
                    } else {
                        assert(done[i] == open0);
                    }
                }
            }
        } else {
            assert forall|j: int| 0 <= j < open.len() implies !is_whitespace(#[trigger] open[j]) by {
                if j < open0.len() {
                    assert(open[j] == open0[j]);
                }
            }
        }
    }
}

/// Law: the words of any text are words: not empty, without whitespace.
pub proof fn lemma_words_are_words(s: Seq<char>)
    ensures
        forall|i: int| 0 <= i < words(s).len() ==> is_word(#[trigger] words(s)[i]),
{
    lemma_words_acc_are_words(s);
    let (done, open) = words_acc(s);
    assert forall|i: int| 0 <= i < words(s).len() implies is_word(#[trigger] words(s)[i]) by {
        if i < done.len() {
            assert(words(s)[i] == done[i]);
        } else {
            assert(words(s)[i] == open);
        }
    }
}

/// What `without` keeps: every value but `word`, and no other.
pub proof fn lemma_without(values: Seq<Seq<char>>, word: Seq<char>)
    ensures
        forall|v: Seq<char>| #[trigger] without(values, word).contains(v) <==> (values.contains(v) && v != word),
        forall|i: int| 0 <= i < without(values, word).len() ==> exists|j: int| 0 <= j < values.len() && #[trigger] without(values, word)[i] == values[j],
    decreases values.len(),
{
    if values.len() > 0 {
        let init = values.drop_last();
        lemma_without(init, word);
        let w0 = without(init, word);
        let w = without(values, word);
        assert forall|v: Seq<char>| #[trigger] w.contains(v) <==> (values.contains(v) && v != word) by {
            if w.contains(v) {
                let i = choose|i: int| 0 <= i < w.len() && w[i] == v;
                if i < w0.len() {
                    assert(w[i] == w0[i]);
                    assert(w0.contains(v));
                    let j = choose|j: int| 0 <= j < init.len() && init[j] == v;
                    assert(values[j] == v);
                } else {
                    assert(values[values.len() - 1] == v);
                }
            }
            if values.contains(v) && v != word {
                let j = choose|j: int| 0 <= j < values.len() && values[j] == v;
                if j < values.len() - 1 {
                    assert(init[j] == v);
                    assert(w0.contains(v));
                    let i = choose|i: int| 0 <= i < w0.len() && w0[i] == v;
                    assert(w[i] == v);
                } else {
                    assert(w[w.len() - 1] == v);
                }
            }
        }
        assert forall|i: int| 0 <= i < w.len() implies exists|j: int| 0 <= j < values.len() && #[trigger] w[i] == values[j] by {
            if i < w0.len() {
                assert(w[i] == w0[i]);
                let j = choose|j: int| 0 <= j < init.len() && w0[i] == init[j];
                assert(values[j] == init[j]);
            } else {
                assert(w[i] == values[values.len() - 1]);
            }
        }
    }
}

} // verus!
