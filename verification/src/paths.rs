//! Paths inside an EPUB archive: resolving manifest references and
//! computing relative references between archive members.

use vstd::prelude::*;
use vstd::utf8::{
    decode_utf8, encode_scalar, encode_utf8, has_width_1_encoding, last_continuation_byte,
    leading_byte_width_1, leading_byte_width_2, leading_byte_width_3, leading_byte_width_4,
    second_last_continuation_byte, third_last_continuation_byte, valid_utf8,
};

use crate::book::lemma_find_none;
use crate::text::{
    before_first, char_pred, chars_of, find_from, join, join_strings, lemma_join_keeps, push_char,
    str_eq, string_of,
    string_views,
};

verus! {

/// `s.split(sep)`.
pub open spec fn split_spec(s: Seq<char>, sep: char) -> Seq<Seq<char>>
    decreases s.len(),
{
    if s.len() == 0 {
        seq![seq![]]
    } else {
        let p = split_spec(s.drop_last(), sep);
        if s.last() == sep {
            p.push(seq![])
        } else {
            p.update(p.len() - 1, p.last().push(s.last()))
        }
    }
}

pub proof fn lemma_split_nonempty(s: Seq<char>, sep: char)
    ensures
        split_spec(s, sep).len() >= 1,
    decreases s.len(),
{
    if s.len() > 0 {
        lemma_split_nonempty(s.drop_last(), sep);
    }
}

/// The index of the last `c` in `s`.
pub open spec fn find_last(s: Seq<char>, c: char) -> Option<int>
    decreases s.len(),
{
    if s.len() == 0 {
        None
    } else if s.last() == c {
        Some(s.len() - 1)
    } else {
        find_last(s.drop_last(), c)
    }
}

/// The directory part of an archive path: everything before its last `/`.
pub open spec fn dirname_spec(path: Seq<char>) -> Seq<char> {
    match find_last(path, '/') {
        Some(i) => path.take(i),
        None => seq![],
    }
}

/// A path component that resolution drops: empty or `.`.
pub open spec fn is_current(part: Seq<char>) -> bool {
    part.len() == 0 || part == "."@
}

/// The components left after resolving `.`, `..` and empty components from
/// left to right; `..` at the top is dropped.
pub open spec fn normalize_parts(parts: Seq<Seq<char>>) -> Seq<Seq<char>>
    decreases parts.len(),
{
    if parts.len() == 0 {
        seq![]
    } else {
        let clean = normalize_parts(parts.drop_last());
        let part = parts.last();
        if is_current(part) {
            clean
        } else if part == ".."@ {
            if clean.len() > 0 {
                clean.drop_last()
            } else {
                clean
            }
        } else {
            clean.push(part)
        }
    }
}

/// A path with `.`, `..` and repeated `/` resolved.
pub open spec fn normalize_spec(path: Seq<char>) -> Seq<char> {
    join(normalize_parts(split_spec(path, '/')), "/"@)
}

/// The components of a path other than empty ones and `.`.
pub open spec fn keep_components(parts: Seq<Seq<char>>) -> Seq<Seq<char>>
    decreases parts.len(),
{
    if parts.len() == 0 {
        seq![]
    } else {
        let init = keep_components(parts.drop_last());
        if is_current(parts.last()) {
            init
        } else {
            init.push(parts.last())
        }
    }
}

pub open spec fn components_spec(path: Seq<char>) -> Seq<Seq<char>> {
    keep_components(split_spec(path, '/'))
}

/// The number of leading components that `a` and `b` share, counted from `i`.
pub open spec fn common_from(a: Seq<Seq<char>>, b: Seq<Seq<char>>, i: int) -> int
    decreases a.len() - i,
{
    if 0 <= i < a.len() && i < b.len() && a[i] == b[i] {
        common_from(a, b, i + 1)
    } else {
        i
    }
}

/// The components of the reference from directory `from` to `to`.
pub open spec fn relative_parts(from: Seq<Seq<char>>, to: Seq<Seq<char>>) -> Seq<Seq<char>> {
    let common = common_from(from, to, 0);
    parent_refs((from.len() - common) as nat) + to.skip(common)
}

/// `n` parent references.
pub open spec fn parent_refs(n: nat) -> Seq<Seq<char>> {
    Seq::new(n, |i: int| ".."@)
}

/// The reference that leads from directory `from_directory` to `to`.
pub open spec fn relative_path_spec(from_directory: Seq<char>, to: Seq<char>) -> Seq<char> {
    let parts = relative_parts(components_spec(from_directory), components_spec(to));
    if parts.len() == 0 {
        "."@
    } else {
        join(parts, "/"@)
    }
}

/// The value of one hexadecimal digit.
pub open spec fn hex_spec(value: u8) -> Option<u8> {
    if 48 <= value <= 57 {
        Some((value - 48) as u8)
    } else if 97 <= value <= 102 {
        Some((value - 97 + 10) as u8)
    } else if 65 <= value <= 70 {
        Some((value - 65 + 10) as u8)
    } else {
        None
    }
}

/// The bytes from `i` on with each `%XY` escape replaced by its byte.
pub open spec fn percent_decode_from(b: Seq<u8>, i: int) -> Seq<u8>
    decreases b.len() - i,
{
    if i < 0 || i >= b.len() {
        seq![]
    } else if b[i] == 37 && i + 2 < b.len() && hex_spec(b[i + 1]) is Some && hex_spec(
        b[i + 2],
    ) is Some {
        seq![(hex_spec(b[i + 1])->0 * 16 + hex_spec(b[i + 2])->0) as u8] + percent_decode_from(
            b,
            i + 3,
        )
    } else {
        seq![b[i]] + percent_decode_from(b, i + 1)
    }
}

/// `String::from_utf8_lossy`: the text of `bytes`, with each invalid
/// sequence replaced by U+FFFD.
pub uninterp spec fn utf8_lossy(bytes: Seq<u8>) -> Seq<char>;

/// The text of `bytes` where each invalid UTF-8 sequence becomes U+FFFD
/// (`String::from_utf8_lossy`). Claims the named result, and, as the
/// standard library documents, the plain decoding for valid UTF-8.
#[verifier::external_body]
pub(crate) fn from_utf8_lossy(bytes: &[u8]) -> (r: String)
    ensures
        r@ == utf8_lossy(bytes@),
        valid_utf8(bytes@) ==> r@ == decode_utf8(bytes@),
{
    String::from_utf8_lossy(bytes).into_owned()
}

/// The text of `bytes` as `String::from_utf8_lossy` gives it: the plain
/// decoding of valid UTF-8, else the named result.
pub open spec fn lossy_text(bytes: Seq<u8>) -> Seq<char> {
    if valid_utf8(bytes) {
        decode_utf8(bytes)
    } else {
        utf8_lossy(bytes)
    }
}

/// The archive path that a manifest `href` names, relative to the OPF file
/// `opf_name`: fragment dropped, percent escapes decoded, path normalized.
pub open spec fn manifest_path_spec(opf_name: Seq<char>, href: Seq<char>) -> Seq<char> {
    let decoded = lossy_text(
        percent_decode_from(vstd::utf8::encode_utf8(before_first(href, '#')), 0),
    );
    normalize_spec(dirname_spec(opf_name) + "/"@ + decoded)
}

// ---------------------------------------------------------------------------
// Resolving a relative reference
// ---------------------------------------------------------------------------

/// Splitting at a separator placed between `a` and `b` splits each side.
proof fn lemma_split_append(a: Seq<char>, b: Seq<char>, sep: char)
    ensures
        split_spec(a + seq![sep] + b, sep) == split_spec(a, sep) + split_spec(b, sep),
    decreases b.len(),
{
    let s = a + seq![sep] + b;
    if b.len() == 0 {
        assert(s.drop_last() =~= a);
        assert(split_spec(a, sep).push(seq![]) =~= split_spec(a, sep) + split_spec(b, sep));
    } else {
        assert(s.drop_last() =~= a + seq![sep] + b.drop_last());
        lemma_split_append(a, b.drop_last(), sep);
        lemma_split_nonempty(b.drop_last(), sep);
        let p = split_spec(a, sep);
        let q = split_spec(b.drop_last(), sep);
        if b.last() == sep {
            assert((p + q).push(seq![]) =~= p + q.push(seq![]));
        } else {
            assert((p + q).update((p + q).len() - 1, (p + q).last().push(b.last())) =~= p + q.update(
                q.len() - 1,
                q.last().push(b.last()),
            ));
        }
    }
}

/// Text without the separator splits into itself alone.
proof fn lemma_split_single(s: Seq<char>, sep: char)
    requires
        !s.contains(sep),
    ensures
        split_spec(s, sep) == seq![s],
    decreases s.len(),
{
    if s.len() > 0 {
        assert(s[s.len() - 1] == s.last());
        assert(!s.drop_last().contains(sep)) by {
            if s.drop_last().contains(sep) {
                let j = choose|j: int| 0 <= j < s.drop_last().len() && s.drop_last()[j] == sep;
                assert(s[j] == sep);
            }
        }
        lemma_split_single(s.drop_last(), sep);
        assert(s.drop_last().push(s.last()) =~= s);
        assert(seq![s.drop_last()].update(0, s.drop_last().push(s.last())) =~= seq![s]);
    } else {
        assert(s =~= Seq::<char>::empty());
    }
}

/// Splitting joined parts that hold no separator gives the parts back.
proof fn lemma_split_join(parts: Seq<Seq<char>>, sep: char)
    requires
        parts.len() >= 1,
        forall|i: int| 0 <= i < parts.len() ==> !(#[trigger] parts[i]).contains(sep),
    ensures
        split_spec(join(parts, seq![sep]), sep) == parts,
    decreases parts.len(),
{
    if parts.len() == 1 {
        lemma_split_single(parts[0], sep);
        assert(seq![parts[0]] =~= parts);
    } else {
        let init = parts.drop_last();
        lemma_split_join(init, sep);
        lemma_split_append(join(init, seq![sep]), parts.last(), sep);
        lemma_split_single(parts.last(), sep);
        assert(init + seq![parts.last()] =~= parts);
    }
}

/// The parts of a split hold no separator.
proof fn lemma_split_parts(s: Seq<char>, sep: char)
    ensures
        forall|i: int|
            0 <= i < split_spec(s, sep).len() ==> !(#[trigger] split_spec(s, sep)[i]).contains(sep),
    decreases s.len(),
{
    if s.len() > 0 {
        lemma_split_parts(s.drop_last(), sep);
        lemma_split_nonempty(s.drop_last(), sep);
        let p = split_spec(s.drop_last(), sep);
        if s.last() != sep {
            assert forall|i: int| 0 <= i < split_spec(s, sep).len() implies !(#[trigger] split_spec(
                s,
                sep,
            )[i]).contains(sep) by {
                if i == p.len() - 1 {
                    let w = p.last().push(s.last());
                    if w.contains(sep) {
                        let j = choose|j: int| 0 <= j < w.len() && w[j] == sep;
                        assert(p.last()[j] == sep);
                    }
                }
            }
        }
    }
}

/// Without `..`, resolving keeps exactly the components.
proof fn lemma_normalize_without_parent(parts: Seq<Seq<char>>)
    requires
        !parts.contains(".."@),
    ensures
        normalize_parts(parts) == keep_components(parts),
    decreases parts.len(),
{
    if parts.len() > 0 {
        assert(!parts.drop_last().contains(".."@)) by {
            if parts.drop_last().contains(".."@) {
                let j = choose|j: int| 0 <= j < parts.drop_last().len() && parts.drop_last()[j] == ".."@;
                assert(parts[j] == ".."@);
            }
        }
        assert(parts[parts.len() - 1] == parts.last());
        lemma_normalize_without_parent(parts.drop_last());
    }
}

/// The components of a path hold no separator and are neither empty nor `.`.
proof fn lemma_keep_components(parts: Seq<Seq<char>>)
    ensures
        forall|i: int|
            0 <= i < keep_components(parts).len() ==> !is_current(#[trigger] keep_components(parts)[i])
                && exists|j: int| 0 <= j < parts.len() && parts[j] == keep_components(parts)[i],
    decreases parts.len(),
{
    if parts.len() > 0 {
        lemma_keep_components(parts.drop_last());
        let init = keep_components(parts.drop_last());
        assert forall|i: int| 0 <= i < keep_components(parts).len() implies !is_current(
            #[trigger] keep_components(parts)[i],
        ) && exists|j: int| 0 <= j < parts.len() && parts[j] == keep_components(parts)[i] by {
            if i < init.len() {
                let j = choose|j: int| 0 <= j < parts.drop_last().len() && parts.drop_last()[j] == init[i];
                assert(parts[j] == keep_components(parts)[i]);
            } else {
                assert(parts[parts.len() - 1] == keep_components(parts)[i]);
            }
        }
    }
}

/// Resolving parts that are plain names appends them.
proof fn lemma_normalize_names(x: Seq<Seq<char>>, y: Seq<Seq<char>>)
    requires
        forall|i: int| 0 <= i < y.len() ==> !is_current(#[trigger] y[i]) && y[i] != ".."@,
    ensures
        normalize_parts(x + y) == normalize_parts(x) + y,
    decreases y.len(),
{
    if y.len() == 0 {
        assert(x + y =~= x);
    } else {
        lemma_normalize_names(x, y.drop_last());
        assert((x + y).drop_last() =~= x + y.drop_last());
        assert((x + y).last() == y[y.len() - 1]);
        assert(normalize_parts(x) + y =~= (normalize_parts(x) + y.drop_last()).push(y.last()));
    }
}

/// Each `..` takes one component off, down to the top.
proof fn lemma_normalize_parents(x: Seq<Seq<char>>, n: nat)
    requires
        n <= normalize_parts(x).len(),
    ensures
        normalize_parts(x + parent_refs(n)) == normalize_parts(x).take(normalize_parts(x).len() - n),
    decreases n,
{
    reveal_strlit("..");
    reveal_strlit(".");
    if n == 0 {
        assert(x + parent_refs(0) =~= x);
        assert(normalize_parts(x).take(normalize_parts(x).len() as int) =~= normalize_parts(x));
    } else {
        let m = (n - 1) as nat;
        lemma_normalize_parents(x, m);
        assert((x + parent_refs(n)).drop_last() =~= x + parent_refs(m));
        assert((x + parent_refs(n)).last() == ".."@);
        assert(normalize_parts(x).take(normalize_parts(x).len() - m).drop_last() =~= normalize_parts(
            x,
        ).take(normalize_parts(x).len() - n));
    }
}

/// The shared leading components of `a` and `b`.
proof fn lemma_common_from(a: Seq<Seq<char>>, b: Seq<Seq<char>>, i: int)
    requires
        0 <= i <= a.len(),
        i <= b.len(),
        a.take(i) == b.take(i),
    ensures
        i <= common_from(a, b, i) <= a.len(),
        common_from(a, b, i) <= b.len(),
        a.take(common_from(a, b, i)) == b.take(common_from(a, b, i)),
    decreases a.len() - i,
{
    if i < a.len() && i < b.len() && a[i] == b[i] {
        assert(a.take(i + 1) =~= a.take(i).push(a[i]));
        assert(b.take(i + 1) =~= b.take(i).push(b[i]));
        lemma_common_from(a, b, i + 1);
    }
}

/// Law: from a document in `directory`, the reference that `relative_path`
/// gives for `to` resolves back to `to`, normalized (where neither path goes
/// up with `..`).
pub proof fn lemma_relative_path_resolves(directory: Seq<char>, to: Seq<char>)
    requires
        !split_spec(directory, '/').contains(".."@),
        !split_spec(to, '/').contains(".."@),
    ensures
        normalize_spec(directory + "/"@ + relative_path_spec(directory, to)) == normalize_spec(to),
{
    reveal_strlit("/");
    reveal_strlit("..");
    reveal_strlit(".");
    let raw = split_spec(directory, '/');
    let from = components_spec(directory);
    let target = components_spec(to);
    lemma_normalize_without_parent(raw);
    lemma_normalize_without_parent(split_spec(to, '/'));
    lemma_keep_components(raw);
    lemma_keep_components(split_spec(to, '/'));
    lemma_split_parts(to, '/');
    assert(from.take(0) =~= target.take(0));
    lemma_common_from(from, target, 0);
    let common = common_from(from, target, 0);
    let n = (from.len() - common) as nat;
    let refs = parent_refs(n);
    let rest = target.skip(common);
    let parts = relative_parts(from, target);
    assert(parts == refs + rest);
    assert forall|i: int| 0 <= i < rest.len() implies !is_current(#[trigger] rest[i]) && rest[i]
        != ".."@ by {
        assert(rest[i] == target[i + common]);
        let j = choose|j: int| 0 <= j < split_spec(to, '/').len() && split_spec(to, '/')[j] == target[i + common];
        if rest[i] == ".."@ {
            assert(split_spec(to, '/').contains(".."@));
        }
    }
    assert(normalize_parts(raw) == from);
    let rel = relative_path_spec(directory, to);
    assert("/"@ == seq!['/']);
    lemma_split_append(directory, rel, '/');
    assert(directory + "/"@ + rel == directory + seq!['/'] + rel);
    let whole = directory + "/"@ + rel;
    assert(normalize_spec(to) == join(target, "/"@));
    if parts.len() == 0 {
        assert(rel == "."@);
        assert(!"."@.contains('/')) by {
            assert("."@.len() == 1);
        }
        lemma_split_single("."@, '/');
        assert(split_spec(whole, '/') == raw + seq!["."@]);
        assert(raw + seq!["."@] =~= raw.push("."@));
        assert((raw + seq!["."@]).drop_last() =~= raw);
        assert(normalize_parts(split_spec(whole, '/')) == from);
        assert(rest.len() == 0);
        assert(from =~= from.take(common));
        assert(target =~= target.take(common));
        assert(from == target);
    } else {
        assert forall|i: int| 0 <= i < parts.len() implies !(#[trigger] parts[i]).contains('/') by {
            if i < refs.len() {
                assert(parts[i] == ".."@);
            } else {
                assert(parts[i] == rest[i - refs.len()]);
                assert(rest[i - refs.len()] == target[i - refs.len() + common]);
                let j = choose|j: int| 0 <= j < split_spec(to, '/').len() && split_spec(to, '/')[j]
                    == target[i - refs.len() + common];
            }
        }
        lemma_split_join(parts, '/');
        assert(raw + parts =~= (raw + refs) + rest);
        lemma_normalize_parents(raw, n);
        lemma_normalize_names(raw + refs, rest);
        assert(from.take(from.len() - n) == from.take(common));
        assert(target.take(common) + rest =~= target);
        assert(rel == join(parts, "/"@));
        assert(split_spec(whole, '/') == raw + parts);
        assert(normalize_parts(split_spec(whole, '/')) == target);
    }
}

/// No byte of the UTF-8 encoding of a scalar other than `%` is `%`.
proof fn lemma_scalar_no_percent(v: u32)
    requires
        v != 37,
    ensures
        forall|i: int| 0 <= i < encode_scalar(v).len() ==> encode_scalar(v)[i] != 37,
{
    assert(has_width_1_encoding(v) ==> leading_byte_width_1(v) != 37) by (bit_vector)
        requires
            v != 37,
    ;
    assert(leading_byte_width_2(v) != 37) by (bit_vector);
    assert(leading_byte_width_3(v) != 37) by (bit_vector);
    assert(leading_byte_width_4(v) != 37) by (bit_vector);
    assert(last_continuation_byte(v) != 37) by (bit_vector);
    assert(second_last_continuation_byte(v) != 37) by (bit_vector);
    assert(third_last_continuation_byte(v) != 37) by (bit_vector);
}

/// Text without `%` encodes to bytes without `%`.
proof fn lemma_encode_no_percent(chars: Seq<char>)
    requires
        !chars.contains('%'),
    ensures
        forall|i: int| 0 <= i < encode_utf8(chars).len() ==> encode_utf8(chars)[i] != 37,
    decreases chars.len(),
{
    if chars.len() > 0 {
        let rest = chars.drop_first();
        assert(!rest.contains('%')) by {
            if rest.contains('%') {
                let j = choose|j: int| 0 <= j < rest.len() && rest[j] == '%';
                assert(chars[j + 1] == '%');
            }
        }
        lemma_encode_no_percent(rest);
        assert(chars[0] != '%');
        if chars[0] as u32 == 37 {
            vstd::utf8::char_u32_cast(chars[0], 37);
            assert((37u32 as char) == '%');
        }
        lemma_scalar_no_percent(chars[0] as u32);
        let head = encode_scalar(chars[0] as u32);
        assert forall|i: int| 0 <= i < encode_utf8(chars).len() implies encode_utf8(chars)[i] != 37 by {
            if i < head.len() {
                assert(encode_utf8(chars)[i] == head[i]);
            } else {
                assert(encode_utf8(chars)[i] == encode_utf8(rest)[i - head.len()]);
            }
        }
    }
}

/// Bytes without `%` decode to themselves.
proof fn lemma_percent_decode_plain(b: Seq<u8>, i: int)
    requires
        0 <= i <= b.len(),
        forall|k: int| i <= k < b.len() ==> b[k] != 37,
    ensures
        percent_decode_from(b, i) == b.skip(i),
    decreases b.len() - i,
{
    if i < b.len() {
        lemma_percent_decode_plain(b, i + 1);
        assert(seq![b[i]] + b.skip(i + 1) =~= b.skip(i));
    } else {
        assert(b.skip(i) =~= Seq::<u8>::empty());
    }
}

/// A suffix without `c` leaves the last `c` where it was.
proof fn lemma_find_last_suffix(p: Seq<char>, q: Seq<char>, c: char)
    requires
        !q.contains(c),
    ensures
        find_last(p + q, c) == find_last(p, c),
    decreases q.len(),
{
    if q.len() == 0 {
        assert(p + q =~= p);
    } else {
        assert((p + q).drop_last() =~= p + q.drop_last());
        assert(q[q.len() - 1] != c);
        assert(!q.drop_last().contains(c)) by {
            if q.drop_last().contains(c) {
                let j = choose|j: int| 0 <= j < q.drop_last().len() && q.drop_last()[j] == c;
                assert(q[j] == c);
            }
        }
        lemma_find_last_suffix(p, q.drop_last(), c);
    }
}

/// The parts of a split keep a property of every character of the text.
proof fn lemma_split_keeps(s: Seq<char>, sep: char, pr: spec_fn(char) -> bool)
    requires
        forall|k: int| 0 <= k < s.len() ==> pr(#[trigger] s[k]),
    ensures
        forall|i: int, j: int|
            0 <= i < split_spec(s, sep).len() && 0 <= j < split_spec(s, sep)[i].len() ==> pr(
                #[trigger] split_spec(s, sep)[i][j],
            ),
    decreases s.len(),
{
    if s.len() > 0 {
        let init = s.drop_last();
        assert forall|k: int| 0 <= k < init.len() implies pr(#[trigger] init[k]) by {
            assert(init[k] == s[k]);
        }
        lemma_split_keeps(init, sep, pr);
        lemma_split_nonempty(init, sep);
        let p = split_spec(init, sep);
        assert(pr(s[s.len() - 1]));
        assert forall|i: int, j: int|
            0 <= i < split_spec(s, sep).len() && 0 <= j < split_spec(s, sep)[i].len() implies pr(
            #[trigger] split_spec(s, sep)[i][j],
        ) by {
            if s.last() != sep && i == p.len() - 1 {
                let w = p.last().push(s.last());
                assert(split_spec(s, sep)[i] == w);
                if j < p.last().len() {
                    assert(w[j] == p[i][j]);
                }
            } else if i < p.len() {
                assert(split_spec(s, sep)[i] == p[i]);
            }
        }
    }
}

/// Law: from a document in `directory`, the manifest path of the reference
/// that `relative_path` gives for `to` is `to`, normalized (where neither
/// path goes up with `..` and `to` holds no `%` or `#`).
pub proof fn lemma_manifest_path_undoes_relative(directory: Seq<char>, to: Seq<char>)
    requires
        !split_spec(directory, '/').contains(".."@),
        !split_spec(to, '/').contains(".."@),
        !to.contains('%'),
        !to.contains('#'),
    ensures
        manifest_path_spec(directory + "/document.xhtml"@, relative_path_spec(directory, to))
            == normalize_spec(to),
{
    reveal_strlit("/document.xhtml");
    reveal_strlit("document.xhtml");
    reveal_strlit("/");
    reveal_strlit("..");
    reveal_strlit(".");
    let pr = |c: char| c != '%' && c != '#';
    let rel = relative_path_spec(directory, to);
    assert forall|k: int| 0 <= k < to.len() implies pr(#[trigger] to[k]) by {}
    lemma_split_keeps(to, '/', pr);
    lemma_keep_components(split_spec(to, '/'));
    let target = components_spec(to);
    let from = components_spec(directory);
    assert(from.take(0) =~= target.take(0));
    lemma_common_from(from, target, 0);
    let common = common_from(from, target, 0);
    let parts = relative_parts(from, target);
    assert forall|i: int, j: int| 0 <= i < parts.len() && 0 <= j < parts[i].len() implies pr(
        #[trigger] parts[i][j],
    ) by {
        let n = (from.len() - common) as nat;
        if i < n {
            assert(parts[i] == ".."@);
        } else {
            assert(parts[i] == target[i - n + common]);
            let m = choose|m: int|
                0 <= m < split_spec(to, '/').len() && split_spec(to, '/')[m] == target[i - n + common];
            assert(split_spec(to, '/')[m][j] == parts[i][j]);
        }
    }
    assert forall|j: int| 0 <= j < "/"@.len() implies pr(#[trigger] "/"@[j]) by {}
    lemma_join_keeps(parts, "/"@, pr);
    assert forall|k: int| 0 <= k < rel.len() implies pr(#[trigger] rel[k]) by {
        if parts.len() == 0 {
            assert(rel == "."@);
        } else {
            assert(rel == join(parts, "/"@));
        }
    }
    assert(!rel.contains('%')) by {
        if rel.contains('%') {
            let k = choose|k: int| 0 <= k < rel.len() && rel[k] == '%';
            assert(pr(rel[k]));
        }
    }
    lemma_find_none(rel, char_pred('#'), 0);
    assert(before_first(rel, '#') == rel);
    lemma_encode_no_percent(rel);
    lemma_percent_decode_plain(encode_utf8(rel), 0);
    assert(encode_utf8(rel).skip(0) =~= encode_utf8(rel));
    vstd::utf8::encode_utf8_valid_utf8(rel);
    vstd::utf8::encode_utf8_decode_utf8(rel);
    assert(lossy_text(percent_decode_from(encode_utf8(before_first(rel, '#')), 0)) == rel);
    let opf = directory + "/document.xhtml"@;
    assert(opf =~= (directory + "/"@) + "document.xhtml"@);
    assert(!"document.xhtml"@.contains('/')) by {
        if "document.xhtml"@.contains('/') {
            let k = choose|k: int| 0 <= k < "document.xhtml"@.len() && "document.xhtml"@[k] == '/';
            assert(0 <= k < 14);
        }
    }
    lemma_find_last_suffix(directory + "/"@, "document.xhtml"@, '/');
    assert((directory + "/"@).drop_last() =~= directory);
    assert(find_last(directory + "/"@, '/') == Some(directory.len() as int));
    assert(dirname_spec(opf) =~= directory);
    lemma_relative_path_resolves(directory, to);
}

// ---------------------------------------------------------------------------
// Executable functions
// ---------------------------------------------------------------------------

/// `s.split(sep)`, as owned strings.
pub fn split_chars(s: &[char], sep: char) -> (r: Vec<String>)
    ensures
        string_views(r@) == split_spec(s@, sep),
{
    let mut parts: Vec<String> = Vec::new();
    let mut current = String::new();
    let mut i: usize = 0;
    while i < s.len()
        invariant
            0 <= i <= s@.len(),
            string_views(parts@).push(current@) == split_spec(s@.take(i as int), sep),
        decreases s@.len() - i,
    {
        let ghost before = string_views(parts@).push(current@);
        proof {
            assert(s@.take(i + 1).drop_last() =~= s@.take(i as int));
        }
        if s[i] == sep {
            parts.push(current);
            current = String::new();
            assert(string_views(parts@).push(current@) =~= before.push(seq![]));
        } else {
            push_char(&mut current, s[i]);
            assert(string_views(parts@).push(current@) =~= before.update(
                before.len() - 1,
                before.last().push(s@[i as int]),
            ));
        }
        i = i + 1;
    }
    assert(s@.take(s@.len() as int) =~= s@);
    parts.push(current);
    parts
}

/// The directory part of an archive path.
pub fn dirname(path: &str) -> (r: String)
    ensures
        r@ == dirname_spec(path@),
{
    let v = chars_of(path);
    let mut i = v.len();
    assert(v@.take(v@.len() as int) =~= v@);
    while i > 0 && v[i - 1] != '/'
        invariant
            0 <= i <= v@.len(),
            find_last(v@, '/') == find_last(v@.take(i as int), '/'),
        decreases i,
    {
        assert(v@.take(i as int).drop_last() =~= v@.take(i - 1));
        i = i - 1;
    }
    assert(v@.take(v@.len() as int) =~= v@);
    if i == 0 {
        String::new()
    } else {
        string_of(v.as_slice(), 0, i - 1)
    }
}

/// A path with `.`, `..` and repeated `/` resolved.
pub fn normalize(path: &str) -> (r: String)
    ensures
        r@ == normalize_spec(path@),
{
    let v = chars_of(path);
    let parts = split_chars(v.as_slice(), '/');
    let mut clean: Vec<String> = Vec::new();
    let mut i: usize = 0;
    while i < parts.len()
        invariant
            0 <= i <= parts@.len(),
            string_views(clean@) == normalize_parts(string_views(parts@).take(i as int)),
        decreases parts@.len() - i,
    {
        let ghost views = string_views(parts@);
        proof {
            assert(views.take(i + 1).drop_last() =~= views.take(i as int));
            assert(views.take(i + 1).last() == parts@[i as int]@);
        }
        let part = parts[i].as_str();
        if part.is_empty() || str_eq(part, ".") {
        } else if str_eq(part, "..") {
            let ghost before = string_views(clean@);
            let _ = clean.pop();
            assert(string_views(clean@) =~= if before.len() > 0 {
                before.drop_last()
            } else {
                before
            });
        } else {
            let ghost before = string_views(clean@);
            clean.push(parts[i].clone());
            assert(string_views(clean@) =~= before.push(views[i as int]));
        }
        i = i + 1;
    }
    assert(string_views(parts@).take(parts@.len() as int) =~= string_views(parts@));
    join_strings(&clean, "/")
}

/// The components of a path other than empty ones and `.`.
pub fn components(path: &str) -> (r: Vec<String>)
    ensures
        string_views(r@) == components_spec(path@),
{
    let v = chars_of(path);
    let parts = split_chars(v.as_slice(), '/');
    let mut kept: Vec<String> = Vec::new();
    let mut i: usize = 0;
    while i < parts.len()
        invariant
            0 <= i <= parts@.len(),
            string_views(kept@) == keep_components(string_views(parts@).take(i as int)),
        decreases parts@.len() - i,
    {
        let ghost views = string_views(parts@);
        proof {
            assert(views.take(i + 1).drop_last() =~= views.take(i as int));
            assert(views.take(i + 1).last() == parts@[i as int]@);
        }
        let part = parts[i].as_str();
        if !(part.is_empty() || str_eq(part, ".")) {
            let ghost before = string_views(kept@);
            kept.push(parts[i].clone());
            assert(string_views(kept@) =~= before.push(views[i as int]));
        }
        i = i + 1;
    }
    assert(string_views(parts@).take(parts@.len() as int) =~= string_views(parts@));
    kept
}

/// The reference that leads from the directory `from_directory` to `to`.
pub fn relative_path(from_directory: &str, to: &str) -> (r: String)
    ensures
        r@ == relative_path_spec(from_directory@, to@),
{
    let from = components(from_directory);
    let target = components(to);
    let ghost f = string_views(from@);
    let ghost t = string_views(target@);
    let mut common: usize = 0;
    while common < from.len() && common < target.len() && str_eq(
        from[common].as_str(),
        target[common].as_str(),
    )
        invariant
            f == string_views(from@),
            t == string_views(target@),
            0 <= common <= from@.len(),
            common <= target@.len(),
            common_from(f, t, 0) == common_from(f, t, common as int),
        decreases from@.len() - common,
    {
        common = common + 1;
    }
    assert(common_from(f, t, common as int) == common as int);
    let mut result: Vec<String> = Vec::new();
    let mut i: usize = common;
    while i < from.len()
        invariant
            common <= i <= from@.len(),
            string_views(result@) == parent_refs((i - common) as nat),
        decreases from@.len() - i,
    {
        let ghost before = string_views(result@);
        result.push(String::from_str(".."));
        assert(string_views(result@) =~= before.push(".."@));
        i = i + 1;
        assert(string_views(result@) =~= parent_refs((i - common) as nat));
    }
    let mut j: usize = common;
    while j < target.len()
        invariant
            f == string_views(from@),
            t == string_views(target@),
            common <= from@.len(),
            common <= j <= target@.len(),
            common_from(f, t, 0) == common as int,
            string_views(result@) == parent_refs((from@.len() - common) as nat) + t.subrange(
                common as int,
                j as int,
            ),
        decreases target@.len() - j,
    {
        let ghost before = string_views(result@);
        result.push(target[j].clone());
        assert(string_views(result@) =~= before.push(t[j as int]));
        j = j + 1;
        assert(string_views(result@) =~= parent_refs((from@.len() - common) as nat)
            + t.subrange(common as int, j as int));
    }
    assert(t.subrange(common as int, t.len() as int) =~= t.skip(common as int));
    assert(string_views(result@) =~= relative_parts(f, t));
    if result.len() == 0 {
        String::from_str(".")
    } else {
        join_strings(&result, "/")
    }
}

/// The value of one hexadecimal digit.
pub fn hex(value: u8) -> (r: Option<u8>)
    ensures
        r == hex_spec(value),
{
    if 48 <= value && value <= 57 {
        Some(value - 48)
    } else if 97 <= value && value <= 102 {
        Some(value - 97 + 10)
    } else if 65 <= value && value <= 70 {
        Some(value - 65 + 10)
    } else {
        None
    }
}

/// `value` with each `%XY` escape replaced by its byte, read as UTF-8.
pub fn percent_decode(value: &str) -> (r: String)
    ensures
        r@ == lossy_text(percent_decode_from(vstd::utf8::encode_utf8(value@), 0)),
{
    let bytes = value.as_bytes();
    let mut decoded: Vec<u8> = Vec::new();
    let mut index: usize = 0;
    while index < bytes.len()
        invariant
            bytes@ == vstd::utf8::encode_utf8(value@),
            0 <= index <= bytes@.len(),
            decoded@ + percent_decode_from(bytes@, index as int) == percent_decode_from(
                bytes@,
                0,
            ),
        decreases bytes@.len() - index,
    {
        let ghost before = decoded@;
        if bytes[index] == 37 && bytes.len() - index > 2 {
            let high = hex(bytes[index + 1]);
            let low = hex(bytes[index + 2]);
            if high.is_some() && low.is_some() {
                let h = high.unwrap();
                let l = low.unwrap();
                decoded.push(h * 16 + l);
                assert(before + percent_decode_from(bytes@, index as int) =~= decoded@
                    + percent_decode_from(bytes@, index + 3));
                index = index + 3;
                continue;
            }
        }
        decoded.push(bytes[index]);
        assert(before + percent_decode_from(bytes@, index as int) =~= decoded@
            + percent_decode_from(bytes@, index + 1));
        index = index + 1;
    }
    assert(decoded@ =~= percent_decode_from(bytes@, 0));
    from_utf8_lossy(decoded.as_slice())
}

/// The archive path that a manifest `href` names, relative to the OPF file
/// `opf_name`.
pub fn manifest_path(opf_name: &str, href: &str) -> (r: String)
    ensures
        r@ == manifest_path_spec(opf_name@, href@),
{
    let h = chars_of(href);
    let mut end: usize = 0;
    while end < h.len() && h[end] != '#'
        invariant
            0 <= end <= h@.len(),
            find_from(h@, char_pred('#'), 0) == find_from(h@, char_pred('#'), end as int),
        decreases h@.len() - end,
    {
        end = end + 1;
    }
    let fragment_free = string_of(h.as_slice(), 0, end);
    assert(fragment_free@ == before_first(href@, '#')) by {
        if end < h@.len() {
            assert(find_from(h@, char_pred('#'), end as int) == Some(end as int));
        } else {
            assert(h@.take(end as int) =~= h@);
            assert(find_from(h@, char_pred('#'), end as int) is None);
        }
    }
    let decoded = percent_decode(fragment_free.as_str());
    let mut joined = dirname(opf_name);
    joined.append("/");
    joined.append(decoded.as_str());
    normalize(joined.as_str())
}

} // verus!
