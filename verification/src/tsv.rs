//! The text form of a language file, for editing by hand.
//!
//! Each entry is one line: the key, a tab, and the value, in which a line
//! feed is written as a backslash and `n` and a carriage return as a
//! backslash and `r`. What a line holds is stated over the UTF-8 bytes of
//! the strings.
//!
//! Nothing else is escaped. A key with a tab or a line break in it, and a
//! value that holds a backslash followed by `n` or `r`, do not come back as
//! they were.

use crate::utf8::string_from_utf8;
use vstd::pervasive::unreached;
use vstd::prelude::*;
use vstd::slice::slice_subrange;
use vstd::utf8::{
    encode_utf8, encode_utf8_decode_utf8, encode_utf8_valid_utf8,
    is_char_boundary_iff_is_leading_byte, length_of_first_scalar, pop_first_scalar,
    valid_first_scalar, valid_utf8, valid_utf8_concat, valid_utf8_split,
};

verus! {

/// The byte between the key and the value of a line.
pub const TAB: u8 = 0x09;

/// The byte that ends a line.
pub const LINE_FEED: u8 = 0x0a;

/// The byte of a carriage return.
pub const CARRIAGE_RETURN: u8 = 0x0d;

/// The byte that starts an escape.
pub const BACKSLASH: u8 = 0x5c;

/// The byte that stands for a line feed behind a backslash.
pub const LETTER_N: u8 = 0x6e;

/// The byte that stands for a carriage return behind a backslash.
pub const LETTER_R: u8 = 0x72;

/// `v` with each line feed and each carriage return written as two bytes.
pub open spec fn escaped(v: Seq<u8>) -> Seq<u8>
    decreases v.len(),
{
    if v.len() == 0 {
        Seq::empty()
    } else if v[0] == LINE_FEED {
        seq![BACKSLASH, LETTER_N] + escaped(v.drop_first())
    } else if v[0] == CARRIAGE_RETURN {
        seq![BACKSLASH, LETTER_R] + escaped(v.drop_first())
    } else {
        seq![v[0]] + escaped(v.drop_first())
    }
}

/// `t` with each backslash and `n` read as a line feed and each backslash
/// and `r` as a carriage return, from left to right.
pub open spec fn unescaped(t: Seq<u8>) -> Seq<u8>
    decreases t.len(),
{
    if t.len() == 0 {
        Seq::empty()
    } else if t.len() >= 2 && t[0] == BACKSLASH && t[1] == LETTER_N {
        seq![LINE_FEED] + unescaped(t.skip(2))
    } else if t.len() >= 2 && t[0] == BACKSLASH && t[1] == LETTER_R {
        seq![CARRIAGE_RETURN] + unescaped(t.skip(2))
    } else {
        seq![t[0]] + unescaped(t.drop_first())
    }
}

/// Somewhere in `v` a backslash is followed by `n` or by `r`.
pub open spec fn has_escape(v: Seq<u8>) -> bool {
    exists|i: int|
        0 <= i && i + 1 < v.len() && #[trigger] v[i] == BACKSLASH && (v[i + 1] == LETTER_N || v[i
            + 1] == LETTER_R)
}

/// The place of the first tab of `line`, or the length of `line` where it
/// has no tab.
pub open spec fn first_tab(line: Seq<u8>) -> int
    decreases line.len(),
{
    if line.len() == 0 || line[0] == TAB {
        0
    } else {
        1 + first_tab(line.drop_first())
    }
}

/// The line for an entry, without the line feed that ends it.
pub open spec fn line_of(key: Seq<u8>, value: Seq<u8>) -> Seq<u8> {
    key + seq![TAB] + escaped(value)
}

/// The key and the value of a line that has no line feed at its end: what
/// stands before the first tab, and what stands behind it with the escapes
/// undone. A line without a tab holds no entry.
pub open spec fn parsed_line(line: Seq<u8>) -> Option<(Seq<u8>, Seq<u8>)> {
    let tab = first_tab(line);
    if tab == line.len() {
        None
    } else {
        Some((line.take(tab), unescaped(line.skip(tab + 1))))
    }
}

/// The first tab is where a tab stands with none before it.
pub proof fn lemma_first_tab(line: Seq<u8>, i: int)
    requires
        0 <= i <= line.len(),
        forall|j: int| 0 <= j < i ==> line[j] != TAB,
        i < line.len() ==> line[i] == TAB,
    ensures
        first_tab(line) == i,
    decreases i,
{
    if i > 0 {
        lemma_first_tab(line.drop_first(), i - 1);
    }
}

/// An escaped value has no line break in it, so it stays on its line.
pub proof fn lemma_escaped_is_one_line(v: Seq<u8>)
    ensures
        forall|i: int|
            0 <= i < escaped(v).len() ==> escaped(v)[i] != LINE_FEED && escaped(v)[i]
                != CARRIAGE_RETURN,
    decreases v.len(),
{
    if v.len() > 0 {
        let rest = escaped(v.drop_first());
        let all = escaped(v);
        let k = all.len() - rest.len();
        lemma_escaped_is_one_line(v.drop_first());
        assert forall|i: int| 0 <= i < all.len() implies all[i] != LINE_FEED && all[i]
            != CARRIAGE_RETURN by {
            if i >= k {
                assert(all[i] == rest[i - k]);
            }
        }
    }
}

/// A value comes back from its escaped form as it was, unless it holds a
/// backslash followed by `n` or `r`.
pub proof fn lemma_escape_round_trip(v: Seq<u8>)
    requires
        !has_escape(v),
    ensures
        unescaped(escaped(v)) == v,
    decreases v.len(),
{
    if v.len() > 0 {
        let rest = v.drop_first();
        let t = escaped(v);
        assert(!has_escape(rest)) by {
            if has_escape(rest) {
                let i = choose|i: int|
                    0 <= i && i + 1 < rest.len() && #[trigger] rest[i] == BACKSLASH && (rest[i + 1]
                        == LETTER_N || rest[i + 1] == LETTER_R);
                assert(v[i + 1] == BACKSLASH && v[i + 2] == rest[i + 1]);
            }
        }
        lemma_escape_round_trip(rest);
        if v[0] == LINE_FEED || v[0] == CARRIAGE_RETURN {
            assert(t.skip(2) =~= escaped(rest));
        } else {
            assert(t.drop_first() =~= escaped(rest));
            if v[0] == BACKSLASH && rest.len() > 0 {
                assert(v[0] == BACKSLASH && v[1] == rest[0]);
            }
        }
    }
}

/// An entry comes back from its line as it was, unless its key holds a tab
/// or its value a backslash followed by `n` or `r`.
pub proof fn lemma_line_round_trip(key: Seq<u8>, value: Seq<u8>)
    requires
        forall|i: int| 0 <= i < key.len() ==> key[i] != TAB,
        !has_escape(value),
    ensures
        parsed_line(line_of(key, value)) == Some((key, value)),
{
    let line = line_of(key, value);
    let tab = key.len() as int;
    assert forall|j: int| 0 <= j < tab implies line[j] != TAB by {
        assert(line[j] == key[j]);
    }
    lemma_first_tab(line, tab);
    lemma_escape_round_trip(value);
    assert(line.skip(tab + 1) =~= escaped(value));
}

/// Escapes the line breaks in the bytes of a value.
fn escape_bytes(value: &[u8]) -> (r: Vec<u8>)
    ensures
        r@ == escaped(value@),
{
    let mut out: Vec<u8> = Vec::new();
    let n: usize = value.len();
    let mut i: usize = 0;
    assert(value@.skip(0) =~= value@);
    while i < n
        invariant
            i <= n,
            n == value@.len(),
            escaped(value@) == out@ + escaped(value@.skip(i as int)),
        decreases n - i,
    {
        let b: u8 = value[i];
        assert(value@.skip(i as int).drop_first() =~= value@.skip(i + 1));
        if b == LINE_FEED {
            out.push(BACKSLASH);
            out.push(LETTER_N);
        } else if b == CARRIAGE_RETURN {
            out.push(BACKSLASH);
            out.push(LETTER_R);
        } else {
            out.push(b);
        }
        i = i + 1;
    }
    out
}

/// Undoes the escapes in the bytes of a value.
fn unescape_bytes(text: &[u8]) -> (r: Vec<u8>)
    ensures
        r@ == unescaped(text@),
{
    let mut out: Vec<u8> = Vec::new();
    let n: usize = text.len();
    let mut i: usize = 0;
    assert(text@.skip(0) =~= text@);
    while i < n
        invariant
            i <= n,
            n == text@.len(),
            unescaped(text@) == out@ + unescaped(text@.skip(i as int)),
        decreases n - i,
    {
        let b: u8 = text[i];
        let ghost here = text@.skip(i as int);
        assert(here.drop_first() =~= text@.skip(i + 1));
        if b == BACKSLASH && n - i >= 2 && (text[i + 1] == LETTER_N || text[i + 1] == LETTER_R) {
            assert(here.skip(2) =~= text@.skip(i + 2));
            if text[i + 1] == LETTER_N {
                out.push(LINE_FEED);
            } else {
                out.push(CARRIAGE_RETURN);
            }
            i = i + 2;
        } else {
            out.push(b);
            i = i + 1;
        }
    }
    out
}

/// A byte below 0x80 is UTF-8 by itself.
proof fn lemma_ascii_is_utf8(c: u8)
    requires
        c <= 0x7f,
    ensures
        valid_utf8(seq![c]),
{
    let s = seq![c];
    assert(c & 0x7f <= 0x7f) by (bit_vector);
    assert(valid_utf8(pop_first_scalar(s)));
}

/// The first character of UTF-8 bytes is UTF-8 by itself, and where it has
/// more than one byte, none of them is below 0x80.
proof fn lemma_first_scalar(b: Seq<u8>)
    requires
        valid_utf8(b),
        b.len() > 0,
    ensures
        1 <= length_of_first_scalar(b) <= b.len(),
        valid_utf8(b.take(length_of_first_scalar(b))),
        valid_utf8(b.skip(length_of_first_scalar(b))),
        length_of_first_scalar(b) == 1 ==> b[0] <= 0x7f,
        length_of_first_scalar(b) > 1 ==> forall|i: int|
            0 <= i < length_of_first_scalar(b) ==> b[i] >= 0x80,
{
    let head = b.take(length_of_first_scalar(b));
    assert(valid_utf8(pop_first_scalar(head)));
}

/// Escaping goes through a sequence piece by piece.
proof fn lemma_escaped_concat(x: Seq<u8>, y: Seq<u8>)
    ensures
        escaped(x + y) == escaped(x) + escaped(y),
    decreases x.len(),
{
    if x.len() == 0 {
        assert(x + y =~= y);
    } else {
        assert((x + y).drop_first() =~= x.drop_first() + y);
        lemma_escaped_concat(x.drop_first(), y);
    }
}

/// Bytes without a line break are their own escaped form.
proof fn lemma_escaped_plain(x: Seq<u8>)
    requires
        forall|i: int| 0 <= i < x.len() ==> x[i] != LINE_FEED && x[i] != CARRIAGE_RETURN,
    ensures
        escaped(x) == x,
    decreases x.len(),
{
    if x.len() > 0 {
        lemma_escaped_plain(x.drop_first());
    }
}

/// A run of bytes without a backslash stays as it is when escapes are
/// undone.
proof fn lemma_unescaped_plain(x: Seq<u8>, y: Seq<u8>)
    requires
        forall|i: int| 0 <= i < x.len() ==> x[i] != BACKSLASH,
    ensures
        unescaped(x + y) == x + unescaped(y),
    decreases x.len(),
{
    if x.len() == 0 {
        assert(x + y =~= y);
    } else {
        assert((x + y).drop_first() =~= x.drop_first() + y);
        lemma_unescaped_plain(x.drop_first(), y);
    }
}

/// The escaped form of UTF-8 is UTF-8.
pub proof fn lemma_escaped_is_utf8(b: Seq<u8>)
    requires
        valid_utf8(b),
    ensures
        valid_utf8(escaped(b)),
    decreases b.len(),
{
    if b.len() > 0 {
        lemma_first_scalar(b);
        let k = length_of_first_scalar(b);
        let head = b.take(k);
        let tail = b.skip(k);
        assert(b =~= head + tail);
        lemma_escaped_concat(head, tail);
        lemma_escaped_is_utf8(tail);
        if k == 1 {
            assert(escaped(head.drop_first()) =~= Seq::<u8>::empty());
            lemma_ascii_is_utf8(BACKSLASH);
            lemma_ascii_is_utf8(LETTER_N);
            lemma_ascii_is_utf8(LETTER_R);
            valid_utf8_concat(seq![BACKSLASH], seq![LETTER_N]);
            valid_utf8_concat(seq![BACKSLASH], seq![LETTER_R]);
            assert(seq![BACKSLASH] + seq![LETTER_N] =~= seq![BACKSLASH, LETTER_N]);
            assert(seq![BACKSLASH] + seq![LETTER_R] =~= seq![BACKSLASH, LETTER_R]);
            assert(escaped(head) =~= if b[0] == LINE_FEED {
                seq![BACKSLASH, LETTER_N]
            } else if b[0] == CARRIAGE_RETURN {
                seq![BACKSLASH, LETTER_R]
            } else {
                head
            });
        } else {
            lemma_escaped_plain(head);
        }
        valid_utf8_concat(escaped(head), escaped(tail));
    }
}

/// UTF-8 with its escapes undone is UTF-8.
pub proof fn lemma_unescaped_is_utf8(t: Seq<u8>)
    requires
        valid_utf8(t),
    ensures
        valid_utf8(unescaped(t)),
    decreases t.len(),
{
    if t.len() > 0 {
        lemma_first_scalar(t);
        let k = length_of_first_scalar(t);
        let head = t.take(k);
        let tail = t.skip(k);
        assert(t =~= head + tail);
        if k == 1 && t[0] == BACKSLASH && t.len() >= 2 && (t[1] == LETTER_N || t[1] == LETTER_R) {
            lemma_first_scalar(tail);
            assert(tail.skip(1) =~= t.skip(2));
            lemma_unescaped_is_utf8(t.skip(2));
            lemma_ascii_is_utf8(LINE_FEED);
            lemma_ascii_is_utf8(CARRIAGE_RETURN);
            valid_utf8_concat(seq![LINE_FEED], unescaped(t.skip(2)));
            valid_utf8_concat(seq![CARRIAGE_RETURN], unescaped(t.skip(2)));
        } else if k == 1 {
            lemma_unescaped_is_utf8(tail);
            valid_utf8_concat(head, unescaped(tail));
            assert(head =~= seq![t[0]]);
        } else {
            lemma_unescaped_is_utf8(tail);
            lemma_unescaped_plain(head, tail);
            valid_utf8_concat(head, unescaped(tail));
        }
    }
}

/// What stands before a tab of UTF-8 bytes, and what stands behind it, is
/// UTF-8.
proof fn lemma_split_at_tab(b: Seq<u8>, i: int)
    requires
        valid_utf8(b),
        0 <= i < b.len(),
        b[i] == TAB,
    ensures
        valid_utf8(b.take(i)),
        valid_utf8(b.skip(i + 1)),
{
    is_char_boundary_iff_is_leading_byte(b, i);
    valid_utf8_split(b, i);
    let rest = b.subrange(i, b.len() as int);
    assert(rest.skip(1) =~= b.skip(i + 1));
}

/// A value with its line breaks escaped.
pub fn escape(value: &str) -> (r: String)
    ensures
        encode_utf8(r@) == escaped(encode_utf8(value@)),
{
    let bytes = escape_bytes(value.as_bytes());
    proof {
        encode_utf8_valid_utf8(value@);
        lemma_escaped_is_utf8(encode_utf8(value@));
    }
    match string_from_utf8(bytes) {
        Some(s) => s,
        None => unreached(),
    }
}

/// A value with its escapes undone.
pub fn unescape(text: &str) -> (r: String)
    ensures
        encode_utf8(r@) == unescaped(encode_utf8(text@)),
{
    let bytes = unescape_bytes(text.as_bytes());
    proof {
        encode_utf8_valid_utf8(text@);
        lemma_unescaped_is_utf8(encode_utf8(text@));
    }
    match string_from_utf8(bytes) {
        Some(s) => s,
        None => unreached(),
    }
}

/// The line for an entry, with the line feed that ends it.
pub fn format_line(key: &str, value: &str) -> (r: String)
    ensures
        encode_utf8(r@) == line_of(encode_utf8(key@), encode_utf8(value@)) + seq![LINE_FEED],
{
    let mut out: Vec<u8> = Vec::new();
    out.extend_from_slice(key.as_bytes());
    out.push(TAB);
    let mut text = escape_bytes(value.as_bytes());
    out.append(&mut text);
    out.push(LINE_FEED);
    proof {
        let k = encode_utf8(key@);
        let v = escaped(encode_utf8(value@));
        assert(out@ =~= k + (seq![TAB] + (v + seq![LINE_FEED])));
        encode_utf8_valid_utf8(key@);
        encode_utf8_valid_utf8(value@);
        lemma_escaped_is_utf8(encode_utf8(value@));
        lemma_ascii_is_utf8(TAB);
        lemma_ascii_is_utf8(LINE_FEED);
        valid_utf8_concat(v, seq![LINE_FEED]);
        valid_utf8_concat(seq![TAB], v + seq![LINE_FEED]);
        valid_utf8_concat(k, seq![TAB] + (v + seq![LINE_FEED]));
    }
    match string_from_utf8(out) {
        Some(s) => s,
        None => unreached(),
    }
}

/// Reads the key and the value from a line that has no line feed at its
/// end. A line without a tab gives `None`.
pub fn parse_line(line: &str) -> (r: Option<(String, String)>)
    ensures
        match parsed_line(encode_utf8(line@)) {
            Some((key, value)) => r matches Some((k, v)) && encode_utf8(k@) == key
                && encode_utf8(v@) == value,
            None => r is None,
        },
{
    let bytes = line.as_bytes();
    let n: usize = bytes.len();
    let mut i: usize = 0;
    while i < n && bytes[i] != TAB
        invariant
            i <= n,
            n == bytes@.len(),
            forall|j: int| 0 <= j < i ==> bytes@[j] != TAB,
        decreases n - i,
    {
        i = i + 1;
    }
    proof {
        lemma_first_tab(bytes@, i as int);
    }
    if i == n {
        return None;
    }
    let key = vstd::slice::slice_to_vec(slice_subrange(bytes, 0, i));
    let value = unescape_bytes(slice_subrange(bytes, i + 1, n));
    proof {
        encode_utf8_valid_utf8(line@);
        lemma_split_at_tab(bytes@, i as int);
        lemma_unescaped_is_utf8(bytes@.skip(i + 1));
    }
    let key = match string_from_utf8(key) {
        Some(s) => s,
        None => unreached(),
    };
    let value = match string_from_utf8(value) {
        Some(s) => s,
        None => unreached(),
    };
    Some((key, value))
}

/// A value comes back from its escaped form as it was, unless it holds a
/// backslash followed by `n` or `r`.
pub proof fn lemma_text_round_trip(value: Seq<char>, text: Seq<char>, back: Seq<char>)
    requires
        !has_escape(encode_utf8(value)),
        encode_utf8(text) == escaped(encode_utf8(value)),
        encode_utf8(back) == unescaped(encode_utf8(text)),
    ensures
        back == value,
{
    lemma_escape_round_trip(encode_utf8(value));
    encode_utf8_decode_utf8(back);
    encode_utf8_decode_utf8(value);
}

} // verus!
