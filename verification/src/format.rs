//! The layout of a language file, as functions on sequences of bytes.
//!
//! A file is a header of four bytes and, behind it, a zlib stream. The
//! stream inflates to the payload: an entry count and then, for each entry,
//! the key and the value, each as a length and that many bytes of UTF-8.

use crate::entry_map::{entries_map, keys_distinct, lemma_put, put, Entry};
use crate::error::{LangReadingError, LangWritingError};
use crate::wire::{
    i32_be, i32_be_at, lemma_i32_be_round_trip, lemma_u16_be_round_trip, lemma_u32_le_round_trip,
    u16_be, u16_be_at, u32_from_le, u32_le, u32_le_at,
};
use crate::zlib::{zlib_deflated, zlib_inflated};
use vstd::prelude::*;
use vstd::utf8::{
    decode_utf8, encode_utf8, encode_utf8_decode_utf8, encode_utf8_valid_utf8, valid_utf8,
};

verus! {

/// The greatest number of bytes that a key or a value may have.
pub const MAX_STRING_BYTES: usize = 0xffff;

/// The greatest number of entries that a file may have.
pub const MAX_ENTRIES: usize = 0x7fff_ffff;

/// What a file says: its header and its mapping from key to value.
pub struct LangFileView {
    pub header: u32,
    pub entries: Map<Seq<char>, Seq<char>>,
}

/// The bytes of one string: its length in bytes, then its UTF-8 bytes.
pub open spec fn string_bytes(s: Seq<char>) -> Seq<u8> {
    u16_be(encode_utf8(s).len() as u16) + encode_utf8(s)
}

/// The bytes of one entry: the key, then the value.
pub open spec fn entry_bytes(e: Entry) -> Seq<u8> {
    string_bytes(e.0) + string_bytes(e.1)
}

/// The bytes of the entries of `es`, one after the other.
pub open spec fn entries_bytes(es: Seq<Entry>) -> Seq<u8>
    decreases es.len(),
{
    if es.len() == 0 {
        Seq::empty()
    } else {
        entry_bytes(es[0]) + entries_bytes(es.drop_first())
    }
}

/// The payload that holds the entries of `es`: their number, then their
/// bytes.
pub open spec fn payload_bytes(es: Seq<Entry>) -> Seq<u8> {
    i32_be(es.len() as i32) + entries_bytes(es)
}

/// Why the entry `e` cannot be written, if it cannot: the key is looked at
/// before the value.
pub open spec fn oversize(e: Entry) -> Option<LangWritingError> {
    if encode_utf8(e.0).len() > MAX_STRING_BYTES {
        Some(LangWritingError::TooLongKey { key_length: encode_utf8(e.0).len() as usize })
    } else if encode_utf8(e.1).len() > MAX_STRING_BYTES {
        Some(LangWritingError::TooLongValue { value_length: encode_utf8(e.1).len() as usize })
    } else {
        None
    }
}

/// Why the first entry of `es` that cannot be written cannot, if there is
/// such an entry.
pub open spec fn first_oversize(es: Seq<Entry>) -> Option<LangWritingError>
    decreases es.len(),
{
    if es.len() == 0 {
        None
    } else if oversize(es[0]) is Some {
        oversize(es[0])
    } else {
        first_oversize(es.drop_first())
    }
}

/// The payload for `es`, or the reason why `es` has none.
pub open spec fn payload_of(es: Seq<Entry>) -> Result<Seq<u8>, LangWritingError> {
    if es.len() > MAX_ENTRIES {
        Err(LangWritingError::TooManyEntriesError { entry_count: es.len() as usize })
    } else {
        match first_oversize(es) {
            Some(e) => Err(e),
            None => Ok(payload_bytes(es)),
        }
    }
}

/// `bytes` is a file with the header `header` and the entries `es`: the
/// header's four bytes, then a zlib stream that inflates to the payload of
/// `es`.
pub open spec fn is_encoding(bytes: Seq<u8>, header: u32, es: Seq<Entry>) -> bool {
    &&& payload_of(es) is Ok
    &&& bytes.len() >= 4
    &&& bytes.subrange(0, 4) == u32_le(header)
    &&& zlib_inflated(bytes.skip(4)) == Ok::<Seq<u8>, Seq<u8>>(payload_bytes(es))
}

/// The file with the header `header` and the entries `es`, or the reason
/// why there is none: the entries do not fit, or the compressor fails on
/// their payload.
pub open spec fn encoded(header: u32, es: Seq<Entry>) -> Result<Seq<u8>, LangWritingError> {
    match payload_of(es) {
        Err(e) => Err(e),
        Ok(payload) => match zlib_deflated(payload) {
            None => Err(LangWritingError::IOError),
            Some(stream) => Ok(u32_le(header) + stream),
        },
    }
}

/// The string that starts at `pos`, with the place behind it.
///
/// Nothing is read where the two bytes of the length or the bytes that it
/// announces are not all there, or where those bytes are not UTF-8.
pub open spec fn string_at(b: Seq<u8>, pos: int) -> Result<(Seq<char>, int), LangReadingError> {
    match u16_be_at(b, pos) {
        None => Err(LangReadingError::IOError),
        Some(n) => {
            let start = pos + 2;
            let end = start + n;
            if end > b.len() {
                Err(LangReadingError::IOError)
            } else if !valid_utf8(b.subrange(start, end)) {
                Err(LangReadingError::FromUtf8Error)
            } else {
                Ok((decode_utf8(b.subrange(start, end)), end))
            }
        },
    }
}

/// `r` with the entries `done` put in front of those that it holds.
pub open spec fn after(done: Seq<Entry>, r: Result<Seq<Entry>, LangReadingError>) -> Result<
    Seq<Entry>,
    LangReadingError,
> {
    match r {
        Ok(rest) => Ok(done + rest),
        Err(e) => Err(e),
    }
}

/// The `count` entries that start at `pos`, in the order in which they
/// stand, or the first error that reading them meets.
pub open spec fn entries_at(b: Seq<u8>, pos: int, count: nat) -> Result<
    Seq<Entry>,
    LangReadingError,
>
    decreases count,
{
    if count == 0 {
        Ok(Seq::empty())
    } else {
        match string_at(b, pos) {
            Err(e) => Err(e),
            Ok((key, value_pos)) => match string_at(b, value_pos) {
                Err(e) => Err(e),
                Ok((value, next)) => after(
                    seq![(key, value)],
                    entries_at(b, next, (count - 1) as nat),
                ),
            },
        }
    }
}

/// The entries that the payload `b` holds, in the order in which they stand.
///
/// What follows the last entry is not looked at.
pub open spec fn payload_entries(b: Seq<u8>) -> Result<Seq<Entry>, LangReadingError> {
    match i32_be_at(b, 0) {
        None => Err(LangReadingError::IOError),
        Some(count) => if count < 0 {
            Err(LangReadingError::NegativeEntryCountError { entry_count: count })
        } else {
            entries_at(b, 4, count as nat)
        },
    }
}

/// The pairs that remain when the entries of `es` are put into an empty
/// table one after the other.
pub open spec fn collected(es: Seq<Entry>) -> Seq<Entry>
    decreases es.len(),
{
    if es.len() == 0 {
        Seq::empty()
    } else {
        put(collected(es.drop_last()), es.last().0, es.last().1)
    }
}

/// The entries of a payload of which the inflating stopped early, on a
/// damaged or cut stream, with only `prefix` read. The payload is read as
/// far as it goes: entries that stand whole before the damage are read, and
/// so is an error that shows before it. Where the bytes run out, the stream
/// is to blame.
pub open spec fn prefix_entries(prefix: Seq<u8>) -> Result<Seq<Entry>, LangReadingError> {
    match payload_entries(prefix) {
        Err(LangReadingError::IOError) => Err(LangReadingError::DecompressError),
        r => r,
    }
}

/// The entries that the file `bytes` holds, in the order in which they
/// stand, or why the file cannot be read. The header is looked at first.
/// The payload is read from what the zlib stream inflates to.
pub open spec fn decoded_entries(bytes: Seq<u8>) -> Result<Seq<Entry>, LangReadingError> {
    if u32_le_at(bytes, 0) is None {
        Err(LangReadingError::IOError)
    } else {
        match zlib_inflated(bytes.skip(4)) {
            Ok(payload) => payload_entries(payload),
            Err(prefix) => prefix_entries(prefix),
        }
    }
}

/// What the file `bytes` says, or why it cannot be read.
pub open spec fn decoded(bytes: Seq<u8>) -> Result<LangFileView, LangReadingError> {
    match decoded_entries(bytes) {
        Err(e) => Err(e),
        Ok(es) => Ok(
            LangFileView { header: u32_from_le(bytes.subrange(0, 4)), entries: entries_map(es) },
        ),
    }
}

/// Putting entries into a table one after the other leaves no key twice and
/// gives the mapping in which the later of two entries with one key wins.
pub proof fn lemma_collected(es: Seq<Entry>)
    ensures
        keys_distinct(collected(es)),
        entries_map(collected(es)) == entries_map(es),
    decreases es.len(),
{
    if es.len() > 0 {
        lemma_collected(es.drop_last());
        lemma_put(collected(es.drop_last()), es.last().0, es.last().1);
    }
}

/// The bytes of two runs of entries, one behind the other, are the bytes of
/// the first run and then those of the second.
pub proof fn lemma_entries_bytes_concat(a: Seq<Entry>, b: Seq<Entry>)
    ensures
        entries_bytes(a + b) == entries_bytes(a) + entries_bytes(b),
    decreases a.len(),
{
    if a.len() == 0 {
        assert(a + b =~= b);
    } else {
        assert((a + b).drop_first() =~= a.drop_first() + b);
        lemma_entries_bytes_concat(a.drop_first(), b);
        assert(entry_bytes(a[0]) + (entries_bytes(a.drop_first()) + entries_bytes(b))
            =~= entries_bytes(a) + entries_bytes(b));
    }
}

/// The first entry that cannot be written is looked for in the first of two
/// runs, and in the second only where the first run has none.
pub proof fn lemma_first_oversize_concat(a: Seq<Entry>, b: Seq<Entry>)
    ensures
        first_oversize(a + b) == if first_oversize(a) is Some {
            first_oversize(a)
        } else {
            first_oversize(b)
        },
    decreases a.len(),
{
    if a.len() == 0 {
        assert(a + b =~= b);
    } else {
        assert((a + b).drop_first() =~= a.drop_first() + b);
        lemma_first_oversize_concat(a.drop_first(), b);
    }
}

/// A run of one entry has the bytes of that entry, and can be written
/// exactly if that entry can.
pub proof fn lemma_single_entry(e: Entry)
    ensures
        entries_bytes(seq![e]) == entry_bytes(e),
        first_oversize(seq![e]) == oversize(e),
{
    let rest = seq![e].drop_first();
    assert(rest.len() == 0);
    assert(entries_bytes(rest) =~= Seq::<u8>::empty());
    assert(first_oversize(rest) is None);
}

/// A string that fits is read back from its bytes, wherever they stand.
pub proof fn lemma_string_round_trip(b: Seq<u8>, pos: int, s: Seq<char>)
    requires
        encode_utf8(s).len() <= MAX_STRING_BYTES,
        0 <= pos,
        pos + string_bytes(s).len() <= b.len(),
        b.subrange(pos, pos + string_bytes(s).len()) == string_bytes(s),
    ensures
        string_at(b, pos) == Ok::<(Seq<char>, int), LangReadingError>(
            (s, pos + string_bytes(s).len()),
        ),
{
    let body = encode_utf8(s);
    let n = body.len() as u16;
    let whole = string_bytes(s);
    lemma_u16_be_round_trip(n);
    assert(b.subrange(pos + 2, pos + 2 + n) =~= whole.subrange(2, 2 + n));
    assert(whole.subrange(2, 2 + n) =~= body);
    encode_utf8_valid_utf8(s);
    encode_utf8_decode_utf8(s);
}

/// Entries that fit are read back from their bytes, in their order.
pub proof fn lemma_entries_round_trip(b: Seq<u8>, pos: int, es: Seq<Entry>)
    requires
        first_oversize(es) is None,
        0 <= pos,
        pos + entries_bytes(es).len() <= b.len(),
        b.subrange(pos, pos + entries_bytes(es).len()) == entries_bytes(es),
    ensures
        entries_at(b, pos, es.len()) == Ok::<Seq<Entry>, LangReadingError>(es),
    decreases es.len(),
{
    if es.len() > 0 {
        let e = es[0];
        let tail = es.drop_first();
        let key = string_bytes(e.0);
        let value = string_bytes(e.1);
        let all = entries_bytes(es);
        let k = key.len() as int;
        let v = value.len() as int;
        let n = all.len() as int;
        let value_pos = pos + k;
        let next = value_pos + v;
        assert(all =~= key + value + entries_bytes(tail));
        assert(b.subrange(pos, value_pos) =~= all.subrange(0, k));
        assert(all.subrange(0, k) =~= key);
        assert(b.subrange(value_pos, next) =~= all.subrange(k, k + v));
        assert(all.subrange(k, k + v) =~= value);
        assert(b.subrange(next, next + entries_bytes(tail).len()) =~= all.subrange(k + v, n));
        assert(all.subrange(k + v, n) =~= entries_bytes(tail));
        lemma_string_round_trip(b, pos, e.0);
        lemma_string_round_trip(b, value_pos, e.1);
        lemma_entries_round_trip(b, next, tail);
        assert(seq![e] + tail =~= es);
    } else {
        assert(es =~= Seq::<Entry>::empty());
    }
}

/// A payload that was written for `es` holds the entries `es`.
pub proof fn lemma_payload_round_trip(es: Seq<Entry>)
    requires
        payload_of(es) is Ok,
    ensures
        payload_entries(payload_bytes(es)) == Ok::<Seq<Entry>, LangReadingError>(es),
{
    let count = es.len() as i32;
    let b = payload_bytes(es);
    lemma_i32_be_round_trip(count);
    assert(b.subrange(4, b.len() as int) =~= entries_bytes(es));
    lemma_entries_round_trip(b, 4, es);
}

/// Reading a file that was written gives back what was written: the header,
/// and the mapping of the entries.
pub proof fn lemma_round_trip(bytes: Seq<u8>, header: u32, es: Seq<Entry>)
    requires
        is_encoding(bytes, header, es),
    ensures
        decoded_entries(bytes) == Ok::<Seq<Entry>, LangReadingError>(es),
        decoded(bytes) == Ok::<LangFileView, LangReadingError>(
            LangFileView { header, entries: entries_map(es) },
        ),
{
    lemma_u32_le_round_trip(header);
    lemma_payload_round_trip(es);
}

/// A key that is too long makes the payload fail with `TooLongKey`, unless a
/// value before it is too long as well: then that value is reported.
pub proof fn lemma_oversized_key_rejected(es: Seq<Entry>, i: int)
    requires
        es.len() <= MAX_ENTRIES,
        0 <= i < es.len(),
        encode_utf8(es[i].0).len() > MAX_STRING_BYTES,
        forall|j: int| 0 <= j < i ==> encode_utf8(#[trigger] es[j].1).len() <= MAX_STRING_BYTES,
    ensures
        payload_of(es) matches Err(LangWritingError::TooLongKey { .. }),
    decreases es.len(),
{
    if oversize(es[0]) is None {
        let tail = es.drop_first();
        assert(tail[i - 1] == es[i]);
        assert forall|j: int| 0 <= j < i - 1 implies encode_utf8(#[trigger] tail[j].1).len()
            <= MAX_STRING_BYTES by {
            assert(tail[j] == es[j + 1]);
        }
        lemma_oversized_key_rejected(tail, i - 1);
    }
}

/// A payload whose count is below zero is rejected for its count, whatever
/// stands behind the count.
pub proof fn lemma_negative_count_rejected(b: Seq<u8>, count: i32)
    requires
        i32_be_at(b, 0) == Some(count),
        count < 0,
    ensures
        payload_entries(b) == Err::<Seq<Entry>, LangReadingError>(
            LangReadingError::NegativeEntryCountError { entry_count: count },
        ),
{
}

/// A string whose length announces more bytes than there are is rejected
/// as cut short.
pub proof fn lemma_truncated_string_rejected(b: Seq<u8>, pos: int, announced: u16)
    requires
        u16_be_at(b, pos) == Some(announced),
        pos + 2 + announced > b.len(),
    ensures
        string_at(b, pos) == Err::<(Seq<char>, int), LangReadingError>(LangReadingError::IOError),
{
}

/// A payload whose first key is cut short is rejected as cut short.
pub proof fn lemma_truncated_key_rejected(b: Seq<u8>, count: i32, announced: u16)
    requires
        i32_be_at(b, 0) == Some(count),
        count > 0,
        u16_be_at(b, 4) == Some(announced),
        6 + announced > b.len(),
    ensures
        payload_entries(b) == Err::<Seq<Entry>, LangReadingError>(LangReadingError::IOError),
{
    lemma_truncated_string_rejected(b, 4, announced);
}

/// The payload of no entries is a count of zero and nothing else.
pub proof fn lemma_empty_payload()
    ensures
        payload_of(Seq::<Entry>::empty()) == Ok::<Seq<u8>, LangWritingError>(
            seq![0u8, 0u8, 0u8, 0u8],
        ),
{
    assert(payload_bytes(Seq::<Entry>::empty()) =~= seq![0u8, 0u8, 0u8, 0u8]);
}

/// A file whose payload starts with a count below zero is rejected for its
/// count, whether the zlib stream is whole or stops somewhere behind the
/// count.
pub proof fn lemma_negative_count_in_file(bytes: Seq<u8>, count: i32)
    requires
        bytes.len() >= 4,
        count < 0,
        match zlib_inflated(bytes.skip(4)) {
            Ok(payload) => i32_be_at(payload, 0) == Some(count),
            Err(prefix) => i32_be_at(prefix, 0) == Some(count),
        },
    ensures
        decoded(bytes) == Err::<LangFileView, LangReadingError>(
            LangReadingError::NegativeEntryCountError { entry_count: count },
        ),
{
}

} // verus!
