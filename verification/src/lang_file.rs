//! A language file in memory, and its conversion from and to bytes.

use crate::entry_map::{
    entries_map, entry_view, keys_distinct, place, put, without, Entry, EntryMap,
};
use crate::error::{LangReadingError, LangWritingError};
use crate::format::{
    after, collected, decoded, decoded_entries, encoded, entries_at, entries_bytes, entry_bytes,
    first_oversize, is_encoding, lemma_collected, lemma_entries_bytes_concat,
    lemma_first_oversize_concat, lemma_round_trip, lemma_single_entry, payload_entries,
    payload_of, string_at, LangFileView, MAX_ENTRIES, MAX_STRING_BYTES,
};
use crate::utf8::string_from_utf8;
use crate::wire::{
    get_i32_be, get_u16_be, get_u32_le, i32_be, put_i32_be, put_u16_be, put_u32_le, u32_le,
};
use crate::zlib::{deflate, inflate};
use vstd::prelude::*;
use vstd::slice::{slice_subrange, slice_to_vec};
use vstd::std_specs::iter::IteratorSpec;
use vstd::utf8::{encode_utf8, encode_utf8_decode_utf8};

verus! {

/// Reads the string that starts at `pos` of `payload`: a length of two
/// bytes, then that many bytes of UTF-8. Returns the string and the place
/// behind it.
pub fn read_string(payload: &[u8], pos: usize) -> (r: Result<(String, usize), LangReadingError>)
    ensures
        match string_at(payload@, pos as int) {
            Ok((s, next)) => r matches Ok((t, n)) && t@ == s && n == next,
            Err(e) => r == Err::<(String, usize), LangReadingError>(e),
        },
{
    let total: usize = payload.len();
    let len: usize = match get_u16_be(payload, pos) {
        Some(n) => n as usize,
        None => {
            return Err(LangReadingError::IOError);
        },
    };
    let start: usize = pos + 2;
    if total - start < len {
        return Err(LangReadingError::IOError);
    }
    let end: usize = start + len;
    let body = slice_to_vec(slice_subrange(payload, start, end));
    match string_from_utf8(body) {
        Some(s) => {
            proof {
                encode_utf8_decode_utf8(s@);
            }
            Ok((s, end))
        },
        None => Err(LangReadingError::FromUtf8Error),
    }
}

/// A language file: a header, whose meaning is the application's own, and
/// the table of entries.
pub struct LangFile {
    pub header: u32,
    pub entries: EntryMap,
}

impl View for LangFile {
    type V = LangFileView;

    open spec fn view(&self) -> LangFileView {
        LangFileView { header: self.header, entries: self.entries@ }
    }
}

impl LangFile {
    /// A file with the header `header` and no entries.
    pub fn new(header: u32) -> (r: Self)
        ensures
            r.header == header,
            r.entries.order() == Seq::<Entry>::empty(),
            r@ == (LangFileView { header, entries: Map::empty() }),
    {
        LangFile { header, entries: EntryMap::new() }
    }

    /// The number of entries.
    pub fn len(&self) -> (r: usize)
        ensures
            r == self@.entries.len(),
            r == self.entries.order().len(),
    {
        self.entries.len()
    }

    /// Gives `key` the value `value` and returns the value that it had, if
    /// it had one.
    pub fn insert(&mut self, key: String, value: String) -> (r: Option<String>)
        ensures
            final(self).header == old(self).header,
            final(self).entries.order() == put(old(self).entries.order(), key@, value@),
            final(self)@.entries == old(self)@.entries.insert(key@, value@),
            match r {
                Some(v) => old(self)@.entries.contains_key(key@) && v@ == old(self)@.entries[key@],
                None => !old(self)@.entries.contains_key(key@),
            },
    {
        self.entries.insert(key, value)
    }

    /// Takes `key` out of the file and returns the value that it had, if it
    /// had one. The last entry of the table moves to the place that becomes
    /// free.
    pub fn remove(&mut self, key: &str) -> (r: Option<String>)
        ensures
            final(self).header == old(self).header,
            final(self)@.entries == old(self)@.entries.remove(key@),
            match r {
                Some(v) => old(self)@.entries.contains_key(key@) && v@ == old(self)@.entries[key@]
                    && final(self).entries.order() == without(
                    old(self).entries.order(),
                    place(old(self).entries.order(), key@),
                ),
                None => !old(self)@.entries.contains_key(key@) && final(self).entries.order()
                    == old(self).entries.order(),
            },
    {
        self.entries.remove(key)
    }

    /// The value of `key`, if the file has that key.
    pub fn get(&self, key: &str) -> (r: Option<&String>)
        ensures
            match r {
                Some(v) => self@.entries.contains_key(key@) && v@ == self@.entries[key@],
                None => !self@.entries.contains_key(key@),
            },
    {
        self.entries.get(key)
    }

    /// An iterator over the entries, each key with its value, in the order
    /// of the table.
    pub fn iter(&self) -> (r: std::slice::Iter<'_, (String, String)>)
        ensures
            r.remaining().map_values(|e: &(String, String)| entry_view(*e))
                == self.entries.order(),
            keys_distinct(self.entries.order()),
    {
        self.entries.iter()
    }

    /// Reads the entries of a payload, the inflated part of a file: a count
    /// of four bytes, then that many pairs of strings. Of two entries with
    /// one key the later gives the value.
    pub fn read_entries(payload: &[u8]) -> (r: Result<EntryMap, LangReadingError>)
        ensures
            match payload_entries(payload@) {
                Ok(es) => r matches Ok(m) && m.order() == collected(es) && m@
                    == entries_map(es),
                Err(e) => r matches Err(f) && f == e,
            },
    {
        let count: i32 = match get_i32_be(payload, 0) {
            Some(c) => c,
            None => {
                return Err(LangReadingError::IOError);
            },
        };
        if count < 0 {
            return Err(LangReadingError::NegativeEntryCountError { entry_count: count });
        }
        let mut result = EntryMap::new();
        let mut pos: usize = 4;
        let mut i: i32 = 0;
        let ghost mut done: Seq<Entry> = Seq::empty();
        while i < count
            invariant
                0 <= i <= count,
                result.order() == collected(done),
                payload_entries(payload@) == after(
                    done,
                    entries_at(payload@, pos as int, (count - i) as nat),
                ),
            decreases count - i,
        {
            let (key, value_pos) = match read_string(payload, pos) {
                Ok(found) => found,
                Err(e) => {
                    return Err(e);
                },
            };
            let (value, next) = match read_string(payload, value_pos) {
                Ok(found) => found,
                Err(e) => {
                    return Err(e);
                },
            };
            proof {
                let rest = entries_at(payload@, next as int, (count - i - 1) as nat);
                assert(after(done, after(seq![(key@, value@)], rest)) == after(
                    done.push((key@, value@)),
                    rest,
                )) by {
                    if let Ok(more) = rest {
                        assert(done + (seq![(key@, value@)] + more) =~= done.push((key@, value@))
                            + more);
                    }
                }
                assert(done.push((key@, value@)).drop_last() =~= done);
                done = done.push((key@, value@));
            }
            result.insert(key, value);
            pos = next;
            i = i + 1;
        }
        proof {
            lemma_collected(done);
        }
        Ok(result)
    }

    /// Reads a language file from its bytes: the header, then the zlib
    /// stream that holds the entries.
    ///
    /// Where the stream is damaged or cut short, the bytes that the decoder
    /// gave before it stopped are read as far as they go: entries that stand
    /// whole in them are read, a count below zero is reported, and a field
    /// that they cut short is a `DecompressError`.
    pub fn read(bytes: &[u8]) -> (r: Result<LangFile, LangReadingError>)
        ensures
            match decoded(bytes@) {
                Ok(v) => r matches Ok(file) && file@ == v,
                Err(e) => r matches Err(f) && f == e,
            },
            r matches Ok(file) ==> decoded_entries(bytes@) matches Ok(es) && file.entries.order()
                == collected(es),
    {
        let total: usize = bytes.len();
        let header: u32 = match get_u32_le(bytes, 0) {
            Some(h) => h,
            None => {
                return Err(LangReadingError::IOError);
            },
        };
        match inflate(slice_subrange(bytes, 4, total)) {
            Ok(payload) => match Self::read_entries(payload.as_slice()) {
                Ok(entries) => Ok(LangFile { header, entries }),
                Err(e) => Err(e),
            },
            Err(prefix) => match Self::read_entries(prefix.as_slice()) {
                Ok(entries) => Ok(LangFile { header, entries }),
                Err(LangReadingError::IOError) => Err(LangReadingError::DecompressError),
                Err(e) => Err(e),
            },
        }
    }

    /// The payload of this file: the number of its entries, then each key
    /// with its value, in the order of the table.
    ///
    /// Fails, with nothing written, where the entries are too many to count
    /// or a key or a value is too long.
    pub fn write_entries(&self) -> (r: Result<Vec<u8>, LangWritingError>)
        ensures
            match payload_of(self.entries.order()) {
                Ok(p) => r matches Ok(v) && v@ == p,
                Err(e) => r matches Err(f) && f == e,
            },
    {
        let entries = self.entries.as_slice();
        let ghost es = self.entries.order();
        let count: usize = entries.len();
        if count > MAX_ENTRIES {
            return Err(LangWritingError::TooManyEntriesError { entry_count: count });
        }
        let mut out: Vec<u8> = Vec::new();
        put_i32_be(&mut out, count as i32);
        let mut i: usize = 0;
        while i < count
            invariant
                i <= count,
                count == entries@.len(),
                count <= MAX_ENTRIES,
                es == self.entries.order(),
                es == entries@.map_values(|e: (String, String)| entry_view(e)),
                first_oversize(es.take(i as int)) is None,
                out@ == i32_be(count as i32) + entries_bytes(es.take(i as int)),
            decreases count - i,
        {
            let key = entries[i].0.as_str().as_bytes();
            let value = entries[i].1.as_str().as_bytes();
            let key_length: usize = key.len();
            let value_length: usize = value.len();
            proof {
                let e = es[i as int];
                assert(es =~= es.take(i as int) + es.skip(i as int));
                assert(es.take(i + 1) =~= es.take(i as int) + seq![e]);
                lemma_single_entry(e);
                lemma_first_oversize_concat(es.take(i as int), es.skip(i as int));
                lemma_first_oversize_concat(es.take(i as int), seq![e]);
                lemma_entries_bytes_concat(es.take(i as int), seq![e]);
            }
            if key_length > MAX_STRING_BYTES {
                return Err(LangWritingError::TooLongKey { key_length });
            }
            if value_length > MAX_STRING_BYTES {
                return Err(LangWritingError::TooLongValue { value_length });
            }
            put_u16_be(&mut out, key_length as u16);
            out.extend_from_slice(key);
            put_u16_be(&mut out, value_length as u16);
            out.extend_from_slice(value);
            i = i + 1;
        }
        assert(es.take(count as int) =~= es);
        Ok(out)
    }

    /// Appends a file to `writer`: the header, then the zlib stream `stream`
    /// that holds the payload. Where the compressor gave no stream, nothing
    /// is appended.
    pub fn write_stream(header: u32, stream: Option<Vec<u8>>, writer: &mut Vec<u8>) -> (r: Result<
        (),
        LangWritingError,
    >)
        ensures
            match stream {
                Some(z) => r is Ok && final(writer)@ == old(writer)@ + u32_le(header) + z@,
                None => final(writer)@ == old(writer)@ && r == Err::<(), LangWritingError>(
                    LangWritingError::IOError,
                ),
            },
    {
        match stream {
            Some(z) => {
                let mut z = z;
                put_u32_le(writer, header);
                writer.append(&mut z);
                Ok(())
            },
            None => Err(LangWritingError::IOError),
        }
    }

    /// Appends this file to `writer`: the header, then the payload as a zlib
    /// stream.
    ///
    /// Fails where `write_entries` fails, and where the compressor reports an
    /// error. A failure leaves `writer` as it was.
    pub fn write(&self, writer: &mut Vec<u8>) -> (r: Result<(), LangWritingError>)
        ensures
            match encoded(self.header, self.entries.order()) {
                Ok(file) => r is Ok && final(writer)@ == old(writer)@ + file,
                Err(e) => r == Err::<(), LangWritingError>(e) && final(writer)@ == old(writer)@,
            },
            r is Ok ==> is_encoding(
                final(writer)@.skip(old(writer)@.len() as int),
                self.header,
                self.entries.order(),
            ),
    {
        let payload = match self.write_entries() {
            Ok(p) => p,
            Err(e) => {
                return Err(e);
            },
        };
        let stream = deflate(payload.as_slice());
        let ghost compressed = stream;
        let r = Self::write_stream(self.header, stream, writer);
        proof {
            if let Some(z) = compressed {
                let appended = writer@.skip(old(writer)@.len() as int);
                assert(appended =~= u32_le(self.header) + z@);
                assert(appended.subrange(0, 4) =~= u32_le(self.header));
                assert(appended.skip(4) =~= z@);
                assert(writer@ =~= old(writer)@ + (u32_le(self.header) + z@));
            }
        }
        r
    }
}

/// Whatever `write` appends for a file, `read` turns back into a file with
/// the same header and the same mapping.
pub proof fn lemma_write_then_read(file: LangFile, bytes: Seq<u8>)
    requires
        is_encoding(bytes, file.header, file.entries.order()),
    ensures
        decoded(bytes) == Ok::<LangFileView, LangReadingError>(file@),
{
    lemma_round_trip(bytes, file.header, file.entries.order());
}

} // verus!
