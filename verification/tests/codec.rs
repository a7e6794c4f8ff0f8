use bhlang::{read_string, LangFile, LangReadingError, LangWritingError};
use std::io::Read;
use std::io::Write;

fn inflate(stream: &[u8]) -> Vec<u8> {
    let mut out = Vec::new();
    flate2::read::ZlibDecoder::new(stream).read_to_end(&mut out).unwrap();
    out
}

fn deflate(payload: &[u8]) -> Vec<u8> {
    let mut encoder = flate2::write::ZlibEncoder::new(Vec::new(), flate2::Compression::fast());
    encoder.write_all(payload).unwrap();
    encoder.finish().unwrap()
}

fn file_bytes(header: [u8; 4], payload: &[u8]) -> Vec<u8> {
    let mut bytes = header.to_vec();
    bytes.extend_from_slice(&deflate(payload));
    bytes
}

fn pairs(file: &LangFile) -> Vec<(String, String)> {
    file.iter().map(|(k, v)| (k.clone(), v.clone())).collect()
}

fn sorted_pairs(file: &LangFile) -> Vec<(String, String)> {
    let mut all = pairs(file);
    all.sort();
    all
}

const ONE_ENTRY_PAYLOAD: [u8; 18] = [
    0x00, 0x00, 0x00, 0x01, 0x00, 0x05, 0x68, 0x65, 0x6c, 0x6c, 0x6f, 0x00, 0x05, 0x77, 0x6f, 0x72,
    0x6c, 0x64,
];

// The zlib stream of ONE_ENTRY_PAYLOAD, from another zlib implementation.
const ONE_ENTRY_STREAM: [u8; 26] = [
    0x78, 0xda, 0x63, 0x60, 0x60, 0x60, 0x64, 0x60, 0xcd, 0x48, 0xcd, 0xc9, 0xc9, 0x67, 0x60, 0x2d,
    0xcf, 0x2f, 0xca, 0x49, 0x01, 0x00, 0x1b, 0xd4, 0x04, 0x48,
];

#[test]
fn round_trip() {
    let mut file = LangFile::new(0xdead_beef);
    file.insert("menu.play".to_string(), "Play".to_string());
    file.insert("menu.quit".to_string(), "Quit".to_string());
    file.insert("tip".to_string(), "Line one\nLine two\r\n\ttabbed".to_string());
    file.insert("clé".to_string(), "日本語 — ünïcödé 🎮".to_string());
    file.insert("empty".to_string(), String::new());
    file.insert(String::new(), "empty key".to_string());

    let mut bytes = Vec::new();
    assert_eq!(file.write(&mut bytes), Ok(()));
    let back = LangFile::read(&bytes).ok().unwrap();

    assert_eq!(back.header, 0xdead_beef);
    assert_eq!(back.len(), 6);
    assert_eq!(pairs(&back), pairs(&file));
    assert_eq!(back.get("tip"), Some(&"Line one\nLine two\r\n\ttabbed".to_string()));
    assert_eq!(back.get("clé"), Some(&"日本語 — ünïcödé 🎮".to_string()));
    assert_eq!(back.get(""), Some(&"empty key".to_string()));
}

#[test]
fn round_trip_of_many_entries() {
    let mut file = LangFile::new(7);
    for i in 0..3000 {
        file.insert(format!("key_{i}"), format!("value {i} {}", "x".repeat(i % 50)));
    }
    let mut bytes = Vec::new();
    assert_eq!(file.write(&mut bytes), Ok(()));
    let back = LangFile::read(&bytes).ok().unwrap();
    assert_eq!(back.header, 7);
    assert_eq!(back.len(), 3000);
    assert_eq!(pairs(&back), pairs(&file));
}

#[test]
fn written_file_is_header_then_zlib_stream_of_the_payload() {
    let mut file = LangFile::new(0x0102_0304);
    file.insert("hello".to_string(), "world".to_string());
    let mut bytes = Vec::new();
    assert_eq!(file.write(&mut bytes), Ok(()));
    assert_eq!(&bytes[..4], &[0x04, 0x03, 0x02, 0x01]);
    // A zlib stream starts with the method byte 0x78.
    assert_eq!(bytes[4], 0x78);
    assert_ne!(&bytes[4..], &ONE_ENTRY_PAYLOAD[..]);
    assert_eq!(inflate(&bytes[4..]), ONE_ENTRY_PAYLOAD.to_vec());
}

#[test]
fn write_appends_to_what_the_writer_holds() {
    let mut file = LangFile::new(5);
    file.insert("k".to_string(), "v".to_string());
    let mut bytes = vec![0xaa, 0xbb];
    assert_eq!(file.write(&mut bytes), Ok(()));
    assert_eq!(&bytes[..2], &[0xaa, 0xbb]);
    let back = LangFile::read(&bytes[2..]).ok().unwrap();
    assert_eq!(back.header, 5);
    assert_eq!(pairs(&back), vec![("k".to_string(), "v".to_string())]);
}

#[test]
fn payload_is_count_then_each_key_with_its_value() {
    let mut file = LangFile::new(0);
    file.insert("hello".to_string(), "world".to_string());
    assert_eq!(file.write_entries(), Ok(ONE_ENTRY_PAYLOAD.to_vec()));

    file.insert("é".to_string(), String::new());
    assert_eq!(
        file.write_entries(),
        Ok(vec![
            0x00, 0x00, 0x00, 0x02, 0x00, 0x05, 0x68, 0x65, 0x6c, 0x6c, 0x6f, 0x00, 0x05, 0x77,
            0x6f, 0x72, 0x6c, 0x64, 0x00, 0x02, 0xc3, 0xa9, 0x00, 0x00,
        ])
    );
}

#[test]
fn reads_a_stream_made_elsewhere() {
    let mut bytes = vec![0x2a, 0x00, 0x00, 0x00];
    bytes.extend_from_slice(&ONE_ENTRY_STREAM);
    let file = LangFile::read(&bytes).ok().unwrap();
    assert_eq!(file.header, 42);
    assert_eq!(file.len(), 1);
    assert_eq!(file.get("hello"), Some(&"world".to_string()));
}

#[test]
fn reads_text_outside_ascii() {
    let payload = [
        0x00, 0x00, 0x00, 0x01, 0x00, 0x04, 0x63, 0x6c, 0xc3, 0xa9, 0x00, 0x0a, 0xe6, 0x97, 0xa5,
        0xe6, 0x9c, 0xac, 0xe8, 0xaa, 0x9e, 0x0a,
    ];
    let file = LangFile::read(&file_bytes([1, 0, 0, 0], &payload)).ok().unwrap();
    assert_eq!(file.get("clé"), Some(&"日本語\n".to_string()));
}

#[test]
fn empty_container() {
    let file = LangFile::new(0);
    let mut bytes = Vec::new();
    assert_eq!(file.write(&mut bytes), Ok(()));
    assert_eq!(&bytes[..4], &[0, 0, 0, 0]);
    assert_eq!(inflate(&bytes[4..]), vec![0, 0, 0, 0]);
    assert_eq!(file.write_entries(), Ok(vec![0, 0, 0, 0]));

    let back = LangFile::read(&bytes).ok().unwrap();
    assert_eq!(back.header, 0);
    assert_eq!(back.len(), 0);
    assert_eq!(back.iter().count(), 0);
}

#[test]
fn reads_an_empty_container_from_a_stored_block() {
    let bytes = [
        0x00, 0x00, 0x00, 0x00, 0x78, 0x01, 0x01, 0x04, 0x00, 0xfb, 0xff, 0x00, 0x00, 0x00, 0x00,
        0x00, 0x04, 0x00, 0x01,
    ];
    let file = LangFile::read(&bytes).ok().unwrap();
    assert_eq!(file.header, 0);
    assert_eq!(file.len(), 0);
}

#[test]
fn negative_count_is_rejected() {
    // The zlib stream of ff ff ff ff.
    let bytes = [
        0x01, 0x00, 0x00, 0x00, 0x78, 0xda, 0xfb, 0xff, 0xff, 0xff, 0x7f, 0x00, 0x09, 0xfa, 0x03,
        0xfd,
    ];
    assert_eq!(
        LangFile::read(&bytes).err(),
        Some(LangReadingError::NegativeEntryCountError { entry_count: -1 })
    );
    assert_eq!(
        LangFile::read_entries(&[0xff, 0xff, 0xff, 0xff]).err(),
        Some(LangReadingError::NegativeEntryCountError { entry_count: -1 })
    );
    // Whatever follows a negative count is not looked at.
    assert_eq!(
        LangFile::read_entries(&[0x80, 0x00, 0x00, 0x00, 0x00, 0x01, 0x61]).err(),
        Some(LangReadingError::NegativeEntryCountError { entry_count: i32::MIN })
    );
}

#[test]
fn truncated_string_is_rejected() {
    // One entry whose key announces ten bytes and has five.
    let payload = [0x00, 0x00, 0x00, 0x01, 0x00, 0x0a, 0x61, 0x62, 0x63, 0x64, 0x65];
    assert_eq!(
        LangFile::read(&file_bytes([0, 0, 0, 0], &payload)).err(),
        Some(LangReadingError::IOError)
    );
    assert_eq!(LangFile::read_entries(&payload).err(), Some(LangReadingError::IOError));
}

#[test]
fn missing_fields_are_rejected() {
    // No count.
    assert_eq!(LangFile::read_entries(&[]).err(), Some(LangReadingError::IOError));
    assert_eq!(LangFile::read_entries(&[0, 0, 0]).err(), Some(LangReadingError::IOError));
    // One entry announced, none there.
    assert_eq!(LangFile::read_entries(&[0, 0, 0, 1]).err(), Some(LangReadingError::IOError));
    // Half a length.
    assert_eq!(LangFile::read_entries(&[0, 0, 0, 1, 0]).err(), Some(LangReadingError::IOError));
    // A key without its value.
    assert_eq!(
        LangFile::read_entries(&[0, 0, 0, 1, 0, 1, 0x61]).err(),
        Some(LangReadingError::IOError)
    );
    // Two entries announced, one there.
    assert_eq!(
        LangFile::read_entries(&[0, 0, 0, 2, 0, 1, 0x61, 0, 1, 0x62]).err(),
        Some(LangReadingError::IOError)
    );
    // A count that nothing could satisfy.
    assert_eq!(
        LangFile::read_entries(&[0x7f, 0xff, 0xff, 0xff, 0, 1, 0x61, 0, 1, 0x62]).err(),
        Some(LangReadingError::IOError)
    );
}

#[test]
fn short_header_is_rejected() {
    assert_eq!(LangFile::read(&[]).err(), Some(LangReadingError::IOError));
    assert_eq!(LangFile::read(&[1, 2, 3]).err(), Some(LangReadingError::IOError));
}

#[test]
fn broken_stream_is_rejected() {
    // A header and nothing behind it.
    assert_eq!(LangFile::read(&[1, 2, 3, 4]).err(), Some(LangReadingError::DecompressError));
    // A payload that was not compressed.
    let mut plain = vec![0, 0, 0, 0];
    plain.extend_from_slice(&ONE_ENTRY_PAYLOAD);
    assert_eq!(LangFile::read(&plain).err(), Some(LangReadingError::DecompressError));
    // A stream that stops inside the entry.
    for cut in [0, 1, 2, 6, 10, 20] {
        let mut bytes = vec![0, 0, 0, 0];
        bytes.extend_from_slice(&ONE_ENTRY_STREAM[..cut]);
        assert_eq!(LangFile::read(&bytes).err(), Some(LangReadingError::DecompressError));
    }
}

// Bytes without a pattern, the same on every run: they do not compress.
fn noise(len: usize) -> Vec<u8> {
    let mut state = 5;
    (0..len).map(|_| (next(&mut state) >> 8) as u8).collect()
}

fn best_stream(payload: &[u8]) -> Vec<u8> {
    let mut encoder = flate2::write::ZlibEncoder::new(Vec::new(), flate2::Compression::best());
    encoder.write_all(payload).unwrap();
    encoder.finish().unwrap()
}

#[test]
fn negative_count_is_reported_from_a_stream_that_is_cut_behind_it() {
    let mut payload = vec![0xff, 0xff, 0xff, 0xfe];
    payload.extend_from_slice(&noise(200_000));
    let stream = best_stream(&payload);
    for cut in [100, 40_000, stream.len() / 2, stream.len() - 1] {
        let mut bytes = vec![0, 0, 0, 0];
        bytes.extend_from_slice(&stream[..cut]);
        assert_eq!(
            LangFile::read(&bytes).err(),
            Some(LangReadingError::NegativeEntryCountError { entry_count: -2 })
        );
    }
}

#[test]
fn entries_before_a_cut_in_the_stream_are_read() {
    let mut payload = vec![0, 0, 0, 1, 0, 1, 0x6b, 0, 1, 0x76];
    payload.extend_from_slice(&noise(200_000));
    let stream = best_stream(&payload);
    for cut in [100, stream.len() / 2, stream.len() - 1, stream.len()] {
        let mut bytes = vec![3, 0, 0, 0];
        bytes.extend_from_slice(&stream[..cut]);
        let file = LangFile::read(&bytes).ok().unwrap();
        assert_eq!(file.header, 3);
        assert_eq!(pairs(&file), vec![("k".to_string(), "v".to_string())]);
    }
    // The checksum at the end of the stream may be missing.
    for cut in [22, 24, 25] {
        let mut bytes = vec![0, 0, 0, 0];
        bytes.extend_from_slice(&ONE_ENTRY_STREAM[..cut]);
        assert_eq!(LangFile::read(&bytes).ok().unwrap().len(), 1);
    }
}

#[test]
fn stream_cut_inside_an_entry_is_rejected() {
    // The second key announces 65535 bytes.
    let mut payload = vec![0, 0, 0, 2, 0, 1, 0x6b, 0, 1, 0x76, 0xff, 0xff];
    payload.extend_from_slice(&vec![0x61; 200_000]);
    payload.extend_from_slice(&noise(200_000));
    let stream = best_stream(&payload);
    let mut bytes = vec![0, 0, 0, 0];
    bytes.extend_from_slice(&stream[..100]);
    assert_eq!(LangFile::read(&bytes).err(), Some(LangReadingError::DecompressError));
    // The same payload, whole, but short of what its count announces.
    let mut short = vec![0, 0, 0, 0];
    short.extend_from_slice(&best_stream(&payload[..1000]));
    assert_eq!(LangFile::read(&short).err(), Some(LangReadingError::IOError));
}

#[test]
fn invalid_utf8_is_rejected() {
    // The key c3 28 is not UTF-8.
    let in_key = [0x00, 0x00, 0x00, 0x01, 0x00, 0x02, 0xc3, 0x28, 0x00, 0x01, 0x76];
    assert_eq!(
        LangFile::read(&file_bytes([0, 0, 0, 0], &in_key)).err(),
        Some(LangReadingError::FromUtf8Error)
    );
    // A surrogate in the value.
    let in_value = [0x00, 0x00, 0x00, 0x01, 0x00, 0x01, 0x6b, 0x00, 0x03, 0xed, 0xa0, 0x80];
    assert_eq!(LangFile::read_entries(&in_value).err(), Some(LangReadingError::FromUtf8Error));
    // A character cut in two by the length.
    let cut = [0x00, 0x00, 0x00, 0x01, 0x00, 0x01, 0xc3, 0xa9, 0x00, 0x00];
    assert_eq!(LangFile::read_entries(&cut).err(), Some(LangReadingError::FromUtf8Error));
}

#[test]
fn later_entry_wins_over_an_earlier_one_with_the_same_key() {
    let payload = [
        0x00, 0x00, 0x00, 0x03, 0x00, 0x01, 0x78, 0x00, 0x01, 0x41, 0x00, 0x01, 0x79, 0x00, 0x01,
        0x43, 0x00, 0x01, 0x78, 0x00, 0x01, 0x42,
    ];
    let file = LangFile::read(&file_bytes([9, 0, 0, 0], &payload)).ok().unwrap();
    assert_eq!(file.header, 9);
    assert_eq!(file.len(), 2);
    assert_eq!(file.get("x"), Some(&"B".to_string()));
    assert_eq!(file.get("y"), Some(&"C".to_string()));
    assert_eq!(
        pairs(&file),
        vec![("x".to_string(), "B".to_string()), ("y".to_string(), "C".to_string())]
    );
}

#[test]
fn entries_are_accepted_in_any_order() {
    let forward = [
        0x00, 0x00, 0x00, 0x02, 0x00, 0x01, 0x61, 0x00, 0x01, 0x31, 0x00, 0x01, 0x62, 0x00, 0x01,
        0x32,
    ];
    let backward = [
        0x00, 0x00, 0x00, 0x02, 0x00, 0x01, 0x62, 0x00, 0x01, 0x32, 0x00, 0x01, 0x61, 0x00, 0x01,
        0x31,
    ];
    let first = LangFile::read_entries(&forward).ok().unwrap();
    let second = LangFile::read_entries(&backward).ok().unwrap();
    let first = LangFile { header: 0, entries: first };
    let second = LangFile { header: 0, entries: second };
    assert_eq!(sorted_pairs(&first), sorted_pairs(&second));
    assert_eq!(pairs(&first)[0], ("a".to_string(), "1".to_string()));
    assert_eq!(pairs(&second)[0], ("b".to_string(), "2".to_string()));
}

#[test]
fn bytes_behind_the_last_entry_are_ignored() {
    let mut payload = ONE_ENTRY_PAYLOAD.to_vec();
    payload.extend_from_slice(&[0xff, 0xfe, 0xfd]);
    let entries = LangFile::read_entries(&payload).ok().unwrap();
    assert_eq!(entries.len(), 1);
    assert_eq!(entries.get("hello"), Some(&"world".to_string()));

    // Bytes behind the end of the zlib stream are ignored as well.
    let mut bytes = vec![0, 0, 0, 0];
    bytes.extend_from_slice(&ONE_ENTRY_STREAM);
    bytes.extend_from_slice(&[1, 2, 3]);
    assert_eq!(LangFile::read(&bytes).ok().unwrap().len(), 1);
}

#[test]
fn read_string_gives_the_string_and_the_place_behind_it() {
    let bytes = [0x09, 0x00, 0x03, 0x61, 0x62, 0x63, 0x00, 0x00, 0x00, 0x02, 0xc3, 0xa9];
    assert_eq!(read_string(&bytes, 1), Ok(("abc".to_string(), 6)));
    assert_eq!(read_string(&bytes, 6), Ok((String::new(), 8)));
    assert_eq!(read_string(&bytes, 8), Ok(("é".to_string(), 12)));
    assert_eq!(read_string(&bytes, 0), Err(LangReadingError::IOError));
    assert_eq!(read_string(&bytes, 11), Err(LangReadingError::IOError));
    assert_eq!(read_string(&bytes, 12), Err(LangReadingError::IOError));
    assert_eq!(read_string(&bytes, 13), Err(LangReadingError::IOError));
    assert_eq!(read_string(&bytes, usize::MAX), Err(LangReadingError::IOError));
    assert_eq!(read_string(&[0x00, 0x01, 0xff], 0), Err(LangReadingError::FromUtf8Error));
}

#[test]
fn longest_key_and_value_are_written() {
    let mut file = LangFile::new(3);
    file.insert("k".repeat(65535), "v".repeat(65535));
    let payload = file.write_entries().ok().unwrap();
    assert_eq!(payload.len(), 4 + 2 + 65535 + 2 + 65535);
    assert_eq!(&payload[..6], &[0, 0, 0, 1, 0xff, 0xff]);
    assert_eq!(&payload[6 + 65535..8 + 65535], &[0xff, 0xff]);

    let mut bytes = Vec::new();
    assert_eq!(file.write(&mut bytes), Ok(()));
    let back = LangFile::read(&bytes).ok().unwrap();
    assert_eq!(back.get(&"k".repeat(65535)), Some(&"v".repeat(65535)));
}

#[test]
fn oversized_key_is_rejected() {
    let mut file = LangFile::new(3);
    file.insert("fine".to_string(), "fine".to_string());
    file.insert("k".repeat(65536), "v".to_string());
    let mut bytes = vec![1, 2, 3];
    assert_eq!(file.write(&mut bytes), Err(LangWritingError::TooLongKey { key_length: 65536 }));
    assert_eq!(bytes, vec![1, 2, 3]);
    assert_eq!(
        file.write_entries(),
        Err(LangWritingError::TooLongKey { key_length: 65536 })
    );
}

#[test]
fn key_length_is_counted_in_bytes() {
    // 32768 characters of two bytes each.
    let mut file = LangFile::new(0);
    file.insert("é".repeat(32768), "v".to_string());
    assert_eq!(
        file.write_entries(),
        Err(LangWritingError::TooLongKey { key_length: 65536 })
    );
    let mut fits = LangFile::new(0);
    fits.insert("é".repeat(32767), "v".to_string());
    assert_eq!(fits.write_entries().ok().unwrap().len(), 4 + 2 + 65534 + 2 + 1);
}

#[test]
fn oversized_value_is_rejected() {
    let mut file = LangFile::new(3);
    file.insert("key".to_string(), "v".repeat(70000));
    let mut bytes = Vec::new();
    assert_eq!(
        file.write(&mut bytes),
        Err(LangWritingError::TooLongValue { value_length: 70000 })
    );
    assert_eq!(bytes, Vec::<u8>::new());
}

#[test]
fn first_oversized_field_in_table_order_is_reported() {
    let mut file = LangFile::new(0);
    file.insert("a".to_string(), "v".repeat(65536));
    file.insert("k".repeat(65537), "v".to_string());
    assert_eq!(
        file.write_entries(),
        Err(LangWritingError::TooLongValue { value_length: 65536 })
    );

    let mut both = LangFile::new(0);
    both.insert("k".repeat(65537), "v".repeat(65538));
    assert_eq!(
        both.write_entries(),
        Err(LangWritingError::TooLongKey { key_length: 65537 })
    );
}

#[test]
fn stream_is_appended_behind_the_header() {
    let mut writer = vec![7];
    assert_eq!(LangFile::write_stream(0x0a0b_0c0d, Some(vec![1, 2, 3]), &mut writer), Ok(()));
    assert_eq!(writer, vec![7, 0x0d, 0x0c, 0x0b, 0x0a, 1, 2, 3]);
}

#[test]
fn missing_stream_is_an_error_and_writes_nothing() {
    let mut writer = vec![7];
    assert_eq!(LangFile::write_stream(1, None, &mut writer), Err(LangWritingError::IOError));
    assert_eq!(writer, vec![7]);
}

// A small generator of numbers, the same on every run.
fn next(state: &mut u64) -> u64 {
    *state = state.wrapping_mul(6364136223846793005).wrapping_add(1442695040888963407);
    *state >> 33
}

fn some_text(state: &mut u64) -> String {
    let alphabet =
        ['a', 'Z', '0', ' ', '\n', '\r', '\t', '\\', 'n', 'é', 'ß', '日', '🎮', '\0'];
    let len = next(state) % 12;
    (0..len).map(|_| alphabet[(next(state) % alphabet.len() as u64) as usize]).collect()
}

#[test]
fn round_trip_of_generated_files() {
    let mut state = 0x1234_5678;
    for round in 0..60 {
        let header = next(&mut state) as u32;
        let mut file = LangFile::new(header);
        let mut model = std::collections::BTreeMap::new();
        for _ in 0..(round % 17) {
            let key = some_text(&mut state);
            let value = some_text(&mut state);
            assert_eq!(file.insert(key.clone(), value.clone()), model.insert(key, value));
        }
        assert_eq!(file.len(), model.len());

        let mut bytes = Vec::new();
        assert_eq!(file.write(&mut bytes), Ok(()));
        assert_eq!(&bytes[..4], &header.to_le_bytes());
        assert_eq!(inflate(&bytes[4..]), file.write_entries().ok().unwrap());

        let back = LangFile::read(&bytes).ok().unwrap();
        assert_eq!(back.header, header);
        assert_eq!(pairs(&back), pairs(&file));
        let as_model: std::collections::BTreeMap<String, String> =
            pairs(&back).into_iter().collect();
        assert_eq!(as_model, model);
    }
}

#[test]
fn payload_is_read_back_as_written() {
    let mut state = 99;
    for round in 0..40 {
        let mut file = LangFile::new(0);
        for _ in 0..(round % 9) {
            file.insert(some_text(&mut state), some_text(&mut state));
        }
        let payload = file.write_entries().ok().unwrap();
        assert_eq!(&payload[..4], &(file.len() as i32).to_be_bytes());
        let entries = LangFile::read_entries(&payload).ok().unwrap();
        assert_eq!(entries.as_slice().to_vec(), pairs(&file));
        // A payload cut anywhere behind the count is short, or holds fewer
        // bytes than a length announces.
        if file.len() > 0 {
            for cut in 4..payload.len() {
                assert_eq!(
                    LangFile::read_entries(&payload[..cut]).err(),
                    Some(LangReadingError::IOError)
                );
            }
        }
    }
}

#[test]
fn writing_twice_gives_the_same_bytes() {
    let mut file = LangFile::new(11);
    for i in 0..500 {
        file.insert(format!("key{i}"), format!("value {i}\n"));
    }
    let mut first = Vec::new();
    let mut second = Vec::new();
    assert_eq!(file.write(&mut first), Ok(()));
    assert_eq!(file.write(&mut second), Ok(()));
    assert_eq!(first, second);
    // The stream is the one that the compressor makes at its best level.
    assert_eq!(&first[4..], &best_stream(&file.write_entries().ok().unwrap())[..]);
}
