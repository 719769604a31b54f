use rust_strings::strings_extractor::{
    is_printable_character, new_strings_extractor, StringsExtractor,
};
use rust_strings::{strings, BytesConfig, Encoding, FileConfig, StringWriter, VectorWriter};

fn extract(bytes: &[u8], encoding: Encoding, min_length: usize) -> Vec<(String, u64)> {
    let config = BytesConfig::new(bytes.to_vec())
        .with_min_length(min_length)
        .with_encoding(encoding);
    strings(&config).unwrap()
}

fn one(text: &str, offset: u64) -> Vec<(String, u64)> {
    vec![(String::from(text), offset)]
}

fn none() -> Vec<(String, u64)> {
    vec![]
}

#[test]
fn test_printable_bytes() {
    for c in 0..=255u8 {
        let expected = (32..=126).contains(&c) || c == 9 || c == 10 || c == 13;
        assert_eq!(is_printable_character(c), expected, "byte {c}");
    }
    assert!(is_printable_character(b' '));
    assert!(is_printable_character(b'~'));
    assert!(!is_printable_character(31));
    assert!(!is_printable_character(127));
    assert!(!is_printable_character(11));
    assert!(!is_printable_character(12));
    assert!(!is_printable_character(0));
}

#[test]
fn test_first_byte_of_a_run() {
    let ascii = new_strings_extractor(Encoding::ASCII, 3);
    assert!(ascii.can_consume(b'a'));
    assert!(!ascii.can_consume(0));
    let little = new_strings_extractor(Encoding::UTF16LE, 3);
    assert!(little.can_consume(b'a'));
    assert!(!little.can_consume(0));
    let big = new_strings_extractor(Encoding::UTF16BE, 3);
    assert!(!big.can_consume(b'a'));
    assert!(big.can_consume(0));
}

#[test]
fn test_two_byte_units_alternate() {
    let mut writer = VectorWriter::new();
    let mut little = new_strings_extractor(Encoding::UTF16LE, 3);
    little.consume(&mut writer, 0, b'a').unwrap();
    assert!(little.can_consume(0));
    assert!(!little.can_consume(b'b'));
    little.consume(&mut writer, 1, 0).unwrap();
    assert!(little.can_consume(b'b'));
    assert!(!little.can_consume(0));
    little.stop_consume(&mut writer).unwrap();
    assert!(little.can_consume(b'b'));
    assert!(!little.can_consume(0));
}

#[test]
fn test_sink_learns_of_a_run_at_the_threshold() {
    let mut writer = VectorWriter::new();
    let mut ascii = new_strings_extractor(Encoding::ASCII, 3);
    ascii.consume(&mut writer, 10, b'a').unwrap();
    ascii.consume(&mut writer, 11, b'b').unwrap();
    writer.finish_string_consume().unwrap();
    assert_eq!(none(), writer.get_strings());
    ascii.consume(&mut writer, 12, b'c').unwrap();
    ascii.consume(&mut writer, 13, b'd').unwrap();
    ascii.stop_consume(&mut writer).unwrap();
    assert_eq!(one("abcd", 10), writer.get_strings());
    ascii.stop_consume(&mut writer).unwrap();
    assert_eq!(none(), writer.get_strings());
}

#[test]
fn test_run_below_threshold_is_dropped() {
    let mut writer = VectorWriter::new();
    let mut ascii = new_strings_extractor(Encoding::ASCII, 3);
    ascii.consume(&mut writer, 0, b'a').unwrap();
    ascii.consume(&mut writer, 1, b'b').unwrap();
    ascii.stop_consume(&mut writer).unwrap();
    ascii.consume(&mut writer, 3, b'x').unwrap();
    ascii.consume(&mut writer, 4, b'y').unwrap();
    ascii.consume(&mut writer, 5, b'z').unwrap();
    ascii.stop_consume(&mut writer).unwrap();
    assert_eq!(one("xyz", 3), writer.get_strings());
}

#[test]
fn test_run_of_exactly_min_length() {
    assert_eq!(extract(b"\x00abcd\x00", Encoding::ASCII, 4), one("abcd", 1));
    assert_eq!(extract(b"\x00abcd\x00", Encoding::ASCII, 5), none());
    assert_eq!(extract(b"abcd", Encoding::ASCII, 4), one("abcd", 0));
    assert_eq!(extract(b"abcd", Encoding::ASCII, 5), none());
    assert_eq!(extract(b"ab", Encoding::ASCII, 2), one("ab", 0));
}

#[test]
fn test_two_byte_run_of_exactly_min_length() {
    let bytes = b"w\x00i\x00d\x00e\x00r\x00";
    assert_eq!(extract(bytes, Encoding::UTF16LE, 5), one("wider", 0));
    assert_eq!(extract(bytes, Encoding::UTF16LE, 6), none());
    assert_eq!(extract(bytes, Encoding::UTF16BE, 4), one("ider", 1));
    assert_eq!(extract(bytes, Encoding::UTF16BE, 5), none());
}

#[test]
fn test_every_string_reaches_min_length() {
    let bytes = b"a\x00bb\x00ccc\x00dddd\x00eeeee\x00ffffff";
    assert_eq!(
        extract(bytes, Encoding::ASCII, 5),
        vec![(String::from("eeeee"), 14), (String::from("ffffff"), 20)]
    );
    for min_length in 2..8 {
        let found = extract(bytes, Encoding::ASCII, min_length);
        assert_eq!(found.len(), 7usize.saturating_sub(min_length));
        for (text, _) in found {
            assert!(text.len() >= min_length);
        }
    }
}

#[test]
fn test_min_length_below_two_is_never_reached() {
    assert_eq!(extract(b"some text", Encoding::ASCII, 1), none());
    assert_eq!(extract(b"some text", Encoding::ASCII, 0), none());
    assert_eq!(extract(b"s\x00o\x00m\x00e\x00", Encoding::UTF16LE, 1), none());
    assert_eq!(extract(b"\x00s\x00o\x00m\x00e", Encoding::UTF16BE, 0), none());
}

#[test]
fn test_strings_are_maximal_runs() {
    let bytes = b"\x01abc def\x02gh\x7fijkl\tm\n\x0bnop\x0cqrs";
    let found = extract(bytes, Encoding::ASCII, 3);
    assert_eq!(
        found,
        vec![
            (String::from("abc def"), 1),
            (String::from("ijkl\tm\n"), 12),
            (String::from("nop"), 20),
            (String::from("qrs"), 24),
        ]
    );
    for (text, offset) in found {
        let start = offset as usize;
        let end = start + text.len();
        assert_eq!(text.as_bytes(), &bytes[start..end]);
        assert!(start == 0 || !is_printable_character(bytes[start - 1]));
        assert!(end == bytes.len() || !is_printable_character(bytes[end]));
    }
}

#[test]
fn test_run_at_end_of_input_is_closed() {
    assert_eq!(extract(b"\x00\x00tail", Encoding::ASCII, 3), one("tail", 2));
    assert_eq!(extract(b"\x00\x00t\x00a\x00i\x00l\x00", Encoding::UTF16LE, 3), one("tail", 2));
    assert_eq!(extract(b"\x01\x00t\x00a\x00i\x00l", Encoding::UTF16BE, 3), one("tail", 1));
}

#[test]
fn test_empty_input() {
    assert_eq!(extract(b"", Encoding::ASCII, 3), none());
    assert_eq!(extract(b"", Encoding::UTF16LE, 3), none());
    assert_eq!(extract(b"", Encoding::UTF16BE, 3), none());
}

#[test]
fn test_big_endian_position_is_that_of_the_null() {
    assert_eq!(extract(b"xx\x00a\x00b\x00c", Encoding::UTF16BE, 3), one("abc", 2));
    assert_eq!(extract(b"xx\x00a\x00b\x00c\x00d\x01", Encoding::UTF16BE, 3), one("abcd", 2));
}

#[test]
fn test_big_endian_trailing_null_is_no_text() {
    assert_eq!(extract(b"\x00t\x00e\x00s\x00", Encoding::UTF16BE, 3), one("tes", 0));
    assert_eq!(extract(b"\x00t\x00e\x00s\x00\x01", Encoding::UTF16BE, 3), one("tes", 0));
}

#[test]
fn test_little_endian_last_unit_without_its_null() {
    assert_eq!(extract(b"t\x00e\x00s\x00t", Encoding::UTF16LE, 3), one("test", 0));
    assert_eq!(extract(b"t\x00e\x00s\x00\x00", Encoding::UTF16LE, 3), one("tes", 0));
}

#[test]
fn test_two_byte_run_needs_its_nulls() {
    assert_eq!(extract(b"test", Encoding::UTF16LE, 3), none());
    assert_eq!(extract(b"test", Encoding::UTF16BE, 3), none());
    assert_eq!(extract(b"t\x00est\x00", Encoding::UTF16LE, 3), none());
    assert_eq!(extract(b"t\x00e\x00st\x00", Encoding::UTF16LE, 3), one("tes", 0));
}

#[test]
fn test_rejected_byte_is_dropped() {
    assert_eq!(extract(b"ab\x00c\x00d\x00", Encoding::UTF16LE, 2), one("cd", 3));
    assert_eq!(extract(b"\x00\x00a\x00b\x00c", Encoding::UTF16BE, 2), one("bc", 3));
}

#[test]
fn test_no_encoding_configured_means_one_byte() {
    let config = BytesConfig::new(b"t\x00e\x00s\x00t\x00plain".to_vec());
    assert_eq!(strings(&config).unwrap(), one("plain", 8));
    let config = BytesConfig::new(b"t\x00e\x00s\x00t\x00plain".to_vec()).with_encodings(vec![]);
    assert_eq!(strings(&config).unwrap(), one("plain", 8));
}

#[test]
fn test_runs_of_several_encodings_in_closing_order() {
    let config = BytesConfig::new(b"w\x00i\x00d\x00e\x00\x01narrow\x01".to_vec())
        .with_encodings(vec![Encoding::ASCII, Encoding::UTF16LE]);
    assert_eq!(
        strings(&config).unwrap(),
        vec![(String::from("wide"), 0), (String::from("narrow"), 9)]
    );
    let config = BytesConfig::new(b"narrow\x01\x00w\x00i\x00d\x00e\x01".to_vec())
        .with_encodings(vec![Encoding::UTF16BE, Encoding::ASCII]);
    assert_eq!(
        strings(&config).unwrap(),
        vec![(String::from("narrow"), 0), (String::from("wide"), 7)]
    );
}

#[test]
fn test_each_encoding_finds_its_own_runs() {
    let bytes = b"ascii\x01t\x00e\x00s\x00t\x00\x00\x00";
    assert_eq!(extract(bytes, Encoding::ASCII, 3), one("ascii", 0));
    assert_eq!(extract(bytes, Encoding::UTF16LE, 3), one("test", 6));
    assert_eq!(extract(bytes, Encoding::UTF16BE, 3), one("est", 7));
    assert_eq!(extract(b"\x00t\x00e\x00s\x00t\x00\x00", Encoding::UTF16BE, 3), one("test", 0));
    assert_eq!(extract(b"t\x00e\x00s\x00t\x00\x00\x00", Encoding::UTF16LE, 3), one("test", 0));
}

#[test]
fn test_overlapping_runs_share_the_sink() {
    let config = BytesConfig::new(b"a\x00b\x00c\x00d\x00".to_vec())
        .with_encoding(Encoding::UTF16LE)
        .with_encoding(Encoding::UTF16BE);
    assert_eq!(strings(&config).unwrap(), one("bcd", 1));
}

#[test]
fn test_bytes_config_builders() {
    let config = BytesConfig::new(vec![1, 2, 3]);
    assert_eq!(config.bytes, vec![1, 2, 3]);
    assert_eq!(config.min_length, 3);
    assert!(config.encodings.is_empty());
    let config = config
        .with_min_length(7)
        .with_encoding(Encoding::UTF16LE)
        .with_encoding(Encoding::ASCII);
    assert_eq!(config.min_length, 7);
    assert_eq!(config.encodings, vec![Encoding::UTF16LE, Encoding::ASCII]);
    let config = config.with_encodings(vec![Encoding::UTF16BE]);
    assert_eq!(config.encodings, vec![Encoding::UTF16BE]);
    assert_eq!(config.bytes, vec![1, 2, 3]);
    assert_eq!(config.min_length, 7);
}

#[test]
fn test_file_config_builders() {
    let config = FileConfig::new("/bin/ls");
    assert_eq!(config.file_path, "/bin/ls");
    assert_eq!(config.min_length, 3);
    assert_eq!(config.buffer_size, 1024 * 1024);
    assert!(config.encodings.is_empty());
    assert_eq!(config.get_encodings(), vec![Encoding::ASCII]);
    let config = config
        .with_buffer_size(4096)
        .with_min_length(5)
        .with_encoding(Encoding::UTF16LE);
    assert_eq!(config.file_path, "/bin/ls");
    assert_eq!(config.buffer_size, 4096);
    assert_eq!(config.get_min_length(), 5);
    assert_eq!(config.get_encodings(), vec![Encoding::UTF16LE]);
    let config = config.with_encodings(vec![Encoding::ASCII, Encoding::UTF16BE]);
    assert_eq!(config.get_encodings(), vec![Encoding::ASCII, Encoding::UTF16BE]);
    assert_eq!(config.buffer_size, 4096);
}
