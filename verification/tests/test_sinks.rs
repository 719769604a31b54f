use rust_strings::strings::_strings;
use rust_strings::{
    dump_strings, strings, BytesConfig, Config, Encoding, ErrorResult, Extraction, JsonWriter,
    Output, Recorded, StringWriter, StringsError, VectorWriter,
};

fn dump(config: &BytesConfig) -> String {
    String::from_utf8(dump_strings(config, Vec::new()).unwrap()).unwrap()
}

#[test]
fn test_vector_writer_collects_in_call_order() {
    let mut writer = VectorWriter::new();
    writer.start_string_consume(vec![116, 101], 5).unwrap();
    writer.write_char('x').unwrap();
    writer.finish_string_consume().unwrap();
    writer.start_string_consume(vec![97, 98, 99], 40).unwrap();
    writer.finish_string_consume().unwrap();
    assert_eq!(
        vec![(String::from("tex"), 5), (String::from("abc"), 40)],
        writer.get_strings()
    );
}

#[test]
fn test_vector_writer_skips_empty_run() {
    let mut writer = VectorWriter::new();
    writer.finish_string_consume().unwrap();
    writer.start_string_consume(vec![], 3).unwrap();
    writer.finish_string_consume().unwrap();
    assert_eq!(Vec::<(String, u64)>::new(), writer.get_strings());
}

#[test]
fn test_vector_writer_get_strings_keeps_none() {
    let mut writer = VectorWriter::new();
    writer.start_string_consume(vec![97, 98], 0).unwrap();
    writer.finish_string_consume().unwrap();
    assert_eq!(vec![(String::from("ab"), 0)], writer.get_strings());
    assert_eq!(Vec::<(String, u64)>::new(), writer.get_strings());
}

#[test]
fn test_vector_writer_start_replaces_open_text() {
    let mut writer = VectorWriter::new();
    writer.start_string_consume(vec![97, 98], 1).unwrap();
    writer.write_char('c').unwrap();
    writer.start_string_consume(vec![120, 121], 9).unwrap();
    writer.finish_string_consume().unwrap();
    assert_eq!(vec![(String::from("xy"), 9)], writer.get_strings());
}

#[test]
fn test_json_writer_elements_and_separators() {
    let mut writer = JsonWriter::new(Vec::new());
    writer.start_string_consume(vec![97, 98], 7).unwrap();
    writer.write_char('c').unwrap();
    writer.finish_string_consume().unwrap();
    writer.start_string_consume(vec![100], 123).unwrap();
    writer.finish_string_consume().unwrap();
    writer.finish().unwrap();
    assert_eq!(
        String::from_utf8(writer.into_inner()).unwrap(),
        "[[\"abc\",7],[\"d\",123]]"
    );
}

#[test]
fn test_json_writer_appends_to_what_is_there() {
    let mut writer = JsonWriter::new(vec![120u8, 61]);
    writer.start_string_consume(vec![97], 0).unwrap();
    writer.finish_string_consume().unwrap();
    writer.finish().unwrap();
    assert_eq!(String::from_utf8(writer.into_inner()).unwrap(), "x=[[\"a\",0]]");
}

#[test]
fn test_json_writer_escapes() {
    let mut writer = JsonWriter::new(Vec::new());
    writer.start_string_consume(vec![34, 92, 10, 9, 13, 47, 11], 0).unwrap();
    writer.finish_string_consume().unwrap();
    writer.finish().unwrap();
    assert_eq!(
        writer.into_inner(),
        b"[[\"\\\"\\\\\\n\\t\\r/\x0b\",0]]".to_vec()
    );
}

#[test]
fn test_json_writer_write_char_keeps_low_byte() {
    let mut writer = JsonWriter::new(Vec::new());
    writer.write_char('\u{141}').unwrap();
    writer.finish_string_consume().unwrap();
    writer.finish().unwrap();
    assert_eq!(writer.into_inner(), b"[[\"A\",0]]".to_vec());
}

#[test]
fn test_json_writer_offsets_in_decimal() {
    let mut writer = JsonWriter::new(Vec::new());
    writer.start_string_consume(vec![97], 0).unwrap();
    writer.finish_string_consume().unwrap();
    writer.start_string_consume(vec![98], 9).unwrap();
    writer.finish_string_consume().unwrap();
    writer.start_string_consume(vec![99], 10).unwrap();
    writer.finish_string_consume().unwrap();
    writer.start_string_consume(vec![100], 1002003).unwrap();
    writer.finish_string_consume().unwrap();
    writer.start_string_consume(vec![101], u64::MAX).unwrap();
    writer.finish_string_consume().unwrap();
    writer.finish().unwrap();
    assert_eq!(
        String::from_utf8(writer.into_inner()).unwrap(),
        "[[\"a\",0],[\"b\",9],[\"c\",10],[\"d\",1002003],[\"e\",18446744073709551615]]"
    );
}

#[test]
fn test_json_writer_empty_document() {
    let mut writer = JsonWriter::new(Vec::new());
    writer.finish().unwrap();
    assert_eq!(String::from_utf8(writer.into_inner()).unwrap(), "[]");
}

#[test]
fn test_json_dump_empty_input() {
    assert_eq!(dump(&BytesConfig::new(vec![])), "[]");
}

#[test]
fn test_json_dump_no_string_found() {
    assert_eq!(dump(&BytesConfig::new(vec![0, 1, 97, 98, 2, 255])), "[]");
}

#[test]
fn test_json_dump_escapes_backslash_and_carriage_return() {
    let config = BytesConfig::new(b"\x00a\\b\rc\x00".to_vec());
    assert_eq!(dump(&config), "[[\"a\\\\b\\rc\",1]]");
}

#[test]
fn test_json_dump_utf16() {
    let config =
        BytesConfig::new(b"\x01\x01w\x00i\x00d\x00e\x00\x01".to_vec()).with_encoding(Encoding::UTF16LE);
    assert_eq!(dump(&config), "[[\"wide\",2]]");
}

fn as_json(found: &Vec<(String, u64)>) -> String {
    let mut out = String::from("[");
    for (i, (text, offset)) in found.iter().enumerate() {
        if i > 0 {
            out.push(',');
        }
        out.push_str("[\"");
        for c in text.chars() {
            match c {
                '\n' => out.push_str("\\n"),
                '\t' => out.push_str("\\t"),
                '\r' => out.push_str("\\r"),
                '"' => out.push_str("\\\""),
                '\\' => out.push_str("\\\\"),
                c => out.push(c),
            }
        }
        out.push_str(&format!("\",{}]", offset));
    }
    out.push(']');
    out
}

#[test]
fn test_json_dump_matches_strings() {
    let inputs: Vec<Vec<u8>> = vec![
        vec![],
        b"plain text".to_vec(),
        b"\x00one\x01two\"2\"\x02\x03three\\3\n\x04no\x05".to_vec(),
        b"ab\x00cd\x00efg\x00\x00hijk".to_vec(),
        b"t\x00e\x00s\x00t\x00\x00\x00m\x00o\x00r\x00e\x00".to_vec(),
    ];
    let encodings = vec![Encoding::ASCII, Encoding::UTF16LE, Encoding::UTF16BE];
    for bytes in inputs.iter() {
        for encoding in encodings.iter() {
            for min_length in 0..6 {
                let config = BytesConfig::new(bytes.clone())
                    .with_min_length(min_length)
                    .with_encoding(*encoding);
                let found = strings(&config).unwrap();
                assert_eq!(dump(&config), as_json(&found));
            }
        }
    }
}

#[test]
fn test_same_input_same_output() {
    let config = BytesConfig::new(b"\x00first\x01second\x02s\x00e\x00c\x00\x00".to_vec())
        .with_encoding(Encoding::ASCII)
        .with_encoding(Encoding::UTF16LE);
    let first = strings(&config).unwrap();
    let second = strings(&config).unwrap();
    assert_eq!(first, second);
    assert_eq!(
        vec![
            (String::from("first"), 1),
            (String::from("second"), 7),
            (String::from("sec"), 14)
        ],
        first
    );
    assert_eq!(dump(&config), dump(&config));
}

struct BrokenSource {
    good: Vec<u8>,
}

impl Config for BrokenSource {
    fn consume<W: StringWriter>(&self, pass: &mut Extraction, writer: &mut W) -> ErrorResult {
        for (i, b) in self.good.iter().enumerate() {
            pass.feed(writer, i, *b)?;
        }
        Err(StringsError::Source(String::from("short read")))
    }

    fn get_min_length(&self) -> usize {
        3
    }

    fn get_encodings(&self) -> Vec<Encoding> {
        vec![Encoding::ASCII]
    }
}

#[test]
fn test_source_error_is_returned() {
    let source = BrokenSource { good: b"text".to_vec() };
    match strings(&source) {
        Err(StringsError::Source(why)) => assert_eq!(why, "short read"),
        _ => panic!("a source error was expected"),
    }
}

#[test]
fn test_runs_closed_before_a_failure_stay_in_the_sink() {
    let source = BrokenSource { good: b"text\x00more".to_vec() };
    let mut writer = VectorWriter::new();
    assert!(_strings(&source, &mut writer).is_err());
    assert_eq!(vec![(String::from("text"), 0)], writer.get_strings());
    let mut json = JsonWriter::new(Vec::new());
    assert!(_strings(&source, &mut json).is_err());
    assert_eq!(
        String::from_utf8(json.into_inner()).unwrap(),
        "[[\"text\",0],[\"more"
    );
}

struct FullSink {
    room: usize,
    taken: Vec<u8>,
}

impl Output for FullSink {
    fn write_all(&mut self, buf: &[u8]) -> ErrorResult {
        if self.taken.len() + buf.len() > self.room {
            return Err(StringsError::Sink(String::from("no room")));
        }
        self.taken.extend_from_slice(buf);
        Ok(())
    }
}

#[test]
fn test_sink_error_is_returned() {
    let config = BytesConfig::new(b"some text here".to_vec());
    match dump_strings(&config, Recorded::new(FullSink { room: 6, taken: vec![] })) {
        Err(StringsError::Sink(why)) => assert_eq!(why, "no room"),
        _ => panic!("a sink error was expected"),
    }
}

#[test]
fn test_sink_with_room_takes_the_document() {
    let config = BytesConfig::new(b"some text here".to_vec());
    let sink = dump_strings(&config, Recorded::new(FullSink { room: 100, taken: vec![] }))
        .unwrap()
        .into_inner();
    assert_eq!(String::from_utf8(sink.taken).unwrap(), "[[\"some text here\",0]]");
}

#[test]
fn test_extraction_fed_by_hand() {
    let bytes = b"\x00abc\x00de\x00fghi".to_vec();
    let mut writer = VectorWriter::new();
    let mut pass = Extraction::new(&vec![Encoding::ASCII], 3);
    for (i, b) in bytes.iter().enumerate() {
        pass.feed(&mut writer, i, *b).unwrap();
    }
    pass.finish(&mut writer).unwrap();
    let by_hand = writer.get_strings();
    assert_eq!(
        vec![(String::from("abc"), 1), (String::from("fghi"), 8)],
        by_hand
    );
    assert_eq!(by_hand, strings(&BytesConfig::new(bytes)).unwrap());
}
