use rust_strings::strings_extractor::is_printable_character;
use rust_strings::{dump_strings, strings, BytesConfig, Encoding};

fn extract(bytes: &[u8], encodings: &[Encoding], min_length: usize) -> Vec<(String, u64)> {
    let config = BytesConfig::new(bytes.to_vec())
        .with_min_length(min_length)
        .with_encodings(encodings.to_vec());
    strings(&config).unwrap()
}

fn dump(bytes: &[u8], encodings: &[Encoding], min_length: usize) -> String {
    let config = BytesConfig::new(bytes.to_vec())
        .with_min_length(min_length)
        .with_encodings(encodings.to_vec());
    String::from_utf8(dump_strings(&config, Vec::new()).unwrap()).unwrap()
}

fn as_json(found: &[(String, u64)]) -> String {
    let elements: Vec<String> = found
        .iter()
        .map(|(text, offset)| {
            let escaped = text
                .replace('\\', "\\\\")
                .replace('"', "\\\"")
                .replace('\n', "\\n")
                .replace('\t', "\\t")
                .replace('\r', "\\r");
            format!("[\"{}\",{}]", escaped, offset)
        })
        .collect();
    format!("[{}]", elements.join(","))
}

/// Every input of up to `max` bytes over a small alphabet.
fn inputs(alphabet: &[u8], max: usize) -> Vec<Vec<u8>> {
    let mut all: Vec<Vec<u8>> = vec![vec![]];
    let mut last: Vec<Vec<u8>> = vec![vec![]];
    for _ in 0..max {
        let mut next = vec![];
        for input in last.iter() {
            for b in alphabet {
                let mut longer = input.clone();
                longer.push(*b);
                next.push(longer);
            }
        }
        all.extend(next.iter().cloned());
        last = next;
    }
    all
}

fn fits(encoding: Encoding, k: usize, b: u8) -> bool {
    let wants_null = match encoding {
        Encoding::ASCII => false,
        Encoding::UTF16LE => k % 2 == 1,
        Encoding::UTF16BE => k % 2 == 0,
    };
    if wants_null {
        b == 0
    } else {
        is_printable_character(b)
    }
}

fn is_run(bytes: &[u8], encoding: Encoding, start: usize, end: usize) -> bool {
    (start..end).all(|i| fits(encoding, i - start, bytes[i]))
}

/// Whether `item` is the text and the first position of a maximal run.
fn reports(bytes: &[u8], encoding: Encoding, min_length: usize, item: &(String, u64)) -> bool {
    let start = item.1 as usize;
    (start + 1..=bytes.len()).any(|end| {
        let text: String = bytes[start..end]
            .iter()
            .filter(|b| **b != 0)
            .map(|b| *b as char)
            .collect();
        is_run(bytes, encoding, start, end)
            && (start == 0 || !is_run(bytes, encoding, start - 1, end))
            && (end == bytes.len() || !is_run(bytes, encoding, start, end + 1))
            && text == item.0
            && text.len() >= min_length
    })
}

#[test]
fn test_one_encoding_on_every_short_input() {
    for bytes in inputs(&[0, 1, b'a', b'"'], 7) {
        for encoding in [Encoding::ASCII, Encoding::UTF16LE, Encoding::UTF16BE] {
            for min_length in 0..5 {
                let found = extract(&bytes, &[encoding], min_length);
                for item in found.iter() {
                    assert!(
                        reports(&bytes, encoding, min_length, item),
                        "{bytes:?} {encoding:?} {min_length} {item:?}"
                    );
                }
                assert_eq!(dump(&bytes, &[encoding], min_length), as_json(&found));
            }
        }
    }
}

#[test]
fn test_one_byte_encoding_reports_every_long_run() {
    for bytes in inputs(&[0, b'a', b'b'], 9) {
        for min_length in 2..5 {
            let found = extract(&bytes, &[Encoding::ASCII], min_length);
            let mut expected = vec![];
            let mut start = 0;
            for end in 0..=bytes.len() {
                if end == bytes.len() || bytes[end] == 0 {
                    if end - start >= min_length {
                        let text = String::from_utf8(bytes[start..end].to_vec()).unwrap();
                        expected.push((text, start as u64));
                    }
                    start = end + 1;
                }
            }
            assert_eq!(found, expected, "{bytes:?} {min_length}");
        }
    }
}

#[test]
fn test_one_byte_and_two_byte_encoding_on_every_short_input() {
    let pairs = [
        [Encoding::ASCII, Encoding::UTF16LE],
        [Encoding::UTF16LE, Encoding::ASCII],
        [Encoding::ASCII, Encoding::UTF16BE],
        [Encoding::UTF16BE, Encoding::ASCII],
    ];
    for bytes in inputs(&[0, b'a', b'\\'], 9) {
        for pair in pairs {
            for min_length in 3..5 {
                let found = extract(&bytes, &pair, min_length);
                for item in found.iter() {
                    assert!(
                        pair.iter().any(|e| reports(&bytes, *e, min_length, item)),
                        "{bytes:?} {pair:?} {min_length} {item:?}"
                    );
                }
                assert_eq!(dump(&bytes, &pair, min_length), as_json(&found));
            }
        }
    }
}

#[test]
fn test_runs_of_two_encodings_can_meet_in_the_sink() {
    let bytes = b"a\x00b\x00cde\x00";
    assert_eq!(
        extract(bytes, &[Encoding::ASCII, Encoding::UTF16LE], 2),
        vec![(String::from("cd"), 4), (String::from("e"), 4)]
    );
    assert_eq!(
        extract(bytes, &[Encoding::UTF16LE, Encoding::ASCII], 2),
        vec![(String::from("abc"), 0), (String::from("cde"), 4)]
    );
    assert_eq!(
        extract(bytes, &[Encoding::ASCII], 2),
        vec![(String::from("cde"), 4)]
    );
    assert_eq!(
        extract(bytes, &[Encoding::UTF16LE], 2),
        vec![(String::from("abc"), 0)]
    );
}
