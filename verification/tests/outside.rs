use byteorder::{ByteOrder, LittleEndian};
use grep::{GrepBuilder, Match};

const PATTERNS: &[&str] =
    &["a", "b+", "^a", "a$", "$", "^", "", "x*", "\\x00/bin", "(ab|ba)c?", "[^a]", "\\bb", "."];

const BUFFERS: &[&[u8]] = &[
    b"",
    b"\n",
    b"a",
    b"a\n",
    b"ab\nba\n",
    b"\n\nab\n\nb",
    b"f\x001r\x00/bin/a\nf\x002r\x00/bin/b\np\x00{}\n",
    b"bbb\nccc\nabc\n",
    b"c\nc\nc\n",
];

#[test]
fn line_that_grep_names_is_a_line_after_the_start() {
    for pattern in PATTERNS {
        let searcher = GrepBuilder::new(pattern).build().unwrap();
        for buf in BUFFERS {
            for start in 0..buf.len() + 2 {
                let mut line = Match::new();
                if !searcher.read_match(&mut line, buf, start) {
                    continue;
                }
                let (first, end) = (line.start(), line.end());
                assert!(first <= end && end <= buf.len(), "{:?} {:?} {}", pattern, buf, start);
                assert!(start < end, "{:?} {:?} {}", pattern, buf, start);
                assert!(first == 0 || buf[first - 1] == b'\n');
                assert!(end == buf.len() || buf[end - 1] == b'\n');
                if first < end {
                    assert!(!buf[first..end - 1].contains(&b'\n'));
                }
                let mut again = Match::new();
                assert!(searcher.read_match(&mut again, buf, start));
                assert_eq!((again.start(), again.end()), (first, end));
            }
        }
    }
}

#[test]
fn pattern_with_a_line_feed_is_refused_by_grep() {
    assert!(GrepBuilder::new("a\nb").build().is_err());
    assert!(GrepBuilder::new("(unclosed").build().is_err());
}

#[test]
fn matches_lie_inside_the_text_in_their_order() {
    for pattern in PATTERNS {
        let re = regex::bytes::Regex::new(pattern).unwrap();
        for buf in BUFFERS {
            let mut last = 0;
            let mut count = 0;
            for found in re.find_iter(buf) {
                assert!(found.start() <= found.end());
                assert!(found.end() <= buf.len());
                assert!(last <= found.start());
                last = found.end();
                count += 1;
            }
            assert_eq!(count > 0, re.is_match(buf));
        }
    }
}

#[test]
fn json_is_read_back_down_to_a_depth() {
    let nested = |depth: usize| {
        let mut text = String::new();
        for _ in 0..depth {
            text.push_str("{\"a\":");
        }
        text.push_str("true");
        for _ in 0..depth {
            text.push('}');
        }
        text
    };
    assert!(serde_json::from_str::<serde_json::Value>(&nested(127)).is_ok());
    assert!(serde_json::from_str::<serde_json::Value>(&nested(128)).is_err());
    let mut value = nix_index::json::Json::Boolean(true);
    for _ in 0..127 {
        value = nix_index::json::Json::Object(vec![nix_index::json::Member {
            name: "a".to_string(),
            value,
        }]);
    }
    let text = value.write();
    assert_eq!(text, nested(127).into_bytes());
    assert!(nix_index::json::Json::read(&text).is_some());
    assert!(nix_index::json::Json::read(nested(128).as_bytes()).is_none());
}

#[test]
fn compression_is_undone_by_decompression() {
    let mut data = Vec::new();
    for i in 0..100_000u32 {
        data.push((i % 251) as u8);
        data.push((i / 7 % 13) as u8);
    }
    for level in [-5, 0, 1, 3, 19, 22] {
        for sample in [&data[..], &data[..1], &data[..0]] {
            let frame = zstd::encode_all(sample, level).unwrap();
            assert_eq!(zstd::decode_all(&frame[..]).unwrap(), sample);
        }
    }
    assert!(zstd::decode_all(&b"no frame"[..]).is_err());
    assert!(zstd::decode_all(&zstd::encode_all(&data[..], 3).unwrap()[..10]).is_err());
}

#[test]
fn numbers_are_written_least_significant_byte_first() {
    let mut buf = [0u8; 8];
    LittleEndian::write_u64(&mut buf, 0x0807_0605_0403_0201);
    assert_eq!(buf, [1, 2, 3, 4, 5, 6, 7, 8]);
    assert_eq!(LittleEndian::read_u64(&[1, 0, 0, 0, 0, 0, 0, 0, 9, 9]), 1);
    assert_eq!(LittleEndian::read_u64(&[0xff; 8]), u64::MAX);
}

#[test]
fn json_text_has_no_line_feed_and_no_zero_byte() {
    let text: String = (0u8..128).map(|b| b as char).collect::<String>() + "\u{e9}\u{2028}";
    let origin = nix_index::package::PathOrigin {
        attr: text.clone(),
        output: text.clone(),
        toplevel: true,
    };
    let path = nix_index::package::StorePath::new(text.clone(), text.clone(), origin);
    let json = path.to_json();
    assert!(json.iter().all(|b| *b >= 0x20));
    let back = nix_index::package::StorePath::from_json(&json).unwrap();
    assert_eq!(back.hash(), text);
    assert_eq!(back.name(), text);
    assert_eq!(back.origin().attr, text);
    assert_eq!(back.origin().output, text);
}

#[test]
fn escaping_puts_a_backslash_before_meta_characters_only() {
    let all: String = (0x20u8..0x7f).map(|b| b as char).collect();
    let escaped = regex::escape(&all);
    let mut expected = String::new();
    for c in all.chars() {
        if "\\.+*?()|[]{}^$#&-~".contains(c) {
            expected.push('\\');
        }
        expected.push(c);
    }
    assert_eq!(escaped, expected);
    assert_eq!(nix_index::locate::make_pattern(&all, false, false, false), expected);
}
