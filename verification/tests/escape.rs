use cescape::{escape, unescape};

#[test]
fn escape_test() {
    assert_eq!(escape(b"'\"hello\"'"), r#"\'\"hello\"\'"#);
    let mut all = [0u8; 256];
    for i in 0..256 {
        all[i] = i as u8;
    }
    assert_eq!(unescape(&escape(&all)), Ok(all.to_vec()));
}

#[test]
fn no_bytes_are_empty_text() {
    assert_eq!(escape(b""), "");
}

#[test]
fn quotes_backslash_and_question_mark_get_a_backslash() {
    assert_eq!(escape(b"\\"), "\\\\");
    assert_eq!(escape(b"'"), "\\'");
    assert_eq!(escape(b"\""), "\\\"");
    assert_eq!(escape(b"?"), "\\?");
    assert_eq!(escape(b"a?b"), "a\\?b");
}

#[test]
fn line_feed_and_carriage_return_are_named() {
    assert_eq!(escape(b"\n"), "\\n");
    assert_eq!(escape(b"\r"), "\\r");
    assert_eq!(escape(b"a\r\nb"), "a\\r\\nb");
}

#[test]
fn printable_bytes_are_written_as_themselves() {
    assert_eq!(escape(b" "), " ");
    assert_eq!(escape(b"~"), "~");
    assert_eq!(escape(b"Hello World!"), "Hello World!");
    assert_eq!(
        escape(b"0123456789 abcdefghijklmnopqrstuvwxyz ABCDEFGHIJKLMNOPQRSTUVWXYZ"),
        "0123456789 abcdefghijklmnopqrstuvwxyz ABCDEFGHIJKLMNOPQRSTUVWXYZ"
    );
    assert_eq!(escape(b"!#$%&()*+,-./:;<=>@[]^_`{|}"), "!#$%&()*+,-./:;<=>@[]^_`{|}");
}

#[test]
fn other_bytes_are_written_in_hex_without_padding() {
    assert_eq!(escape(&[0x00]), "\\x0");
    assert_eq!(escape(&[0x07]), "\\x7");
    assert_eq!(escape(&[0x09]), "\\x9");
    assert_eq!(escape(&[0x0b]), "\\xB");
    assert_eq!(escape(&[0x0f]), "\\xF");
    assert_eq!(escape(&[0x10]), "\\x10");
    assert_eq!(escape(&[0x1f]), "\\x1F");
    assert_eq!(escape(&[0x7f]), "\\x7F");
    assert_eq!(escape(&[0x80]), "\\x80");
    assert_eq!(escape(&[0xa0]), "\\xA0");
    assert_eq!(escape(&[0xab]), "\\xAB");
    assert_eq!(escape(&[0xff]), "\\xFF");
}

#[test]
fn tab_has_no_name_of_its_own() {
    assert_eq!(escape(b"\t"), "\\x9");
    assert_eq!(escape(&[0x07, 0x08, 0x0c, 0x0b]), "\\x7\\x8\\xC\\xB");
}

#[test]
fn escape_matches_the_formatted_hex_of_every_byte() {
    for b in 0..=255u8 {
        let text = escape(&[b]);
        let expected = match b {
            b'\\' | b'\'' | b'"' | b'?' => format!("\\{}", b as char),
            b'\n' => "\\n".to_string(),
            b'\r' => "\\r".to_string(),
            0x20..=0x7e => format!("{}", b as char),
            _ => format!("\\x{:X}", b),
        };
        assert_eq!(text, expected);
    }
}

#[test]
fn text_is_ascii_and_at_most_four_times_as_long() {
    let mut all = Vec::new();
    for round in 0..3 {
        for b in 0..=255u8 {
            all.push(b.wrapping_mul(7).wrapping_add(round));
        }
    }
    let text = escape(&all);
    assert!(text.is_ascii());
    assert!(text.len() >= all.len());
    assert!(text.len() <= 4 * all.len());
    assert_eq!(escape(&[0xff, 0xfe]).len(), 8);
}

#[test]
fn utf8_bytes_are_written_byte_by_byte() {
    assert_eq!(escape("\u{e9}".as_bytes()), "\\xC3\\xA9");
    assert_eq!(escape("\u{20ac}".as_bytes()), "\\xE2\\x82\\xAC");
}
