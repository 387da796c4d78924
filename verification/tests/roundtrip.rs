use cescape::{escape, unescape};

fn is_hex_digit(b: u8) -> bool {
    b.is_ascii_hexdigit()
}

fn is_hex_escaped(b: u8) -> bool {
    !(0x20..0x7f).contains(&b) && b != b'\n' && b != b'\r'
}

fn keeps_digits_apart(bytes: &[u8]) -> bool {
    bytes
        .windows(2)
        .all(|pair| !(is_hex_escaped(pair[0]) && is_hex_digit(pair[1])))
}

fn next(state: &mut u32) -> u8 {
    *state = state.wrapping_mul(1664525).wrapping_add(1013904223);
    (*state >> 24) as u8
}

#[test]
fn every_single_byte_comes_back() {
    for b in 0..=255u8 {
        assert_eq!(unescape(&escape(&[b])), Ok(vec![b]));
    }
}

#[test]
fn every_pair_of_bytes_comes_back_unless_a_digit_follows_hex() {
    for a in 0..=255u8 {
        for b in 0..=255u8 {
            let bytes = [a, b];
            let back = unescape(&escape(&bytes));
            if keeps_digits_apart(&bytes) {
                assert_eq!(back, Ok(bytes.to_vec()));
            } else {
                assert_ne!(back, Ok(bytes.to_vec()));
            }
        }
    }
}

#[test]
fn longer_sequences_come_back() {
    let mut state = 12345u32;
    let mut checked = 0;
    for len in 0..200usize {
        let mut bytes = Vec::new();
        while bytes.len() < len {
            let b = next(&mut state);
            if let Some(&last) = bytes.last() {
                if is_hex_escaped(last) && is_hex_digit(b) {
                    continue;
                }
            }
            bytes.push(b);
        }
        assert!(keeps_digits_apart(&bytes));
        assert_eq!(unescape(&escape(&bytes)), Ok(bytes));
        checked += 1;
    }
    assert_eq!(checked, 200);
}

#[test]
fn printable_text_comes_back() {
    let text = b"fn main() { println!(\"100% 'done'?\\n\"); }\r\n";
    assert_eq!(
        escape(text),
        "fn main() { println!(\\\"100% \\'done\\'\\?\\\\n\\\"); }\\r\\n"
    );
    assert_eq!(unescape(&escape(text)), Ok(text.to_vec()));
}

#[test]
fn a_digit_behind_a_hex_escape_is_read_as_part_of_it() {
    assert_eq!(escape(&[0x07, 0x41]), "\\x7A");
    assert_eq!(unescape("\\x7A"), Ok(vec![0x7a]));
    assert_eq!(unescape(&escape(&[0x07, 0x41])), Ok(vec![0x7a]));
    assert_eq!(escape(&[0x80, b'0']), "\\x800");
    assert_eq!(
        unescape(&escape(&[0x80, b'0'])),
        Err(cescape::UnescapeError::Overflow(0))
    );
    assert_eq!(unescape(&escape(&[0x00, b'g'])), Ok(vec![0x00, b'g']));
}

#[test]
fn escaping_twice_is_not_escaping_once() {
    let once = escape(b"a\\b");
    let twice = escape(once.as_bytes());
    assert_eq!(once, "a\\\\b");
    assert_eq!(twice, "a\\\\\\\\b");
    assert_ne!(once, twice);
    let once = escape(&[0x01]);
    let twice = escape(once.as_bytes());
    assert_eq!(once, "\\x1");
    assert_eq!(twice, "\\\\x1");
    assert_eq!(unescape(&twice), Ok(once.as_bytes().to_vec()));
}

#[test]
fn escaping_twice_changes_nothing_where_nothing_is_escaped() {
    let once = escape(b"plain text, 123");
    assert_eq!(once, "plain text, 123");
    assert_eq!(escape(once.as_bytes()), once);
}

#[test]
fn unescape_reads_more_than_escape_writes() {
    assert_eq!(unescape("\\101\\u0042\\x43\\t"), Ok(b"ABC\t".to_vec()));
    assert_eq!(escape(b"ABC\t"), "ABC\\x9");
}

#[test]
fn escaping_twice_is_escaping_once_only_for_plain_bytes() {
    for a in 0..=255u8 {
        for b in [b'a', b'\\', b'\n', 0x00, 0xff, b'?', b' '] {
            let bytes = [a, b];
            let plain = bytes
                .iter()
                .all(|&c| (0x20..0x7f).contains(&c) && !b"\\'\"?".contains(&c));
            let once = escape(&bytes);
            let twice = escape(once.as_bytes());
            assert_eq!(once == twice, plain);
            assert_eq!(unescape(&twice), Ok(once.as_bytes().to_vec()));
        }
    }
}
