use firstaide::bash::{escape, escape_into, EscapeAs};

#[test]
fn test_lowercase_ascii() {
    assert_eq!(
        escape("abcdefghijklmnopqrstuvwxyz".as_bytes()),
        "abcdefghijklmnopqrstuvwxyz".as_bytes()
    );
}

#[test]
fn test_uppercase_ascii() {
    assert_eq!(
        escape("ABCDEFGHIJKLMNOPQRSTUVWXYZ".as_bytes()),
        "ABCDEFGHIJKLMNOPQRSTUVWXYZ".as_bytes()
    );
}

#[test]
fn test_numbers() {
    assert_eq!(escape("0123456789".as_bytes()), "0123456789".as_bytes());
}

#[test]
fn test_punctuation() {
    assert_eq!(escape("-_=/,.+".as_bytes()), "$'-_=/,.+'".as_bytes());
}

#[test]
fn test_basic_escapes() {
    assert_eq!(
        escape(r#"woo"wah""#.as_bytes()),
        r#"$'woo"wah"'"#.as_bytes()
    );
}

#[test]
#[allow(non_snake_case)]
fn test_control_characters() {
    assert_eq!(escape("\x07".as_bytes()), "$'\\a'".as_bytes());
    assert_eq!(escape("\x00".as_bytes()), "$'\\x00'".as_bytes());
    assert_eq!(escape("\x06".as_bytes()), "$'\\x06'".as_bytes());
    assert_eq!(escape("\x7F".as_bytes()), "$'\\x7F'".as_bytes());
}

#[test]
fn test_escape_into_plain() {
    let mut buffer = Vec::new();
    escape_into("hello".as_bytes(), &mut buffer);
    assert_eq!(buffer, b"hello");
}

#[test]
fn test_escape_into_with_escapes() {
    let mut buffer = Vec::new();
    escape_into("-_=/,.+".as_bytes(), &mut buffer);
    assert_eq!(buffer, b"$'-_=/,.+'");
}

#[test]
fn escape_leaves_safe_bytes_alone() {
    assert_eq!(escape(b"abcXYZ019_-./,"), b"abcXYZ019_-./,");
    assert_eq!(escape(b""), b"");
}

#[test]
fn escape_wraps_a_space() {
    assert_eq!(escape(b"a b"), b"$'a b'");
}

#[test]
fn escape_names_the_control_bytes() {
    assert_eq!(
        escape(b"\x07\x08\x1b\x0c\n\r\t\x0b\\'"),
        b"$'\\a\\b\\e\\f\\n\\r\\t\\v\\\\\\''"
    );
}

#[test]
fn escape_writes_other_bytes_by_value() {
    assert_eq!(escape(&[0x01]), b"$'\\x01'");
    assert_eq!(escape(&[0x1a, 0x1c, 0x1f]), b"$'\\x1A\\x1C\\x1F'");
    assert_eq!(escape(&[0x80, 0xab, 0xff]), b"$'\\x80\\xAB\\xFF'");
    assert_eq!(escape(&[b'a', 0xc3, 0xa9, b'z']), b"$'a\\xC3\\xA9z'");
}

#[test]
fn escape_quotes_shell_punctuation() {
    let special = b"|&;()<> ?[]{}`~!$@+=*\"%#:^";
    let mut expected = b"$'".to_vec();
    expected.extend_from_slice(special);
    expected.push(b'\'');
    assert_eq!(escape(special), expected);
}

#[test]
fn escape_into_appends() {
    let mut buffer = b"export K=".to_vec();
    escape_into(b"a b", &mut buffer);
    escape_into(b"c", &mut buffer);
    assert_eq!(buffer, b"export K=$'a b'c");
}

fn unquote(word: &[u8]) -> Vec<u8> {
    if !word.starts_with(b"$'") {
        return word.to_vec();
    }
    let body = &word[2..word.len() - 1];
    let mut out = Vec::new();
    let mut i = 0;
    while i < body.len() {
        if body[i] != b'\\' {
            out.push(body[i]);
            i += 1;
            continue;
        }
        let (byte, used) = match body[i + 1] {
            b'a' => (0x07, 2),
            b'b' => (0x08, 2),
            b'e' => (0x1b, 2),
            b'f' => (0x0c, 2),
            b'n' => (0x0a, 2),
            b'r' => (0x0d, 2),
            b't' => (0x09, 2),
            b'v' => (0x0b, 2),
            b'\\' => (b'\\', 2),
            b'\'' => (b'\'', 2),
            b'x' => {
                let hex = std::str::from_utf8(&body[i + 2..i + 4]).unwrap();
                (u8::from_str_radix(hex, 16).unwrap(), 4)
            }
            other => panic!("unknown escape {}", other),
        };
        out.push(byte);
        i += used;
    }
    out
}

#[test]
fn escape_round_trips_every_byte() {
    for byte in 0..=255u8 {
        assert_eq!(unquote(&escape(&[byte])), vec![byte]);
        assert_eq!(unquote(&escape(&[b'a', byte, b'\''])), vec![b'a', byte, b'\'']);
    }
    let all: Vec<u8> = (0..=255u8).collect();
    assert_eq!(unquote(&escape(&all)), all);
}

#[test]
fn classes_cover_every_byte_once() {
    assert_eq!(EscapeAs::from(b'a'), EscapeAs::Literal(b'a'));
    assert_eq!(EscapeAs::from(b'-'), EscapeAs::Literal(b'-'));
    assert_eq!(EscapeAs::from(b' '), EscapeAs::Quoted(b' '));
    assert_eq!(EscapeAs::from(b'~'), EscapeAs::Quoted(b'~'));
    assert_eq!(EscapeAs::from(0x07), EscapeAs::Bell);
    assert_eq!(EscapeAs::from(b'\\'), EscapeAs::Backslash);
    assert_eq!(EscapeAs::from(b'\''), EscapeAs::SingleQuote);
    assert_eq!(EscapeAs::from(0x7f), EscapeAs::ByValue(0x7f));
    assert_eq!(EscapeAs::from(0x00), EscapeAs::ByValue(0x00));
    assert_eq!(EscapeAs::from(0x80), EscapeAs::ByValue(0x80));
    assert!(EscapeAs::Literal(b'a').is_literal());
    assert!(!EscapeAs::Quoted(b' ').is_literal());
    assert_eq!(EscapeAs::Literal(b'a').size(), 1);
    assert_eq!(EscapeAs::Quoted(b' ').size(), 1);
    assert_eq!(EscapeAs::NewLine.size(), 2);
    assert_eq!(EscapeAs::ByValue(0).size(), 4);
}
