use datavalue::simd::find_string_terminator;

#[test]
fn empty() {
    assert_eq!(find_string_terminator(b""), None);
}

#[test]
fn no_terminator() {
    let s = b"abcdefghijklmnopqrstuvwxyz0123456789";
    assert_eq!(find_string_terminator(s), None);
}

#[test]
fn first_byte_quote() {
    assert_eq!(find_string_terminator(b"\"abc"), Some(0));
}

#[test]
fn quote_after_long_run() {
    // 30 safe bytes then a quote: several full words, then the hit.
    let mut s = vec![b'x'; 30];
    s.push(b'"');
    s.push(b'y');
    assert_eq!(find_string_terminator(&s), Some(30));
}

#[test]
fn backslash_in_tail() {
    // 19 safe bytes (two full words and three tail bytes), then a backslash.
    let mut s = vec![b'x'; 19];
    s.push(b'\\');
    assert_eq!(find_string_terminator(&s), Some(19));
}

#[test]
fn every_control_byte_at_window_boundary() {
    // Each control byte 0x00..=0x1F after 16 safe bytes.
    for ctl in 0u8..0x20 {
        let mut s = vec![b'x'; 16];
        s.push(ctl);
        s.push(b'y');
        assert_eq!(
            find_string_terminator(&s),
            Some(16),
            "control byte 0x{ctl:02x} missed",
        );
    }
}

#[test]
fn high_bit_bytes_are_safe() {
    // Bytes of multi-byte UTF-8 characters (>= 0x80) are never flagged.
    let s: Vec<u8> = (0x80u8..=0xFFu8).collect();
    assert_eq!(find_string_terminator(&s), None);
}

#[test]
fn multibyte_utf8_safe() {
    let s = "café and more text past the SIMD window";
    assert_eq!(find_string_terminator(s.as_bytes()), None);
}

#[test]
fn doc_examples() {
    assert_eq!(find_string_terminator(b"hello\"world"), Some(5));
    assert_eq!(find_string_terminator(b"hello world"), None);
    assert_eq!(find_string_terminator("café".as_bytes()), None);
}

#[test]
fn terminator_at_each_word_offset() {
    // The first special byte at every offset of the first two words, with
    // later special bytes that must not win.
    for pos in 0..16usize {
        for special in [b'"', b'\\', 0x00u8, 0x1F] {
            let mut s = vec![b'a'; 24];
            s[pos] = special;
            s[20] = b'"';
            assert_eq!(find_string_terminator(&s), Some(pos));
        }
    }
}

#[test]
fn bytes_just_outside_the_classes_are_safe() {
    // 0x20, 0x21, 0x23, 0x5B, 0x5D and 0x7F sit next to the special bytes.
    let s = [0x20u8, 0x21, 0x23, 0x5B, 0x5D, 0x7F, 0x20, 0x21, 0x23, 0x5B];
    assert_eq!(find_string_terminator(&s), None);
}
