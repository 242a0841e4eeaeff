use tableizer::encoding::{decode_field, for_bom, transcode, TextEncoding};

#[test]
fn marks_announce_encodings() {
    assert_eq!(for_bom(b"\xEF\xBB\xBFa"), Some(TextEncoding::Utf8));
    assert_eq!(for_bom(b"\xFF\xFEa\x00"), Some(TextEncoding::Utf16Le));
    assert_eq!(for_bom(b"\xFE\xFF\x00a"), Some(TextEncoding::Utf16Be));
    assert_eq!(for_bom(b"\xEF\xBB"), None);
    assert_eq!(for_bom(b""), None);
}

#[test]
fn only_utf16_is_transcoded() {
    assert_eq!(transcode(b"\xFE\xFF\x00a\x20\xAC").as_deref(), Some("a€".as_bytes()));
    assert_eq!(transcode(b"\xFF\xFEa\x00\xAC\x20").as_deref(), Some("a€".as_bytes()));
    assert_eq!(transcode(b"\xEF\xBB\xBFa"), None);
    assert_eq!(transcode(b"a,b\n"), None);
}

#[test]
fn malformed_text_is_replaced() {
    assert_eq!(decode_field(b"a\xFFb", TextEncoding::Utf8), "a\u{fffd}b");
    assert_eq!(decode_field("größe".as_bytes(), TextEncoding::Utf8), "größe");
}

#[test]
fn single_bytes_are_characters_in_windows_1252() {
    for byte in (0u8..0x80).chain(0xa0..=0xff) {
        assert_eq!(
            decode_field(&[byte], TextEncoding::Windows1252),
            char::from(byte).to_string(),
            "{byte:02x}"
        );
    }
    let others: Vec<u8> = (0x80..0xa0).collect();
    assert_eq!(
        decode_field(&others, TextEncoding::Windows1252),
        "€\u{81}‚ƒ„…†‡ˆ‰Š‹Œ\u{8d}Ž\u{8f}\u{90}‘’“”•–—˜™š›œ\u{9d}žŸ"
    );
}

#[test]
fn a_mark_overrules_the_encoding() {
    assert_eq!(decode_field(b"\xEF\xBB\xBF\xC3\xA9", TextEncoding::Windows1252), "é");
    assert_eq!(decode_field("\u{feff}\u{feff}x".as_bytes(), TextEncoding::Utf8), "x");
}

#[test]
fn encodings_have_names() {
    let names: Vec<&str> = TextEncoding::CHOICES.iter().map(|e| e.name()).collect();
    assert_eq!(names, vec!["UTF-8", "windows-1252"]);
    assert_eq!(TextEncoding::Utf16Le.name(), "UTF-16LE");
    assert_eq!(TextEncoding::Utf16Be.name(), "UTF-16BE");
}
