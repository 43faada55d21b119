use mscrw::text::analyze;

#[test]
fn ascii_text_counts() {
    let t = analyze(Some(b"hello world\nsecond line\n")).unwrap();
    assert_eq!(t.lines, 2);
    assert_eq!(t.words, 4);
    assert_eq!(t.characters, 24);
    assert_eq!(t.bytes, 24);
    assert!(t.is_ascii);
    assert!(t.is_utf8);
}

#[test]
fn last_line_without_newline_counts() {
    let t = analyze(Some(b"a\n\nb")).unwrap();
    assert_eq!(t.lines, 3);
    assert_eq!(t.words, 2);
    let t = analyze(Some(b"a\r\nb\r\n")).unwrap();
    assert_eq!(t.lines, 2);
}

#[test]
fn blank_text_has_one_line() {
    let t = analyze(Some(b"\n")).unwrap();
    assert_eq!(t.lines, 1);
    assert_eq!(t.words, 0);
    let t = analyze(Some(b"   ")).unwrap();
    assert_eq!(t.lines, 1);
    assert_eq!(t.words, 0);
    assert_eq!(t.characters, 3);
}

#[test]
fn utf8_text_counts_characters_not_bytes() {
    let s = "größe\u{3000}naïve\tok";
    let t = analyze(Some(s.as_bytes())).unwrap();
    assert_eq!(t.bytes, s.len());
    assert_eq!(t.characters, 14);
    assert_eq!(t.words, 3);
    assert!(!t.is_ascii);
    assert!(t.is_utf8);
    assert_eq!(t.lines, 1);
}

#[test]
fn words_split_at_unicode_white_space() {
    let s = "a\u{a0}b\u{2003}c\u{85}d\u{200b}e";
    let t = analyze(Some(s.as_bytes())).unwrap();
    assert_eq!(t.words, 4);
}

#[test]
fn invalid_utf8_reports_only_bytes() {
    let t = analyze(Some(&[0x61, 0xFF, 0x62])).unwrap();
    assert_eq!((t.lines, t.words, t.characters, t.bytes), (0, 0, 0, 3));
    assert!(!t.is_ascii);
    assert!(!t.is_utf8);
}

#[test]
fn no_or_empty_data() {
    assert!(analyze(None).is_none());
    assert!(analyze(Some(&[])).is_none());
}
