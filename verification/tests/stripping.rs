use mscrw::gif::{gif_strip_fails, strip_gif};
use mscrw::image::parse;
use mscrw::names::{strip_format, strip_format_for, StripFormat};
use mscrw::strip::{strip_contents, strip_jpeg, strip_png, strip_text};

fn jpeg_with_exif_and_comment() -> Vec<u8> {
    let mut j = vec![0xFF, 0xD8];
    // APP0 (JFIF), kept
    j.extend_from_slice(&[0xFF, 0xE0, 0x00, 0x07, b'J', b'F', b'I', b'F', 0x00]);
    // APP1 (EXIF), dropped
    j.extend_from_slice(&[0xFF, 0xE1, 0x00, 0x08, b'E', b'x', b'i', b'f', 0x00, 0x00]);
    // COM, dropped
    j.extend_from_slice(&[0xFF, 0xFE, 0x00, 0x05, b'h', b'i', b'!']);
    // DQT, kept
    j.extend_from_slice(&[0xFF, 0xDB, 0x00, 0x03, 0x07]);
    // SOF0, kept
    j.extend_from_slice(&[0xFF, 0xC0, 0x00, 0x0B, 0x08, 0x00, 0x10, 0x00, 0x20, 0x01, 0x01, 0x11, 0x00]);
    // SOS, kept, then scan data up to EOI, then trailing junk
    j.extend_from_slice(&[0xFF, 0xDA, 0x00, 0x04, 0x01, 0x00]);
    j.extend_from_slice(&[0x11, 0xFF, 0x00, 0x22, 0xFF, 0xD9, 0x99, 0x98]);
    j
}

#[test]
fn jpeg_metadata_segments_are_dropped() {
    let j = jpeg_with_exif_and_comment();
    let out = strip_jpeg(&j).expect("changed");
    let mut want = vec![0xFF, 0xD8];
    want.extend_from_slice(&[0xFF, 0xE0, 0x00, 0x07, b'J', b'F', b'I', b'F', 0x00]);
    want.extend_from_slice(&[0xFF, 0xDB, 0x00, 0x03, 0x07]);
    want.extend_from_slice(&[0xFF, 0xC0, 0x00, 0x0B, 0x08, 0x00, 0x10, 0x00, 0x20, 0x01, 0x01, 0x11, 0x00]);
    want.extend_from_slice(&[0xFF, 0xDA, 0x00, 0x04, 0x01, 0x00]);
    want.extend_from_slice(&[0x11, 0xFF, 0x00, 0x22, 0xFF, 0xD9]);
    assert_eq!(out, want);
    let m = parse(Some(&out)).expect("still a jpeg");
    assert_eq!((m.width, m.height), (32, 16));
}

#[test]
fn jpeg_stripping_twice_changes_nothing() {
    let j = jpeg_with_exif_and_comment();
    let out = strip_jpeg(&j).expect("changed");
    assert_eq!(strip_jpeg(&out), None);
}

#[test]
fn jpeg_scan_without_eoi_is_copied_to_the_end() {
    let mut j = vec![0xFF, 0xD8];
    j.extend_from_slice(&[0xFF, 0xE2, 0x00, 0x02]);
    j.extend_from_slice(&[0xFF, 0xDA, 0x00, 0x02, 0x01, 0x02, 0x03]);
    let out = strip_jpeg(&j).expect("changed");
    assert_eq!(out, vec![0xFF, 0xD8, 0xFF, 0xDA, 0x00, 0x02, 0x01, 0x02, 0x03]);
}

#[test]
fn jpeg_with_nothing_to_drop() {
    let j = vec![0xFF, 0xD8, 0xFF, 0xDB, 0x00, 0x03, 0x07, 0xFF, 0xD9];
    assert_eq!(strip_jpeg(&j), None);
    assert_eq!(strip_jpeg(&[0xFF]), None);
    assert_eq!(strip_jpeg(b"not a jpeg"), None);
}

fn chunk(kind: &[u8; 4], body: &[u8]) -> Vec<u8> {
    let mut c = (body.len() as u32).to_be_bytes().to_vec();
    c.extend_from_slice(kind);
    c.extend_from_slice(body);
    c.extend_from_slice(&[1, 2, 3, 4]);
    c
}

fn png_with_text() -> (Vec<u8>, Vec<u8>) {
    let mut ihdr_body = 64u32.to_be_bytes().to_vec();
    ihdr_body.extend_from_slice(&48u32.to_be_bytes());
    ihdr_body.extend_from_slice(&[8, 2, 0, 0, 0]);
    let sig = b"\x89PNG\r\n\x1a\n".to_vec();
    let ihdr = chunk(b"IHDR", &ihdr_body);
    let text = chunk(b"tEXt", b"Author\0me");
    let idat = chunk(b"IDAT", &[9, 9, 9]);
    let iend = chunk(b"IEND", &[]);
    let mut full = sig.clone();
    for c in [&ihdr, &text, &idat, &iend] {
        full.extend_from_slice(c);
    }
    full.extend_from_slice(b"after the end");
    let mut kept = sig;
    for c in [&ihdr, &idat, &iend] {
        kept.extend_from_slice(c);
    }
    (full, kept)
}

#[test]
fn png_ancillary_chunks_are_dropped() {
    let (full, kept) = png_with_text();
    assert_eq!(strip_png(&full), Some(kept));
}

#[test]
fn png_stripping_twice_changes_nothing() {
    let (full, _) = png_with_text();
    let out = strip_png(&full).unwrap();
    assert_eq!(strip_png(&out), None);
}

#[test]
fn png_stripping_keeps_the_report() {
    let (full, _) = png_with_text();
    let out = strip_png(&full).unwrap();
    let a = parse(Some(&full)).unwrap();
    let b = parse(Some(&out)).unwrap();
    assert_eq!((a.format.as_str(), a.width, a.height), (b.format.as_str(), b.width, b.height));
    assert_eq!((b.width, b.height), (64, 48));
}

#[test]
fn png_cut_chunk_ends_the_walk() {
    let (full, _) = png_with_text();
    let mut cut = full[..8 + 25].to_vec();
    cut.extend_from_slice(&[0, 0, 1, 0, b't', b'E', b'X', b't', 1, 2, 3, 4]);
    assert_eq!(strip_png(&cut), None);
    assert_eq!(strip_png(b"\x89PNG"), None);
}

fn gif_parts() -> (Vec<u8>, Vec<u8>, Vec<u8>, Vec<u8>) {
    let mut head = b"GIF89a".to_vec();
    head.extend_from_slice(&[0x20, 0x00, 0x10, 0x00, 0x80, 0x00, 0x00]);
    head.extend_from_slice(&[0, 0, 0, 255, 255, 255]);
    let gce = vec![0x21, 0xF9, 0x04, 0x00, 0x0A, 0x00, 0x00, 0x00];
    let comment = vec![0x21, 0xFE, 0x03, b'a', b'b', b'c', 0x00];
    let mut image = vec![0x2C, 0, 0, 0, 0, 0x20, 0, 0x10, 0, 0x00];
    image.extend_from_slice(&[0x02, 0x02, 0x44, 0x01, 0x00]);
    (head, gce, comment, image)
}

#[test]
fn gif_comment_is_dropped() {
    let (head, gce, comment, image) = gif_parts();
    let mut full = head.clone();
    for p in [&comment, &gce, &image] {
        full.extend_from_slice(p);
    }
    full.push(0x3B);
    full.extend_from_slice(b"junk");
    let mut want = head;
    for p in [&gce, &image] {
        want.extend_from_slice(p);
    }
    want.push(0x3B);
    assert!(!gif_strip_fails(&full));
    assert_eq!(strip_gif(&full), Some(want.clone()));
    assert!(!gif_strip_fails(&want));
    assert_eq!(strip_gif(&want), None);
    let a = parse(Some(&full)).unwrap();
    let b = parse(Some(&want)).unwrap();
    assert_eq!((a.width, a.height), (b.width, b.height));
    assert_eq!((b.width, b.height), (32, 16));
}

#[test]
fn gif_strip_cannot_be_carried_out() {
    assert!(gif_strip_fails(b"GIF89a\x01\x00\x01\x00\x00\x00"));
    let (head, _, _, _) = gif_parts();
    let mut cut = head;
    cut.extend_from_slice(&[0x21, 0xF9, 0x04, 0x00, 0x0A]);
    assert!(gif_strip_fails(&cut));
    assert!(!gif_strip_fails(b"GIF8"));
    assert_eq!(strip_gif(b"GIF8"), None);
}

#[test]
fn gif_colour_table_past_the_end() {
    let mut g = b"GIF87a".to_vec();
    g.extend_from_slice(&[1, 0, 1, 0, 0x87, 0, 0]);
    g.extend_from_slice(&[0u8; 100]);
    assert!(!gif_strip_fails(&g));
    assert_eq!(strip_gif(&g), None);
}

#[test]
fn text_bom_and_line_endings() {
    assert_eq!(strip_text(b"\xEF\xBB\xBFa\r\nb\rc\n"), Some(b"a\nb\nc\n".to_vec()));
    assert_eq!(strip_text(b"a\nb\n"), None);
    assert_eq!(strip_text(b"\xEF\xBB\xBF"), Some(Vec::new()));
    assert_eq!(strip_text(b"\r\r\n\n"), Some(b"\n\n\n".to_vec()));
    assert_eq!(strip_text(b""), None);
}

#[test]
fn text_stripping_twice_changes_nothing() {
    let once = strip_text(b"x\r\ny\r").unwrap();
    assert_eq!(once, b"x\ny\n".to_vec());
    assert_eq!(strip_text(&once), None);
    // a second byte-order mark survives the first pass
    let twice = strip_text(b"\xEF\xBB\xBF\xEF\xBB\xBFz").unwrap();
    assert_eq!(twice, b"\xEF\xBB\xBFz".to_vec());
    assert_eq!(strip_text(&twice), Some(b"z".to_vec()));
}

#[test]
fn choosing_the_stripper() {
    assert_eq!(strip_format(".jpg"), Some(StripFormat::Jpeg));
    assert_eq!(strip_format(".jpeg"), Some(StripFormat::Jpeg));
    assert_eq!(strip_format(".png"), Some(StripFormat::Png));
    assert_eq!(strip_format(".gif"), Some(StripFormat::Gif));
    assert_eq!(strip_format(".java"), Some(StripFormat::Text));
    assert_eq!(strip_format(".ts"), None);
    assert_eq!(strip_format(".JPG"), None);
    assert_eq!(strip_format_for(".JPG"), Some(StripFormat::Jpeg));
    assert_eq!(strip_format_for(".Md"), Some(StripFormat::Text));
    assert_eq!(strip_format_for(".bmp"), None);
}

#[test]
fn strip_contents_reports_only_changes() {
    assert_eq!(strip_contents(b"a\r\n", StripFormat::Text), Some(b"a\n".to_vec()));
    assert_eq!(strip_contents(b"a\n", StripFormat::Text), None);
    let (full, kept) = png_with_text();
    assert_eq!(strip_contents(&full, StripFormat::Png), Some(kept));
    assert_eq!(strip_contents(&full, StripFormat::Jpeg), None);
}

#[test]
fn jpeg_with_exif_first_is_still_read_after_stripping() {
    let mut j = vec![0xFF, 0xD8];
    j.extend_from_slice(&[0xFF, 0xE1, 0x00, 0x08, b'E', b'x', b'i', b'f', 0x00, 0x00]);
    j.extend_from_slice(&[0xFF, 0xC0, 0x00, 0x0B, 0x08, 0x00, 0x10, 0x00, 0x20, 0x01, 0x01, 0x11, 0x00]);
    let out = strip_jpeg(&j).expect("changed");
    assert!(out.len() < j.len());
    let m = parse(Some(&out)).expect("jpeg");
    assert_eq!((m.width, m.height), (32, 16));
}

#[test]
fn gif_strip_makes_the_data_shorter() {
    let (head, _, comment, image) = gif_parts();
    let mut full = head.clone();
    full.extend_from_slice(&image);
    full.extend_from_slice(&comment);
    full.push(0x3B);
    let out = strip_gif(&full).expect("changed");
    assert!(out.len() < full.len());
    assert_eq!(out[..13], full[..13]);
}
