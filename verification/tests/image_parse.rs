use mscrw::image::parse;

fn exif_payload() -> Vec<u8> {
    let mut p: Vec<u8> = Vec::new();
    p.extend_from_slice(b"Exif\0\0");
    p.extend_from_slice(b"II");
    p.extend_from_slice(&[0x2A, 0x00, 0x08, 0x00, 0x00, 0x00]);
    p.extend_from_slice(&[0x03, 0x00]);
    // Make: ASCII, 6 bytes at offset 48 from the TIFF header (54 in the block)
    p.extend_from_slice(&[0x0F, 0x01, 0x02, 0x00, 0x06, 0x00, 0x00, 0x00, 48, 0x00, 0x00, 0x00]);
    // Orientation: SHORT 6
    p.extend_from_slice(&[0x12, 0x01, 0x03, 0x00, 0x01, 0x00, 0x00, 0x00, 0x06, 0x00, 0x00, 0x00]);
    // GPSInfo pointer
    p.extend_from_slice(&[0x25, 0x88, 0x04, 0x00, 0x01, 0x00, 0x00, 0x00, 0x10, 0x00, 0x00, 0x00]);
    p.extend_from_slice(&[0x00, 0x00]);
    p.extend_from_slice(b"Canon\0");
    assert_eq!(p.len(), 60);
    p
}

fn sof0(height: u16, width: u16) -> Vec<u8> {
    let mut s = vec![0xFF, 0xC0, 0x00, 0x11, 0x08];
    s.extend_from_slice(&height.to_be_bytes());
    s.extend_from_slice(&width.to_be_bytes());
    s.extend_from_slice(&[0x03, 1, 0x22, 0, 2, 0x11, 1, 3, 0x11, 1]);
    s
}

fn sos_and_scan() -> Vec<u8> {
    vec![0xFF, 0xDA, 0x00, 0x08, 0x01, 0x01, 0x00, 0x00, 0x3F, 0x00, 0x12, 0x34, 0xFF, 0x00, 0x56, 0xFF, 0xD9]
}

fn sample_jpeg() -> Vec<u8> {
    let mut j = vec![0xFF, 0xD8, 0xFF, 0xE1, 0x00, 62];
    j.extend_from_slice(&exif_payload());
    j.extend_from_slice(&sof0(480, 640));
    j.extend_from_slice(&sos_and_scan());
    j
}

#[test]
fn jpeg_with_exif_reports_size_and_camera() {
    let j = sample_jpeg();
    let m = parse(Some(&j)).expect("jpeg");
    assert_eq!(m.format, "jpeg");
    assert_eq!(m.width, 640);
    assert_eq!(m.height, 480);
    assert_eq!(m.camera_make.as_deref(), Some("Canon"));
    assert_eq!(m.camera_model, None);
    assert_eq!(m.orientation, Some(6));
    assert_eq!(m.has_gps, Some(true));
}

#[test]
fn jpeg_big_endian_exif() {
    let mut p: Vec<u8> = Vec::new();
    p.extend_from_slice(b"Exif\0\0MM");
    p.extend_from_slice(&[0x00, 0x2A, 0x00, 0x00, 0x00, 0x08]);
    p.extend_from_slice(&[0x00, 0x03]);
    // Make: 6 bytes at TIFF offset 0x32
    p.extend_from_slice(&[0x01, 0x0F, 0x00, 0x02, 0x00, 0x00, 0x00, 0x06, 0x00, 0x00, 0x00, 0x32]);
    // Model: 4 bytes, held in the entry itself
    p.extend_from_slice(&[0x01, 0x10, 0x00, 0x02, 0x00, 0x00, 0x00, 0x04, b'X', b'1', b'0', b'0']);
    p.extend_from_slice(&[0x01, 0x12, 0x00, 0x03, 0x00, 0x00, 0x00, 0x01, 0x00, 0x03, 0x00, 0x00]);
    p.extend_from_slice(&[0x00, 0x00, 0x00, 0x00]);
    p.extend_from_slice(b"Apple\0");
    assert_eq!(p.len(), 62);
    let mut j = vec![0xFF, 0xD8, 0xFF, 0xE1, 0x00, 64];
    j.extend_from_slice(&p);
    j.extend_from_slice(&sof0(10, 20));
    let m = parse(Some(&j)).expect("jpeg");
    assert_eq!((m.width, m.height), (20, 10));
    assert_eq!(m.camera_make.as_deref(), Some("Apple"));
    assert_eq!(m.camera_model.as_deref(), Some("X100"));
    assert_eq!(m.orientation, Some(3));
    assert_eq!(m.has_gps, None);
}

#[test]
fn exif_make_offset_counts_from_the_tiff_header() {
    let block = b"Exif\x00\x00MM\x00\x2a\x00\x00\x00\x08\x00\x01\x01\x0f\x00\x02\x00\x00\x00\x06\x00\x00\x00\x1a\x00\x00\x00\x00Apple\x00";
    let mut j = vec![0xFF, 0xD8, 0xFF, 0xE1, 0x00, (block.len() + 2) as u8];
    j.extend_from_slice(block);
    j.extend_from_slice(&sof0(3, 4));
    let m = parse(Some(&j)).expect("jpeg");
    assert_eq!(m.camera_make.as_deref(), Some("Apple"));
    assert_eq!(m.camera_model, None);
}

#[test]
fn exif_text_reads_only_its_count() {
    let mut p = exif_payload();
    // "CanonX", of which the entry counts five bytes
    p[59] = b'X';
    p[20] = 5;
    let mut j = vec![0xFF, 0xD8, 0xFF, 0xE1, 0x00, 62];
    j.extend_from_slice(&p);
    j.extend_from_slice(&sof0(1, 1));
    let m = parse(Some(&j)).expect("jpeg");
    assert_eq!(m.camera_make.as_deref(), Some("Canon"));
}

#[test]
fn exif_text_outside_the_block_is_dropped() {
    let mut p = exif_payload();
    p[24] = 200;
    let mut j = vec![0xFF, 0xD8, 0xFF, 0xE1, 0x00, 62];
    j.extend_from_slice(&p);
    j.extend_from_slice(&sof0(1, 1));
    let m = parse(Some(&j)).expect("jpeg");
    assert_eq!(m.camera_make, None);
}

#[test]
fn jpeg_exif_text_that_is_not_utf8_is_dropped() {
    let mut p = exif_payload();
    p[54] = 0xFF;
    let mut j = vec![0xFF, 0xD8, 0xFF, 0xE1, 0x00, 62];
    j.extend_from_slice(&p);
    j.extend_from_slice(&sof0(1, 1));
    let m = parse(Some(&j)).expect("jpeg");
    assert_eq!(m.camera_make, None);
}

#[test]
fn jpeg_without_frame_has_no_report() {
    let j = vec![0xFF, 0xD8, 0xFF, 0xE0, 0x00, 0x04, 0x00, 0x00, 0xFF, 0xD9];
    assert!(parse(Some(&j)).is_none());
}

#[test]
fn jpeg_with_other_first_marker_is_read() {
    let mut j = vec![0xFF, 0xD8];
    j.extend_from_slice(&sof0(8, 9));
    let m = parse(Some(&j)).expect("jpeg");
    assert_eq!((m.width, m.height), (9, 8));
    let dqt_first = b"\xff\xd8\xff\xdb\x00\x04\x00\x00\xff\xc0\x00\x07\x08\x00\x10\x00\x20\xff\xd9";
    let m = parse(Some(dqt_first)).expect("jpeg");
    assert_eq!(m.format, "jpeg");
    assert_eq!((m.width, m.height), (32, 16));
    assert_eq!((m.orientation, m.camera_make, m.camera_model, m.has_gps), (None, None, None, None));
}

#[test]
fn png_header() {
    let mut d = b"\x89PNG\r\n\x1a\n".to_vec();
    d.extend_from_slice(&[0, 0, 0, 13]);
    d.extend_from_slice(b"IHDR");
    d.extend_from_slice(&1920u32.to_be_bytes());
    d.extend_from_slice(&1080u32.to_be_bytes());
    d.extend_from_slice(&[8, 6, 0, 0, 0, 0, 0, 0, 0]);
    let m = parse(Some(&d)).expect("png");
    assert_eq!(m.format, "png");
    assert_eq!((m.width, m.height), (1920, 1080));
    assert_eq!(m.orientation, None);
    d[11] = 12;
    assert!(parse(Some(&d)).is_none());
}

#[test]
fn png_too_short() {
    let d = b"\x89PNG\r\n\x1a\n\0\0\0\x0dIHDR".to_vec();
    assert!(parse(Some(&d)).is_none());
}

#[test]
fn gif_screen_size() {
    let d = b"GIF89a\x40\x01\xf0\x00".to_vec();
    let m = parse(Some(&d)).expect("gif");
    assert_eq!(m.format, "gif");
    assert_eq!((m.width, m.height), (320, 240));
    let z = b"GIF87a\x00\x00\xf0\x00".to_vec();
    assert!(parse(Some(&z)).is_none());
    let other = b"GIF8xa\x40\x01\xf0\x00".to_vec();
    assert!(parse(Some(&other)).is_none());
}

fn bmp(width: u32, height: u32) -> Vec<u8> {
    let mut d = b"BM".to_vec();
    d.extend_from_slice(&[0u8; 16]);
    d.extend_from_slice(&width.to_le_bytes());
    d.extend_from_slice(&height.to_le_bytes());
    d
}

#[test]
fn bmp_top_down_height() {
    let m = parse(Some(&bmp(100, (-50i32) as u32))).expect("bmp");
    assert_eq!(m.format, "bmp");
    assert_eq!((m.width, m.height), (100, 50));
    let m = parse(Some(&bmp(7, 0x8000_0000))).expect("bmp");
    assert_eq!(m.height, 0x8000_0000);
    assert!(parse(Some(&bmp(0, 5))).is_none());
    assert!(parse(Some(b"BM")).is_none());
}

fn riff(kind: &[u8; 4], size: u32, body: &[u8]) -> Vec<u8> {
    let mut d = b"RIFF".to_vec();
    d.extend_from_slice(&size.to_le_bytes());
    d.extend_from_slice(b"WEBP");
    d.extend_from_slice(kind);
    d.extend_from_slice(body);
    while d.len() < 30 {
        d.push(0);
    }
    d
}

#[test]
fn webp_lossy() {
    let mut body = [0u8; 18];
    body[7..10].copy_from_slice(&[0x9D, 0x01, 0x2A]); // start code
    body[10] = 0x90;
    body[11] = 0x41; // width 0x4190 & 0x3FFF = 400
    body[12] = 0x2C;
    body[13] = 0x01; // height 300
    let d = riff(b"VP8 ", 22, &body);
    let m = parse(Some(&d)).expect("webp");
    assert_eq!(m.format, "webp");
    assert_eq!((m.width, m.height), (400, 300));
}

#[test]
fn webp_lossless() {
    // 14-bit fields minus one: width 100, height 200
    let bits: u32 = 99 | (199 << 14);
    let mut body = [0u8; 18];
    body[5..9].copy_from_slice(&bits.to_le_bytes());
    let d = riff(b"VP8L", 22, &body);
    let m = parse(Some(&d)).expect("webp");
    assert_eq!((m.width, m.height), (100, 200));
}

#[test]
fn webp_extended() {
    let mut body = [0u8; 18];
    body[8..11].copy_from_slice(&[0xFF, 0x0F, 0x00]); // 4095 + 1
    body[11..14].copy_from_slice(&[0x00, 0x00, 0x01]); // 65536 + 1
    let d = riff(b"VP8X", 22, &body);
    let m = parse(Some(&d)).expect("webp");
    assert_eq!((m.width, m.height), (4096, 65537));
    let canvas = b"RIFF\x16\x00\x00\x00WEBPVP8X\x0a\x00\x00\x00\x00\x00\x00\x00\x3f\x00\x00\x1f\x00\x00";
    let m = parse(Some(canvas)).expect("webp");
    assert_eq!(m.format, "webp");
    assert_eq!((m.width, m.height), (64, 32));
}

#[test]
fn webp_declared_size_too_large() {
    let body = [0u8; 18];
    let d = riff(b"VP8X", 27, &body);
    assert!(parse(Some(&d)).is_none());
    let d = riff(b"ABCD", 10, &body);
    assert!(parse(Some(&d)).is_none());
}

#[test]
fn no_data_no_report() {
    assert!(parse(None).is_none());
    assert!(parse(Some(&[])).is_none());
    assert!(parse(Some(b"hello world")).is_none());
}
