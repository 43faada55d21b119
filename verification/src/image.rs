use vstd::prelude::*;
use vstd::utf8::{decode_utf8, valid_utf8};
use crate::bytes::{
    be16, be32, bytes_at, has_at, le16, le24, le32, read_u16_be, read_u16_le, read_u24_le,
    read_u32_be, read_u32_le,
};
use crate::unicode::{decode_utf8_chars, string_from_chars};

verus! {

/// What the scanner reports about an image: its format, its pixel size, and the few EXIF
/// fields it looks for.
#[derive(Debug, Clone)]
pub struct ImageMeta {
    pub format: String,
    pub width: u32,
    pub height: u32,
    pub orientation: Option<u16>,
    pub camera_make: Option<String>,
    pub camera_model: Option<String>,
    pub has_gps: Option<bool>,
}

/// The mathematical value of an [`ImageMeta`].
pub struct ImageMetaView {
    pub format: Seq<char>,
    pub width: u32,
    pub height: u32,
    pub orientation: Option<u16>,
    pub camera_make: Option<Seq<char>>,
    pub camera_model: Option<Seq<char>>,
    pub has_gps: Option<bool>,
}

/// The characters of an optional string.
pub open spec fn opt_string_view(s: Option<String>) -> Option<Seq<char>> {
    match s {
        Some(x) => Some(x@),
        None => None,
    }
}

impl View for ImageMeta {
    type V = ImageMetaView;

    open spec fn view(&self) -> ImageMetaView {
        ImageMetaView {
            format: self.format@,
            width: self.width,
            height: self.height,
            orientation: self.orientation,
            camera_make: opt_string_view(self.camera_make),
            camera_model: opt_string_view(self.camera_model),
            has_gps: self.has_gps,
        }
    }
}

/// The value of an optional report.
pub open spec fn opt_meta_view(r: Option<ImageMeta>) -> Option<ImageMetaView> {
    match r {
        Some(m) => Some(m@),
        None => None,
    }
}

/// A report with a format and a size and no EXIF fields.
pub open spec fn plain_meta(format: Seq<char>, width: u32, height: u32) -> ImageMetaView {
    ImageMetaView {
        format,
        width,
        height,
        orientation: None,
        camera_make: None,
        camera_model: None,
        has_gps: None,
    }
}

fn plain_image(format: &str, width: u32, height: u32) -> (m: ImageMeta)
    ensures
        m@ == plain_meta(format@, width, height),
{
    ImageMeta {
        format: String::from_str(format),
        width,
        height,
        orientation: None,
        camera_make: None,
        camera_model: None,
        has_gps: None,
    }
}

// ---------------------------------------------------------------------------------------------
// Byte signatures
/// SOI followed by the first byte of the next marker.
pub open spec fn jpeg_magic() -> Seq<u8> {
    seq![0xFFu8, 0xD8, 0xFF]
}

pub open spec fn png_magic() -> Seq<u8> {
    seq![0x89u8, 0x50, 0x4E, 0x47]
}

pub open spec fn png_signature() -> Seq<u8> {
    seq![0x89u8, 0x50, 0x4E, 0x47, 0x0D, 0x0A, 0x1A, 0x0A]
}

pub open spec fn ihdr_tag() -> Seq<u8> {
    seq![0x49u8, 0x48, 0x44, 0x52]
}

pub open spec fn gif_magic() -> Seq<u8> {
    seq![0x47u8, 0x49, 0x46, 0x38]
}

pub open spec fn gif87a() -> Seq<u8> {
    seq![0x47u8, 0x49, 0x46, 0x38, 0x37, 0x61]
}

pub open spec fn gif89a() -> Seq<u8> {
    seq![0x47u8, 0x49, 0x46, 0x38, 0x39, 0x61]
}

pub open spec fn bmp_magic() -> Seq<u8> {
    seq![0x42u8, 0x4D]
}

pub open spec fn riff_tag() -> Seq<u8> {
    seq![0x52u8, 0x49, 0x46, 0x46]
}

pub open spec fn webp_tag() -> Seq<u8> {
    seq![0x57u8, 0x45, 0x42, 0x50]
}

pub open spec fn vp8_tag() -> Seq<u8> {
    seq![0x56u8, 0x50, 0x38, 0x20]
}

pub open spec fn vp8l_tag() -> Seq<u8> {
    seq![0x56u8, 0x50, 0x38, 0x4C]
}

pub open spec fn vp8x_tag() -> Seq<u8> {
    seq![0x56u8, 0x50, 0x38, 0x58]
}

pub open spec fn exif_tag() -> Seq<u8> {
    seq![0x45u8, 0x78, 0x69, 0x66]
}

pub open spec fn exif_header() -> Seq<u8> {
    seq![0x45u8, 0x78, 0x69, 0x66, 0x00, 0x00]
}

/// Whether the PNG signature stands at `off`.
pub fn is_png_signature(data: &[u8], off: usize) -> (r: bool)
    ensures
        r == has_at(data@, off as int, png_signature()),
{
    let tag: [u8; 8] = [0x89, 0x50, 0x4E, 0x47, 0x0D, 0x0A, 0x1A, 0x0A];
    assert(tag@ == png_signature());
    bytes_at(data, off, &tag)
}

/// Whether the data starts with a GIF signature.
pub fn is_gif_signature(data: &[u8]) -> (r: bool)
    ensures
        r == (has_at(data@, 0, gif87a()) || has_at(data@, 0, gif89a())),
{
    let a: [u8; 6] = [0x47, 0x49, 0x46, 0x38, 0x37, 0x61];
    let b: [u8; 6] = [0x47, 0x49, 0x46, 0x38, 0x39, 0x61];
    assert(a@ == gif87a());
    assert(b@ == gif89a());
    bytes_at(data, 0, &a) || bytes_at(data, 0, &b)
}


// ---------------------------------------------------------------------------------------------
// PNG, GIF, BMP and WebP: the size stands at a fixed place in the header.

/// A PNG is recognised by its signature and an `IHDR` chunk of length 13 right after it;
/// width and height are the chunk's first two big-endian words.
pub open spec fn png_spec(d: Seq<u8>) -> Option<ImageMetaView> {
    if !has_at(d, 0, png_signature()) || d.len() < 33 {
        None
    } else if be32(d, 8) != 13 || !has_at(d, 12, ihdr_tag()) {
        None
    } else {
        Some(plain_meta("png"@, be32(d, 16), be32(d, 20)))
    }
}

fn parse_png(data: &[u8]) -> (r: Option<ImageMeta>)
    ensures
        opt_meta_view(r) == png_spec(data@),
{
    if !is_png_signature(data, 0) || data.len() < 33 {
        return None;
    }
    let len = read_u32_be(data, 8);
    if len != 13 {
        return None;
    }
    let ihdr: [u8; 4] = [0x49, 0x48, 0x44, 0x52];
    assert(ihdr@ == ihdr_tag());
    if !bytes_at(data, 12, &ihdr) {
        return None;
    }
    Some(plain_image("png", read_u32_be(data, 16), read_u32_be(data, 20)))
}

/// A GIF is recognised by `GIF87a` or `GIF89a`; the logical screen size is little-endian at
/// bytes 6 and 8, and a zero dimension is refused.
pub open spec fn gif_spec(d: Seq<u8>) -> Option<ImageMetaView> {
    if d.len() < 10 || !(has_at(d, 0, gif87a()) || has_at(d, 0, gif89a())) {
        None
    } else if le16(d, 6) == 0 || le16(d, 8) == 0 {
        None
    } else {
        Some(plain_meta("gif"@, le16(d, 6) as u32, le16(d, 8) as u32))
    }
}

fn parse_gif(data: &[u8]) -> (r: Option<ImageMeta>)
    ensures
        opt_meta_view(r) == gif_spec(data@),
{
    if data.len() < 10 {
        return None;
    }
    if !is_gif_signature(data) {
        return None;
    }
    let width = read_u16_le(data, 6) as u32;
    let height = read_u16_le(data, 8) as u32;
    if width == 0 || height == 0 {
        return None;
    }
    Some(plain_image("gif", width, height))
}

/// The magnitude of a 32-bit two's-complement value, as `i32::unsigned_abs` gives it.
pub open spec fn abs_i32_bits(v: u32) -> u32 {
    if v >= 0x8000_0000 {
        (0x1_0000_0000 - v) as u32
    } else {
        v
    }
}

fn unsigned_abs_of_bits(v: u32) -> (r: u32)
    ensures
        r == abs_i32_bits(v),
{
    if v >= 0x8000_0000 {
        (u32::MAX - v) + 1
    } else {
        v
    }
}

/// A BMP starts with `BM`; the width is the little-endian word at byte 18 and the height is
/// the magnitude of the signed word at byte 22 (negative for top-down bitmaps).
pub open spec fn bmp_spec(d: Seq<u8>) -> Option<ImageMetaView> {
    if d.len() < 26 || !has_at(d, 0, bmp_magic()) {
        None
    } else if le32(d, 18) == 0 || abs_i32_bits(le32(d, 22)) == 0 {
        None
    } else {
        Some(plain_meta("bmp"@, le32(d, 18), abs_i32_bits(le32(d, 22))))
    }
}

fn parse_bmp(data: &[u8]) -> (r: Option<ImageMeta>)
    ensures
        opt_meta_view(r) == bmp_spec(data@),
{
    if data.len() < 26 {
        return None;
    }
    let bm: [u8; 2] = [0x42, 0x4D];
    assert(bm@ == bmp_magic());
    if !bytes_at(data, 0, &bm) {
        return None;
    }
    let width = read_u32_le(data, 18);
    let height = unsigned_abs_of_bits(read_u32_le(data, 22));
    if width == 0 || height == 0 {
        return None;
    }
    Some(plain_image("bmp", width, height))
}

/// A WebP is a `RIFF` container of type `WEBP` whose declared (little-endian) size fits in the
/// data.  The size comes from the first chunk: `VP8 ` (the 14-bit fields after the frame tag and
/// start code, zero refused), `VP8L` (14-bit fields of a packed word, plus one) or `VP8X`
/// (24-bit canvas fields, plus one).
pub open spec fn webp_spec(d: Seq<u8>) -> Option<ImageMetaView> {
    if d.len() < 30 || !has_at(d, 0, riff_tag()) || !has_at(d, 8, webp_tag()) {
        None
    } else if le32(d, 4) as int + 8 > d.len() {
        None
    } else if has_at(d, 12, vp8_tag()) {
        let w = le16(d, 26) & 0x3FFF;
        let h = le16(d, 28) & 0x3FFF;
        if w == 0 || h == 0 {
            None
        } else {
            Some(plain_meta("webp"@, w as u32, h as u32))
        }
    } else if has_at(d, 12, vp8l_tag()) {
        let bits = le32(d, 21);
        Some(plain_meta("webp"@, ((bits & 0x3FFF) + 1) as u32, (((bits >> 14) & 0x3FFF) + 1) as u32))
    } else if has_at(d, 12, vp8x_tag()) {
        Some(plain_meta("webp"@, (le24(d, 24) + 1) as u32, (le24(d, 27) + 1) as u32))
    } else {
        None
    }
}

fn parse_webp(data: &[u8]) -> (r: Option<ImageMeta>)
    ensures
        opt_meta_view(r) == webp_spec(data@),
{
    if data.len() < 30 {
        return None;
    }
    let riff: [u8; 4] = [0x52, 0x49, 0x46, 0x46];
    let webp: [u8; 4] = [0x57, 0x45, 0x42, 0x50];
    assert(riff@ == riff_tag());
    assert(webp@ == webp_tag());
    if !bytes_at(data, 0, &riff) || !bytes_at(data, 8, &webp) {
        return None;
    }
    let chunk_size = read_u32_le(data, 4) as usize;
    if chunk_size > data.len() - 8 {
        return None;
    }
    let vp8: [u8; 4] = [0x56, 0x50, 0x38, 0x20];
    let vp8l: [u8; 4] = [0x56, 0x50, 0x38, 0x4C];
    let vp8x: [u8; 4] = [0x56, 0x50, 0x38, 0x58];
    assert(vp8@ == vp8_tag());
    assert(vp8l@ == vp8l_tag());
    assert(vp8x@ == vp8x_tag());
    if bytes_at(data, 12, &vp8) {
        let w = read_u16_le(data, 26) & 0x3FFF;
        let h = read_u16_le(data, 28) & 0x3FFF;
        if w == 0 || h == 0 {
            return None;
        }
        Some(plain_image("webp", w as u32, h as u32))
    } else if bytes_at(data, 12, &vp8l) {
        let bits = read_u32_le(data, 21);
        assert(bits & 0x3FFF <= 0x3FFF) by (bit_vector);
        assert((bits >> 14) & 0x3FFF <= 0x3FFF) by (bit_vector);
        let w = (bits & 0x3FFF) + 1;
        let h = ((bits >> 14) & 0x3FFF) + 1;
        Some(plain_image("webp", w, h))
    } else if bytes_at(data, 12, &vp8x) {
        let w = read_u24_le(data, 24) + 1;
        let h = read_u24_le(data, 27) + 1;
        Some(plain_image("webp", w, h))
    } else {
        None
    }
}


// ---------------------------------------------------------------------------------------------
// EXIF: a TIFF header (after an optional `Exif\0\0`) and the entries of its first IFD.

/// A 16-bit word in the byte order of the TIFF header.
pub open spec fn rd16(d: Seq<u8>, off: int, le: bool) -> u16 {
    if le {
        le16(d, off)
    } else {
        be16(d, off)
    }
}

/// A 32-bit word in the byte order of the TIFF header.
pub open spec fn rd32(d: Seq<u8>, off: int, le: bool) -> u32 {
    if le {
        le32(d, off)
    } else {
        be32(d, off)
    }
}

fn read16(data: &[u8], off: usize, le: bool) -> (r: u16)
    requires
        off + 2 <= data@.len(),
    ensures
        r == rd16(data@, off as int, le),
{
    if le {
        read_u16_le(data, off)
    } else {
        read_u16_be(data, off)
    }
}

fn read32(data: &[u8], off: usize, le: bool) -> (r: u32)
    requires
        off + 4 <= data@.len(),
    ensures
        r == rd32(data@, off as int, le),
{
    if le {
        read_u32_le(data, off)
    } else {
        read_u32_be(data, off)
    }
}

/// `s` without the `'\0'` characters at its end.
pub open spec fn trim_trailing_nul(s: Seq<char>) -> Seq<char>
    decreases s.len(),
{
    if s.len() > 0 && s.last() == '\0' {
        trim_trailing_nul(s.drop_last())
    } else {
        s
    }
}

/// Where the value of the IFD entry at `ifd` starts: inside the entry where its `count`
/// bytes fit in four, else at the offset it holds, counted from the TIFF header.
pub open spec fn exif_value_start(d: Seq<u8>, tiff: int, le: bool, ifd: int) -> int {
    if rd32(d, ifd + 4, le) <= 4 {
        ifd + 8
    } else {
        tiff + rd32(d, ifd + 8, le) as int
    }
}

/// How many bytes of an ASCII value are read: its count, at most 64.
pub open spec fn exif_text_len(d: Seq<u8>, ifd: int, le: bool) -> int {
    if rd32(d, ifd + 4, le) < 64 {
        rd32(d, ifd + 4, le) as int
    } else {
        64
    }
}

/// The ASCII value of the IFD entry at `ifd` (at most its first 64 bytes), decoded as UTF-8
/// and cut of its trailing NULs; none where the value does not lie inside the block or its
/// bytes are not UTF-8.
pub open spec fn exif_text(d: Seq<u8>, tiff: int, le: bool, ifd: int) -> Option<Seq<char>> {
    let start = exif_value_start(d, tiff, le, ifd);
    let n = exif_text_len(d, ifd, le);
    if start + n > d.len() {
        None
    } else {
        let raw = d.subrange(start, start + n);
        if valid_utf8(raw) {
            Some(trim_trailing_nul(decode_utf8(raw)))
        } else {
            None
        }
    }
}

/// What one 12-byte IFD entry at `ifd` does to the report: `Make` and `Model` (ASCII) set the
/// camera fields, `Orientation` (SHORT) the orientation, and a `GPSInfo` pointer (LONG) that
/// lands inside the block marks the image as carrying GPS data.
pub open spec fn exif_entry(
    d: Seq<u8>,
    tiff: int,
    le: bool,
    ifd: int,
    m: ImageMetaView,
) -> ImageMetaView {
    let tag = rd16(d, ifd, le);
    let typ = rd16(d, ifd + 2, le);
    let value = ifd + 8;
    let m1 = if tag == 0x010F && typ == 2 {
        ImageMetaView { camera_make: exif_text(d, tiff, le, ifd), ..m }
    } else if tag == 0x0110 && typ == 2 {
        ImageMetaView { camera_model: exif_text(d, tiff, le, ifd), ..m }
    } else if tag == 0x0112 && typ == 3 {
        ImageMetaView { orientation: Some(rd16(d, value, le)), ..m }
    } else {
        m
    };
    if tag == 0x8825 && typ == 4 && tiff + rd32(d, value, le) + 2 <= d.len() {
        ImageMetaView { has_gps: Some(true), ..m1 }
    } else {
        m1
    }
}

/// The effect of `count` entries from `ifd` on, stopping early where an entry would not fit.
pub open spec fn exif_entries(
    d: Seq<u8>,
    tiff: int,
    le: bool,
    ifd: int,
    count: int,
    m: ImageMetaView,
) -> ImageMetaView
    decreases count,
{
    if count <= 0 || ifd + 12 > d.len() {
        m
    } else {
        exif_entries(d, tiff, le, ifd + 12, count - 1, exif_entry(d, tiff, le, ifd, m))
    }
}

/// The TIFF header's position in an EXIF block.
pub open spec fn tiff_start(d: Seq<u8>) -> int {
    if has_at(d, 0, exif_header()) {
        6
    } else {
        0
    }
}

/// What an EXIF block does to the report: nothing unless it holds at least 12 bytes, an `II`
/// or `MM` byte-order mark and a first-IFD offset with room for the entry count; otherwise the
/// effect of the IFD's entries.
#[verifier::opaque]
pub open spec fn exif_apply(d: Seq<u8>, m: ImageMetaView) -> ImageMetaView {
    let tiff = tiff_start(d);
    if d.len() < 12 || tiff + 8 > d.len() {
        m
    } else {
        let le = d[tiff] == 0x49 && d[tiff + 1] == 0x49;
        let be = d[tiff] == 0x4D && d[tiff + 1] == 0x4D;
        if !le && !be {
            m
        } else {
            let ifd0 = rd32(d, tiff + 4, le) as int;
            if ifd0 + 2 > d.len() - tiff {
                m
            } else {
                exif_entries(d, tiff, le, tiff + ifd0 + 2, rd16(d, tiff + ifd0, le) as int, m)
            }
        }
    }
}

/// The length of `cs` once its trailing NULs are cut.
fn trimmed_len(cs: &Vec<char>) -> (k: usize)
    ensures
        k <= cs@.len(),
        cs@.subrange(0, k as int) == trim_trailing_nul(cs@),
{
    let mut k = cs.len();
    assert(cs@.subrange(0, k as int) =~= cs@);
    while k > 0 && cs[k - 1] == '\0'
        invariant
            k <= cs@.len(),
            trim_trailing_nul(cs@.subrange(0, k as int)) == trim_trailing_nul(cs@),
        decreases k,
    {
        assert(cs@.subrange(0, k as int).drop_last() =~= cs@.subrange(0, k - 1));
        k = k - 1;
    }
    k
}

fn read_exif_text(data: &[u8], tiff: usize, le: bool, ifd: usize) -> (r: Option<String>)
    requires
        tiff <= data.len(),
        ifd + 12 <= data.len(),
    ensures
        opt_string_view(r) == exif_text(data@, tiff as int, le, ifd as int),
{
    let count = read32(data, ifd + 4, le);
    let n: usize = if count < 64 {
        count as usize
    } else {
        64
    };
    let start = if count <= 4 {
        ifd + 8
    } else {
        let off = read32(data, ifd + 8, le) as usize;
        if off > data.len() - tiff {
            return None;
        }
        tiff + off
    };
    if n > data.len() - start {
        return None;
    }
    match decode_utf8_chars(&data[start..start + n]) {
        None => None,
        Some(cs) => {
            let k = trimmed_len(&cs);
            Some(string_from_chars(&cs.as_slice()[0..k]))
        },
    }
}

/// Reads the EXIF block `data` into `meta`.
fn parse_exif(data: &[u8], meta: &mut ImageMeta)
    ensures
        final(meta)@ == exif_apply(data@, old(meta)@),
{
    reveal(exif_apply);
    if data.len() < 12 {
        return;
    }
    let head: [u8; 6] = [0x45, 0x78, 0x69, 0x66, 0x00, 0x00];
    assert(head@ == exif_header());
    let tiff: usize = if bytes_at(data, 0, &head) {
        6
    } else {
        0
    };
    if tiff + 8 > data.len() {
        return;
    }
    let le = data[tiff] == 0x49 && data[tiff + 1] == 0x49;
    let be = data[tiff] == 0x4D && data[tiff + 1] == 0x4D;
    if !le && !be {
        return;
    }
    let ifd0_off = read32(data, tiff + 4, le) as usize;
    if ifd0_off > data.len() - tiff - 2 {
        return;
    }
    let mut ifd = tiff + ifd0_off;
    let entries = read16(data, ifd, le) as usize;
    ifd = ifd + 2;
    let ghost d = data@;
    let ghost goal = exif_apply(d, old(meta)@);
    let mut i: usize = 0;
    while i < entries
        invariant
            d == data@,
            tiff == tiff_start(d),
            tiff + 8 <= d.len(),
            i <= entries,
            ifd <= data.len(),
            exif_entries(d, tiff as int, le, ifd as int, entries - i, meta@) == goal,
            goal == exif_apply(data@, old(meta)@),
        decreases entries - i,
    {
        if data.len() - ifd < 12 {
            return;
        }
        let ghost before = meta@;
        let tag = read16(data, ifd, le);
        let typ = read16(data, ifd + 2, le);
        let value_off = ifd + 8;
        if tag == 0x010F && typ == 2 {
            meta.camera_make = read_exif_text(data, tiff, le, ifd);
        } else if tag == 0x0110 && typ == 2 {
            meta.camera_model = read_exif_text(data, tiff, le, ifd);
        } else if tag == 0x0112 && typ == 3 {
            meta.orientation = Some(read16(data, value_off, le));
        }
        if tag == 0x8825 && typ == 4 {
            let gps_off = read32(data, value_off, le) as usize;
            if gps_off <= data.len() - tiff - 2 {
                meta.has_gps = Some(true);
            }
        }
        assert(meta@ == exif_entry(d, tiff as int, le, ifd as int, before));
        ifd = ifd + 12;
        i = i + 1;
    }
}

// ---------------------------------------------------------------------------------------------
// JPEG: a walk over the marker segments after SOI.

/// Markers that stand alone, without a length: TEM-like `0x00`, RST0–RST7 and SOI.
pub open spec fn is_standalone_marker(m: u8) -> bool {
    m == 0x00 || (0xD0 <= m && m <= 0xD8)
}

/// What one marker segment at `pos` does to the report: a start-of-frame segment
/// (`C0`–`C3`) gives the height and width, an `APP1` segment tagged `Exif` is read as EXIF.
pub open spec fn jpeg_segment(
    d: Seq<u8>,
    pos: int,
    marker: u8,
    seg_len: int,
    m: ImageMetaView,
) -> ImageMetaView {
    let m1 = if 0xC0 <= marker && marker <= 0xC3 && seg_len >= 7 {
        ImageMetaView { height: be16(d, pos + 5) as u32, width: be16(d, pos + 7) as u32, ..m }
    } else {
        m
    };
    if marker == 0xE1 && seg_len >= 8 && has_at(d, pos + 4, exif_tag()) {
        exif_apply(d.subrange(pos + 4, pos + 2 + seg_len), m1)
    } else {
        m1
    }
}

/// The report after the walk from `pos`: it stops at a byte other than `0xFF`, at EOI, when
/// fewer than four bytes are left, or at a segment whose length does not fit.
pub open spec fn jpeg_walk(d: Seq<u8>, pos: int, m: ImageMetaView) -> ImageMetaView
    decreases d.len() - pos,
{
    if pos < 0 || pos + 4 > d.len() || d[pos] != 0xFF {
        m
    } else {
        let marker = d[pos + 1];
        if marker == 0xD9 {
            m
        } else if is_standalone_marker(marker) {
            jpeg_walk(
                d,
                pos + if marker == 0xD8 {
                    1int
                } else {
                    2int
                },
                m,
            )
        } else {
            let seg_len = be16(d, pos + 2) as int;
            if seg_len < 2 || pos + 2 + seg_len > d.len() {
                m
            } else {
                jpeg_walk(d, pos + 2 + seg_len, jpeg_segment(d, pos, marker, seg_len, m))
            }
        }
    }
}

/// A JPEG starts with SOI; it is reported only where the walk found a non-zero size.
pub open spec fn jpeg_spec(d: Seq<u8>) -> Option<ImageMetaView> {
    if d.len() < 4 || d[0] != 0xFF || d[1] != 0xD8 {
        None
    } else {
        let m = jpeg_walk(d, 2, plain_meta("jpeg"@, 0, 0));
        if m.width > 0 && m.height > 0 {
            Some(m)
        } else {
            None
        }
    }
}

fn finish_jpeg(meta: ImageMeta) -> (r: Option<ImageMeta>)
    ensures
        opt_meta_view(r) == (if meta@.width > 0 && meta@.height > 0 {
            Some(meta@)
        } else {
            None
        }),
{
    if meta.width > 0 && meta.height > 0 {
        Some(meta)
    } else {
        None
    }
}

fn parse_jpeg(data: &[u8]) -> (r: Option<ImageMeta>)
    ensures
        opt_meta_view(r) == jpeg_spec(data@),
{
    if data.len() < 4 || data[0] != 0xFF || data[1] != 0xD8 {
        return None;
    }
    let mut meta = plain_image("jpeg", 0, 0);
    let ghost d = data@;
    let ghost goal = jpeg_walk(d, 2, meta@);
    let mut pos: usize = 2;
    while data.len() - pos >= 4
        invariant
            d == data@,
            2 <= pos <= data.len(),
            jpeg_walk(d, pos as int, meta@) == goal,
            jpeg_spec(d) == (if goal.width > 0 && goal.height > 0 {
                Some(goal)
            } else {
                None
            }),
        decreases data.len() - pos,
    {
        if data[pos] != 0xFF {
            return finish_jpeg(meta);
        }
        let marker = data[pos + 1];
        if marker == 0xD9 {
            return finish_jpeg(meta);
        }
        if marker == 0x00 || (0xD0 <= marker && marker <= 0xD8) {
            pos = pos + if marker == 0xD8 {
                1
            } else {
                2
            };
            continue;
        }
        let seg_len = read_u16_be(data, pos + 2) as usize;
        if seg_len < 2 || seg_len > data.len() - pos - 2 {
            return finish_jpeg(meta);
        }
        let ghost before = meta@;
        if 0xC0 <= marker && marker <= 0xC3 && seg_len >= 7 {
            meta.height = read_u16_be(data, pos + 5) as u32;
            meta.width = read_u16_be(data, pos + 7) as u32;
        }
        if marker == 0xE1 && seg_len >= 8 {
            let exif: [u8; 4] = [0x45, 0x78, 0x69, 0x66];
            assert(exif@ == exif_tag());
            if bytes_at(data, pos + 4, &exif) {
                parse_exif(&data[pos + 4..pos + 2 + seg_len], &mut meta);
            }
        }
        assert(meta@ == jpeg_segment(d, pos as int, marker, seg_len as int, before));
        pos = pos + 2 + seg_len;
    }
    finish_jpeg(meta)
}


proof fn lemma_exif_entries_keep_format(
    d: Seq<u8>,
    tiff: int,
    le: bool,
    ifd: int,
    count: int,
    m: ImageMetaView,
)
    ensures
        exif_entries(d, tiff, le, ifd, count, m).format == m.format,
    decreases count,
{
    if count > 0 && ifd + 12 <= d.len() {
        lemma_exif_entries_keep_format(d, tiff, le, ifd + 12, count - 1, exif_entry(d, tiff, le, ifd, m));
    }
}

proof fn lemma_jpeg_walk_keeps_format(d: Seq<u8>, pos: int, m: ImageMetaView)
    ensures
        jpeg_walk(d, pos, m).format == m.format,
    decreases d.len() - pos,
{
    reveal(exif_apply);
    if pos >= 0 && pos + 4 <= d.len() && d[pos] == 0xFF {
        let marker = d[pos + 1];
        if marker == 0xD9 {
        } else if is_standalone_marker(marker) {
            lemma_jpeg_walk_keeps_format(d, pos + if marker == 0xD8 { 1int } else { 2int }, m);
        } else {
            let seg_len = be16(d, pos + 2) as int;
            if seg_len >= 2 && pos + 2 + seg_len <= d.len() {
                let m1 = if 0xC0 <= marker && marker <= 0xC3 && seg_len >= 7 {
                    ImageMetaView { height: be16(d, pos + 5) as u32, width: be16(d, pos + 7) as u32, ..m }
                } else {
                    m
                };
                let e = d.subrange(pos + 4, pos + 2 + seg_len);
                let tiff = tiff_start(e);
                if e.len() >= 12 && tiff + 8 <= e.len() {
                    let le = e[tiff] == 0x49 && e[tiff + 1] == 0x49;
                    let ifd0 = rd32(e, tiff + 4, le) as int;
                    lemma_exif_entries_keep_format(e, tiff, le, tiff + ifd0 + 2, rd16(e, tiff + ifd0, le) as int, m1);
                }
                lemma_jpeg_walk_keeps_format(d, pos + 2 + seg_len, jpeg_segment(d, pos, marker, seg_len, m));
            }
        }
    }
}

/// Every report names one of the five formats that the scanner knows.
pub proof fn lemma_report_format_is_known(data: Option<Seq<u8>>)
    ensures
        image_spec(data) matches Some(v) ==> known_format(v.format),
{
    if let Some(d) = data {
        if d.len() >= 4 {
            lemma_jpeg_walk_keeps_format(d, 2, plain_meta("jpeg"@, 0, 0));
        }
    }
}

// ---------------------------------------------------------------------------------------------
// Dispatch on the leading bytes.

/// The report for the bytes of a file, chosen by its first bytes: `FF D8 FF` is read as JPEG, `\x89PNG` as PNG, `GIF8` as GIF, `RIFF` as WebP and `BM` as
/// BMP; anything else, or no or empty data, gives none.
pub open spec fn image_spec(data: Option<Seq<u8>>) -> Option<ImageMetaView> {
    match data {
        None => None,
        Some(d) => if d.len() == 0 {
            None
        } else if has_at(d, 0, jpeg_magic()) {
            jpeg_spec(d)
        } else if has_at(d, 0, png_magic()) {
            png_spec(d)
        } else if has_at(d, 0, gif_magic()) {
            gif_spec(d)
        } else if has_at(d, 0, riff_tag()) {
            webp_spec(d)
        } else if has_at(d, 0, bmp_magic()) {
            bmp_spec(d)
        } else {
            None
        },
    }
}

/// The bytes of optional data.
pub open spec fn opt_bytes_view(data: Option<&[u8]>) -> Option<Seq<u8>> {
    match data {
        Some(d) => Some(d@),
        None => None,
    }
}

/// The formats that a report can name.
pub open spec fn known_format(f: Seq<char>) -> bool {
    f == "jpeg"@ || f == "png"@ || f == "gif"@ || f == "bmp"@ || f == "webp"@
}

/// Reads the format and size (and, for JPEG, the EXIF fields) of an image file's bytes.
pub fn parse(data: Option<&[u8]>) -> (r: Option<ImageMeta>)
    ensures
        opt_meta_view(r) == image_spec(opt_bytes_view(data)),
        r matches Some(m) ==> known_format(m.format@),
{
    let data = match data {
        Some(d) => d,
        None => return None,
    };
    if data.len() == 0 {
        return None;
    }
    let soi: [u8; 3] = [0xFF, 0xD8, 0xFF];
    let png: [u8; 4] = [0x89, 0x50, 0x4E, 0x47];
    let gif: [u8; 4] = [0x47, 0x49, 0x46, 0x38];
    let riff: [u8; 4] = [0x52, 0x49, 0x46, 0x46];
    let bm: [u8; 2] = [0x42, 0x4D];
    assert(soi@ == jpeg_magic());
    assert(png@ == png_magic());
    assert(gif@ == gif_magic());
    assert(riff@ == riff_tag());
    assert(bm@ == bmp_magic());
    proof {
        lemma_report_format_is_known(Some(data@));
    }
    if bytes_at(data, 0, &soi) {
        parse_jpeg(data)
    } else if bytes_at(data, 0, &png) {
        parse_png(data)
    } else if bytes_at(data, 0, &gif) {
        parse_gif(data)
    } else if bytes_at(data, 0, &riff) {
        parse_webp(data)
    } else if bytes_at(data, 0, &bm) {
        parse_bmp(data)
    } else {
        None
    }
}


// ---------------------------------------------------------------------------------------------
// Laws of the JPEG report.

/// The JPEG walk reads only what lies at and after its position.
#[verifier::rlimit(80)]
proof fn lemma_jpeg_walk_shift(a: Seq<u8>, b: Seq<u8>, p: int, m: ImageMetaView)
    requires
        0 <= p,
    ensures
        jpeg_walk(a + b, a.len() + p, m) == jpeg_walk(b, p, m),
    decreases b.len() - p,
{
    let ab = a + b;
    let q = a.len() + p;
    if p + 4 <= b.len() {
        assert(ab[q] == b[p] && ab[q + 1] == b[p + 1] && ab[q + 2] == b[p + 2] && ab[q + 3] == b[p + 3]);
        let marker = b[p + 1];
        if b[p] == 0xFF && marker != 0xD9 {
            if is_standalone_marker(marker) {
                lemma_jpeg_walk_shift(a, b, p + if marker == 0xD8 { 1int } else { 2int }, m);
            } else {
                let seg_len = be16(b, p + 2) as int;
                assert(be16(ab, q + 2) == be16(b, p + 2));
                if seg_len >= 2 && p + 2 + seg_len <= b.len() {
                    lemma_jpeg_segment_shift(a, b, p, marker, seg_len, m);
                    lemma_jpeg_walk_shift(a, b, p + 2 + seg_len, jpeg_segment(b, p, marker, seg_len, m));
                }
            }
        }
    }
}

proof fn lemma_jpeg_segment_shift(
    a: Seq<u8>,
    b: Seq<u8>,
    p: int,
    marker: u8,
    seg_len: int,
    m: ImageMetaView,
)
    requires
        0 <= p,
        2 <= seg_len,
        p + 2 + seg_len <= b.len(),
    ensures
        jpeg_segment(a + b, a.len() + p, marker, seg_len, m) == jpeg_segment(b, p, marker, seg_len, m),
{
    let ab = a + b;
    let q = a.len() + p;
    if seg_len >= 7 {
        assert(ab[q + 5] == b[p + 5] && ab[q + 6] == b[p + 6]);
        assert(ab[q + 7] == b[p + 7] && ab[q + 8] == b[p + 8]);
    }
    assert(ab.subrange(q + 4, q + 2 + seg_len) =~= b.subrange(p + 4, p + 2 + seg_len));
    if seg_len >= 6 {
        assert(ab.subrange(q + 4, q + 8) =~= b.subrange(p + 4, p + 8));
    }
}

/// A JPEG marker segment: `FF`, its marker, a big-endian length that counts itself and the
/// payload, and the payload.
pub open spec fn is_marker_segment(s: Seq<u8>, marker: u8) -> bool {
    &&& s.len() >= 4
    &&& s.len() < 0x1_0002
    &&& s[0] == 0xFF
    &&& s[1] == marker
    &&& s[2] as int * 0x100 + s[3] as int == s.len() - 2
}

/// A segment with a marker other than SOF0–SOF3 and `APP1` leaves the report as it is.
proof fn lemma_other_segment_keeps_meta(
    d: Seq<u8>,
    pos: int,
    marker: u8,
    seg_len: int,
    m: ImageMetaView,
)
    requires
        !(0xC0 <= marker && marker <= 0xC3),
        marker != 0xE1,
    ensures
        jpeg_segment(d, pos, marker, seg_len, m) == m,
{
}

/// A segment that is no frame header (SOF0–SOF3) and no `APP1`, placed right after SOI, changes
/// nothing in the report: in particular a Huffman table (`C4`) or a quantisation table (`DB`)
/// never sets the size.
pub proof fn law_jpeg_other_segment_leaves_report(s: Seq<u8>, marker: u8, r: Seq<u8>)
    requires
        is_marker_segment(s, marker),
        !(0xC0 <= marker && marker <= 0xC3),
        marker != 0xE1,
        marker != 0xD9,
        marker != 0x00,
        !(0xD0 <= marker && marker <= 0xD8),
        r.len() >= 2,
        r[0] == 0xFF,
    ensures
        image_spec(Some(seq![0xFFu8, 0xD8] + s + r)) == image_spec(Some(seq![0xFFu8, 0xD8] + r)),
{
    let soi = seq![0xFFu8, 0xD8];
    let with = soi + s + r;
    let without = soi + r;
    let m0 = plain_meta("jpeg"@, 0, 0);
    assert(with.subrange(0, 3) =~= jpeg_magic());
    assert(without.subrange(0, 3) =~= jpeg_magic());
    assert(with[2] == 0xFF && with[3] == marker && with[4] == s[2] && with[5] == s[3]);
    assert(be16(with, 4) as int == s.len() - 2);
    lemma_other_segment_keeps_meta(with, 2, marker, s.len() - 2, m0);
    assert(jpeg_walk(with, 2, m0) == jpeg_walk(with, 2 + s.len() as int, m0));
    lemma_jpeg_walk_shift(soi + s, r, 0, m0);
    lemma_jpeg_walk_shift(soi, r, 0, m0);
}

/// A frame header (SOF0–SOF3) right after SOI and followed by EOI gives the size it records:
/// the height and width are the big-endian words after the sample precision.
pub proof fn law_jpeg_frame_gives_size(s: Seq<u8>, marker: u8)
    requires
        is_marker_segment(s, marker),
        0xC0 <= marker && marker <= 0xC3,
        s.len() >= 9,
    ensures
        ({
            let h = (s[5] as int * 0x100 + s[6] as int) as u32;
            let w = (s[7] as int * 0x100 + s[8] as int) as u32;
            image_spec(Some(seq![0xFFu8, 0xD8] + s + seq![0xFFu8, 0xD9])) == if h == 0 || w == 0 {
                None
            } else {
                Some(plain_meta("jpeg"@, w, h))
            }
        }),
{
    let soi = seq![0xFFu8, 0xD8];
    let eoi = seq![0xFFu8, 0xD9];
    let d = soi + s + eoi;
    let m0 = plain_meta("jpeg"@, 0, 0);
    assert(d.subrange(0, 3) =~= jpeg_magic());
    assert(d[2] == 0xFF && d[3] == marker && d[4] == s[2] && d[5] == s[3]);
    assert(d[7] == s[5] && d[8] == s[6] && d[9] == s[7] && d[10] == s[8]);
    let m1 = jpeg_segment(d, 2, marker, s.len() - 2, m0);
    assert(jpeg_walk(d, 2, m0) == jpeg_walk(d, 2 + s.len() as int, m1));
    assert(d[3 + s.len() as int] == 0xD9);
}


// ---------------------------------------------------------------------------------------------
}
