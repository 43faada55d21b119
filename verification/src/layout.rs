//! Laws on files built from their fields: each fixed-layout format reports the fields it was
//! built with, and an EXIF block reports the orientation, camera make and GPS pointer it holds.
use vstd::prelude::*;
use crate::bytes::{has_at, le16, le24, le32};
use crate::unicode::{all_ascii, latin_chars, lemma_ascii_is_utf8};
use crate::image::{
    bmp_magic, exif_apply, exif_entries, exif_entry, exif_header, exif_text, gif87a, gif89a,
    gif_magic, ihdr_tag, image_spec, jpeg_magic, plain_meta, png_magic, png_signature, rd16, rd32, riff_tag,
    tiff_start, trim_trailing_nul, vp8_tag, vp8l_tag, vp8x_tag, webp_spec, webp_tag,
    ImageMetaView,
};

verus! {

// Laws of the fixed-layout formats: a file built from its fields reports those fields.

/// A PNG whose IHDR chunk (length 13) follows the signature reports the chunk's big-endian
/// width and height.
pub proof fn law_png_reports_ihdr_size(w: Seq<u8>, h: Seq<u8>, tail: Seq<u8>)
    requires
        w.len() == 4,
        h.len() == 4,
        tail.len() >= 9,
    ensures
        image_spec(Some(png_signature() + seq![0u8, 0, 0, 13] + ihdr_tag() + w + h + tail)) == Some(
            plain_meta(
                "png"@,
                (w[0] as int * 0x100_0000 + w[1] as int * 0x1_0000 + w[2] as int * 0x100
                    + w[3] as int) as u32,
                (h[0] as int * 0x100_0000 + h[1] as int * 0x1_0000 + h[2] as int * 0x100
                    + h[3] as int) as u32,
            ),
        ),
{
    let d = png_signature() + seq![0u8, 0, 0, 13] + ihdr_tag() + w + h + tail;
    assert(d.subrange(0, 8) =~= png_signature());
    assert(d.subrange(0, 4) =~= png_magic());
    assert(d.subrange(12, 16) =~= ihdr_tag());
    assert(d[8] == 0 && d[9] == 0 && d[10] == 0 && d[11] == 13);
    assert(d[16] == w[0] && d[17] == w[1] && d[18] == w[2] && d[19] == w[3]);
    assert(d[20] == h[0] && d[21] == h[1] && d[22] == h[2] && d[23] == h[3]);
}

/// A GIF reports its logical screen size, little-endian after the signature; a zero side gives
/// no report.
pub proof fn law_gif_reports_screen_size(sig: Seq<u8>, w0: u8, w1: u8, h0: u8, h1: u8, tail: Seq<u8>)
    requires
        sig == gif87a() || sig == gif89a(),
    ensures
        ({
            let w = w0 as int + w1 as int * 0x100;
            let h = h0 as int + h1 as int * 0x100;
            image_spec(Some(sig + seq![w0, w1, h0, h1] + tail)) == if w == 0 || h == 0 {
                None
            } else {
                Some(plain_meta("gif"@, w as u32, h as u32))
            }
        }),
{
    let d = sig + seq![w0, w1, h0, h1] + tail;
    assert(d.subrange(0, 6) =~= sig);
    assert(d.subrange(0, 4) =~= gif_magic());
    assert(d[6] == w0 && d[7] == w1 && d[8] == h0 && d[9] == h1);
    assert(d.subrange(0, 2) =~= seq![sig[0], sig[1]]);
}

/// A BMP reports the little-endian width at byte 18 and the magnitude of the signed
/// little-endian height at byte 22; a zero side gives no report.
pub proof fn law_bmp_reports_size(head: Seq<u8>, w: u32, hb: Seq<u8>, tail: Seq<u8>)
    requires
        head.len() == 16,
        hb.len() == 4,
    ensures
        ({
            let wb = seq![(w % 0x100) as u8, (w / 0x100 % 0x100) as u8, (w / 0x1_0000 % 0x100) as u8, (w / 0x100_0000) as u8];
            let h = hb[0] as int + hb[1] as int * 0x100 + hb[2] as int * 0x1_0000 + hb[3] as int
                * 0x100_0000;
            let height = if h >= 0x8000_0000 { 0x1_0000_0000 - h } else { h };
            image_spec(Some(seq![0x42u8, 0x4D] + head + wb + hb + tail)) == if w == 0 || height == 0 {
                None
            } else {
                Some(plain_meta("bmp"@, w, height as u32))
            }
        }),
{
    let wb = seq![(w % 0x100) as u8, (w / 0x100 % 0x100) as u8, (w / 0x1_0000 % 0x100) as u8, (w / 0x100_0000) as u8];
    let d = seq![0x42u8, 0x4D] + head + wb + hb + tail;
    assert(d.subrange(0, 2) =~= bmp_magic());
    assert(d[0] == 0x42 && d[1] == 0x4D);
    assert(d[18] == wb[0] && d[19] == wb[1] && d[20] == wb[2] && d[21] == wb[3]);
    assert(d[22] == hb[0] && d[23] == hb[1] && d[24] == hb[2] && d[25] == hb[3]);
    assert(((w % 0x100) as u8) as int + ((w / 0x100 % 0x100) as u8) as int * 0x100
        + ((w / 0x1_0000 % 0x100) as u8) as int * 0x1_0000 + ((w / 0x100_0000) as u8) as int
        * 0x100_0000 == w) by (bit_vector);
    assert(le32(d, 18) == w);
}

/// A file that starts with `RIFF` is read as WebP.
proof fn lemma_riff_is_read_as_webp(d: Seq<u8>)
    requires
        has_at(d, 0, riff_tag()),
    ensures
        image_spec(Some(d)) == webp_spec(d),
{
    assert(d[0] == 0x52);
    assert(!has_at(d, 0, jpeg_magic()));
    assert(!has_at(d, 0, png_magic()));
    assert(!has_at(d, 0, gif_magic()));
}

/// The RIFF header of a WebP file whose declared little-endian size is `size`.
pub open spec fn riff_webp(size: u32, kind: Seq<u8>) -> Seq<u8> {
    riff_tag() + seq![(size % 0x100) as u8, (size / 0x100 % 0x100) as u8, (size / 0x1_0000 % 0x100) as u8, (size / 0x100_0000) as u8] + webp_tag() + kind
}

proof fn lemma_riff_webp(size: u32, kind: Seq<u8>, rest: Seq<u8>)
    requires
        kind.len() == 4,
    ensures
        ({
            let d = riff_webp(size, kind) + rest;
            &&& has_at(d, 0, riff_tag())
            &&& has_at(d, 8, webp_tag())
            &&& le32(d, 4) == size
            &&& d.subrange(12, 16) == kind
        }),
{
    let d = riff_webp(size, kind) + rest;
    assert(d.subrange(0, 4) =~= riff_tag());
    assert(d.subrange(8, 12) =~= webp_tag());
    assert(d.subrange(12, 16) =~= kind);
    assert(d[0] == 0x52);
}

/// How a RIFF/WebP file whose declared size fits is read, by the tag of its first chunk.
proof fn lemma_webp_by_chunk(d: Seq<u8>)
    requires
        d.len() >= 30,
        has_at(d, 0, riff_tag()),
        has_at(d, 8, webp_tag()),
        le32(d, 4) as int + 8 <= d.len(),
    ensures
        has_at(d, 12, vp8l_tag()) ==> image_spec(Some(d)) == Some(
            plain_meta(
                "webp"@,
                ((le32(d, 21) & 0x3FFF) + 1) as u32,
                (((le32(d, 21) >> 14) & 0x3FFF) + 1) as u32,
            ),
        ),
        has_at(d, 12, vp8x_tag()) ==> image_spec(Some(d)) == Some(
            plain_meta("webp"@, (le24(d, 24) + 1) as u32, (le24(d, 27) + 1) as u32),
        ),
        has_at(d, 12, vp8_tag()) ==> image_spec(Some(d)) == ({
            let w = le16(d, 26) & 0x3FFF;
            let h = le16(d, 28) & 0x3FFF;
            if w == 0 || h == 0 {
                None
            } else {
                Some(plain_meta("webp"@, w as u32, h as u32))
            }
        }),
{
    lemma_riff_is_read_as_webp(d);
    assert(vp8l_tag()[3] != vp8_tag()[3]);
    assert(vp8x_tag()[3] != vp8_tag()[3]);
    assert(vp8x_tag()[3] != vp8l_tag()[3]);
    if has_at(d, 12, vp8l_tag()) {
        assert(d.subrange(12, 16)[3] == vp8l_tag()[3]);
        assert(!has_at(d, 12, vp8_tag()));
    }
    if has_at(d, 12, vp8x_tag()) {
        assert(d.subrange(12, 16)[3] == vp8x_tag()[3]);
        assert(!has_at(d, 12, vp8_tag()));
        assert(!has_at(d, 12, vp8l_tag()));
    }
}

#[verifier::rlimit(40)]
proof fn lemma_lossless_layout(size: u32, sig: u8, bits: u32, rest: Seq<u8>)
    requires
        rest.len() >= 5,
        size as int + 8 <= 25 + rest.len(),
    ensures
        ({
            let bb = seq![(bits % 0x100) as u8, (bits / 0x100 % 0x100) as u8, (bits / 0x1_0000 % 0x100) as u8, (bits / 0x100_0000) as u8];
            let d = riff_webp(size, vp8l_tag()) + seq![0u8, 0, 0, 0, sig] + bb + rest;
            &&& d.len() >= 30
            &&& has_at(d, 0, riff_tag())
            &&& has_at(d, 8, webp_tag())
            &&& le32(d, 4) as int + 8 <= d.len()
            &&& has_at(d, 12, vp8l_tag())
            &&& le32(d, 21) == bits
        }),
{
    let bb = seq![(bits % 0x100) as u8, (bits / 0x100 % 0x100) as u8, (bits / 0x1_0000 % 0x100) as u8, (bits / 0x100_0000) as u8];
    let rest2 = seq![0u8, 0, 0, 0, sig] + bb + rest;
    let d = riff_webp(size, vp8l_tag()) + seq![0u8, 0, 0, 0, sig] + bb + rest;
    assert(d =~= riff_webp(size, vp8l_tag()) + rest2);
    lemma_riff_webp(size, vp8l_tag(), rest2);
    assert(d[21] == bb[0] && d[22] == bb[1] && d[23] == bb[2] && d[24] == bb[3]);
    assert(((bits % 0x100) as u8) as int + ((bits / 0x100 % 0x100) as u8) as int * 0x100
        + ((bits / 0x1_0000 % 0x100) as u8) as int * 0x1_0000 + ((bits / 0x100_0000) as u8) as int
        * 0x100_0000 == bits) by (bit_vector);
}

#[verifier::rlimit(40)]
proof fn lemma_extended_layout(size: u32, flags: Seq<u8>, w: Seq<u8>, h: Seq<u8>, rest: Seq<u8>)
    requires
        flags.len() == 8,
        w.len() == 3,
        h.len() == 3,
        size as int + 8 <= 30 + rest.len(),
    ensures
        ({
            let d = riff_webp(size, vp8x_tag()) + flags + w + h + rest;
            &&& d.len() >= 30
            &&& has_at(d, 0, riff_tag())
            &&& has_at(d, 8, webp_tag())
            &&& le32(d, 4) as int + 8 <= d.len()
            &&& has_at(d, 12, vp8x_tag())
            &&& d[24] == w[0] && d[25] == w[1] && d[26] == w[2]
            &&& d[27] == h[0] && d[28] == h[1] && d[29] == h[2]
        }),
{
    let rest2 = flags + w + h + rest;
    let d = riff_webp(size, vp8x_tag()) + flags + w + h + rest;
    assert(d =~= riff_webp(size, vp8x_tag()) + rest2);
    lemma_riff_webp(size, vp8x_tag(), rest2);
}

#[verifier::rlimit(60)]
proof fn lemma_lossy_layout(size: u32, head: Seq<u8>, w: u16, h: u16, rest: Seq<u8>)
    requires
        head.len() == 7,
        size as int + 8 <= 30 + rest.len(),
    ensures
        ({
            let wb = seq![(w % 0x100) as u8, (w / 0x100) as u8];
            let hb = seq![(h % 0x100) as u8, (h / 0x100) as u8];
            let d = riff_webp(size, vp8_tag()) + head + seq![0x9Du8, 0x01, 0x2A] + wb + hb + rest;
            &&& d.len() >= 30
            &&& has_at(d, 0, riff_tag())
            &&& has_at(d, 8, webp_tag())
            &&& le32(d, 4) as int + 8 <= d.len()
            &&& has_at(d, 12, vp8_tag())
            &&& le16(d, 26) == w
            &&& le16(d, 28) == h
        }),
{
    let wb = seq![(w % 0x100) as u8, (w / 0x100) as u8];
    let hb = seq![(h % 0x100) as u8, (h / 0x100) as u8];
    let rest2 = head + seq![0x9Du8, 0x01, 0x2A] + wb + hb + rest;
    let d = riff_webp(size, vp8_tag()) + head + seq![0x9Du8, 0x01, 0x2A] + wb + hb + rest;
    assert(d =~= riff_webp(size, vp8_tag()) + rest2);
    lemma_riff_webp(size, vp8_tag(), rest2);
    assert(d[26] == wb[0] && d[27] == wb[1] && d[28] == hb[0] && d[29] == hb[1]);
    assert(((w % 0x100) as u8) as int + ((w / 0x100) as u8) as int * 0x100 == w) by (bit_vector);
    assert(((h % 0x100) as u8) as int + ((h / 0x100) as u8) as int * 0x100 == h) by (bit_vector);
}

/// A lossless WebP (`VP8L`) reports the two 14-bit fields of the word after its signature byte,
/// each plus one, where the declared size fits.
pub proof fn law_webp_lossless_size(size: u32, sig: u8, bits: u32, rest: Seq<u8>)
    requires
        rest.len() >= 5,
        size as int + 8 <= 25 + rest.len(),
    ensures
        ({
            let bb = seq![(bits % 0x100) as u8, (bits / 0x100 % 0x100) as u8, (bits / 0x1_0000 % 0x100) as u8, (bits / 0x100_0000) as u8];
            image_spec(Some(riff_webp(size, vp8l_tag()) + seq![0u8, 0, 0, 0, sig] + bb + rest)) == Some(
                plain_meta("webp"@, (bits % 0x4000 + 1) as u32, (bits / 0x4000 % 0x4000 + 1) as u32),
            )
        }),
{
    let bb = seq![(bits % 0x100) as u8, (bits / 0x100 % 0x100) as u8, (bits / 0x1_0000 % 0x100) as u8, (bits / 0x100_0000) as u8];
    let d = riff_webp(size, vp8l_tag()) + seq![0u8, 0, 0, 0, sig] + bb + rest;
    lemma_lossless_layout(size, sig, bits, rest);
    lemma_webp_by_chunk(d);
    assert(bits & 0x3FFF == bits % 0x4000) by (bit_vector);
    assert((bits >> 14) & 0x3FFF == bits / 0x4000 % 0x4000) by (bit_vector);
}

/// An extended WebP (`VP8X`) reports its 24-bit little-endian canvas width and height, each
/// plus one, where the declared size fits.
pub proof fn law_webp_extended_size(size: u32, flags: Seq<u8>, w: Seq<u8>, h: Seq<u8>, rest: Seq<u8>)
    requires
        flags.len() == 8,
        w.len() == 3,
        h.len() == 3,
        size as int + 8 <= 30 + rest.len(),
    ensures
        image_spec(Some(riff_webp(size, vp8x_tag()) + flags + w + h + rest)) == Some(
            plain_meta(
                "webp"@,
                (w[0] as int + w[1] as int * 0x100 + w[2] as int * 0x1_0000 + 1) as u32,
                (h[0] as int + h[1] as int * 0x100 + h[2] as int * 0x1_0000 + 1) as u32,
            ),
        ),
{
    lemma_extended_layout(size, flags, w, h, rest);
    lemma_webp_by_chunk(riff_webp(size, vp8x_tag()) + flags + w + h + rest);
}

/// A lossy WebP (`VP8 `) reports the 14-bit little-endian width and height that follow the
/// frame tag and the start code `9D 01 2A`, where the declared size fits; a zero side gives no
/// report.
pub proof fn law_webp_lossy_size(size: u32, head: Seq<u8>, w: u16, h: u16, rest: Seq<u8>)
    requires
        head.len() == 7,
        size as int + 8 <= 30 + rest.len(),
    ensures
        ({
            let wb = seq![(w % 0x100) as u8, (w / 0x100) as u8];
            let hb = seq![(h % 0x100) as u8, (h / 0x100) as u8];
            let ww = w % 0x4000;
            let hh = h % 0x4000;
            image_spec(Some(riff_webp(size, vp8_tag()) + head + seq![0x9Du8, 0x01, 0x2A] + wb + hb + rest))
                == if ww == 0 || hh == 0 {
                None
            } else {
                Some(plain_meta("webp"@, ww as u32, hh as u32))
            }
        }),
{
    let wb = seq![(w % 0x100) as u8, (w / 0x100) as u8];
    let hb = seq![(h % 0x100) as u8, (h / 0x100) as u8];
    lemma_lossy_layout(size, head, w, h, rest);
    lemma_webp_by_chunk(riff_webp(size, vp8_tag()) + head + seq![0x9Du8, 0x01, 0x2A] + wb + hb + rest);
    assert(w & 0x3FFF == w % 0x4000) by (bit_vector);
    assert(h & 0x3FFF == h % 0x4000) by (bit_vector);
}

// The EXIF reader on a block built from its fields.

/// The byte-order mark of a TIFF header: `II` little-endian, `MM` big-endian.
pub open spec fn tiff_mark(le: bool) -> Seq<u8> {
    if le {
        seq![0x49u8, 0x49]
    } else {
        seq![0x4Du8, 0x4D]
    }
}

/// A 16-bit TIFF word in the given byte order.
pub open spec fn tiff_word(v: u16, le: bool) -> Seq<u8> {
    if le {
        seq![(v % 0x100) as u8, (v / 0x100) as u8]
    } else {
        seq![(v / 0x100) as u8, (v % 0x100) as u8]
    }
}

/// A 32-bit TIFF word, below `0x1_0000`, in the given byte order.
pub open spec fn tiff_long(v: u16, le: bool) -> Seq<u8> {
    if le {
        tiff_word(v, le) + seq![0u8, 0]
    } else {
        seq![0u8, 0] + tiff_word(v, le)
    }
}

/// A TIFF header whose first IFD (at offset 8) holds one entry: `Orientation`, type SHORT,
/// count 1, value `v`.
pub open spec fn tiff_with_orientation(le: bool, v: u16) -> Seq<u8> {
    tiff_mark(le) + tiff_word(42, le) + tiff_long(8, le) + tiff_word(1, le) + tiff_word(0x0112, le)
        + tiff_word(3, le) + tiff_long(1, le) + tiff_word(v, le) + seq![0u8, 0]
}

proof fn lemma_tiff_word(d: Seq<u8>, off: int, v: u16, le: bool)
    requires
        0 <= off,
        off + 2 <= d.len(),
        d[off] == tiff_word(v, le)[0],
        d[off + 1] == tiff_word(v, le)[1],
    ensures
        rd16(d, off, le) == v,
{
    assert(((v % 0x100) as u8) as int + ((v / 0x100) as u8) as int * 0x100 == v) by (bit_vector);
    assert(((v / 0x100) as u8) as int * 0x100 + ((v % 0x100) as u8) as int == v) by (bit_vector);
}

proof fn lemma_tiff_long(d: Seq<u8>, off: int, v: u16, le: bool)
    requires
        0 <= off,
        off + 4 <= d.len(),
        d.subrange(off, off + 4) == tiff_long(v, le),
    ensures
        rd32(d, off, le) == v,
{
    let t = tiff_long(v, le);
    assert(d[off] == t[0] && d[off + 1] == t[1] && d[off + 2] == t[2] && d[off + 3] == t[3]);
    assert(((v % 0x100) as u8) as int + ((v / 0x100) as u8) as int * 0x100 == v) by (bit_vector);
    assert(((v / 0x100) as u8) as int * 0x100 + ((v % 0x100) as u8) as int == v) by (bit_vector);
}

/// The layout of [`tiff_with_orientation`] inside a block, byte by byte.
proof fn lemma_orientation_layout(pre: Seq<u8>, le: bool, v: u16, tail: Seq<u8>)
    ensures
        ({
            let d = pre + tiff_with_orientation(le, v) + tail;
            let t = pre.len() as int;
            &&& d.len() == t + 22 + tail.len()
            &&& tiff_with_orientation(le, v).len() == 22
            &&& tiff_with_orientation(le, v)[0] == tiff_mark(le)[0]
            &&& d[t] == tiff_mark(le)[0] && d[t + 1] == tiff_mark(le)[1]
            &&& d.subrange(t + 4, t + 8) == tiff_long(8, le)
            &&& d[t + 8] == tiff_word(1, le)[0] && d[t + 9] == tiff_word(1, le)[1]
            &&& d[t + 10] == tiff_word(0x0112, le)[0] && d[t + 11] == tiff_word(0x0112, le)[1]
            &&& d[t + 12] == tiff_word(3, le)[0] && d[t + 13] == tiff_word(3, le)[1]
            &&& d[t + 18] == tiff_word(v, le)[0] && d[t + 19] == tiff_word(v, le)[1]
        }),
{
    let b = tiff_with_orientation(le, v);
    let d = pre + b + tail;
    let t = pre.len() as int;
    assert(b.len() == 22);
    assert forall|i: int| 0 <= i < 22 implies d[t + i] == b[i] by {
        assert(d[t + i] == (pre + b)[t + i]);
    }
    assert(d.subrange(t + 4, t + 8) =~= b.subrange(4, 8));
    assert(b.subrange(4, 8) =~= tiff_long(8, le));
}

/// An EXIF block (with or without its `Exif\0\0` prefix) whose TIFF header, in either byte
/// order, has a first IFD with a single SHORT `Orientation` entry reports that value as the
/// orientation and changes nothing else.
pub proof fn law_exif_orientation(pre: Seq<u8>, le: bool, v: u16, tail: Seq<u8>, m: ImageMetaView)
    requires
        pre == Seq::<u8>::empty() || pre == exif_header(),
    ensures
        exif_apply(pre + tiff_with_orientation(le, v) + tail, m) == (ImageMetaView {
            orientation: Some(v),
            ..m
        }),
{
    let d = pre + tiff_with_orientation(le, v) + tail;
    let t = pre.len() as int;
    assert({
        &&& t == 0 || t == 6
        &&& tiff_start(d) == t
        &&& d.len() >= t + 22
        &&& d[t] == tiff_mark(le)[0] && d[t + 1] == tiff_mark(le)[1]
        &&& d.subrange(t + 4, t + 8) == tiff_long(8, le)
        &&& d[t + 8] == tiff_word(1, le)[0] && d[t + 9] == tiff_word(1, le)[1]
        &&& d[t + 10] == tiff_word(0x0112, le)[0] && d[t + 11] == tiff_word(0x0112, le)[1]
        &&& d[t + 12] == tiff_word(3, le)[0] && d[t + 13] == tiff_word(3, le)[1]
        &&& d[t + 18] == tiff_word(v, le)[0] && d[t + 19] == tiff_word(v, le)[1]
    }) by {
        lemma_orientation_layout(pre, le, v, tail);
        lemma_tiff_start_of(pre, tiff_with_orientation(le, v), tail);
    }
    lemma_orientation_from_bytes(d, t, le, v, m);
}

/// Where the TIFF header of a block starts that is a TIFF header with or without the `Exif\0\0`
/// prefix.
proof fn lemma_tiff_start_of(pre: Seq<u8>, b: Seq<u8>, tail: Seq<u8>)
    requires
        pre == Seq::<u8>::empty() || pre == exif_header(),
        b.len() >= 8,
        b[0] == 0x49 || b[0] == 0x4D,
    ensures
        tiff_start(pre + b + tail) == pre.len(),
{
    let d = pre + b + tail;
    if pre == exif_header() {
        assert(d.subrange(0, 6) =~= pre);
    } else {
        assert(d[0] == b[0]);
        if has_at(d, 0, exif_header()) {
            assert(d.subrange(0, 6)[0] == d[0]);
        }
    }
}

/// A block whose bytes from the TIFF header at `t` on are those of [`tiff_with_orientation`].
proof fn lemma_orientation_from_bytes(d: Seq<u8>, t: int, le: bool, v: u16, m: ImageMetaView)
    requires
        t == 0 || t == 6,
        tiff_start(d) == t,
        d.len() >= t + 22,
        d[t] == tiff_mark(le)[0] && d[t + 1] == tiff_mark(le)[1],
        d.subrange(t + 4, t + 8) == tiff_long(8, le),
        d[t + 8] == tiff_word(1, le)[0] && d[t + 9] == tiff_word(1, le)[1],
        d[t + 10] == tiff_word(0x0112, le)[0] && d[t + 11] == tiff_word(0x0112, le)[1],
        d[t + 12] == tiff_word(3, le)[0] && d[t + 13] == tiff_word(3, le)[1],
        d[t + 18] == tiff_word(v, le)[0] && d[t + 19] == tiff_word(v, le)[1],
    ensures
        exif_apply(d, m) == (ImageMetaView { orientation: Some(v), ..m }),
{
    lemma_tiff_long(d, t + 4, 8, le);
    lemma_tiff_word(d, t + 8, 1, le);
    lemma_tiff_word(d, t + 10, 0x0112, le);
    lemma_tiff_word(d, t + 12, 3, le);
    lemma_tiff_word(d, t + 18, v, le);
    lemma_exif_single_entry(d, t, le, m);
    lemma_orientation_entry(d, t, le, v, m);
}

/// A TIFF header at `t` whose first IFD, at offset 8, holds one entry: the report is that
/// entry's effect.
proof fn lemma_exif_single_entry(d: Seq<u8>, t: int, le: bool, m: ImageMetaView)
    requires
        t == 0 || t == 6,
        tiff_start(d) == t,
        d.len() >= t + 22,
        le <==> (d[t] == 0x49 && d[t + 1] == 0x49),
        !le ==> (d[t] == 0x4D && d[t + 1] == 0x4D),
        rd32(d, t + 4, le) == 8,
        rd16(d, t + 8, le) == 1,
    ensures
        exif_apply(d, m) == exif_entry(d, t, le, t + 10, m),
{
    reveal(exif_apply);
    assert(exif_entries(d, t, le, t + 10, 1, m) == exif_entries(d, t, le, t + 22, 0, exif_entry(d, t, le, t + 10, m)));
}

/// A SHORT `Orientation` entry sets the orientation to its value and nothing else.
proof fn lemma_orientation_entry(d: Seq<u8>, t: int, le: bool, v: u16, m: ImageMetaView)
    requires
        rd16(d, t + 10, le) == 0x0112,
        rd16(d, t + 12, le) == 3,
        rd16(d, t + 18, le) == v,
    ensures
        exif_entry(d, t, le, t + 10, m) == (ImageMetaView { orientation: Some(v), ..m }),
{
}

/// A TIFF header whose first IFD (at offset 8) holds one entry: `Make`, type ASCII, with the
/// count and offset (26, right after the next-IFD link) of `text`, which follows.
pub open spec fn tiff_with_make(le: bool, text: Seq<u8>) -> Seq<u8> {
    tiff_mark(le) + tiff_word(42, le) + tiff_long(8, le) + tiff_word(1, le) + tiff_word(0x010F, le)
        + tiff_word(2, le) + tiff_long(text.len() as u16, le) + tiff_long(26, le) + tiff_long(0, le)
        + text
}

/// The layout of [`tiff_with_make`] inside a block, byte by byte.
proof fn lemma_make_layout(pre: Seq<u8>, le: bool, text: Seq<u8>, tail: Seq<u8>)
    requires
        text.len() < 0x1_0000,
    ensures
        ({
            let d = pre + tiff_with_make(le, text) + tail;
            let t = pre.len() as int;
            let n = text.len() as int;
            &&& d.len() == t + 26 + n + tail.len()
            &&& tiff_with_make(le, text).len() == 26 + n
            &&& tiff_with_make(le, text)[0] == tiff_mark(le)[0]
            &&& d[t] == tiff_mark(le)[0] && d[t + 1] == tiff_mark(le)[1]
            &&& d.subrange(t + 4, t + 8) == tiff_long(8, le)
            &&& d[t + 8] == tiff_word(1, le)[0] && d[t + 9] == tiff_word(1, le)[1]
            &&& d[t + 10] == tiff_word(0x010F, le)[0] && d[t + 11] == tiff_word(0x010F, le)[1]
            &&& d[t + 12] == tiff_word(2, le)[0] && d[t + 13] == tiff_word(2, le)[1]
            &&& d.subrange(t + 14, t + 18) == tiff_long(text.len() as u16, le)
            &&& d.subrange(t + 18, t + 22) == tiff_long(26, le)
            &&& d.subrange(t + 26, t + 26 + n) == text
        }),
{
    let b = tiff_with_make(le, text);
    let d = pre + b + tail;
    let t = pre.len() as int;
    let n = text.len() as int;
    assert(b.len() == 26 + n);
    assert forall|i: int| 0 <= i < 26 + n implies d[t + i] == b[i] by {
        assert(d[t + i] == (pre + b)[t + i]);
    }
    assert(d.subrange(t + 4, t + 8) =~= b.subrange(4, 8));
    assert(b.subrange(4, 8) =~= tiff_long(8, le));
    assert(d.subrange(t + 14, t + 18) =~= b.subrange(14, 18));
    assert(b.subrange(14, 18) =~= tiff_long(text.len() as u16, le));
    assert(d.subrange(t + 18, t + 22) =~= b.subrange(18, 22));
    assert(b.subrange(18, 22) =~= tiff_long(26, le));
    assert(d.subrange(t + 26, t + 26 + n) =~= b.subrange(26, 26 + n));
    assert(b.subrange(26, 26 + n) =~= text);
}

/// An ASCII `Make` entry whose text lies at offset 26 from the TIFF header sets the camera
/// make to that text.
proof fn lemma_make_entry(d: Seq<u8>, t: int, le: bool, text: Seq<u8>, m: ImageMetaView)
    requires
        0 <= t,
        5 <= text.len() < 64,
        all_ascii(text),
        text.last() != 0,
        d.len() >= t + 26 + text.len(),
        rd16(d, t + 10, le) == 0x010F,
        rd16(d, t + 12, le) == 2,
        rd32(d, t + 14, le) == text.len(),
        rd32(d, t + 18, le) == 26,
        d.subrange(t + 26, t + 26 + text.len()) == text,
    ensures
        exif_entry(d, t, le, t + 10, m) == (ImageMetaView {
            camera_make: Some(latin_chars(text)),
            ..m
        }),
{
    lemma_ascii_is_utf8(text);
    let cs = latin_chars(text);
    assert(cs.last() == text.last() as char);
    assert(trim_trailing_nul(cs) == cs);
    assert(exif_text(d, t, le, t + 10) == Some(cs));
}

/// A block whose bytes from the TIFF header at `t` on are those of [`tiff_with_make`].
proof fn lemma_make_from_bytes(d: Seq<u8>, t: int, le: bool, text: Seq<u8>, m: ImageMetaView)
    requires
        t == 0 || t == 6,
        5 <= text.len() < 64,
        all_ascii(text),
        text.last() != 0,
        tiff_start(d) == t,
        d.len() >= t + 26 + text.len(),
        d[t] == tiff_mark(le)[0] && d[t + 1] == tiff_mark(le)[1],
        d.subrange(t + 4, t + 8) == tiff_long(8, le),
        d[t + 8] == tiff_word(1, le)[0] && d[t + 9] == tiff_word(1, le)[1],
        d[t + 10] == tiff_word(0x010F, le)[0] && d[t + 11] == tiff_word(0x010F, le)[1],
        d[t + 12] == tiff_word(2, le)[0] && d[t + 13] == tiff_word(2, le)[1],
        d.subrange(t + 14, t + 18) == tiff_long(text.len() as u16, le),
        d.subrange(t + 18, t + 22) == tiff_long(26, le),
        d.subrange(t + 26, t + 26 + text.len()) == text,
    ensures
        exif_apply(d, m) == (ImageMetaView { camera_make: Some(latin_chars(text)), ..m }),
{
    lemma_tiff_long(d, t + 4, 8, le);
    lemma_tiff_word(d, t + 8, 1, le);
    lemma_tiff_word(d, t + 10, 0x010F, le);
    lemma_tiff_word(d, t + 12, 2, le);
    lemma_tiff_long(d, t + 14, text.len() as u16, le);
    lemma_tiff_long(d, t + 18, 26, le);
    lemma_exif_single_entry(d, t, le, m);
    lemma_make_entry(d, t, le, text, m);
}

/// An EXIF block (with or without its `Exif\0\0` prefix) whose TIFF header, in either byte
/// order, has a first IFD with a single ASCII `Make` entry pointing, relative to the TIFF
/// header, at its text (5 to 63 ASCII bytes, not ending in NUL) reports that text as the
/// camera make and changes nothing else.
pub proof fn law_exif_make(pre: Seq<u8>, le: bool, text: Seq<u8>, tail: Seq<u8>, m: ImageMetaView)
    requires
        pre == Seq::<u8>::empty() || pre == exif_header(),
        5 <= text.len() < 64,
        all_ascii(text),
        text.last() != 0,
    ensures
        exif_apply(pre + tiff_with_make(le, text) + tail, m) == (ImageMetaView {
            camera_make: Some(latin_chars(text)),
            ..m
        }),
{
    let d = pre + tiff_with_make(le, text) + tail;
    let t = pre.len() as int;
    lemma_make_layout(pre, le, text, tail);
    lemma_tiff_start_of(pre, tiff_with_make(le, text), tail);
    lemma_make_from_bytes(d, t, le, text, m);
}

/// A TIFF header whose first IFD (at offset 8) holds one entry: `GPSInfo`, type LONG, count 1,
/// pointing at offset `off` from the TIFF header.
pub open spec fn tiff_with_gps(le: bool, off: u16) -> Seq<u8> {
    tiff_mark(le) + tiff_word(42, le) + tiff_long(8, le) + tiff_word(1, le) + tiff_word(0x8825, le)
        + tiff_word(4, le) + tiff_long(1, le) + tiff_long(off, le)
}

/// The layout of [`tiff_with_gps`] inside a block, byte by byte.
proof fn lemma_gps_layout(pre: Seq<u8>, le: bool, off: u16, tail: Seq<u8>)
    ensures
        ({
            let d = pre + tiff_with_gps(le, off) + tail;
            let t = pre.len() as int;
            &&& d.len() == t + 22 + tail.len()
            &&& tiff_with_gps(le, off).len() == 22
            &&& tiff_with_gps(le, off)[0] == tiff_mark(le)[0]
            &&& d[t] == tiff_mark(le)[0] && d[t + 1] == tiff_mark(le)[1]
            &&& d.subrange(t + 4, t + 8) == tiff_long(8, le)
            &&& d[t + 8] == tiff_word(1, le)[0] && d[t + 9] == tiff_word(1, le)[1]
            &&& d[t + 10] == tiff_word(0x8825, le)[0] && d[t + 11] == tiff_word(0x8825, le)[1]
            &&& d[t + 12] == tiff_word(4, le)[0] && d[t + 13] == tiff_word(4, le)[1]
            &&& d.subrange(t + 18, t + 22) == tiff_long(off, le)
        }),
{
    let b = tiff_with_gps(le, off);
    let d = pre + b + tail;
    let t = pre.len() as int;
    assert(b.len() == 22);
    assert forall|i: int| 0 <= i < 22 implies d[t + i] == b[i] by {
        assert(d[t + i] == (pre + b)[t + i]);
    }
    assert(d.subrange(t + 4, t + 8) =~= b.subrange(4, 8));
    assert(b.subrange(4, 8) =~= tiff_long(8, le));
    assert(d.subrange(t + 18, t + 22) =~= b.subrange(18, 22));
    assert(b.subrange(18, 22) =~= tiff_long(off, le));
}

/// A block whose bytes from the TIFF header at `t` on are those of [`tiff_with_gps`].
proof fn lemma_gps_from_bytes(d: Seq<u8>, t: int, le: bool, off: u16, m: ImageMetaView)
    requires
        t == 0 || t == 6,
        tiff_start(d) == t,
        d.len() >= t + 22,
        d[t] == tiff_mark(le)[0] && d[t + 1] == tiff_mark(le)[1],
        d.subrange(t + 4, t + 8) == tiff_long(8, le),
        d[t + 8] == tiff_word(1, le)[0] && d[t + 9] == tiff_word(1, le)[1],
        d[t + 10] == tiff_word(0x8825, le)[0] && d[t + 11] == tiff_word(0x8825, le)[1],
        d[t + 12] == tiff_word(4, le)[0] && d[t + 13] == tiff_word(4, le)[1],
        d.subrange(t + 18, t + 22) == tiff_long(off, le),
    ensures
        exif_apply(d, m) == if t + off + 2 <= d.len() {
            ImageMetaView { has_gps: Some(true), ..m }
        } else {
            m
        },
{
    lemma_tiff_long(d, t + 4, 8, le);
    lemma_tiff_word(d, t + 8, 1, le);
    lemma_tiff_word(d, t + 10, 0x8825, le);
    lemma_tiff_word(d, t + 12, 4, le);
    lemma_tiff_long(d, t + 18, off, le);
    lemma_exif_single_entry(d, t, le, m);
}

/// An EXIF block (with or without its `Exif\0\0` prefix) whose TIFF header, in either byte
/// order, has a first IFD with a single LONG `GPSInfo` entry marks the image as carrying GPS
/// data exactly where the pointed-at IFD's entry count lies inside the block, and changes
/// nothing else.
pub proof fn law_exif_gps(pre: Seq<u8>, le: bool, off: u16, tail: Seq<u8>, m: ImageMetaView)
    requires
        pre == Seq::<u8>::empty() || pre == exif_header(),
    ensures
        exif_apply(pre + tiff_with_gps(le, off) + tail, m) == if off + 2 <= 22 + tail.len() {
            ImageMetaView { has_gps: Some(true), ..m }
        } else {
            m
        },
{
    let d = pre + tiff_with_gps(le, off) + tail;
    let t = pre.len() as int;
    lemma_gps_layout(pre, le, off, tail);
    lemma_tiff_start_of(pre, tiff_with_gps(le, off), tail);
    lemma_gps_from_bytes(d, t, le, off, m);
}

}
