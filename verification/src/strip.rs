use vstd::prelude::*;
use crate::bytes::{append_range, be16, be32, bytes_at, has_at, read_u16_be, read_u32_be};
use crate::image::{is_png_signature, png_signature};
use crate::gif::{gif_strip_outcome, strip_gif};
use crate::names::StripFormat;

verus! {

/// The bytes of an optional buffer.
pub open spec fn opt_bytes(r: Option<Vec<u8>>) -> Option<Seq<u8>> {
    match r {
        Some(v) => Some(v@),
        None => None,
    }
}

// ---------------------------------------------------------------------------------------------
// Text: drop a UTF-8 byte-order mark and turn CRLF and lone CR into LF.

/// The UTF-8 byte-order mark.
pub open spec fn utf8_bom() -> Seq<u8> {
    seq![0xEFu8, 0xBB, 0xBF]
}

/// What one byte becomes, given whether the byte before it was a CR.
pub open spec fn eol_step(b: u8, after_cr: bool) -> Seq<u8> {
    if b == 0x0D {
        seq![0x0Au8]
    } else if b == 0x0A {
        if after_cr {
            seq![]
        } else {
            seq![0x0Au8]
        }
    } else {
        seq![b]
    }
}

/// `s` with every CR turned into LF and every LF that follows a CR dropped.
pub open spec fn normalize_eol(s: Seq<u8>) -> Seq<u8>
    decreases s.len(),
{
    if s.len() == 0 {
        seq![]
    } else {
        let init = s.drop_last();
        normalize_eol(init) + eol_step(s.last(), init.len() > 0 && init.last() == 0x0D)
    }
}

/// Whether a CR byte occurs.
pub open spec fn contains_cr(s: Seq<u8>) -> bool {
    exists|i: int| 0 <= i < s.len() && s[i] == 0x0D
}

/// The text after its byte-order mark, if it has one.
pub open spec fn text_body(d: Seq<u8>) -> Seq<u8> {
    if has_at(d, 0, utf8_bom()) {
        d.skip(3)
    } else {
        d
    }
}

/// The stripped text, where stripping changes anything: that is where the text starts with a
/// byte-order mark or holds a CR.
pub open spec fn strip_text_spec(d: Seq<u8>) -> Option<Seq<u8>> {
    if has_at(d, 0, utf8_bom()) || contains_cr(text_body(d)) {
        Some(normalize_eol(text_body(d)))
    } else {
        None
    }
}

/// Strips a text file's byte-order mark and normalises its line endings to LF; `None` where
/// nothing would change.
pub fn strip_text(data: &[u8]) -> (r: Option<Vec<u8>>)
    ensures
        opt_bytes(r) == strip_text_spec(data@),
        r matches Some(out) ==> !contains_cr(out@),
{
    let mut out: Vec<u8> = Vec::with_capacity(data.len());
    let mut pos: usize = 0;
    let mut changed = false;
    let bom: [u8; 3] = [0xEF, 0xBB, 0xBF];
    assert(bom@ == utf8_bom());
    if bytes_at(data, 0, &bom) {
        pos = 3;
        changed = true;
    }
    let ghost start = pos as int;
    assert(data@.subrange(start, start) =~= Seq::<u8>::empty());
    let mut prev_cr = false;
    let mut i = pos;
    while i < data.len()
        invariant
            start == pos,
            pos <= i <= data.len(),
            text_body(data@) == data@.subrange(start, data@.len() as int),
            out@ == normalize_eol(data@.subrange(start, i as int)),
            prev_cr == (i > start && data@[i - 1] == 0x0D),
            changed == (has_at(data@, 0, utf8_bom()) || exists|j: int|
                start <= j < i && data@[j] == 0x0D),
        decreases data.len() - i,
    {
        let b = data[i];
        let ghost sub = data@.subrange(start, i + 1);
        assert(sub.drop_last() =~= data@.subrange(start, i as int));
        if b == 0x0D {
            out.push(0x0A);
            prev_cr = true;
            changed = true;
        } else if b == 0x0A {
            if !prev_cr {
                out.push(0x0A);
            }
            prev_cr = false;
        } else {
            out.push(b);
            prev_cr = false;
        }
        assert(out@ =~= normalize_eol(sub));
        i = i + 1;
    }
    proof {
        let body = text_body(data@);
        assert(data@.subrange(start, data@.len() as int) =~= body);
        if contains_cr(body) {
            let j = choose|j: int| 0 <= j < body.len() && body[j] == 0x0D;
            assert(data@[start + j] == 0x0D);
        }
        if exists|j: int| start <= j < data@.len() && data@[j] == 0x0D {
            let j = choose|j: int| start <= j < data@.len() && data@[j] == 0x0D;
            assert(body[j - start] == 0x0D);
        }
        lemma_normalize_has_no_cr(body);
    }
    if changed {
        Some(out)
    } else {
        None
    }
}

/// Normalised text holds no CR.
pub proof fn lemma_normalize_has_no_cr(s: Seq<u8>)
    ensures
        !contains_cr(normalize_eol(s)),
    decreases s.len(),
{
    if s.len() > 0 {
        let init = s.drop_last();
        lemma_normalize_has_no_cr(init);
        let a = normalize_eol(init);
        let b = eol_step(s.last(), init.len() > 0 && init.last() == 0x0D);
        assert forall|i: int| 0 <= i < (a + b).len() implies (a + b)[i] != 0x0D by {
            if i < a.len() {
                assert((a + b)[i] == a[i]);
            }
        }
    }
}

/// Stripping text a second time changes nothing, unless the first stripping left a
/// byte-order mark at the start (as it does for a text that starts with two of them).
pub proof fn law_strip_text_idempotent(d: Seq<u8>)
    requires
        strip_text_spec(d) is Some,
        !has_at(strip_text_spec(d)->0, 0, utf8_bom()),
    ensures
        strip_text_spec(strip_text_spec(d)->0) is None,
{
    let out = strip_text_spec(d)->0;
    lemma_normalize_has_no_cr(text_body(d));
    assert(text_body(out) == out);
}


// ---------------------------------------------------------------------------------------------
// PNG: keep the critical chunks IHDR, PLTE, IDAT and IEND, drop every other chunk.

pub open spec fn plte_tag() -> Seq<u8> {
    seq![0x50u8, 0x4C, 0x54, 0x45]
}

pub open spec fn idat_tag() -> Seq<u8> {
    seq![0x49u8, 0x44, 0x41, 0x54]
}

pub open spec fn iend_tag() -> Seq<u8> {
    seq![0x49u8, 0x45, 0x4E, 0x44]
}

/// The critical chunk types, which the stripper keeps.
pub open spec fn png_chunk_kept(t: Seq<u8>) -> bool {
    t == crate::image::ihdr_tag() || t == plte_tag() || t == idat_tag() || t == iend_tag()
}

/// Where the chunk at `pos` ends (length, type, data, CRC).
pub open spec fn png_chunk_end(d: Seq<u8>, pos: int) -> int {
    pos + 12 + be32(d, pos) as int
}

/// Whether a whole chunk starts at `pos`.
pub open spec fn png_chunk_at(d: Seq<u8>, pos: int) -> bool {
    0 <= pos && pos + 12 <= d.len() && png_chunk_end(d, pos) <= d.len()
}

/// The type field of the chunk at `pos`.
pub open spec fn png_chunk_type(d: Seq<u8>, pos: int) -> Seq<u8> {
    d.subrange(pos + 4, pos + 8)
}

/// The bytes of the critical chunks from `pos` on, up to and including IEND; the walk stops
/// at the first chunk that does not fit.
pub open spec fn png_kept(d: Seq<u8>, pos: int) -> Seq<u8>
    decreases d.len() - pos,
{
    if !png_chunk_at(d, pos) {
        seq![]
    } else {
        let end = png_chunk_end(d, pos);
        let piece = if png_chunk_kept(png_chunk_type(d, pos)) {
            d.subrange(pos, end)
        } else {
            seq![]
        };
        if png_chunk_type(d, pos) == iend_tag() {
            piece
        } else {
            piece + png_kept(d, end)
        }
    }
}

/// Whether the walk from `pos` drops a chunk.
pub open spec fn png_drops(d: Seq<u8>, pos: int) -> bool
    decreases d.len() - pos,
{
    if !png_chunk_at(d, pos) {
        false
    } else {
        let end = png_chunk_end(d, pos);
        if png_chunk_type(d, pos) == iend_tag() {
            false
        } else {
            !png_chunk_kept(png_chunk_type(d, pos)) || png_drops(d, end)
        }
    }
}

/// The stripped PNG (signature and critical chunks), where a chunk was dropped.
pub open spec fn strip_png_spec(d: Seq<u8>) -> Option<Seq<u8>> {
    if !has_at(d, 0, png_signature()) || !png_drops(d, 8) {
        None
    } else {
        Some(d.subrange(0, 8) + png_kept(d, 8))
    }
}

fn is_chunk_type(data: &[u8], off: usize, a: u8, b: u8, c: u8, e: u8) -> (r: bool)
    requires
        off + 4 <= data@.len(),
    ensures
        r == (data@.subrange(off as int, off + 4) == seq![a, b, c, e]),
{
    let r = data[off] == a && data[off + 1] == b && data[off + 2] == c && data[off + 3] == e;
    assert(r ==> data@.subrange(off as int, off + 4) =~= seq![a, b, c, e]);
    assert(data@.subrange(off as int, off + 4) == seq![a, b, c, e] ==> {
        &&& data@.subrange(off as int, off + 4)[0] == a
        &&& data@.subrange(off as int, off + 4)[1] == b
        &&& data@.subrange(off as int, off + 4)[2] == c
        &&& data@.subrange(off as int, off + 4)[3] == e
    });
    r
}

/// Drops every ancillary chunk of a PNG; `None` where there is none to drop.
pub fn strip_png(data: &[u8]) -> (r: Option<Vec<u8>>)
    ensures
        opt_bytes(r) == strip_png_spec(data@),
{
    if !is_png_signature(data, 0) || data.len() < 8 {
        return None;
    }
    let mut out: Vec<u8> = Vec::with_capacity(data.len());
    append_range(&mut out, data, 0, 8);
    let ghost d = data@;
    let mut pos: usize = 8;
    let mut changed = false;
    loop
        invariant_except_break
            d == data@,
            8 <= pos,
            d.subrange(0, 8) + png_kept(d, 8) == out@ + png_kept(d, pos as int),
            png_drops(d, 8) == (changed || png_drops(d, pos as int)),
        ensures
            d.subrange(0, 8) + png_kept(d, 8) == out@,
            png_drops(d, 8) == changed,
        decreases data.len() - pos,
    {
        if pos > data.len() || data.len() - pos < 12 {
            assert(out@ + png_kept(d, pos as int) =~= out@);
            break;
        }
        let len = read_u32_be(data, pos) as usize;
        if len > data.len() - pos - 12 {
            assert(out@ + png_kept(d, pos as int) =~= out@);
            break;
        }
        let chunk_end = pos + 12 + len;
        let ihdr = is_chunk_type(data, pos + 4, 0x49, 0x48, 0x44, 0x52);
        let plte = is_chunk_type(data, pos + 4, 0x50, 0x4C, 0x54, 0x45);
        let idat = is_chunk_type(data, pos + 4, 0x49, 0x44, 0x41, 0x54);
        let iend = is_chunk_type(data, pos + 4, 0x49, 0x45, 0x4E, 0x44);
        let keep = ihdr || plte || idat || iend;
        assert(keep == png_chunk_kept(png_chunk_type(d, pos as int)));
        assert(iend == (png_chunk_type(d, pos as int) == iend_tag()));
        let ghost old_out = out@;
        if keep {
            append_range(&mut out, data, pos, chunk_end);
        } else {
            changed = true;
        }
        if iend {
            assert(out@ == old_out + png_kept(d, pos as int));
            break;
        }
        assert(old_out + png_kept(d, pos as int) =~= out@ + png_kept(d, chunk_end as int));
        pos = chunk_end;
    }
    if changed {
        Some(out)
    } else {
        None
    }
}


/// The PNG walk reads only what lies at and after its position.
pub proof fn lemma_png_walk_shift(a: Seq<u8>, b: Seq<u8>, p: int)
    requires
        0 <= p,
    ensures
        png_kept(a + b, a.len() + p) == png_kept(b, p),
        png_drops(a + b, a.len() + p) == png_drops(b, p),
    decreases b.len() - p,
{
    let ab = a + b;
    let q = a.len() + p;
    if p + 12 <= b.len() {
        assert(ab.subrange(q, q + 4) =~= b.subrange(p, p + 4));
        assert(ab[q] == b[p] && ab[q + 1] == b[p + 1] && ab[q + 2] == b[p + 2] && ab[q + 3] == b[p + 3]);
        assert(be32(ab, q) == be32(b, p));
        assert(png_chunk_type(ab, q) =~= png_chunk_type(b, p));
        if png_chunk_at(b, p) {
            let end = png_chunk_end(b, p);
            assert(ab.subrange(q, a.len() + end) =~= b.subrange(p, end));
            lemma_png_walk_shift(a, b, end);
        }
    }
}

/// The critical chunks that a walk keeps are kept whole, and nothing else, by a second walk.
proof fn lemma_png_kept_is_stable(d: Seq<u8>, pos: int)
    requires
        0 <= pos,
    ensures
        png_kept(png_kept(d, pos), 0) == png_kept(d, pos),
        !png_drops(png_kept(d, pos), 0),
    decreases d.len() - pos,
{
    let k = png_kept(d, pos);
    if png_chunk_at(d, pos) {
        let end = png_chunk_end(d, pos);
        let t = png_chunk_type(d, pos);
        let piece = d.subrange(pos, end);
        lemma_png_kept_is_stable(d, end);
        let rest = png_kept(d, end);
        if png_chunk_kept(t) {
            let k2 = if t == iend_tag() { piece } else { piece + rest };
            assert(k == k2);
            assert(k.subrange(0, 4) =~= d.subrange(pos, pos + 4));
            assert(k[0] == d[pos] && k[1] == d[pos + 1] && k[2] == d[pos + 2] && k[3] == d[pos + 3]);
            assert(png_chunk_end(k, 0) == piece.len());
            assert(png_chunk_type(k, 0) =~= t);
            assert(k.subrange(0, piece.len() as int) =~= piece);
            if t != iend_tag() {
                lemma_png_walk_shift(piece, rest, 0);
                assert(piece + rest == k);
            }
        }
    }
}

/// Stripping a PNG a second time changes nothing: what the first pass keeps consists of
/// critical chunks only.
pub proof fn law_strip_png_idempotent(d: Seq<u8>)
    requires
        strip_png_spec(d) is Some,
    ensures
        strip_png_spec(strip_png_spec(d)->0) is None,
{
    let k = png_kept(d, 8);
    let head = d.subrange(0, 8);
    let out = head + k;
    assert(strip_png_spec(d)->0 == out);
    lemma_png_kept_is_stable(d, 8);
    lemma_png_walk_shift(head, k, 0);
}

/// Stripping a PNG that the scanner can read leaves its report unchanged: the IHDR chunk right
/// after the signature is kept.
pub proof fn law_strip_png_keeps_report(d: Seq<u8>)
    requires
        strip_png_spec(d) is Some,
        crate::image::png_spec(d) is Some,
    ensures
        crate::image::image_spec(Some(strip_png_spec(d)->0)) == crate::image::image_spec(Some(d)),
{
    let out = strip_png_spec(d)->0;
    let ihdr = d.subrange(8, 33);
    assert(png_chunk_type(d, 8) =~= crate::image::ihdr_tag());
    assert(png_chunk_end(d, 8) == 33);
    assert(png_kept(d, 8) == ihdr + png_kept(d, 33));
    assert(out.subrange(0, 33) =~= d.subrange(0, 33));
    assert forall|i: int| 0 <= i < 33 implies out[i] == d[i] by {
        assert(out.subrange(0, 33)[i] == d.subrange(0, 33)[i]);
    }
    assert(out.subrange(0, 8) =~= d.subrange(0, 8));
    assert(out.subrange(0, 4) =~= d.subrange(0, 4));
    assert(out.subrange(12, 16) =~= d.subrange(12, 16));
    assert(out.subrange(0, 2) =~= d.subrange(0, 2));
}


// ---------------------------------------------------------------------------------------------
// JPEG: keep the segments that the image needs, drop the others (EXIF, comments, ...).

/// The segments a stripped JPEG keeps: APP0 (JFIF), SOF0–SOF3, DHT, SOS, DQT and DRI.
pub open spec fn jpeg_keeps(marker: u8) -> bool {
    marker == 0xE0 || (0xC0 <= marker && marker <= 0xC4) || marker == 0xDA || marker == 0xDB
        || marker == 0xDD
}

/// The first position at or after `p` where the EOI marker `FF D9` starts.
pub open spec fn find_eoi(d: Seq<u8>, p: int) -> Option<int>
    decreases d.len() - p,
{
    if p < 0 || p + 2 > d.len() {
        None
    } else if d[p] == 0xFF && d[p + 1] == 0xD9 {
        Some(p)
    } else {
        find_eoi(d, p + 1)
    }
}

/// The entropy-coded data after the SOS segment, up to the first EOI, followed by EOI; or all
/// that is left where there is no EOI.
pub open spec fn jpeg_scan_tail(d: Seq<u8>, p: int) -> Seq<u8> {
    match find_eoi(d, p) {
        Some(e) => d.subrange(p, e) + seq![0xFFu8, 0xD9],
        None => d.subrange(p, d.len() as int),
    }
}

/// The bytes that the strip walk from `pos` keeps.  It stops at a byte other than `0xFF`, after
/// EOI, at a segment whose length does not fit, and after the scan that follows SOS.
pub open spec fn jpeg_kept(d: Seq<u8>, pos: int) -> Seq<u8>
    decreases d.len() - pos,
{
    if pos < 0 || pos + 2 > d.len() || d[pos] != 0xFF {
        seq![]
    } else {
        let marker = d[pos + 1];
        if marker == 0xD9 {
            d.subrange(pos, pos + 2)
        } else if crate::image::is_standalone_marker(marker) {
            d.subrange(pos, pos + 2) + jpeg_kept(
                d,
                pos + if marker == 0xD8 {
                    1int
                } else {
                    2int
                },
            )
        } else if pos + 4 > d.len() {
            seq![]
        } else {
            let seg_len = be16(d, pos + 2) as int;
            if seg_len < 2 || pos + 2 + seg_len > d.len() {
                seq![]
            } else {
                let next = pos + 2 + seg_len;
                let piece = if jpeg_keeps(marker) {
                    d.subrange(pos, next)
                } else {
                    seq![]
                };
                if marker == 0xDA {
                    piece + jpeg_scan_tail(d, next)
                } else {
                    piece + jpeg_kept(d, next)
                }
            }
        }
    }
}

/// Whether the strip walk from `pos` drops a segment.
pub open spec fn jpeg_drops(d: Seq<u8>, pos: int) -> bool
    decreases d.len() - pos,
{
    if pos < 0 || pos + 2 > d.len() || d[pos] != 0xFF {
        false
    } else {
        let marker = d[pos + 1];
        if marker == 0xD9 {
            false
        } else if crate::image::is_standalone_marker(marker) {
            jpeg_drops(
                d,
                pos + if marker == 0xD8 {
                    1int
                } else {
                    2int
                },
            )
        } else if pos + 4 > d.len() {
            false
        } else {
            let seg_len = be16(d, pos + 2) as int;
            if seg_len < 2 || pos + 2 + seg_len > d.len() {
                false
            } else if marker == 0xDA {
                false
            } else {
                !jpeg_keeps(marker) || jpeg_drops(d, pos + 2 + seg_len)
            }
        }
    }
}

/// The stripped JPEG (SOI and the kept segments), where a segment was dropped.
pub open spec fn strip_jpeg_spec(d: Seq<u8>) -> Option<Seq<u8>> {
    if d.len() < 2 || d[0] != 0xFF || d[1] != 0xD8 || !jpeg_drops(d, 2) {
        None
    } else {
        Some(d.subrange(0, 2) + jpeg_kept(d, 2))
    }
}

/// Searches `data[from..]` for the EOI marker.
fn search_eoi(data: &[u8], from: usize) -> (r: Option<usize>)
    requires
        from <= data@.len(),
    ensures
        r matches Some(e) ==> find_eoi(data@, from as int) == Some(e as int) && from <= e && e
            + 2 <= data@.len(),
        r is None ==> find_eoi(data@, from as int) is None,
{
    let mut p = from;
    while p < data.len() && data.len() - p >= 2
        invariant
            from <= p <= data@.len(),
            find_eoi(data@, p as int) == find_eoi(data@, from as int),
        decreases data.len() - p,
    {
        if data[p] == 0xFF && data[p + 1] == 0xD9 {
            return Some(p);
        }
        p = p + 1;
    }
    None
}

/// Drops the JPEG segments that carry metadata (EXIF and every other APPn but APP0, comments,
/// ...); `None` where there is none to drop.
pub fn strip_jpeg(data: &[u8]) -> (r: Option<Vec<u8>>)
    ensures
        opt_bytes(r) == strip_jpeg_spec(data@),
{
    if data.len() < 2 || data[0] != 0xFF || data[1] != 0xD8 {
        return None;
    }
    let mut out: Vec<u8> = Vec::with_capacity(data.len());
    append_range(&mut out, data, 0, 2);
    let ghost d = data@;
    let mut pos: usize = 2;
    let mut changed = false;
    loop
        invariant_except_break
            d == data@,
            2 <= pos <= data.len(),
            d.subrange(0, 2) + jpeg_kept(d, 2) == out@ + jpeg_kept(d, pos as int),
            jpeg_drops(d, 2) == (changed || jpeg_drops(d, pos as int)),
        ensures
            d.subrange(0, 2) + jpeg_kept(d, 2) == out@,
            jpeg_drops(d, 2) == changed,
        decreases data.len() - pos,
    {
        if data.len() - pos < 2 || data[pos] != 0xFF {
            assert(out@ + jpeg_kept(d, pos as int) =~= out@);
            break;
        }
        let marker = data[pos + 1];
        let ghost old_out = out@;
        let ghost p0 = pos as int;
        if marker == 0xD9 {
            append_range(&mut out, data, pos, pos + 2);
            break;
        }
        if marker == 0x00 || (0xD0 <= marker && marker <= 0xD8) {
            append_range(&mut out, data, pos, pos + 2);
            pos = pos + if marker == 0xD8 {
                1
            } else {
                2
            };
            assert(old_out + jpeg_kept(d, p0) =~= out@ + jpeg_kept(d, pos as int));
            continue;
        }
        if data.len() - pos < 4 {
            assert(out@ + jpeg_kept(d, pos as int) =~= out@);
            break;
        }
        let seg_len = read_u16_be(data, pos + 2) as usize;
        if seg_len < 2 || seg_len > data.len() - pos - 2 {
            assert(out@ + jpeg_kept(d, pos as int) =~= out@);
            break;
        }
        let keep = marker == 0xE0 || (0xC0 <= marker && marker <= 0xC4) || marker == 0xDA
            || marker == 0xDB || marker == 0xDD;
        if keep {
            append_range(&mut out, data, pos, pos + 2 + seg_len);
        } else {
            changed = true;
        }
        pos = pos + 2 + seg_len;
        if marker == 0xDA {
            let ghost before_tail = out@;
            match search_eoi(data, pos) {
                Some(eoi) => {
                    append_range(&mut out, data, pos, eoi);
                    let ghost mid = out@;
                    out.push(0xFF);
                    out.push(0xD9);
                    assert(out@ =~= mid + seq![0xFFu8, 0xD9]);
                    assert(out@ =~= before_tail + jpeg_scan_tail(d, pos as int));
                },
                None => {
                    append_range(&mut out, data, pos, data.len());
                    assert(out@ =~= before_tail + jpeg_scan_tail(d, pos as int));
                },
            }
            assert(out@ =~= before_tail + jpeg_scan_tail(d, pos as int));
            assert(old_out + jpeg_kept(d, p0) =~= out@);
            break;
        }
        assert(old_out + jpeg_kept(d, p0) =~= out@ + jpeg_kept(d, pos as int));
    }
    if changed {
        Some(out)
    } else {
        None
    }
}


/// `FF D9` stands at `i`.
pub open spec fn eoi_at(d: Seq<u8>, i: int) -> bool {
    0 <= i && i + 2 <= d.len() && d[i] == 0xFF && d[i + 1] == 0xD9
}

/// The search for EOI finds the first one at or after `p`, and nothing where there is none.
proof fn lemma_find_eoi_first(d: Seq<u8>, p: int)
    requires
        0 <= p,
    ensures
        find_eoi(d, p) matches Some(e) ==> p <= e && eoi_at(d, e) && forall|i: int|
            p <= i < e ==> !eoi_at(d, i),
        find_eoi(d, p) is None ==> forall|i: int| p <= i ==> !eoi_at(d, i),
    decreases d.len() - p,
{
    if p + 2 <= d.len() && !(d[p] == 0xFF && d[p + 1] == 0xD9) {
        lemma_find_eoi_first(d, p + 1);
    }
}

/// Where the first EOI at or after `p` is `e`, the search finds it; where there is none, the
/// search finds nothing.
proof fn lemma_find_eoi_is_first(d: Seq<u8>, p: int, e: Option<int>)
    requires
        0 <= p,
        e matches Some(x) ==> p <= x && eoi_at(d, x) && forall|i: int| p <= i < x ==> !eoi_at(d, i),
        e is None ==> forall|i: int| p <= i ==> !eoi_at(d, i),
    ensures
        find_eoi(d, p) == e,
    decreases d.len() - p,
{
    if p + 2 <= d.len() {
        if d[p] == 0xFF && d[p + 1] == 0xD9 {
            assert(eoi_at(d, p));
        } else {
            assert(!eoi_at(d, p));
            lemma_find_eoi_is_first(d, p + 1, e);
        }
    } else {
        if let Some(x) = e {
            assert(eoi_at(d, x));
        }
    }
}

/// The JPEG strip walk reads only what lies at and after its position.
proof fn lemma_jpeg_walk_shift(a: Seq<u8>, b: Seq<u8>, p: int)
    requires
        0 <= p,
    ensures
        jpeg_kept(a + b, a.len() + p) == jpeg_kept(b, p),
        jpeg_drops(a + b, a.len() + p) == jpeg_drops(b, p),
    decreases b.len() - p,
{
    let ab = a + b;
    let q = a.len() + p;
    if p + 2 <= b.len() {
        assert(ab[q] == b[p] && ab[q + 1] == b[p + 1]);
        assert(ab.subrange(q, q + 2) =~= b.subrange(p, p + 2));
        let marker = b[p + 1];
        if b[p] == 0xFF && marker != 0xD9 {
            if crate::image::is_standalone_marker(marker) {
                lemma_jpeg_walk_shift(a, b, p + if marker == 0xD8 { 1int } else { 2int });
            } else if p + 4 <= b.len() {
                assert(ab[q + 2] == b[p + 2] && ab[q + 3] == b[p + 3]);
                let seg_len = be16(b, p + 2) as int;
                assert(be16(ab, q + 2) as int == seg_len);
                if seg_len >= 2 && p + 2 + seg_len <= b.len() {
                    let next = p + 2 + seg_len;
                    assert(ab.subrange(q, a.len() + next) =~= b.subrange(p, next));
                    if marker == 0xDA {
                        lemma_find_eoi_shift(a, b, next);
                        lemma_find_eoi_first(b, next);
                        match find_eoi(b, next) {
                            Some(e) => {
                                assert(ab.subrange(a.len() + next, a.len() + e) =~= b.subrange(next, e));
                            },
                            None => {
                                assert(ab.subrange(a.len() + next, ab.len() as int) =~= b.subrange(
                                    next,
                                    b.len() as int,
                                ));
                            },
                        }
                    } else {
                        lemma_jpeg_walk_shift(a, b, next);
                    }
                }
            }
        }
    }
}

proof fn lemma_find_eoi_shift(a: Seq<u8>, b: Seq<u8>, p: int)
    requires
        0 <= p,
    ensures
        find_eoi(a + b, a.len() + p) == (match find_eoi(b, p) {
            Some(e) => Some(a.len() + e),
            None => None,
        }),
    decreases b.len() - p,
{
    let ab = a + b;
    let q = a.len() + p;
    if p + 2 <= b.len() {
        assert(ab[q] == b[p] && ab[q + 1] == b[p + 1]);
        if !(b[p] == 0xFF && b[p + 1] == 0xD9) {
            lemma_find_eoi_shift(a, b, p + 1);
        }
    }
}

/// What the JPEG strip walk keeps is kept whole, and nothing dropped, by a second walk.
proof fn lemma_jpeg_kept_is_stable(d: Seq<u8>, pos: int)
    requires
        0 <= pos,
    ensures
        jpeg_kept(jpeg_kept(d, pos), 0) == jpeg_kept(d, pos),
        !jpeg_drops(jpeg_kept(d, pos), 0),
    decreases d.len() - pos,
{
    let k = jpeg_kept(d, pos);
    if pos + 2 <= d.len() && d[pos] == 0xFF {
        let marker = d[pos + 1];
        let two = d.subrange(pos, pos + 2);
        if marker == 0xD9 {
            assert(k == two);
            assert(k[0] == 0xFF && k[1] == 0xD9);
            assert(k.subrange(0, 2) =~= k);
        } else if crate::image::is_standalone_marker(marker) {
            let step: int = if marker == 0xD8 { 1 } else { 2 };
            let rest = jpeg_kept(d, pos + step);
            assert(k == two + rest);
            assert(k[0] == 0xFF && k[1] == marker);
            assert(k.subrange(0, 2) =~= two);
            if marker == 0xD8 {
                assert(d[pos + 1] != 0xFF);
                assert(rest == Seq::<u8>::empty());
                assert(k.len() == 2);
                assert(jpeg_kept(k, 1) == Seq::<u8>::empty());
                assert(!jpeg_drops(k, 1));
                assert(two + Seq::<u8>::empty() =~= two);
            } else {
                lemma_jpeg_kept_is_stable(d, pos + 2);
                lemma_jpeg_walk_shift(two, rest, 0);
            }
        } else if pos + 4 <= d.len() {
            let seg_len = be16(d, pos + 2) as int;
            if seg_len >= 2 && pos + 2 + seg_len <= d.len() {
                let next = pos + 2 + seg_len;
                let piece = d.subrange(pos, next);
                if !jpeg_keeps(marker) {
                    lemma_jpeg_kept_is_stable(d, next);
                    assert(k =~= jpeg_kept(d, next));
                } else {
                    let rest = if marker == 0xDA {
                        jpeg_scan_tail(d, next)
                    } else {
                        jpeg_kept(d, next)
                    };
                    assert(k == piece + rest);
                    assert(k[0] == 0xFF && k[1] == marker && k[2] == d[pos + 2] && k[3] == d[pos + 3]);
                    assert(be16(k, 2) == be16(d, pos + 2));
                    assert(k.subrange(0, piece.len() as int) =~= piece);
                    lemma_jpeg_walk_shift(piece, rest, 0);
                    if marker == 0xDA {
                        lemma_scan_tail_is_stable(d, next);
                        lemma_find_eoi_shift(piece, rest, 0);
                        lemma_find_eoi_first(rest, 0);
                        match find_eoi(rest, 0) {
                            Some(e) => {
                                assert(k.subrange(piece.len() as int, piece.len() + e) =~= rest.subrange(0, e));
                            },
                            None => {
                                assert(k.subrange(piece.len() as int, k.len() as int) =~= rest.subrange(
                                    0,
                                    rest.len() as int,
                                ));
                            },
                        }
                        assert(jpeg_scan_tail(k, piece.len() as int) == jpeg_scan_tail(rest, 0));
                    } else {
                        lemma_jpeg_kept_is_stable(d, next);
                    }
                }
            }
        }
    }
}

/// The scan data copied after SOS, with its EOI, is copied the same way by a second walk.
proof fn lemma_scan_tail_is_stable(d: Seq<u8>, p: int)
    requires
        0 <= p <= d.len(),
    ensures
        jpeg_scan_tail(jpeg_scan_tail(d, p), 0) == jpeg_scan_tail(d, p),
{
    let t = jpeg_scan_tail(d, p);
    lemma_find_eoi_first(d, p);
    match find_eoi(d, p) {
        Some(e) => {
            let n = e - p;
            assert forall|i: int| 0 <= i < n implies !eoi_at(t, i) by {
                assert(t[i] == d[p + i]);
                if i + 1 < n {
                    assert(t[i + 1] == d[p + i + 1]);
                    assert(!eoi_at(d, p + i));
                } else {
                    assert(t[i + 1] == 0xFF);
                }
            }
            assert(eoi_at(t, n));
            lemma_find_eoi_is_first(t, 0, Some(n));
            assert(t.subrange(0, n) =~= d.subrange(p, e));
        },
        None => {
            assert forall|i: int| 0 <= i implies !eoi_at(t, i) by {
                if eoi_at(t, i) {
                    assert(t[i] == d[p + i] && t[i + 1] == d[p + i + 1]);
                    assert(eoi_at(d, p + i));
                }
            }
            lemma_find_eoi_is_first(t, 0, None);
            assert(t.subrange(0, t.len() as int) =~= t);
        },
    }
}

/// Stripping a JPEG a second time changes nothing: every segment that the first pass keeps is
/// one that the stripper keeps.
pub proof fn law_strip_jpeg_idempotent(d: Seq<u8>)
    requires
        strip_jpeg_spec(d) is Some,
    ensures
        strip_jpeg_spec(strip_jpeg_spec(d)->0) is None,
{
    let k = jpeg_kept(d, 2);
    let head = d.subrange(0, 2);
    lemma_jpeg_kept_is_stable(d, 2);
    lemma_jpeg_walk_shift(head, k, 0);
}

// ---------------------------------------------------------------------------------------------
// Which segments and chunks the strippers keep.

/// The PNG signature followed by a whole chunk `c` of an image-carrying type (IHDR, PLTE or IDAT)
/// strips to the signature, `c` unchanged and what the rest strips to: such a chunk is never
/// dropped, and the result changes exactly where the rest's does.
pub proof fn law_strip_png_keeps_image_chunk(c: Seq<u8>, r: Seq<u8>)
    requires
        c.len() >= 12,
        be32(c, 0) as int == c.len() - 12,
        c.subrange(4, 8) == seq![0x49u8, 0x48, 0x44, 0x52] || c.subrange(4, 8) == seq![
            0x50u8,
            0x4C,
            0x54,
            0x45,
        ] || c.subrange(4, 8) == seq![0x49u8, 0x44, 0x41, 0x54],
    ensures
        strip_png_spec(png_signature() + c + r) == match strip_png_spec(png_signature() + r) {
            Some(o) => Some(png_signature() + c + o.skip(8)),
            None => None,
        },
{
    lemma_png_chunk_first(c, r);
}

/// The PNG signature followed by a whole chunk `c` of any type but IHDR, PLTE, IDAT and IEND
/// strips to a changed PNG, which is what the rest alone strips to where that changes too.
pub proof fn law_strip_png_drops_other_chunk(c: Seq<u8>, r: Seq<u8>)
    requires
        c.len() >= 12,
        be32(c, 0) as int == c.len() - 12,
        c.subrange(4, 8) != seq![0x49u8, 0x48, 0x44, 0x52],
        c.subrange(4, 8) != seq![0x50u8, 0x4C, 0x54, 0x45],
        c.subrange(4, 8) != seq![0x49u8, 0x44, 0x41, 0x54],
        c.subrange(4, 8) != seq![0x49u8, 0x45, 0x4E, 0x44],
    ensures
        strip_png_spec(png_signature() + c + r) is Some,
        strip_png_spec(png_signature() + r) is Some ==> strip_png_spec(png_signature() + c + r)
            == strip_png_spec(png_signature() + r),
{
    lemma_png_chunk_first(c, r);
}

proof fn lemma_png_chunk_first(c: Seq<u8>, r: Seq<u8>)
    requires
        c.len() >= 12,
        be32(c, 0) as int == c.len() - 12,
    ensures
        png_kept(png_signature() + c + r, 8) == (if png_chunk_kept(c.subrange(4, 8)) {
            c
        } else {
            seq![]
        }) + if c.subrange(4, 8) == iend_tag() {
            seq![]
        } else {
            png_kept(r, 0)
        },
        png_drops(png_signature() + c + r, 8) == (c.subrange(4, 8) != iend_tag() && (
        !png_chunk_kept(c.subrange(4, 8)) || png_drops(r, 0))),
        png_kept(png_signature() + r, 8) == png_kept(r, 0),
        png_drops(png_signature() + r, 8) == png_drops(r, 0),
        has_at(png_signature() + c + r, 0, png_signature()),
        has_at(png_signature() + r, 0, png_signature()),
        (png_signature() + c + r).subrange(0, 8) == png_signature(),
        (png_signature() + r).subrange(0, 8) == png_signature(),
{
    let sig = png_signature();
    let d = sig + c + r;
    assert(d[8] == c[0] && d[9] == c[1] && d[10] == c[2] && d[11] == c[3]);
    assert(png_chunk_end(d, 8) == 8 + c.len());
    assert(png_chunk_type(d, 8) =~= c.subrange(4, 8));
    assert(d.subrange(8, 8 + c.len() as int) =~= c);
    lemma_png_walk_shift(sig + c, r, 0);
    lemma_png_walk_shift(sig, r, 0);
    assert(d.subrange(0, 8) =~= sig);
    assert((sig + r).subrange(0, 8) =~= sig);
    if c.subrange(4, 8) == iend_tag() {
        assert(c + Seq::<u8>::empty() =~= c);
    }
}

proof fn lemma_jpeg_segment_first(s: Seq<u8>, marker: u8, r: Seq<u8>)
    requires
        crate::image::is_marker_segment(s, marker),
        marker != 0xD9,
        marker != 0xDA,
        marker != 0x00,
        !(0xD0 <= marker && marker <= 0xD8),
    ensures
        jpeg_kept(seq![0xFFu8, 0xD8] + s + r, 2) == (if jpeg_keeps(marker) {
            s
        } else {
            seq![]
        }) + jpeg_kept(r, 0),
        jpeg_drops(seq![0xFFu8, 0xD8] + s + r, 2) == (!jpeg_keeps(marker) || jpeg_drops(r, 0)),
        jpeg_kept(seq![0xFFu8, 0xD8] + r, 2) == jpeg_kept(r, 0),
        jpeg_drops(seq![0xFFu8, 0xD8] + r, 2) == jpeg_drops(r, 0),
        (seq![0xFFu8, 0xD8] + s + r).subrange(0, 2) == seq![0xFFu8, 0xD8],
{
    let soi = seq![0xFFu8, 0xD8];
    let d = soi + s + r;
    assert(d[2] == 0xFF && d[3] == marker && d[4] == s[2] && d[5] == s[3]);
    assert(be16(d, 4) as int == s.len() - 2);
    assert(d.subrange(2, 2 + s.len() as int) =~= s);
    lemma_jpeg_walk_shift(soi + s, r, 0);
    lemma_jpeg_walk_shift(soi, r, 0);
    assert(d.subrange(0, 2) =~= soi);
    assert(Seq::<u8>::empty() + jpeg_kept(r, 0) =~= jpeg_kept(r, 0));
}

/// SOI followed by a segment that carries the image (APP0, SOF0–SOF3, DHT, DQT or DRI) strips
/// to SOI, that segment unchanged and what the rest strips to: such a segment is never dropped,
/// and the result changes exactly where the rest's does.
pub proof fn law_strip_jpeg_keeps_image_segment(s: Seq<u8>, marker: u8, r: Seq<u8>)
    requires
        crate::image::is_marker_segment(s, marker),
        marker == 0xE0 || (0xC0 <= marker && marker <= 0xC4) || marker == 0xDB || marker == 0xDD,
    ensures
        strip_jpeg_spec(seq![0xFFu8, 0xD8] + s + r) == match strip_jpeg_spec(seq![0xFFu8, 0xD8] + r) {
            Some(o) => Some(seq![0xFFu8, 0xD8] + s + o.skip(2)),
            None => None,
        },
{
    lemma_jpeg_segment_first(s, marker, r);
    let soi = seq![0xFFu8, 0xD8];
    assert((soi + r).subrange(0, 2) =~= soi);
    if let Some(o) = strip_jpeg_spec(soi + r) {
        assert(o.skip(2) =~= jpeg_kept(r, 0));
        assert(soi + (s + jpeg_kept(r, 0)) =~= soi + s + o.skip(2));
    }
}

/// SOI followed by any other segment (an APPn but APP0, a comment, ...) strips to a changed
/// JPEG, which is what the rest alone strips to where that changes too.
pub proof fn law_strip_jpeg_drops_other_segment(s: Seq<u8>, marker: u8, r: Seq<u8>)
    requires
        crate::image::is_marker_segment(s, marker),
        !(marker == 0xE0 || (0xC0 <= marker && marker <= 0xC4) || marker == 0xDB || marker
            == 0xDD),
        marker != 0xD9,
        marker != 0xDA,
        marker != 0x00,
        !(0xD0 <= marker && marker <= 0xD8),
    ensures
        strip_jpeg_spec(seq![0xFFu8, 0xD8] + s + r) is Some,
        strip_jpeg_spec(seq![0xFFu8, 0xD8] + r) is Some ==> strip_jpeg_spec(seq![0xFFu8, 0xD8] + s
            + r) == strip_jpeg_spec(seq![0xFFu8, 0xD8] + r),
{
    lemma_jpeg_segment_first(s, marker, r);
    let soi = seq![0xFFu8, 0xD8];
    assert((soi + r).subrange(0, 2) =~= soi);
    assert(Seq::<u8>::empty() + jpeg_kept(r, 0) =~= jpeg_kept(r, 0));
}

/// A whole PNG chunk: its length field counts its data.
pub open spec fn is_png_chunk(c: Seq<u8>) -> bool {
    c.len() >= 12 && be32(c, 0) as int == c.len() - 12
}

/// A whole chunk that carries the image: IHDR, PLTE or IDAT.
pub open spec fn is_png_image_chunk(c: Seq<u8>) -> bool {
    is_png_chunk(c) && (c.subrange(4, 8) == crate::image::ihdr_tag() || c.subrange(4, 8)
        == plte_tag() || c.subrange(4, 8) == idat_tag())
}

/// The walk over a whole chunk at the front of `c + y`.
proof fn lemma_png_front(c: Seq<u8>, y: Seq<u8>)
    requires
        is_png_chunk(c),
    ensures
        png_kept(c + y, 0) == (if png_chunk_kept(c.subrange(4, 8)) {
            c
        } else {
            seq![]
        }) + if c.subrange(4, 8) == iend_tag() {
            seq![]
        } else {
            png_kept(y, 0)
        },
        png_drops(c + y, 0) == (c.subrange(4, 8) != iend_tag() && (!png_chunk_kept(
            c.subrange(4, 8),
        ) || png_drops(y, 0))),
{
    let d = c + y;
    assert(d[0] == c[0] && d[1] == c[1] && d[2] == c[2] && d[3] == c[3]);
    assert(png_chunk_end(d, 0) == c.len());
    assert(png_chunk_type(d, 0) =~= c.subrange(4, 8));
    assert(d.subrange(0, c.len() as int) =~= c);
    lemma_png_walk_shift(c, y, 0);
    if c.subrange(4, 8) == iend_tag() {
        assert(c + Seq::<u8>::empty() =~= c);
    } else if !png_chunk_kept(c.subrange(4, 8)) {
        assert(Seq::<u8>::empty() + png_kept(y, 0) =~= png_kept(y, 0));
    }
}

/// Image chunks at the front are kept as they are, and drop nothing.
proof fn lemma_png_image_chunks(k: Seq<Seq<u8>>, y: Seq<u8>)
    requires
        forall|i: int| 0 <= i < k.len() ==> is_png_image_chunk(#[trigger] k[i]),
    ensures
        png_kept(k.flatten() + y, 0) == k.flatten() + png_kept(y, 0),
        png_drops(k.flatten() + y, 0) == png_drops(y, 0),
    decreases k.len(),
{
    if k.len() == 0 {
        assert(k.flatten() + y =~= y);
        assert(k.flatten() + png_kept(y, 0) =~= png_kept(y, 0));
    } else {
        let c = k[0];
        let rest = k.drop_first();
        assert(is_png_image_chunk(c));
        assert forall|i: int| 0 <= i < rest.len() implies is_png_image_chunk(#[trigger] rest[i]) by {
            assert(rest[i] == k[i + 1]);
        }
        lemma_png_image_chunks(rest, y);
        assert(k.flatten() == c + rest.flatten());
        assert(k.flatten() + y =~= c + (rest.flatten() + y));
        lemma_png_front(c, rest.flatten() + y);
        assert(c.subrange(4, 8) != iend_tag()) by {
            if c.subrange(4, 8) == iend_tag() {
                assert(c.subrange(4, 8)[1] == iend_tag()[1]);
                assert(c.subrange(4, 8)[0] == iend_tag()[0]);
            }
        }
        assert(c + (rest.flatten() + png_kept(y, 0)) =~= k.flatten() + png_kept(y, 0));
    }
}

/// A PNG whose one ancillary chunk `c` stands among image chunks (`k1` before it, `k2` after
/// it), followed by IEND and anything, strips to the same PNG without `c`: every IHDR, PLTE and
/// IDAT chunk and IEND are kept byte for byte and in order, and nothing after IEND is.
pub proof fn law_strip_png_removes_only_ancillary(
    k1: Seq<Seq<u8>>,
    c: Seq<u8>,
    k2: Seq<Seq<u8>>,
    e: Seq<u8>,
    r: Seq<u8>,
)
    requires
        forall|i: int| 0 <= i < k1.len() ==> is_png_image_chunk(#[trigger] k1[i]),
        forall|i: int| 0 <= i < k2.len() ==> is_png_image_chunk(#[trigger] k2[i]),
        is_png_chunk(c),
        !png_chunk_kept(c.subrange(4, 8)),
        is_png_chunk(e),
        e.subrange(4, 8) == iend_tag(),
    ensures
        strip_png_spec(png_signature() + k1.flatten() + c + k2.flatten() + e + r) == Some(
            png_signature() + k1.flatten() + k2.flatten() + e,
        ),
{
    let sig = png_signature();
    let d = sig + k1.flatten() + c + k2.flatten() + e + r;
    let y2 = e + r;
    let y1 = k2.flatten() + y2;
    let y0 = c + y1;
    let x = k1.flatten() + y0;
    assert(d =~= sig + x);
    lemma_png_front(e, r);
    assert(e + Seq::<u8>::empty() =~= e);
    lemma_png_image_chunks(k2, y2);
    lemma_png_front(c, y1);
    assert(c.subrange(4, 8) != iend_tag());
    assert(Seq::<u8>::empty() + png_kept(y1, 0) =~= png_kept(y1, 0));
    lemma_png_image_chunks(k1, y0);
    lemma_png_walk_shift(sig, x, 0);
    assert(d.subrange(0, 8) =~= sig);
    assert(has_at(d, 0, sig));
    assert(sig + (k1.flatten() + (k2.flatten() + e)) =~= sig + k1.flatten() + k2.flatten() + e);
}

/// From `p` on, the first EOI is the one at `e` where no `FF D9` starts before it.
proof fn lemma_find_eoi_at(d: Seq<u8>, p: int, e: int)
    requires
        0 <= p <= e,
        e + 2 <= d.len(),
        d[e] == 0xFF && d[e + 1] == 0xD9,
        forall|k: int| p <= k < e ==> !(d[k] == 0xFF && #[trigger] d[k + 1] == 0xD9),
    ensures
        find_eoi(d, p) == Some(e),
    decreases e - p,
{
    if p < e {
        assert(!(d[p] == 0xFF && d[p + 1] == 0xD9));
        lemma_find_eoi_at(d, p + 1, e);
    }
}

/// A marker segment that carries the image: APP0, SOF0–SOF3, DHT, DQT or DRI.
pub open spec fn is_jpeg_image_segment(s: Seq<u8>) -> bool {
    s.len() >= 4 && crate::image::is_marker_segment(s, s[1]) && (s[1] == 0xE0 || (0xC0 <= s[1]
        && s[1] <= 0xC4) || s[1] == 0xDB || s[1] == 0xDD)
}

/// The strip walk over a whole marker segment at the front of `s + y`.
proof fn lemma_jpeg_front(s: Seq<u8>, marker: u8, y: Seq<u8>)
    requires
        crate::image::is_marker_segment(s, marker),
        marker != 0xD9,
        marker != 0xDA,
        marker != 0x00,
        !(0xD0 <= marker && marker <= 0xD8),
    ensures
        jpeg_kept(s + y, 0) == (if jpeg_keeps(marker) {
            s
        } else {
            seq![]
        }) + jpeg_kept(y, 0),
        jpeg_drops(s + y, 0) == (!jpeg_keeps(marker) || jpeg_drops(y, 0)),
{
    let d = s + y;
    assert(d[0] == 0xFF && d[1] == marker && d[2] == s[2] && d[3] == s[3]);
    assert(be16(d, 2) as int == s.len() - 2);
    assert(d.subrange(0, s.len() as int) =~= s);
    lemma_jpeg_walk_shift(s, y, 0);
    assert(Seq::<u8>::empty() + jpeg_kept(y, 0) =~= jpeg_kept(y, 0));
}

/// Image segments at the front are kept as they are, and drop nothing.
proof fn lemma_jpeg_image_segments(k: Seq<Seq<u8>>, y: Seq<u8>)
    requires
        forall|i: int| 0 <= i < k.len() ==> is_jpeg_image_segment(#[trigger] k[i]),
    ensures
        jpeg_kept(k.flatten() + y, 0) == k.flatten() + jpeg_kept(y, 0),
        jpeg_drops(k.flatten() + y, 0) == jpeg_drops(y, 0),
    decreases k.len(),
{
    if k.len() == 0 {
        assert(k.flatten() + y =~= y);
        assert(k.flatten() + jpeg_kept(y, 0) =~= jpeg_kept(y, 0));
    } else {
        let c = k[0];
        let rest = k.drop_first();
        assert(is_jpeg_image_segment(c));
        assert forall|i: int| 0 <= i < rest.len() implies is_jpeg_image_segment(#[trigger] rest[i]) by {
            assert(rest[i] == k[i + 1]);
        }
        lemma_jpeg_image_segments(rest, y);
        assert(k.flatten() == c + rest.flatten());
        assert(k.flatten() + y =~= c + (rest.flatten() + y));
        lemma_jpeg_front(c, c[1], rest.flatten() + y);
        assert(c + (rest.flatten() + jpeg_kept(y, 0)) =~= k.flatten() + jpeg_kept(y, 0));
    }
}

/// The strip walk over an SOS segment, entropy-coded data without `FF D9`, EOI and anything.
proof fn lemma_jpeg_scan(q: Seq<u8>, x: Seq<u8>, r: Seq<u8>)
    requires
        crate::image::is_marker_segment(q, 0xDA),
        forall|i: int| 0 <= i < x.len() - 1 ==> !(x[i] == 0xFF && #[trigger] x[i + 1] == 0xD9),
    ensures
        jpeg_kept(q + x + seq![0xFFu8, 0xD9] + r, 0) == q + x + seq![0xFFu8, 0xD9],
        !jpeg_drops(q + x + seq![0xFFu8, 0xD9] + r, 0),
{
    let eoi = seq![0xFFu8, 0xD9];
    let e = q + x + eoi + r;
    let a = q.len() as int;
    let n = x.len() as int;
    assert(e[0] == 0xFF && e[1] == 0xDA && e[2] == q[2] && e[3] == q[3]);
    assert(be16(e, 2) as int == a - 2);
    assert(e.subrange(0, a) =~= q);
    assert(e[a + n] == 0xFF && e[a + n + 1] == 0xD9);
    assert forall|k: int| a <= k < a + n implies !(e[k] == 0xFF && #[trigger] e[k + 1] == 0xD9) by {
        let i = k - a;
        assert(e[k] == x[i]);
        if k + 1 < a + n {
            assert(e[k + 1] == x[i + 1]);
            assert(!(x[i] == 0xFF && x[i + 1] == 0xD9));
        } else {
            assert(e[k + 1] == 0xFF);
        }
    }
    lemma_find_eoi_at(e, a, a + n);
    assert(e.subrange(a, a + n) =~= x);
    assert(jpeg_scan_tail(e, a) == x + eoi);
    assert(q + (x + eoi) =~= q + x + eoi);
}

/// A JPEG whose one metadata segment `s` (an APPn but APP0, a comment, ...) stands among image
/// segments (`k1` before it, `k2` after it), followed by SOS, entropy-coded data holding no
/// `FF D9`, EOI and anything, strips to the same JPEG without `s`: every APP0, SOF0–SOF3, DHT,
/// DQT and DRI segment, the SOS segment, the data and EOI are kept byte for byte and in order,
/// and nothing after EOI is.
pub proof fn law_strip_jpeg_removes_only_metadata(
    k1: Seq<Seq<u8>>,
    s: Seq<u8>,
    marker: u8,
    k2: Seq<Seq<u8>>,
    q: Seq<u8>,
    x: Seq<u8>,
    r: Seq<u8>,
)
    requires
        forall|i: int| 0 <= i < k1.len() ==> is_jpeg_image_segment(#[trigger] k1[i]),
        forall|i: int| 0 <= i < k2.len() ==> is_jpeg_image_segment(#[trigger] k2[i]),
        crate::image::is_marker_segment(s, marker),
        !(marker == 0xE0 || (0xC0 <= marker && marker <= 0xC4) || marker == 0xDB || marker
            == 0xDD),
        marker != 0xD9,
        marker != 0xDA,
        marker != 0x00,
        !(0xD0 <= marker && marker <= 0xD8),
        crate::image::is_marker_segment(q, 0xDA),
        forall|i: int| 0 <= i < x.len() - 1 ==> !(x[i] == 0xFF && #[trigger] x[i + 1] == 0xD9),
    ensures
        strip_jpeg_spec(
            seq![0xFFu8, 0xD8] + k1.flatten() + s + k2.flatten() + q + x + seq![0xFFu8, 0xD9] + r,
        ) == Some(seq![0xFFu8, 0xD8] + k1.flatten() + k2.flatten() + q + x + seq![0xFFu8, 0xD9]),
{
    let soi = seq![0xFFu8, 0xD8];
    let eoi = seq![0xFFu8, 0xD9];
    let d = soi + k1.flatten() + s + k2.flatten() + q + x + eoi + r;
    let y2 = q + x + eoi + r;
    let y1 = k2.flatten() + y2;
    let y0 = s + y1;
    let z = k1.flatten() + y0;
    assert(d =~= soi + z);
    assert(k2.flatten() + (q + x + eoi + r) =~= y1);
    lemma_jpeg_scan(q, x, r);
    lemma_jpeg_image_segments(k2, y2);
    lemma_jpeg_front(s, marker, y1);
    lemma_jpeg_image_segments(k1, y0);
    lemma_jpeg_walk_shift(soi, z, 0);
    assert(d.subrange(0, 2) =~= soi);
    assert(soi + (k1.flatten() + (k2.flatten() + (q + x + eoi))) =~= soi + k1.flatten()
        + k2.flatten() + q + x + eoi);
}

/// Normalising a text whose line endings are CR LF gives the text with LF line endings.
proof fn lemma_normalize_crlf(x: Seq<u8>)
    requires
        !contains_cr(x),
    ensures
        normalize_eol(crate::text::lf_to_crlf(x)) == x,
        x.len() > 0 ==> crate::text::lf_to_crlf(x).len() > 0 && crate::text::lf_to_crlf(x).last()
            == x.last(),
        contains_cr(crate::text::lf_to_crlf(x)) <==> exists|i: int| 0 <= i < x.len() && x[i] == 0x0A,
    decreases x.len(),
{
    let y = crate::text::lf_to_crlf(x);
    if x.len() > 0 {
        let init = x.drop_last();
        let b = x.last();
        assert(!contains_cr(init)) by {
            if contains_cr(init) {
                let j = choose|j: int| 0 <= j < init.len() && init[j] == 0x0D;
                assert(x[j] == 0x0D);
            }
        }
        lemma_normalize_crlf(init);
        let yi = crate::text::lf_to_crlf(init);
        assert(b != 0x0D);
        if b == 0x0A {
            let y1 = yi + seq![0x0Du8];
            assert(y =~= y1 + seq![0x0Au8]);
            assert(y.drop_last() =~= y1);
            assert(y1.drop_last() =~= yi);
            assert(init.len() > 0 ==> yi.last() != 0x0D);
            assert(normalize_eol(y1) == normalize_eol(yi) + seq![0x0Au8]);
            assert(normalize_eol(y) == normalize_eol(y1) + Seq::<u8>::empty());
            assert(x =~= init + seq![0x0Au8]);
            assert(y[y.len() - 2] == 0x0D);
        } else {
            assert(y =~= yi + seq![b]);
            assert(y.drop_last() =~= yi);
            assert(x =~= init + seq![b]);
        }
        if exists|i: int| 0 <= i < x.len() && x[i] == 0x0A {
            let i = choose|i: int| 0 <= i < x.len() && x[i] == 0x0A;
            if i < init.len() {
                assert(init[i] == 0x0A);
                let j = choose|j: int| 0 <= j < yi.len() && yi[j] == 0x0D;
                assert(y[j] == 0x0D);
            }
        }
        if contains_cr(y) {
            let j = choose|j: int| 0 <= j < y.len() && y[j] == 0x0D;
            if j < yi.len() {
                assert(yi[j] == 0x0D);
                let i = choose|i: int| 0 <= i < init.len() && init[i] == 0x0A;
                assert(x[i] == 0x0A);
            } else {
                assert(b == 0x0A);
            }
        }
    } else {
        assert(normalize_eol(y) =~= x);
    }
}

/// Stripping a text with CR LF line endings (and no other CR, and no byte-order mark) gives the
/// same text with LF line endings; a text without line endings is left alone.
pub proof fn law_strip_text_turns_crlf_into_lf(x: Seq<u8>)
    requires
        forall|i: int| 0 <= i < x.len() ==> x[i] != 0x0D,
        !(x.len() >= 3 && x[0] == 0xEF && x[1] == 0xBB && x[2] == 0xBF),
    ensures
        strip_text_spec(crate::text::lf_to_crlf(x)) == if exists|i: int| 0 <= i < x.len() && x[i]
            == 0x0A {
            Some(x)
        } else {
            None::<Seq<u8>>
        },
{
    let y = crate::text::lf_to_crlf(x);
    lemma_normalize_crlf(x);
    if has_at(y, 0, utf8_bom()) {
        assert(y[0] == 0xEF);
        lemma_crlf_prefix(x);
        assert(false);
    }
    assert(text_body(y) == y);
}

/// The first bytes of a text with CR LF line endings: the text's first byte, unless that is LF.
proof fn lemma_crlf_prefix(x: Seq<u8>)
    requires
        forall|i: int| 0 <= i < x.len() ==> x[i] != 0x0D,
        !(x.len() >= 3 && x[0] == 0xEF && x[1] == 0xBB && x[2] == 0xBF),
        crate::text::lf_to_crlf(x).len() >= 3,
    ensures
        !(crate::text::lf_to_crlf(x)[0] == 0xEF && crate::text::lf_to_crlf(x)[1] == 0xBB
            && crate::text::lf_to_crlf(x)[2] == 0xBF),
    decreases x.len(),
{
    let y = crate::text::lf_to_crlf(x);
    let init = x.drop_last();
    let yi = crate::text::lf_to_crlf(init);
    let tail = if x.last() == 0x0A { seq![0x0Du8, 0x0A] } else { seq![x.last()] };
    assert(y == yi + tail);
    if yi.len() >= 3 {
        assert(!(init.len() >= 3 && init[0] == 0xEF && init[1] == 0xBB && init[2] == 0xBF)) by {
            if init.len() >= 3 {
                assert(init[0] == x[0] && init[1] == x[1] && init[2] == x[2]);
            }
        }
        lemma_crlf_prefix(init);
        assert(y[0] == yi[0] && y[1] == yi[1] && y[2] == yi[2]);
    } else {
        lemma_crlf_short(init);
        if y[0] == 0xEF && y[1] == 0xBB && y[2] == 0xBF {
            assert(x.len() >= 3 || yi.len() + tail.len() >= 3);
            lemma_crlf_identity_without_lf(x);
        }
    }
}

/// Doubling line endings never makes a text shorter.
proof fn lemma_crlf_short(x: Seq<u8>)
    ensures
        crate::text::lf_to_crlf(x).len() >= x.len(),
    decreases x.len(),
{
    if x.len() > 0 {
        lemma_crlf_short(x.drop_last());
    }
}

/// Where a text with CR LF line endings starts with the byte-order mark, so does the text.
proof fn lemma_crlf_identity_without_lf(x: Seq<u8>)
    requires
        forall|i: int| 0 <= i < x.len() ==> x[i] != 0x0D,
        crate::text::lf_to_crlf(x).len() >= 3,
        crate::text::lf_to_crlf(x)[0] == 0xEF,
        crate::text::lf_to_crlf(x)[1] == 0xBB,
        crate::text::lf_to_crlf(x)[2] == 0xBF,
    ensures
        x.len() >= 3 && x[0] == 0xEF && x[1] == 0xBB && x[2] == 0xBF,
    decreases x.len(),
{
    let y = crate::text::lf_to_crlf(x);
    let init = x.drop_last();
    let yi = crate::text::lf_to_crlf(init);
    let tail = if x.last() == 0x0A { seq![0x0Du8, 0x0A] } else { seq![x.last()] };
    assert(y == yi + tail);
    lemma_crlf_short(init);
    if yi.len() >= 3 {
        assert(y[0] == yi[0] && y[1] == yi[1] && y[2] == yi[2]);
        lemma_crlf_identity_without_lf(init);
        assert(x[0] == init[0] && x[1] == init[1] && x[2] == init[2]);
    } else if x.last() == 0x0A {
        // the last two bytes are CR LF, so the first of three is no BF
        assert(y[y.len() - 1] == 0x0A);
        assert(false);
    } else {
        assert(yi.len() == 2);
        let i0 = init.drop_last();
        let yi0 = crate::text::lf_to_crlf(i0);
        lemma_crlf_short(i0);
        assert(init.last() != 0x0A) by {
            if init.last() == 0x0A {
                assert(yi == yi0 + seq![0x0Du8, 0x0A]);
                assert(yi0.len() == 0);
                assert(yi[0] == 0x0D);
            }
        }
        assert(yi == yi0 + seq![init.last()]);
        assert(yi0.len() == 1);
        assert(i0.len() == 1);
        assert(i0.last() != 0x0A) by {
            if i0.last() == 0x0A {
                assert(yi0.len() == 2);
            }
        }
        assert(yi0 == crate::text::lf_to_crlf(i0.drop_last()) + seq![i0.last()]);
        assert(x[0] == i0[0] && x[1] == init.last() && x[2] == x.last());
    }
}

// ---------------------------------------------------------------------------------------------
// Choosing the stripper.

/// What the stripper for `format` makes of `d`.
pub open spec fn stripped_by(d: Seq<u8>, format: StripFormat) -> Option<Seq<u8>> {
    match format {
        StripFormat::Jpeg => strip_jpeg_spec(d),
        StripFormat::Png => strip_png_spec(d),
        StripFormat::Gif => gif_strip_outcome(d)->0,
        StripFormat::Text => strip_text_spec(d),
    }
}

/// The new contents of a file of the given format: what its stripper makes of it, where that
/// differs from the old contents.
pub open spec fn strip_contents_spec(d: Seq<u8>, format: StripFormat) -> Option<Seq<u8>> {
    match stripped_by(d, format) {
        Some(n) => if n == d {
            None
        } else {
            Some(n)
        },
        None => None,
    }
}

fn same_bytes(a: &Vec<u8>, b: &[u8]) -> (r: bool)
    ensures
        r == (a@ == b@),
{
    if a.len() != b.len() {
        return false;
    }
    let mut i: usize = 0;
    while i < a.len()
        invariant
            a@.len() == b@.len(),
            i <= a@.len(),
            forall|j: int| 0 <= j < i ==> a@[j] == b@[j],
        decreases a.len() - i,
    {
        if a[i] != b[i] {
            return false;
        }
        i = i + 1;
    }
    assert(a@ =~= b@);
    true
}

/// Strips a file's contents with the stripper for its format; `None` where nothing changes.
pub fn strip_contents(data: &[u8], format: StripFormat) -> (r: Option<Vec<u8>>)
    requires
        format == StripFormat::Gif ==> gif_strip_outcome(data@) is Some,
    ensures
        opt_bytes(r) == strip_contents_spec(data@, format),
{
    let result = match format {
        StripFormat::Jpeg => strip_jpeg(data),
        StripFormat::Png => strip_png(data),
        StripFormat::Gif => strip_gif(data),
        StripFormat::Text => strip_text(data),
    };
    match result {
        Some(new_data) => {
            if same_bytes(&new_data, data) {
                None
            } else {
                Some(new_data)
            }
        },
        None => None,
    }
}

}
