use vstd::prelude::*;
use vstd::arithmetic::power2::pow2;
use crate::bytes::append_range;
use crate::image::{gif87a, gif89a, is_gif_signature};
use crate::bytes::has_at;
use crate::strip::opt_bytes;

verus! {

/// A GIF strip walk from some point on: `None` where the walk cannot go on (a graphic control
/// extension that runs past the end of the data), otherwise the bytes it keeps and whether it
/// drops a block.
pub type GifRun = Option<(Seq<u8>, bool)>;

/// `piece` followed by the run `rest`.
pub open spec fn then(piece: Seq<u8>, dropped: bool, rest: GifRun) -> GifRun {
    match rest {
        None => None,
        Some((o, c)) => Some((piece + o, dropped || c)),
    }
}

/// Appending two pieces in turn appends their concatenation.
pub proof fn lemma_then_then(a: Seq<u8>, x: bool, b: Seq<u8>, y: bool, r: GifRun)
    ensures
        then(a, x, then(b, y, r)) == then(a + b, x || y, r),
{
    if let Some((o, c)) = r {
        assert(a + (b + o) =~= (a + b) + o);
    }
}

/// How many bytes a colour table takes, given the packed field that announces it.
pub open spec fn color_table_len(packed: u8) -> int {
    if packed & 0x80 != 0 {
        (3 * pow2(((packed & 0x07) + 1) as nat)) as int
    } else {
        0
    }
}

fn color_table_len_of(packed: u8) -> (r: usize)
    ensures
        r == color_table_len(packed),
        r <= 768,
{
    if packed & 0x80 != 0 {
        let n = packed & 0x07;
        assert(packed & 0x07 <= 7) by (bit_vector);
        proof {
            vstd::arithmetic::power2::lemma2_to64();
        }
        let entries: usize = if n == 0 {
            2
        } else if n == 1 {
            4
        } else if n == 2 {
            8
        } else if n == 3 {
            16
        } else if n == 4 {
            32
        } else if n == 5 {
            64
        } else if n == 6 {
            128
        } else {
            256
        };
        3 * entries
    } else {
        0
    }
}

/// How far past `p` the data goes.
pub open spec fn gif_left(d: Seq<u8>, p: int) -> int {
    if p < d.len() {
        d.len() - p
    } else {
        0
    }
}

/// The walk over the blocks that follow the header and the global colour table.  An image
/// (`2C`) is kept with its descriptor, local colour table and data sub-blocks; a graphic
/// control extension (`21 F9`) is kept whole; every other extension is dropped; the trailer
/// (`3B`) is kept and ends the walk, as does any other byte or a block cut short.
pub open spec fn gif_top(d: Seq<u8>, pos: int) -> GifRun
    decreases gif_left(d, pos),
{
    if pos < 0 || pos >= d.len() {
        Some((seq![], false))
    } else if d[pos] == 0x2C {
        let p = pos + 1;
        if p + 9 > d.len() {
            Some((seq![], false))
        } else {
            let head = d.subrange(pos, p + 9);
            let lct = color_table_len(d[p + 8]);
            if p + 9 + lct > d.len() {
                Some((head, false))
            } else {
                let q = p + 9 + lct;
                let desc = head + d.subrange(p + 9, q);
                if q >= d.len() {
                    Some((desc, false))
                } else {
                    then(desc + seq![d[q]], false, gif_image_blocks(d, q + 1))
                }
            }
        }
    } else if d[pos] == 0x21 {
        if pos + 2 > d.len() {
            Some((seq![], false))
        } else if d[pos + 1] == 0xF9 {
            let p = pos + 2;
            if p >= d.len() {
                Some((seq![], false))
            } else {
                gif_control_ext(d, pos, p + 1 + d[p])
            }
        } else {
            then(seq![], true, gif_skip_blocks(d, pos + 2))
        }
    } else if d[pos] == 0x3B {
        Some((seq![0x3Bu8], false))
    } else {
        Some((seq![], false))
    }
}

/// The data sub-blocks of an image, copied up to the terminating empty block (or a block cut
/// short, whose size byte is still copied), after which the walk goes on.
pub open spec fn gif_image_blocks(d: Seq<u8>, pos: int) -> GifRun
    decreases gif_left(d, pos),
{
    if pos < 0 || pos >= d.len() {
        Some((seq![], false))
    } else {
        let bs = d[pos] as int;
        if bs == 0 || pos + 1 + bs > d.len() {
            then(seq![d[pos]], false, gif_top(d, pos + 1))
        } else {
            then(seq![d[pos]] + d.subrange(pos + 1, pos + 1 + bs), false, gif_image_blocks(d, pos + 1 + bs))
        }
    }
}

/// The sub-blocks of a dropped extension, skipped up to the terminating empty block.
pub open spec fn gif_skip_blocks(d: Seq<u8>, pos: int) -> GifRun
    decreases gif_left(d, pos),
{
    if pos < 0 || pos >= d.len() {
        Some((seq![], false))
    } else if d[pos] == 0 {
        gif_top(d, pos + 1)
    } else {
        gif_skip_blocks(d, pos + 1 + d[pos])
    }
}

/// A graphic control extension that starts at `start`, with sub-blocks scanned from `e` on: it
/// is copied through its terminating empty block; where that block is missing the walk cannot
/// go on.
pub open spec fn gif_control_ext(d: Seq<u8>, start: int, e: int) -> GifRun
    decreases gif_left(d, e),
{
    if 0 <= e < d.len() && d[e] != 0 {
        gif_control_ext(d, start, e + 1 + d[e])
    } else if e < 0 || e + 1 > d.len() || start < 0 || start > e {
        None
    } else {
        then(d.subrange(start, e + 1), false, gif_top(d, e + 1))
    }
}

/// The result of stripping a GIF: `None` where the strip cannot be carried out (a GIF
/// signature with fewer than 13 bytes, or a graphic control extension cut short); otherwise the
/// stripped GIF where an extension was dropped, and nothing where none was.
pub open spec fn gif_strip_outcome(d: Seq<u8>) -> Option<Option<Seq<u8>>> {
    if d.len() < 6 || !(has_at(d, 0, gif87a()) || has_at(d, 0, gif89a())) {
        Some(None)
    } else if d.len() < 13 {
        None
    } else if 13 + color_table_len(d[10]) > d.len() {
        Some(None)
    } else {
        let end = 13 + color_table_len(d[10]);
        match then(d.subrange(0, end), false, gif_top(d, end)) {
            None => None,
            Some((o, c)) => if c {
                Some(Some(o))
            } else {
                Some(None)
            },
        }
    }
}

/// The outcome of a walk that follows the header: the stripped GIF where it dropped
/// something.
pub open spec fn gif_result(run: GifRun) -> Option<Option<Seq<u8>>> {
    match run {
        None => None,
        Some((o, c)) => if c {
            Some(Some(o))
        } else {
            Some(None)
        },
    }
}

fn finish(out: Vec<u8>, changed: bool) -> (r: Option<Option<Vec<u8>>>)
    ensures
        r == Some(if changed {
            Some(out)
        } else {
            None
        }),
{
    if changed {
        Some(Some(out))
    } else {
        Some(None)
    }
}

/// The GIF strip walk; `None` where the walk cannot be carried out.
fn gif_strip_run(data: &[u8]) -> (r: Option<Option<Vec<u8>>>)
    ensures
        match r {
            None => gif_strip_outcome(data@) is None,
            Some(x) => gif_strip_outcome(data@) == Some(opt_bytes(x)),
        },
{
    if data.len() < 6 {
        return Some(None);
    }
    if !is_gif_signature(data) {
        return Some(None);
    }
    if data.len() < 13 {
        return None;
    }
    let mut out: Vec<u8> = Vec::with_capacity(data.len());
    append_range(&mut out, data, 0, 13);
    let gct = color_table_len_of(data[10]);
    if gct > data.len() - 13 {
        return Some(None);
    }
    let end = 13 + gct;
    append_range(&mut out, data, 13, end);
    let ghost d = data@;
    let ghost goal = then(d.subrange(0, end as int), false, gif_top(d, end as int));
    assert(out@ =~= d.subrange(0, end as int));
    assert(gif_strip_outcome(d) == gif_result(goal));
    let mut pos = end;
    let mut changed = false;
    assert(then(out@, changed, gif_top(d, pos as int)) == goal);
    while pos < data.len()
        invariant
            d == data@,
            pos <= d.len(),
            then(out@, changed, gif_top(d, pos as int)) == goal,
            gif_strip_outcome(d) == gif_result(goal),
        decreases d.len() - pos,
    {
        let ghost p0 = pos as int;
        let ghost out0 = out@;
        let b = data[pos];
        let start = pos;
        if b == 0x2C {
            pos = pos + 1;
            if data.len() - pos < 9 {
                assert(out@ + seq![] =~= out@);
                return finish(out, changed);
            }
            append_range(&mut out, data, start, pos + 9);
            let lct = color_table_len_of(data[pos + 8]);
            if lct > data.len() - pos - 9 {
                return finish(out, changed);
            }
            append_range(&mut out, data, pos + 9, pos + 9 + lct);
            pos = pos + 9 + lct;
            if pos >= data.len() {
                assert(out@ =~= out0 + (d.subrange(p0, p0 + 10) + d.subrange(p0 + 10, pos as int)));
                return finish(out, changed);
            }
            let ghost desc = d.subrange(p0, p0 + 10) + d.subrange(p0 + 10, pos as int);
            out.push(data[pos]);
            pos = pos + 1;
            assert(out@ =~= out0 + (desc + seq![d[pos - 1]]));
            proof {
                lemma_then_then(out0, changed, desc + seq![d[pos - 1]], false, gif_image_blocks(d, pos as int));
            }
            loop
                invariant_except_break
                    d == data@,
                    p0 < pos <= d.len(),
                    then(out@, changed, gif_image_blocks(d, pos as int)) == goal,
                ensures
                    p0 < pos <= d.len(),
                    then(out@, changed, gif_top(d, pos as int)) == goal,
                decreases d.len() - pos,
            {
                if pos >= data.len() {
                    break;
                }
                let ghost q0 = pos as int;
                let ghost o0 = out@;
                let bs = data[pos] as usize;
                out.push(data[pos]);
                pos = pos + 1;
                if bs == 0 || bs > data.len() - pos {
                    proof {
                        lemma_then_then(o0, changed, seq![d[q0]], false, gif_top(d, pos as int));
                    }
                    break;
                }
                append_range(&mut out, data, pos, pos + bs);
                pos = pos + bs;
                proof {
                    let piece = seq![d[q0]] + d.subrange(q0 + 1, pos as int);
                    assert(out@ =~= o0 + piece);
                    lemma_then_then(o0, changed, piece, false, gif_image_blocks(d, pos as int));
                }
            }
        } else if b == 0x21 {
            if data.len() - pos < 2 {
                assert(out@ + seq![] =~= out@);
                return finish(out, changed);
            }
            let label = data[pos + 1];
            if label == 0xF9 {
                let ext_start = pos;
                pos = pos + 2;
                if pos >= data.len() {
                    assert(out@ + seq![] =~= out@);
                    return finish(out, changed);
                }
                let bs = data[pos] as usize;
                if bs >= data.len() - pos - 1 {
                    return None;
                }
                let mut ext_end = pos + 1 + bs;
                while data[ext_end] != 0
                    invariant
                        d == data@,
                        ext_start < ext_end < d.len(),
                        gif_strip_outcome(d) == gif_result(goal),
                        then(out@, changed, gif_control_ext(d, ext_start as int, ext_end as int)) == goal,
                    decreases d.len() - ext_end,
                {
                    let step = data[ext_end] as usize;
                    if step >= data.len() - ext_end - 1 {
                        assert(gif_control_ext(d, ext_start as int, ext_end as int)
                            == gif_control_ext(d, ext_start as int, ext_end + 1 + step));
                        assert(gif_control_ext(d, ext_start as int, ext_end + 1 + step) is None);
                        return None;
                    }
                    ext_end = ext_end + 1 + step;
                }
                ext_end = ext_end + 1;
                append_range(&mut out, data, ext_start, ext_end);
                pos = ext_end;
                proof {
                    lemma_then_then(out0, changed, d.subrange(ext_start as int, pos as int), false, gif_top(d, pos as int));
                }
            } else {
                changed = true;
                pos = pos + 2;
                assert(out@ + seq![] =~= out@);
                loop
                    invariant_except_break
                        d == data@,
                        p0 < pos <= d.len(),
                        changed,
                        then(out@, changed, gif_skip_blocks(d, pos as int)) == goal,
                    ensures
                        p0 < pos <= d.len(),
                        then(out@, changed, gif_top(d, pos as int)) == goal,
                    decreases d.len() - pos,
                {
                    if pos >= data.len() {
                        break;
                    }
                    let bs = data[pos] as usize;
                    if bs == 0 {
                        pos = pos + 1;
                        break;
                    }
                    if bs >= data.len() - pos - 1 {
                        assert(gif_skip_blocks(d, pos as int) == gif_skip_blocks(d, pos + 1 + bs));
                        assert(gif_skip_blocks(d, pos + 1 + bs) == Some((Seq::<u8>::empty(), false)));
                        pos = data.len();
                    } else {
                        pos = pos + 1 + bs;
                    }
                }
            }
        } else if b == 0x3B {
            out.push(0x3B);
            return finish(out, changed);
        } else {
            assert(out@ + seq![] =~= out@);
            return finish(out, changed);
        }
    }
    assert(out@ + seq![] =~= out@);
    finish(out, changed)
}

/// Drops the comment, application and plain-text extensions of a GIF; `None` where there is
/// none to drop.
pub fn strip_gif(data: &[u8]) -> (r: Option<Vec<u8>>)
    requires
        gif_strip_outcome(data@) is Some,
    ensures
        opt_bytes(r) == gif_strip_outcome(data@)->0,
{
    match gif_strip_run(data) {
        Some(r) => r,
        None => None,
    }
}

/// Whether [`strip_gif`] cannot be carried out on `data`: a GIF signature with fewer than 13
/// bytes, or a graphic control extension that runs past the end.
pub fn gif_strip_fails(data: &[u8]) -> (r: bool)
    ensures
        r == (gif_strip_outcome(data@) is None),
{
    gif_strip_run(data).is_none()
}


/// Stripping a GIF leaves the scanner's report unchanged: the header with the logical screen
/// size is copied as it is.
pub proof fn law_strip_gif_keeps_report(d: Seq<u8>)
    requires
        gif_strip_outcome(d) matches Some(Some(_)),
    ensures
        crate::image::image_spec(Some(gif_strip_outcome(d)->0->0)) == crate::image::image_spec(
            Some(d),
        ),
{
    let out = gif_strip_outcome(d)->0->0;
    let end = 13 + color_table_len(d[10]);
    assert(color_table_len(d[10]) >= 0) by {
        if d[10] & 0x80 != 0 {
            assert(pow2(((d[10] & 0x07) + 1) as nat) >= 0);
        }
    }
    let (o, c) = gif_top(d, end)->0;
    assert(out == d.subrange(0, end) + o);
    assert forall|i: int| 0 <= i < 13 implies out[i] == d[i] by {
        assert(out[i] == d.subrange(0, end)[i]);
    }
    assert(out.subrange(0, 6) =~= d.subrange(0, 6));
    assert(out.subrange(0, 4) =~= d.subrange(0, 4));
    assert(out.subrange(0, 2) =~= d.subrange(0, 2));
}


// ---------------------------------------------------------------------------------------------
// Stripping a GIF twice.

/// Where the sub-block scan of a graphic control extension from `e` finds the terminating
/// empty block.
pub open spec fn control_ext_end(d: Seq<u8>, e: int) -> Option<int>
    decreases gif_left(d, e),
{
    if 0 <= e < d.len() && d[e] != 0 {
        control_ext_end(d, e + 1 + d[e])
    } else if 0 <= e < d.len() {
        Some(e)
    } else {
        None
    }
}

/// A graphic control extension is copied up to the end its scan finds.
proof fn lemma_control_ext_by_end(d: Seq<u8>, s: int, e: int)
    requires
        0 <= s <= e,
    ensures
        gif_control_ext(d, s, e) == (match control_ext_end(d, e) {
            Some(x) => then(d.subrange(s, x + 1), false, gif_top(d, x + 1)),
            None => None,
        }),
        control_ext_end(d, e) matches Some(x) ==> e <= x < d.len() && d[x] == 0,
    decreases gif_left(d, e),
{
    if 0 <= e < d.len() && d[e] != 0 {
        lemma_control_ext_by_end(d, s, e + 1 + d[e]);
    }
}

/// The scan reads only the sub-block sizes between where it starts and where it ends.
proof fn lemma_control_ext_end_local(d: Seq<u8>, x: Seq<u8>, e: int, k: int)
    requires
        0 <= e,
        control_ext_end(d, e) is Some,
        forall|i: int|
            e <= i <= control_ext_end(d, e)->0 ==> 0 <= i + k < x.len() && x[i + k] == d[i],
    ensures
        control_ext_end(x, e + k) == Some(control_ext_end(d, e)->0 + k),
    decreases gif_left(d, e),
{
    let end = control_ext_end(d, e)->0;
    if 0 <= e < d.len() && d[e] != 0 {
        let e2 = e + 1 + d[e];
        assert(control_ext_end(d, e2) == control_ext_end(d, e));
        lemma_control_ext_by_end(d, e2, e2);
        assert(x[e + k] == d[e]);
        lemma_control_ext_end_local(d, x, e2, k);
        assert(e + k + 1 + x[e + k] == e2 + k);
    } else {
        assert(x[e + k] == d[e]);
    }
}

proof fn lemma_top_shift(a: Seq<u8>, b: Seq<u8>, p: int)
    requires
        0 <= p,
    ensures
        gif_top(a + b, a.len() + p) == gif_top(b, p),
    decreases gif_left(b, p),
{
    let ab = a + b;
    let q = a.len() + p;
    if p < b.len() {
        assert(ab[q] == b[p]);
        if b[p] == 0x2C {
            let p1 = p + 1;
            if p1 + 9 <= b.len() {
                assert(ab[q + 9] == b[p1 + 8]);
                assert(ab.subrange(q, q + 10) =~= b.subrange(p, p1 + 9));
                let lct = color_table_len(b[p1 + 8]);
                if p1 + 9 + lct <= b.len() {
                    let q2 = p1 + 9 + lct;
                    assert(ab.subrange(q + 10, a.len() + q2) =~= b.subrange(p1 + 9, q2));
                    if q2 < b.len() {
                        assert(ab[a.len() + q2] == b[q2]);
                        lemma_img_shift(a, b, q2 + 1);
                    }
                }
            }
        } else if b[p] == 0x21 {
            if p + 2 <= b.len() {
                assert(ab[q + 1] == b[p + 1]);
                if b[p + 1] == 0xF9 {
                    if p + 2 < b.len() {
                        assert(ab[q + 2] == b[p + 2]);
                        lemma_ctl_shift(a, b, p, p + 3 + b[p + 2]);
                    }
                } else {
                    lemma_skip_shift(a, b, p + 2);
                }
            }
        }
    }
}

proof fn lemma_img_shift(a: Seq<u8>, b: Seq<u8>, p: int)
    requires
        0 <= p,
    ensures
        gif_image_blocks(a + b, a.len() + p) == gif_image_blocks(b, p),
    decreases gif_left(b, p),
{
    let ab = a + b;
    let q = a.len() + p;
    if p < b.len() {
        assert(ab[q] == b[p]);
        let bs = b[p] as int;
        if bs == 0 || p + 1 + bs > b.len() {
            lemma_top_shift(a, b, p + 1);
        } else {
            assert(ab.subrange(q + 1, q + 1 + bs) =~= b.subrange(p + 1, p + 1 + bs));
            lemma_img_shift(a, b, p + 1 + bs);
        }
    }
}

proof fn lemma_skip_shift(a: Seq<u8>, b: Seq<u8>, p: int)
    requires
        0 <= p,
    ensures
        gif_skip_blocks(a + b, a.len() + p) == gif_skip_blocks(b, p),
    decreases gif_left(b, p),
{
    let ab = a + b;
    let q = a.len() + p;
    if p < b.len() {
        assert(ab[q] == b[p]);
        if b[p] == 0 {
            lemma_top_shift(a, b, p + 1);
        } else {
            lemma_skip_shift(a, b, p + 1 + b[p]);
        }
    }
}

proof fn lemma_ctl_shift(a: Seq<u8>, b: Seq<u8>, s: int, e: int)
    requires
        0 <= s <= e,
    ensures
        gif_control_ext(a + b, a.len() + s, a.len() + e) == gif_control_ext(b, s, e),
    decreases gif_left(b, e),
{
    let ab = a + b;
    let q = a.len() + e;
    if e < b.len() {
        assert(ab[q] == b[e]);
        if b[e] != 0 {
            lemma_ctl_shift(a, b, s, e + 1 + b[e]);
        } else {
            assert(ab.subrange(a.len() + s, q + 1) =~= b.subrange(s, e + 1));
            lemma_top_shift(a, b, e + 1);
        }
    }
}

/// What the walk from `p` keeps is at most what is left of the data, and a second walk over it
/// keeps all of it and drops nothing.
proof fn lemma_top_stable(d: Seq<u8>, p: int)
    requires
        0 <= p,
    ensures
        gif_top(d, p) matches Some((o, c)) ==> o.len() <= gif_left(d, p) && gif_top(o, 0) == Some(
            (o, false),
        ),
    decreases gif_left(d, p),
{
    if p < d.len() {
        let empty = Seq::<u8>::empty();
        if d[p] == 0x2C {
            let p1 = p + 1;
            if p1 + 9 <= d.len() {
                let head = d.subrange(p, p1 + 9);
                let lct = color_table_len(d[p1 + 8]);
                assert(lct >= 0) by {
                    if d[p1 + 8] & 0x80 != 0 {
                        assert(pow2(((d[p1 + 8] & 0x07) + 1) as nat) >= 0);
                    }
                }
                if p1 + 9 + lct > d.len() {
                    assert(lct > 0);
                    assert(head[0] == 0x2C && head[9] == d[p1 + 8]);
                    assert(head.subrange(0, 10) =~= head);
                } else {
                    let q = p1 + 9 + lct;
                    let desc = head + d.subrange(p1 + 9, q);
                    assert(desc =~= d.subrange(p, q));
                    assert(desc[0] == 0x2C && desc[9] == d[p1 + 8]);
                    if q >= d.len() {
                        assert(desc.subrange(0, 10) =~= head);
                        assert(desc.subrange(10, desc.len() as int) =~= d.subrange(p1 + 9, q));
                        assert(head + d.subrange(p1 + 9, q) =~= desc);
                    } else {
                        lemma_img_stable(d, q + 1);
                        if let Some((r, c)) = gif_image_blocks(d, q + 1) {
                            let front = desc + seq![d[q]];
                            let o = front + r;
                            assert(o[0] == 0x2C && o[9] == d[p1 + 8]);
                            assert(o.subrange(0, 10) =~= head);
                            assert(o.subrange(10, 10 + lct) =~= d.subrange(p1 + 9, q));
                            assert(o[10 + lct] == d[q]);
                            lemma_img_shift(front, r, 0);
                            assert(front.len() == 11 + lct);
                            assert(head + d.subrange(p1 + 9, q) + seq![o[10 + lct]] =~= front);
                        }
                    }
                }
            }
        } else if d[p] == 0x21 {
            if p + 2 <= d.len() {
                if d[p + 1] == 0xF9 {
                    if p + 2 < d.len() {
                        let e = p + 3 + d[p + 2];
                        lemma_control_ext_by_end(d, p, e);
                        if let Some(x) = control_ext_end(d, e) {
                            lemma_top_stable(d, x + 1);
                            if let Some((r, c)) = gif_top(d, x + 1) {
                                let piece = d.subrange(p, x + 1);
                                let o = piece + r;
                                assert(o[0] == 0x21 && o[1] == 0xF9 && o[2] == d[p + 2]);
                                assert forall|i: int| e <= i <= x implies 0 <= i + (0 - p) < o.len()
                                    && o[i + (0 - p)] == d[i] by {
                                    assert(o[i - p] == piece[i - p]);
                                }
                                lemma_control_ext_end_local(d, o, e, 0 - p);
                                lemma_control_ext_by_end(o, 0, e - p);
                                assert(o.subrange(0, x - p + 1) =~= piece);
                                lemma_top_shift(piece, r, 0);
                            }
                        }
                    }
                } else {
                    lemma_skip_stable(d, p + 2);
                }
            }
        } else if d[p] == 0x3B {
            assert(seq![0x3Bu8][0] == 0x3B);
        }
    }
}

proof fn lemma_img_stable(d: Seq<u8>, p: int)
    requires
        0 <= p,
    ensures
        gif_image_blocks(d, p) matches Some((o, c)) ==> o.len() <= gif_left(d, p)
            && gif_image_blocks(o, 0) == Some((o, false)),
    decreases gif_left(d, p),
{
    if p < d.len() {
        let bs = d[p] as int;
        if bs == 0 || p + 1 + bs > d.len() {
            lemma_top_stable(d, p + 1);
            if let Some((r, c)) = gif_top(d, p + 1) {
                let one = seq![d[p]];
                let o = one + r;
                assert(o[0] == d[p]);
                lemma_top_shift(one, r, 0);
                assert(seq![o[0]] =~= one);
            }
        } else {
            lemma_img_stable(d, p + 1 + bs);
            if let Some((r, c)) = gif_image_blocks(d, p + 1 + bs) {
                let piece = seq![d[p]] + d.subrange(p + 1, p + 1 + bs);
                let o = piece + r;
                assert(o[0] == d[p]);
                assert(o.subrange(1, 1 + bs) =~= d.subrange(p + 1, p + 1 + bs));
                assert(seq![o[0]] + o.subrange(1, 1 + bs) =~= piece);
                lemma_img_shift(piece, r, 0);
            }
        }
    }
}

proof fn lemma_skip_stable(d: Seq<u8>, p: int)
    requires
        0 <= p,
    ensures
        gif_skip_blocks(d, p) matches Some((o, c)) ==> o.len() <= gif_left(d, p) && gif_top(o, 0)
            == Some((o, false)),
    decreases gif_left(d, p),
{
    if p < d.len() {
        if d[p] == 0 {
            lemma_top_stable(d, p + 1);
        } else {
            lemma_skip_stable(d, p + 1 + d[p]);
        }
    }
}

/// Stripping a GIF a second time changes nothing: what the first pass keeps holds no
/// extension that the stripper drops.
pub proof fn law_strip_gif_idempotent(d: Seq<u8>)
    requires
        gif_strip_outcome(d) matches Some(Some(_)),
    ensures
        gif_strip_outcome(gif_strip_outcome(d)->0->0) == Some(None::<Seq<u8>>),
{
    let out = gif_strip_outcome(d)->0->0;
    let end = 13 + color_table_len(d[10]);
    assert(color_table_len(d[10]) >= 0) by {
        if d[10] & 0x80 != 0 {
            assert(pow2(((d[10] & 0x07) + 1) as nat) >= 0);
        }
    }
    let head = d.subrange(0, end);
    let (o, c) = gif_top(d, end)->0;
    assert(out == head + o);
    assert(out[10] == d[10]);
    assert(out.subrange(0, 6) =~= d.subrange(0, 6));
    lemma_top_stable(d, end);
    lemma_top_shift(head, o, 0);
    assert(out.subrange(0, end) =~= head);
}


/// The length of a run's output, plus two where it drops an extension.
pub open spec fn run_weight(r: GifRun) -> int {
    match r {
        Some((o, c)) => o.len() + if c {
            2int
        } else {
            0int
        },
        None => 0,
    }
}

proof fn lemma_top_weight(d: Seq<u8>, p: int)
    requires
        0 <= p,
    ensures
        run_weight(gif_top(d, p)) <= gif_left(d, p),
    decreases gif_left(d, p),
{
    if p < d.len() {
        if d[p] == 0x2C {
            let p1 = p + 1;
            if p1 + 9 <= d.len() {
                let lct = color_table_len(d[p1 + 8]);
                assert(lct >= 0) by {
                    if d[p1 + 8] & 0x80 != 0 {
                        assert(pow2(((d[p1 + 8] & 0x07) + 1) as nat) >= 0);
                    }
                }
                let q = p1 + 9 + lct;
                if q < d.len() {
                    lemma_img_weight(d, q + 1);
                }
            }
        } else if d[p] == 0x21 {
            if p + 2 <= d.len() {
                if d[p + 1] == 0xF9 {
                    if p + 2 < d.len() {
                        let e = p + 3 + d[p + 2];
                        lemma_control_ext_by_end(d, p, e);
                        if let Some(x) = control_ext_end(d, e) {
                            lemma_top_weight(d, x + 1);
                        }
                    }
                } else {
                    lemma_skip_weight(d, p + 2);
                }
            }
        }
    }
}

proof fn lemma_img_weight(d: Seq<u8>, p: int)
    requires
        0 <= p,
    ensures
        run_weight(gif_image_blocks(d, p)) <= gif_left(d, p),
    decreases gif_left(d, p),
{
    if p < d.len() {
        let bs = d[p] as int;
        if bs == 0 || p + 1 + bs > d.len() {
            lemma_top_weight(d, p + 1);
        } else {
            lemma_img_weight(d, p + 1 + bs);
        }
    }
}

proof fn lemma_skip_weight(d: Seq<u8>, p: int)
    requires
        0 <= p,
    ensures
        gif_skip_blocks(d, p) matches Some((o, c)) ==> o.len() <= gif_left(d, p),
    decreases gif_left(d, p),
{
    if p < d.len() {
        if d[p] == 0 {
            lemma_top_weight(d, p + 1);
        } else {
            lemma_skip_weight(d, p + 1 + d[p]);
        }
    }
}

/// A GIF strip that returns data returns less data than it was given, with the same
/// 13-byte header.
pub proof fn law_strip_gif_shortens(d: Seq<u8>)
    requires
        gif_strip_outcome(d) matches Some(Some(_)),
    ensures
        gif_strip_outcome(d)->0->0.len() < d.len(),
        gif_strip_outcome(d)->0->0.subrange(0, 13) == d.subrange(0, 13),
{
    let out = gif_strip_outcome(d)->0->0;
    let end = 13 + color_table_len(d[10]);
    assert(color_table_len(d[10]) >= 0) by {
        if d[10] & 0x80 != 0 {
            assert(pow2(((d[10] & 0x07) + 1) as nat) >= 0);
        }
    }
    let (o, c) = gif_top(d, end)->0;
    assert(out == d.subrange(0, end) + o);
    lemma_top_weight(d, end);
    assert(out.subrange(0, 13) =~= d.subrange(0, 13));
}


/// An image block: `2C`, the eight position and size bytes of the descriptor, its packed field
/// `pk`, the local colour table (3·2^((pk & 7) + 1) bytes where bit 7 of `pk` is set, none
/// otherwise), the LZW code size, one data sub-block and the empty block that ends the data.
pub open spec fn gif_image_bytes(
    desc: Seq<u8>,
    pk: u8,
    table: Seq<u8>,
    lzw: u8,
    data: Seq<u8>,
) -> Seq<u8> {
    seq![0x2Cu8] + desc + seq![pk] + table + seq![lzw] + seq![data.len() as u8] + data + seq![0u8]
}

/// A GIF header with its signature and no global colour table, followed by an image block,
/// strips to the header, the image block unchanged and what the rest strips to: an image, with
/// its local colour table and data, is never cut or dropped.
pub proof fn law_strip_gif_keeps_image(
    h: Seq<u8>,
    desc: Seq<u8>,
    pk: u8,
    table: Seq<u8>,
    lzw: u8,
    data: Seq<u8>,
    r: Seq<u8>,
)
    requires
        h.len() == 13,
        h.subrange(0, 6) == seq![0x47u8, 0x49, 0x46, 0x38, 0x39, 0x61] || h.subrange(0, 6) == seq![
            0x47u8,
            0x49,
            0x46,
            0x38,
            0x37,
            0x61,
        ],
        h[10] & 0x80 == 0,
        desc.len() == 8,
        table.len() == (if pk & 0x80 != 0 {
            3 * pow2(((pk & 0x07) + 1) as nat)
        } else {
            0
        }),
        1 <= data.len() <= 255,
    ensures
        ({
            let img = gif_image_bytes(desc, pk, table, lzw, data);
            gif_strip_outcome(h + img + r) == match gif_strip_outcome(h + r) {
                Some(Some(o)) => Some(Some(h + img + o.skip(13))),
                other => other,
            }
        }),
{
    let img = gif_image_bytes(desc, pk, table, lzw, data);
    let d = h + img + r;
    let e = h + r;
    let n = data.len() as int;
    let t = table.len() as int;
    assert(color_table_len(h[10]) == 0);
    assert(d.subrange(0, 6) =~= h.subrange(0, 6));
    assert(e.subrange(0, 6) =~= h.subrange(0, 6));
    assert(d[10] == h[10] && e[10] == h[10]);
    assert(d.subrange(0, 13) =~= h && e.subrange(0, 13) =~= h);
    // the image block, piece by piece
    assert(d[13] == 0x2C);
    assert(d[22] == pk);
    assert(color_table_len(pk) == t);
    let head = d.subrange(13, 23);
    let q = 23 + t;
    assert(d.subrange(23, q) =~= table);
    assert(d[q] == lzw);
    assert(d[q + 1] == data.len() as u8);
    assert(d.subrange(q + 2, q + 2 + n) =~= data);
    assert(d[q + 2 + n] == 0);
    let rest_at: int = 13 + img.len() as int;
    assert(q + 3 + n == rest_at);
    let tail = gif_top(d, rest_at as int);
    assert(gif_image_blocks(d, q + 2 + n) == then(seq![0u8], false, tail));
    assert(gif_image_blocks(d, q + 1) == then(seq![d[q + 1]] + d.subrange(q + 2, q + 2 + n), false, gif_image_blocks(d, q + 2 + n)));
    lemma_then_then(seq![d[q + 1]] + d.subrange(q + 2, q + 2 + n), false, seq![0u8], false, tail);
    let desc_piece = head + d.subrange(23, q);
    assert(gif_top(d, 13) == then(desc_piece + seq![d[q]], false, gif_image_blocks(d, q + 1)));
    lemma_then_then(desc_piece + seq![d[q]], false, seq![d[q + 1]] + d.subrange(q + 2, q + 2 + n) + seq![0u8], false, tail);
    assert(desc_piece + seq![d[q]] + (seq![d[q + 1]] + d.subrange(q + 2, q + 2 + n) + seq![0u8]) =~= img);
    // what follows the image is walked as the rest alone is
    lemma_top_shift(h + img, r, 0);
    lemma_top_shift(h, r, 0);
    assert(gif_top(d, 13) == then(img, false, gif_top(r, 0)));
    assert(gif_top(e, 13) == gif_top(r, 0));
    if let Some((o, c)) = gif_top(r, 0) {
        lemma_then_then(h, false, img, false, Some((o, c)));
        assert((h + o).skip(13) =~= o);
        assert(h + (img + o) =~= h + img + o);
    }
}


/// A GIF header: a signature, and no global colour table.
pub open spec fn plain_gif_header(h: Seq<u8>) -> bool {
    &&& h.len() == 13
    &&& (h.subrange(0, 6) == seq![0x47u8, 0x49, 0x46, 0x38, 0x39, 0x61] || h.subrange(0, 6)
        == seq![0x47u8, 0x49, 0x46, 0x38, 0x37, 0x61])
    &&& h[10] & 0x80 == 0
}

/// Behind a header, the walk over `h + x + r` starts with what it makes of `x` and goes on
/// with `r` as if `r` followed the header directly.
proof fn lemma_header_then(h: Seq<u8>, x: Seq<u8>, r: Seq<u8>, piece: Seq<u8>, dropped: bool)
    requires
        plain_gif_header(h),
        gif_top(h + x + r, 13) == then(piece, dropped, gif_top(h + x + r, 13 + x.len() as int)),
    ensures
        gif_strip_outcome(h + x + r) == gif_result(then(h, false, then(piece, dropped, gif_top(h + r, 13)))),
        gif_strip_outcome(h + r) == gif_result(then(h, false, gif_top(h + r, 13))),
{
    let d = h + x + r;
    let e = h + r;
    assert(color_table_len(h[10]) == 0);
    assert(d.subrange(0, 6) =~= h.subrange(0, 6));
    assert(e.subrange(0, 6) =~= h.subrange(0, 6));
    assert(d[10] == h[10] && e[10] == h[10]);
    assert(d.subrange(0, 13) =~= h && e.subrange(0, 13) =~= h);
    lemma_top_shift(h + x, r, 0);
    lemma_top_shift(h, r, 0);
}

/// A GIF header followed by a graphic control extension (`21 F9 04`, four bytes, `00`) strips
/// to the header, the extension unchanged and what the rest strips to.
pub proof fn law_strip_gif_keeps_control_extension(h: Seq<u8>, body: Seq<u8>, r: Seq<u8>)
    requires
        plain_gif_header(h),
        body.len() == 4,
    ensures
        ({
            let g = seq![0x21u8, 0xF9, 0x04] + body + seq![0u8];
            gif_strip_outcome(h + g + r) == match gif_strip_outcome(h + r) {
                Some(Some(o)) => Some(Some(h + g + o.skip(13))),
                other => other,
            }
        }),
{
    let g = seq![0x21u8, 0xF9, 0x04] + body + seq![0u8];
    let d = h + g + r;
    assert(d[13] == 0x21 && d[14] == 0xF9 && d[15] == 4 && d[20] == 0);
    assert(gif_control_ext(d, 13, 20) == then(d.subrange(13, 21), false, gif_top(d, 21)));
    assert(d.subrange(13, 21) =~= g);
    lemma_header_then(h, g, r, g, false);
    if let Some((o, c)) = gif_top(h + r, 13) {
        lemma_then_then(h, false, g, false, Some((o, c)));
        assert((h + o).skip(13) =~= o);
        assert(h + (g + o) =~= h + g + o);
    }
}

/// A GIF header followed by an extension other than graphic control (a comment `FE`, an
/// application block `FF`, plain text `01`, ...; one sub-block, `00`) strips to a changed GIF
/// without it: what the rest alone strips to where that changes, and the header and trailer
/// alone where the rest is just the trailer.
pub proof fn law_strip_gif_drops_other_extension(h: Seq<u8>, label: u8, text: Seq<u8>, r: Seq<u8>)
    requires
        plain_gif_header(h),
        label != 0xF9,
        1 <= text.len() <= 255,
    ensures
        ({
            let cm = seq![0x21u8, label, text.len() as u8] + text + seq![0u8];
            &&& gif_strip_outcome(h + cm + r) is None <==> gif_strip_outcome(h + r) is None
            &&& gif_strip_outcome(h + r) is Some ==> gif_strip_outcome(h + cm + r) is Some && gif_strip_outcome(h + cm + r)->0 is Some
            &&& gif_strip_outcome(h + r) matches Some(Some(o)) ==> gif_strip_outcome(h + cm + r) == Some(Some(o))
            &&& gif_strip_outcome(h + cm + seq![0x3Bu8]) == Some(Some(h + seq![0x3Bu8]))
        }),
{
    let n = text.len() as int;
    let cm = seq![0x21u8, label, text.len() as u8] + text + seq![0u8];
    assert forall|rr: Seq<u8>| #[trigger] gif_top(h + cm + rr, 13) == then(seq![], true, gif_top(h + cm + rr, 13 + cm.len() as int)) by {
        let d = h + cm + rr;
        assert(d[13] == 0x21 && d[14] == label && d[15] == text.len() as u8 && d[16 + n] == 0);
        assert(gif_skip_blocks(d, 15) == gif_skip_blocks(d, 16 + n));
    }
    lemma_header_then(h, cm, r, seq![], true);
    let t = seq![0x3Bu8];
    assert(gif_top(h + cm + t, 13) == then(seq![], true, gif_top(h + cm + t, 13 + cm.len() as int)));
    lemma_header_then(h, cm, t, seq![], true);
    assert((h + t)[13] == 0x3B);
    assert(h + Seq::<u8>::empty() =~= h);
    if let Some((o, c)) = gif_top(h + r, 13) {
        assert(Seq::<u8>::empty() + o =~= o);
    }
}

/// The walk over an image block at the front of `img + y` keeps the block whole and goes on
/// with `y`.
proof fn lemma_image_front(desc: Seq<u8>, pk: u8, table: Seq<u8>, lzw: u8, data: Seq<u8>, y: Seq<u8>)
    requires
        desc.len() == 8,
        table.len() == color_table_len(pk),
        1 <= data.len() <= 255,
    ensures
        gif_top(gif_image_bytes(desc, pk, table, lzw, data) + y, 0) == then(
            gif_image_bytes(desc, pk, table, lzw, data),
            false,
            gif_top(y, 0),
        ),
{
    let img = gif_image_bytes(desc, pk, table, lzw, data);
    let d = img + y;
    let n = data.len() as int;
    let t = table.len() as int;
    assert(d[0] == 0x2C);
    assert(d[9] == pk);
    let head = d.subrange(0, 10);
    let q = 10 + t;
    assert(d.subrange(10, q) =~= table);
    assert(d[q] == lzw);
    assert(d[q + 1] == data.len() as u8);
    assert(d.subrange(q + 2, q + 2 + n) =~= data);
    assert(d[q + 2 + n] == 0);
    let rest_at: int = img.len() as int;
    assert(q + 3 + n == rest_at);
    let tail = gif_top(d, rest_at);
    assert(gif_image_blocks(d, q + 2 + n) == then(seq![0u8], false, tail));
    assert(gif_image_blocks(d, q + 1) == then(seq![d[q + 1]] + d.subrange(q + 2, q + 2 + n), false, gif_image_blocks(d, q + 2 + n)));
    lemma_then_then(seq![d[q + 1]] + d.subrange(q + 2, q + 2 + n), false, seq![0u8], false, tail);
    let desc_piece = head + d.subrange(10, q);
    assert(gif_top(d, 0) == then(desc_piece + seq![d[q]], false, gif_image_blocks(d, q + 1)));
    lemma_then_then(desc_piece + seq![d[q]], false, seq![d[q + 1]] + d.subrange(q + 2, q + 2 + n) + seq![0u8], false, tail);
    assert(desc_piece + seq![d[q]] + (seq![d[q + 1]] + d.subrange(q + 2, q + 2 + n) + seq![0u8]) =~= img);
    lemma_top_shift(img, y, 0);
}

/// A graphic control extension: `21 F9 04`, four bytes, `00`.
pub open spec fn is_gif_control_block(b: Seq<u8>) -> bool {
    b.len() == 8 && b[0] == 0x21 && b[1] == 0xF9 && b[2] == 4 && b[7] == 0
}

/// An image block as [`gif_image_bytes`] lays it out: `2C`, the descriptor with its packed
/// field at byte 9, the local colour table that field announces, the LZW code size, one data
/// sub-block and the empty block.
pub open spec fn is_gif_image_block(b: Seq<u8>) -> bool {
    b.len() >= 10 && b[0] == 0x2C && b.len() >= 13 + color_table_len(b[9]) && b[11
        + color_table_len(b[9])] >= 1 && b.len() == 13 + color_table_len(b[9]) + b[11
        + color_table_len(b[9])] && b.last() == 0
}

/// A block that the strip keeps whole: a graphic control extension or an image.
pub open spec fn is_gif_kept_block(b: Seq<u8>) -> bool {
    is_gif_control_block(b) || is_gif_image_block(b)
}

proof fn lemma_kept_front(b: Seq<u8>, y: Seq<u8>)
    requires
        is_gif_kept_block(b),
    ensures
        gif_top(b + y, 0) == then(b, false, gif_top(y, 0)),
{
    if is_gif_control_block(b) {
        let d = b + y;
        assert(d[0] == 0x21 && d[1] == 0xF9 && d[2] == 4 && d[7] == 0);
        assert(gif_control_ext(d, 0, 7) == then(d.subrange(0, 8), false, gif_top(d, 8)));
        assert(d.subrange(0, 8) =~= b);
        lemma_top_shift(b, y, 0);
    } else {
        let t = color_table_len(b[9]);
        assert(t >= 0) by {
            if b[9] & 0x80 != 0 {
                assert(pow2(((b[9] & 0x07) + 1) as nat) >= 0);
            }
        }
        let n = b[11 + t] as int;
        let desc = b.subrange(1, 9);
        let table = b.subrange(10, 10 + t);
        let data = b.subrange(12 + t, 12 + t + n);
        assert(data.len() as u8 == b[11 + t]);
        assert(b =~= gif_image_bytes(desc, b[9], table, b[10 + t], data));
        lemma_image_front(desc, b[9], table, b[10 + t], data, y);
    }
}

/// Kept blocks at the front are kept whole, and drop nothing.
proof fn lemma_kept_blocks(k: Seq<Seq<u8>>, y: Seq<u8>)
    requires
        forall|i: int| 0 <= i < k.len() ==> is_gif_kept_block(#[trigger] k[i]),
    ensures
        gif_top(k.flatten() + y, 0) == then(k.flatten(), false, gif_top(y, 0)),
    decreases k.len(),
{
    if k.len() == 0 {
        assert(k.flatten() + y =~= y);
        if let Some((o, c)) = gif_top(y, 0) {
            assert(k.flatten() + o =~= o);
        }
    } else {
        let b = k[0];
        let rest = k.drop_first();
        assert(is_gif_kept_block(b));
        assert forall|i: int| 0 <= i < rest.len() implies is_gif_kept_block(#[trigger] rest[i]) by {
            assert(rest[i] == k[i + 1]);
        }
        lemma_kept_blocks(rest, y);
        assert(k.flatten() == b + rest.flatten());
        assert(k.flatten() + y =~= b + (rest.flatten() + y));
        lemma_kept_front(b, rest.flatten() + y);
        lemma_then_then(b, false, rest.flatten(), false, gif_top(y, 0));
    }
}

/// An extension other than graphic control, with one sub-block, at the front of `x + y` is
/// dropped, and the walk goes on with `y`.
proof fn lemma_other_extension_front(label: u8, text: Seq<u8>, y: Seq<u8>)
    requires
        label != 0xF9,
        1 <= text.len() <= 255,
    ensures
        gif_top(seq![0x21u8, label, text.len() as u8] + text + seq![0u8] + y, 0) == then(
            seq![],
            true,
            gif_top(y, 0),
        ),
{
    let cm = seq![0x21u8, label, text.len() as u8] + text + seq![0u8];
    let d = cm + y;
    let n = text.len() as int;
    assert(d[0] == 0x21 && d[1] == label && d[2] == text.len() as u8 && d[3 + n] == 0);
    assert(gif_skip_blocks(d, 2) == gif_skip_blocks(d, 3 + n));
    lemma_top_shift(cm, y, 0);
}

/// A GIF (signature, no global colour table) whose one other extension (a comment,
/// application or plain-text block with one sub-block) stands among kept blocks (`k1` before
/// it, `k2` after it; graphic control extensions and images), followed by the trailer and
/// anything, strips to the same GIF without that extension: every image, with its local
/// colour table and data, every graphic control extension and the trailer are kept byte for
/// byte and in order, and nothing after the trailer is.
pub proof fn law_strip_gif_removes_only_extension(
    h: Seq<u8>,
    k1: Seq<Seq<u8>>,
    label: u8,
    text: Seq<u8>,
    k2: Seq<Seq<u8>>,
    r: Seq<u8>,
)
    requires
        plain_gif_header(h),
        forall|i: int| 0 <= i < k1.len() ==> is_gif_kept_block(#[trigger] k1[i]),
        forall|i: int| 0 <= i < k2.len() ==> is_gif_kept_block(#[trigger] k2[i]),
        label != 0xF9,
        1 <= text.len() <= 255,
    ensures
        ({
            let cm = seq![0x21u8, label, text.len() as u8] + text + seq![0u8];
            gif_strip_outcome(h + k1.flatten() + cm + k2.flatten() + seq![0x3Bu8] + r) == Some(
                Some(h + k1.flatten() + k2.flatten() + seq![0x3Bu8]),
            )
        }),
{
    let cm = seq![0x21u8, label, text.len() as u8] + text + seq![0u8];
    let tr = seq![0x3Bu8];
    let y2 = tr + r;
    let y1 = k2.flatten() + y2;
    let y0 = cm + y1;
    let x = k1.flatten() + y0;
    let d = h + k1.flatten() + cm + k2.flatten() + tr + r;
    assert(d =~= h + x);
    assert(y2[0] == 0x3B);
    assert(gif_top(y2, 0) == Some((tr, false)));
    lemma_kept_blocks(k2, y2);
    assert(cm + y1 =~= cm + k2.flatten() + y2);
    lemma_other_extension_front(label, text, y1);
    lemma_kept_blocks(k1, y0);
    lemma_top_shift(h, x, 0);
    assert(color_table_len(h[10]) == 0);
    assert(d.subrange(0, 6) =~= h.subrange(0, 6));
    assert(d[10] == h[10]);
    assert(d.subrange(0, 13) =~= h);
    assert(h + (k1.flatten() + (Seq::<u8>::empty() + (k2.flatten() + tr))) =~= h + k1.flatten()
        + k2.flatten() + tr);
}

}
