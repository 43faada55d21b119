use vstd::prelude::*;

verus! {

/// The big-endian 16-bit value of the two bytes at `off`.
pub open spec fn be16(d: Seq<u8>, off: int) -> u16 {
    (d[off] as int * 0x100 + d[off + 1] as int) as u16
}

/// The big-endian 32-bit value of the four bytes at `off`.
pub open spec fn be32(d: Seq<u8>, off: int) -> u32 {
    (d[off] as int * 0x100_0000 + d[off + 1] as int * 0x1_0000 + d[off + 2] as int * 0x100
        + d[off + 3] as int) as u32
}

/// The little-endian 16-bit value of the two bytes at `off`.
pub open spec fn le16(d: Seq<u8>, off: int) -> u16 {
    (d[off] as int + d[off + 1] as int * 0x100) as u16
}

/// The little-endian 24-bit value of the three bytes at `off`.
pub open spec fn le24(d: Seq<u8>, off: int) -> u32 {
    (d[off] as int + d[off + 1] as int * 0x100 + d[off + 2] as int * 0x1_0000) as u32
}

/// The little-endian 32-bit value of the four bytes at `off`.
pub open spec fn le32(d: Seq<u8>, off: int) -> u32 {
    (d[off] as int + d[off + 1] as int * 0x100 + d[off + 2] as int * 0x1_0000 + d[off + 3] as int
        * 0x100_0000) as u32
}

/// Reads a big-endian `u16` at `off`.
pub fn read_u16_be(data: &[u8], off: usize) -> (r: u16)
    requires
        off + 2 <= data@.len(),
    ensures
        r == be16(data@, off as int),
{
    (data[off] as u16) * 0x100 + (data[off + 1] as u16)
}

/// Reads a big-endian `u32` at `off`.
pub fn read_u32_be(data: &[u8], off: usize) -> (r: u32)
    requires
        off + 4 <= data@.len(),
    ensures
        r == be32(data@, off as int),
{
    (data[off] as u32) * 0x100_0000 + (data[off + 1] as u32) * 0x1_0000 + (data[off + 2] as u32)
        * 0x100 + (data[off + 3] as u32)
}

/// Reads a little-endian `u16` at `off`.
pub fn read_u16_le(data: &[u8], off: usize) -> (r: u16)
    requires
        off + 2 <= data@.len(),
    ensures
        r == le16(data@, off as int),
{
    (data[off] as u16) + (data[off + 1] as u16) * 0x100
}

/// Reads a little-endian 24-bit value at `off`.
pub fn read_u24_le(data: &[u8], off: usize) -> (r: u32)
    requires
        off + 3 <= data@.len(),
    ensures
        r == le24(data@, off as int),
        r < 0x100_0000,
{
    (data[off] as u32) + (data[off + 1] as u32) * 0x100 + (data[off + 2] as u32) * 0x1_0000
}

/// Reads a little-endian `u32` at `off`.
pub fn read_u32_le(data: &[u8], off: usize) -> (r: u32)
    requires
        off + 4 <= data@.len(),
    ensures
        r == le32(data@, off as int),
{
    (data[off] as u32) + (data[off + 1] as u32) * 0x100 + (data[off + 2] as u32) * 0x1_0000
        + (data[off + 3] as u32) * 0x100_0000
}

/// Whether `d` holds the bytes of `tag` at `off`.
pub open spec fn has_at(d: Seq<u8>, off: int, tag: Seq<u8>) -> bool {
    0 <= off && off + tag.len() <= d.len() && d.subrange(off, off + tag.len()) == tag
}

/// Compares `data[off..off + tag.len()]` with `tag`.
pub fn bytes_at(data: &[u8], off: usize, tag: &[u8]) -> (r: bool)
    ensures
        r == has_at(data@, off as int, tag@),
{
    if off > data.len() || tag.len() > data.len() - off {
        return false;
    }
    let mut i: usize = 0;
    while i < tag.len()
        invariant
            i <= tag@.len(),
            off + tag@.len() <= data.len(),
            forall|j: int| 0 <= j < i ==> data@[off + j] == tag@[j],
        decreases tag@.len() - i,
    {
        if data[off + i] != tag[i] {
            assert(data@.subrange(off as int, off + tag@.len())[i as int] != tag@[i as int]);
            return false;
        }
        i = i + 1;
    }
    assert(data@.subrange(off as int, off + tag@.len()) =~= tag@);
    true
}

/// Appends `data[from..to]` to `out`.
pub fn append_range(out: &mut Vec<u8>, data: &[u8], from: usize, to: usize)
    requires
        from <= to <= data@.len(),
    ensures
        final(out)@ == old(out)@ + data@.subrange(from as int, to as int),
{
    out.extend_from_slice(&data[from..to]);
    assert(final(out)@ =~= old(out)@ + data@.subrange(from as int, to as int));
}

}
