//! Constants of the Minix 3 on-disk format and little-endian byte decoding.

use vstd::prelude::*;

verus! {

/// Magic number that identifies a Minix 3 superblock.
pub const MAGIC: u16 = 0x4d5a;

/// Size in bytes of a filesystem block (a "zone").
pub const BLOCK_SIZE: u32 = 1024;

/// Size in bytes of a device sector.
pub const SECTOR_SIZE: u32 = 512;

/// Number of 32-bit zone pointers held by one indirect block.
pub const NUM_IPTRS: usize = 256;

/// Mode bit marking an inode as a directory.
pub const S_IFDIR: u16 = 0o040_000;

/// Mode bit marking an inode as a regular file.
pub const S_IFREG: u16 = 0o100_000;

/// The 16-bit little-endian value stored at byte offset `off` of `d`.
pub open spec fn le16(d: Seq<u8>, off: int) -> u16 {
    (d[off] + d[off + 1] * 0x100) as u16
}

/// The 32-bit little-endian value stored at byte offset `off` of `d`.
pub open spec fn le32(d: Seq<u8>, off: int) -> u32 {
    (d[off] + d[off + 1] * 0x100 + d[off + 2] * 0x1_0000 + d[off + 3] * 0x100_0000) as u32
}

/// Byte `i` (little-endian order) of the 16-bit value `x`.
pub open spec fn le16_byte(x: u16, i: int) -> u8 {
    if i == 0 {
        (x % 0x100) as u8
    } else {
        ((x / 0x100) % 0x100) as u8
    }
}

/// Byte `i` (little-endian order) of the 32-bit value `x`.
pub open spec fn le32_byte(x: u32, i: int) -> u8 {
    if i == 0 {
        (x % 0x100) as u8
    } else if i == 1 {
        ((x / 0x100) % 0x100) as u8
    } else if i == 2 {
        ((x / 0x1_0000) % 0x100) as u8
    } else {
        ((x / 0x100_0000) % 0x100) as u8
    }
}

/// Reassembling the two little-endian bytes of `x` yields `x` again.
pub proof fn lemma_le16_roundtrip(x: u16)
    ensures
        le16_byte(x, 0) + le16_byte(x, 1) * 0x100 == x,
{
}

/// Reassembling the four little-endian bytes of `x` yields `x` again.
pub proof fn lemma_le32_roundtrip(x: u32)
    ensures
        le32_byte(x, 0) + le32_byte(x, 1) * 0x100 + le32_byte(x, 2) * 0x1_0000 + le32_byte(
            x,
            3,
        ) * 0x100_0000 == x,
{
}

/// `d` with the bytes at `[off, off + w.len())` replaced by `w`.
pub open spec fn range_replace(d: Seq<u8>, off: int, w: Seq<u8>) -> Seq<u8> {
    Seq::new(d.len(), |i: int| if off <= i < off + w.len() { w[i - off] } else { d[i] })
}

/// Reads the 16-bit little-endian value at `buf[off..off + 2]`.
pub fn read_u16(buf: &Vec<u8>, off: usize) -> (r: u16)
    requires
        off + 2 <= buf.len(),
    ensures
        r == le16(buf@, off as int),
{
    let b0 = buf[off];
    let b1 = buf[off + 1];
    b0 as u16 + (b1 as u16) * 0x100
}

/// Reads the 32-bit little-endian value at `buf[off..off + 4]`.
pub fn read_u32(buf: &Vec<u8>, off: usize) -> (r: u32)
    requires
        off + 4 <= buf.len(),
    ensures
        r == le32(buf@, off as int),
{
    let b0 = buf[off];
    let b1 = buf[off + 1];
    let b2 = buf[off + 2];
    let b3 = buf[off + 3];
    b0 as u32 + (b1 as u32) * 0x100 + (b2 as u32) * 0x1_0000 + (b3 as u32) * 0x100_0000
}

/// Appends the two little-endian bytes of `x` to `out`.
pub fn push_u16(out: &mut Vec<u8>, x: u16)
    ensures
        final(out)@.len() == old(out)@.len() + 2,
        forall|i: int| 0 <= i < old(out)@.len() ==> final(out)@[i] == old(out)@[i],
        final(out)@[old(out)@.len() as int] == le16_byte(x, 0),
        final(out)@[old(out)@.len() as int + 1] == le16_byte(x, 1),
{
    out.push((x % 0x100) as u8);
    out.push(((x / 0x100) % 0x100) as u8);
}

/// Appends the four little-endian bytes of `x` to `out`.
pub fn push_u32(out: &mut Vec<u8>, x: u32)
    ensures
        final(out)@.len() == old(out)@.len() + 4,
        forall|i: int| 0 <= i < old(out)@.len() ==> final(out)@[i] == old(out)@[i],
        forall|j: int|
            0 <= j < 4 ==> final(out)@[old(out)@.len() as int + j] == le32_byte(x, j),
{
    out.push((x % 0x100) as u8);
    out.push(((x / 0x100) % 0x100) as u8);
    out.push(((x / 0x1_0000) % 0x100) as u8);
    out.push(((x / 0x100_0000) % 0x100) as u8);
}

/// A vector of `n` zero bytes.
pub fn zero_vec(n: usize) -> (r: Vec<u8>)
    ensures
        r@.len() == n,
        forall|i: int| 0 <= i < n ==> r@[i] == 0u8,
{
    let mut v: Vec<u8> = Vec::new();
    let mut i: usize = 0;
    while i < n
        invariant
            i <= n,
            v@.len() == i,
            forall|k: int| 0 <= k < i ==> v@[k] == 0u8,
        decreases n - i,
    {
        v.push(0u8);
        i += 1;
    }
    v
}

} // verus!
