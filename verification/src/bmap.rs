//! The inode bitmap: scanning for a free inode and flipping allocation
//! bits. The imap starts at block 2; bit `n - 1` of the map, taken
//! byte-wise and LSB-first, belongs to inode `n`.

use crate::bio::syc_read;
use crate::device::BlockDevice;
use crate::fs::MinixFileSystem;
use crate::inode::{parse_superblock, sb_spec};
use crate::layout::zero_vec;
use vstd::arithmetic::div_mod::lemma_fundamental_div_mod_converse;
use vstd::prelude::*;

verus! {

/// Bit `i` of the inode bitmap of disk `d`: bit `i % 8` of the imap byte
/// `i / 8`, the imap starting at byte 2048.
pub open spec fn imap_bit(d: Seq<u8>, i: int) -> bool {
    (d[2048 + i / 8] >> ((i % 8) as u8)) & 1 == 1
}

/// The number of bits the inode map holds: 8192 per imap block.
pub open spec fn imap_bits_total(d: Seq<u8>) -> int {
    sb_spec(d).imap_blocks * 8192
}

/// The first clear bit of the imap at or after bit `i`, as a 1-based
/// inode number.
pub open spec fn first_clear_from(d: Seq<u8>, i: int, total: int) -> Option<u32>
    decreases total - i,
{
    if !(0 <= i < total) {
        None
    } else if !imap_bit(d, i) {
        Some((i + 1) as u32)
    } else {
        first_clear_from(d, i + 1, total)
    }
}

/// The inode number `find_free_inode` yields: one past the first clear
/// imap bit, or nothing when the superblock is unreadable or every bit is
/// set.
pub open spec fn free_inode_opt(d: Seq<u8>) -> Option<u32> {
    if d.len() < 2048 {
        None
    } else {
        first_clear_from(d, 0, imap_bits_total(d))
    }
}

/// The imap blocks named by the superblock lie within the disk.
pub open spec fn imap_in_range(d: Seq<u8>) -> bool {
    d.len() >= 2048 ==> 2048 + sb_spec(d).imap_blocks * 1024 <= d.len()
}

proof fn lemma_first_clear_from_found(d: Seq<u8>, i: int, c: int, total: int)
    requires
        0 <= i <= c < total,
        !imap_bit(d, c),
        forall|m: int| i <= m < c ==> imap_bit(d, m),
    ensures
        first_clear_from(d, i, total) == Some((c + 1) as u32),
    decreases c - i,
{
    if i < c {
        lemma_first_clear_from_found(d, i + 1, c, total);
    }
}

proof fn lemma_first_clear_from_none(d: Seq<u8>, i: int, total: int)
    requires
        0 <= i,
        forall|m: int| i <= m < total ==> imap_bit(d, m),
    ensures
        first_clear_from(d, i, total) is None,
    decreases total - i,
{
    if i < total {
        lemma_first_clear_from_none(d, i + 1, total);
    }
}

/// What the scan's answer means: the returned number's own imap bit is
/// clear, every lower inode's bit is set, and `None` only comes of a full
/// map (or an unreadable superblock).
pub proof fn lemma_free_inode_props(d: Seq<u8>)
    ensures
        free_inode_opt(d) matches Some(n) ==> 1 <= n <= imap_bits_total(d) && !imap_bit(
            d,
            n - 1,
        ) && forall|m: int| 0 <= m < n - 1 ==> imap_bit(d, m),
        (free_inode_opt(d) is None && d.len() >= 2048) ==> forall|m: int|
            0 <= m < imap_bits_total(d) ==> imap_bit(d, m),
{
    if d.len() >= 2048 {
        lemma_first_clear_any(d, 0, imap_bits_total(d));
    }
}

proof fn lemma_first_clear_any(d: Seq<u8>, i: int, total: int)
    requires
        0 <= i,
        total <= 0xffff_ffff,
    ensures
        first_clear_from(d, i, total) matches Some(n) ==> i + 1 <= n <= total && !imap_bit(
            d,
            n - 1,
        ) && forall|m: int| i <= m < n - 1 ==> imap_bit(d, m),
        first_clear_from(d, i, total) is None ==> forall|m: int| i <= m < total ==> imap_bit(d, m),
    decreases total - i,
{
    if 0 <= i < total && imap_bit(d, i) {
        lemma_first_clear_any(d, i + 1, total);
    }
}

impl MinixFileSystem {
    /// Checks at run time that the imap blocks the superblock names lie
    /// within the disk — the footing `find_free_inode` and the bitmap
    /// updates need.
    pub fn imap_region_ok(dev: &BlockDevice) -> (b: bool)
        requires
            dev.wf(),
        ensures
            b == imap_in_range(dev@),
    {
        if dev.size() < 2048 {
            return true;
        }
        let mut buffer = zero_vec(1024);
        let st = syc_read(dev, &mut buffer, 1024, 1024);
        proof {
            assert(st == 0);
        }
        let sb = parse_superblock(&buffer);
        proof {
            assert(sb == sb_spec(dev@));
        }
        2048 + (sb.imap_blocks as u64) * 1024 <= dev.size() as u64
    }
}

/// Sets bit `j` of a byte, leaving the other bits alone.
pub(crate) fn set_bit(b: u8, j: u8) -> (r: u8)
    requires
        j < 8,
    ensures
        r == b | (1u8 << j),
        (r >> j) & 1 == 1,
        forall|m: u8| m < 8 && m != j ==> (r >> m) & 1 == (b >> m) & 1,
{
    let r = b | (1u8 << j);
    proof {
        assert(((b | (1u8 << j)) >> j) & 1 == 1) by (bit_vector)
            requires
                j < 8,
        ;
        assert forall|m: u8| m < 8 && m != j implies ((b | (1u8 << j)) >> m) & 1 == (b >> m)
            & 1 by {
            assert(((b | (1u8 << j)) >> m) & 1 == (b >> m) & 1) by (bit_vector)
                requires
                    m < 8 && j < 8 && m != j,
            ;
        }
    }
    r
}

/// Clears bit `j` of a byte, leaving the other bits alone.
pub(crate) fn clear_bit(b: u8, j: u8) -> (r: u8)
    requires
        j < 8,
    ensures
        r == b & !(1u8 << j),
        (r >> j) & 1 == 0,
        forall|m: u8| m < 8 && m != j ==> (r >> m) & 1 == (b >> m) & 1,
{
    let r = b & !(1u8 << j);
    proof {
        assert(((b & !(1u8 << j)) >> j) & 1 == 0) by (bit_vector)
            requires
                j < 8,
        ;
        assert forall|m: u8| m < 8 && m != j implies ((b & !(1u8 << j)) >> m) & 1 == (b >> m)
            & 1 by {
            assert(((b & !(1u8 << j)) >> m) & 1 == (b >> m) & 1) by (bit_vector)
                requires
                    m < 8 && j < 8 && m != j,
            ;
        }
    }
    r
}

impl MinixFileSystem {
    /// Scans the inode bitmap for the first clear bit — byte-wise through
    /// the imap blocks, LSB-first within each byte — and returns the
    /// corresponding 1-based inode number. Returns `None` when the
    /// superblock region cannot be read or every scanned bit is set.
    pub fn find_free_inode(dev: &BlockDevice) -> (r: Option<u32>)
        requires
            dev.wf(),
            imap_in_range(dev@),
        ensures
            r == free_inode_opt(dev@),
            r matches Some(n) ==> 1 <= n <= imap_bits_total(dev@) && !imap_bit(dev@, n - 1)
                && forall|m: int| 0 <= m < n - 1 ==> imap_bit(dev@, m),
    {
        let mut buffer = zero_vec(1024);
        let st = syc_read(dev, &mut buffer, 1024, 1024);
        if st != 0 {
            return None;
        }
        let sb = parse_superblock(&buffer);
        proof {
            assert(sb == sb_spec(dev@));
        }
        let imap_blocks: usize = sb.imap_blocks as usize;
        let ghost total = imap_bits_total(dev@);
        let mut k: usize = 0;
        while k < imap_blocks
            invariant
                dev.wf(),
                buffer.len() == 1024,
                k <= imap_blocks,
                imap_blocks <= 65535,
                imap_blocks == sb_spec(dev@).imap_blocks,
                total == imap_blocks * 8192,
                dev@.len() >= 2048,
                2048 + imap_blocks * 1024 <= dev@.len(),
                forall|m: int| 0 <= m < k * 8192 ==> imap_bit(dev@, m),
            decreases imap_blocks - k,
        {
            let st2 = syc_read(dev, &mut buffer, 1024, (2048 + k * 1024) as u32);
            proof {
                assert(st2 == 0);
            }
            let mut i: usize = 0;
            while i < 1024
                invariant
                    dev.wf(),
                    buffer.len() == 1024,
                    i <= 1024,
                    k < imap_blocks,
                    imap_blocks <= 65535,
                    imap_blocks == sb_spec(dev@).imap_blocks,
                    total == imap_blocks * 8192,
                    dev@.len() >= 2048,
                    2048 + imap_blocks * 1024 <= dev@.len(),
                    forall|t: int| 0 <= t < 1024 ==> buffer@[t] == dev@[2048 + k * 1024 + t],
                    forall|m: int| 0 <= m < (k * 1024 + i) * 8 ==> imap_bit(dev@, m),
                decreases 1024 - i,
            {
                let byte = buffer[i];
                let mut j: usize = 0;
                while j < 8
                    invariant
                        j <= 8,
                        i < 1024,
                        k < imap_blocks,
                        imap_blocks <= 65535,
                        imap_blocks == sb_spec(dev@).imap_blocks,
                        total == imap_blocks * 8192,
                        dev@.len() >= 2048,
                        dev@.len() >= 2048 + imap_blocks * 1024,
                        byte == dev@[2048 + (k * 1024 + i)],
                        forall|m: int| 0 <= m < (k * 1024 + i) * 8 + j ==> imap_bit(dev@, m),
                    decreases 8 - j,
                {
                    let ghost c = ((k * 1024 + i) * 8 + j) as int;
                    proof {
                        lemma_fundamental_div_mod_converse(c, 8, (k * 1024 + i) as int, j as int);
                    }
                    if (byte >> (j as u8)) & 1 == 0 {
                        proof {
                            assert(!imap_bit(dev@, c));
                            lemma_first_clear_from_found(dev@, 0, c, total);
                        }
                        return Some((((k * 1024 + i) * 8 + j) + 1) as u32);
                    }
                    proof {
                        let bb = byte >> (j as u8);
                        assert(bb & 1 == 0 || bb & 1 == 1) by (bit_vector);
                        assert(imap_bit(dev@, c));
                    }
                    j += 1;
                }
                i += 1;
            }
            k += 1;
        }
        proof {
            lemma_first_clear_from_none(dev@, 0, total);
        }
        None
    }
}

} // verus!
