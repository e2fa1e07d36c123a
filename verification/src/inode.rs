//! The on-disk structures of the Minix 3 format: superblock, inode and
//! directory entry, with their byte-level decoding and encoding.

use crate::layout::{
    le16, le16_byte, le32, le32_byte, lemma_le16_roundtrip, lemma_le32_roundtrip, push_u16,
    push_u32, range_replace, read_u16, read_u32, MAGIC,
};
use vstd::prelude::*;

verus! {

/// The superblock describes the filesystem: where the bitmaps, the inode
/// table and the data zones sit. It lives in the 512 bytes at byte offset
/// 1024 of the disk and is read-only after format.
#[derive(Debug, Clone, Copy, PartialEq, Eq)]
pub struct SuperBlock {
    pub ninodes: u32,
    pub pad0: u16,
    pub imap_blocks: u16,
    pub zmap_blocks: u16,
    pub first_data_zone: u16,
    pub log_zone_size: u16,
    pub pad1: u16,
    pub max_size: u32,
    pub zones: u32,
    pub magic: u16,
    pub pad2: u16,
    pub block_size: u16,
    pub disk_version: u8,
}

/// The superblock encoded in `d` starting at byte `base`.
pub open spec fn sb_dec(d: Seq<u8>, base: int) -> SuperBlock {
    SuperBlock {
        ninodes: le32(d, base),
        pad0: le16(d, base + 4),
        imap_blocks: le16(d, base + 6),
        zmap_blocks: le16(d, base + 8),
        first_data_zone: le16(d, base + 10),
        log_zone_size: le16(d, base + 12),
        pad1: le16(d, base + 14),
        max_size: le32(d, base + 16),
        zones: le32(d, base + 20),
        magic: le16(d, base + 24),
        pad2: le16(d, base + 26),
        block_size: le16(d, base + 28),
        disk_version: d[base + 30],
    }
}

/// The superblock of disk image `d`, which sits at byte offset 1024.
pub open spec fn sb_spec(d: Seq<u8>) -> SuperBlock {
    sb_dec(d, 1024)
}

/// True when the disk is large enough to hold a superblock and that
/// superblock carries the Minix 3 magic number.
pub open spec fn magic_ok(d: Seq<u8>) -> bool {
    d.len() >= 1536 && sb_spec(d).magic == MAGIC
}

/// A 64-byte on-disk inode: mode (type and permissions), link count,
/// owner, size in bytes, timestamps, and ten zone pointers — seven direct,
/// then one singly, one doubly and one triply indirect. A zone pointer of
/// 0 means "absent".
#[derive(Debug, Clone, Copy, PartialEq, Eq)]
pub struct Inode {
    pub mode: u16,
    pub nlinks: u16,
    pub uid: u16,
    pub gid: u16,
    pub size: u32,
    pub atime: u32,
    pub mtime: u32,
    pub ctime: u32,
    pub zones: [u32; 10],
}

/// The mathematical image of an inode; `zones` becomes a sequence.
pub ghost struct InodeView {
    pub mode: u16,
    pub nlinks: u16,
    pub uid: u16,
    pub gid: u16,
    pub size: u32,
    pub atime: u32,
    pub mtime: u32,
    pub ctime: u32,
    pub zones: Seq<u32>,
}

impl View for Inode {
    type V = InodeView;

    open spec fn view(&self) -> InodeView {
        InodeView {
            mode: self.mode,
            nlinks: self.nlinks,
            uid: self.uid,
            gid: self.gid,
            size: self.size,
            atime: self.atime,
            mtime: self.mtime,
            ctime: self.ctime,
            zones: self.zones@,
        }
    }
}

/// The inode record encoded in the 64 bytes of `d` starting at `base`.
pub open spec fn inode_dec(d: Seq<u8>, base: int) -> InodeView {
    InodeView {
        mode: le16(d, base),
        nlinks: le16(d, base + 2),
        uid: le16(d, base + 4),
        gid: le16(d, base + 6),
        size: le32(d, base + 8),
        atime: le32(d, base + 12),
        mtime: le32(d, base + 16),
        ctime: le32(d, base + 20),
        zones: Seq::new(10, |j: int| le32(d, base + 24 + 4 * j)),
    }
}

/// Byte `i` of the 64-byte encoding of inode `v`.
pub open spec fn inode_enc_byte(v: InodeView, i: int) -> u8 {
    if i < 2 {
        le16_byte(v.mode, i)
    } else if i < 4 {
        le16_byte(v.nlinks, i - 2)
    } else if i < 6 {
        le16_byte(v.uid, i - 4)
    } else if i < 8 {
        le16_byte(v.gid, i - 6)
    } else if i < 12 {
        le32_byte(v.size, i - 8)
    } else if i < 16 {
        le32_byte(v.atime, i - 12)
    } else if i < 20 {
        le32_byte(v.mtime, i - 16)
    } else if i < 24 {
        le32_byte(v.ctime, i - 20)
    } else {
        le32_byte(v.zones[(i - 24) / 4], (i - 24) % 4)
    }
}

/// The 64-byte encoding of inode `v`.
pub open spec fn inode_enc(v: InodeView) -> Seq<u8> {
    Seq::new(64, |i: int| inode_enc_byte(v, i))
}

/// Byte offset of the inode-table block that holds inode `n`; sixteen
/// 64-byte inodes share one block, and the table begins after the boot
/// block, the superblock and the two bitmaps.
pub open spec fn inode_group_byte(sb: SuperBlock, n: u32) -> int {
    (2 + sb.imap_blocks + sb.zmap_blocks) * 1024 + ((n - 1) / 16) * 1024
}

/// Byte offset of the 64-byte record of inode `n`.
pub open spec fn inode_slot_byte(sb: SuperBlock, n: u32) -> int {
    inode_group_byte(sb, n) + ((n - 1) % 16) * 64
}

/// True when the inode-table block of inode `n` lies within the disk.
pub open spec fn inode_in_range(d: Seq<u8>, n: u32) -> bool {
    inode_group_byte(sb_spec(d), n) + 1024 <= d.len()
}

/// The inode `n` of disk `d`, when it can be read at all: the superblock
/// must carry the magic number, `n` must be a 1-based inode number, and
/// the inode's table block must lie within the disk.
pub open spec fn inode_opt(d: Seq<u8>, n: u32) -> Option<InodeView> {
    if n >= 1 && magic_ok(d) && inode_in_range(d, n) {
        Some(inode_dec(d, inode_slot_byte(sb_spec(d), n)))
    } else {
        None
    }
}

/// Decodes a superblock from the first 512 bytes of a buffer.
pub fn parse_superblock(buf: &Vec<u8>) -> (sb: SuperBlock)
    requires
        buf.len() >= 512,
    ensures
        sb == sb_dec(buf@, 0),
{
    SuperBlock {
        ninodes: read_u32(buf, 0),
        pad0: read_u16(buf, 4),
        imap_blocks: read_u16(buf, 6),
        zmap_blocks: read_u16(buf, 8),
        first_data_zone: read_u16(buf, 10),
        log_zone_size: read_u16(buf, 12),
        pad1: read_u16(buf, 14),
        max_size: read_u32(buf, 16),
        zones: read_u32(buf, 20),
        magic: read_u16(buf, 24),
        pad2: read_u16(buf, 26),
        block_size: read_u16(buf, 28),
        disk_version: buf[30],
    }
}

/// Decodes the 64-byte inode record at `buf[base..base + 64]`.
pub fn parse_inode(buf: &Vec<u8>, base: usize) -> (ino: Inode)
    requires
        base + 64 <= buf.len(),
    ensures
        ino@ == inode_dec(buf@, base as int),
{
    let mut zones: [u32; 10] = [0u32; 10];
    let mut j: usize = 0;
    while j < 10
        invariant
            j <= 10,
            base + 64 <= buf.len(),
            forall|k: int| 0 <= k < j ==> zones@[k] == le32(buf@, base + 24 + 4 * k),
        decreases 10 - j,
    {
        zones[j] = read_u32(buf, base + 24 + 4 * j);
        j += 1;
    }
    let ino = Inode {
        mode: read_u16(buf, base),
        nlinks: read_u16(buf, base + 2),
        uid: read_u16(buf, base + 4),
        gid: read_u16(buf, base + 6),
        size: read_u32(buf, base + 8),
        atime: read_u32(buf, base + 12),
        mtime: read_u32(buf, base + 16),
        ctime: read_u32(buf, base + 20),
        zones,
    };
    proof {
        assert(ino@.zones =~= inode_dec(buf@, base as int).zones);
    }
    ino
}

/// Encodes an inode into its 64-byte on-disk record.
pub fn encode_inode(ino: &Inode) -> (r: Vec<u8>)
    ensures
        r@ == inode_enc(ino@),
{
    let mut out: Vec<u8> = Vec::new();
    push_u16(&mut out, ino.mode);
    push_u16(&mut out, ino.nlinks);
    push_u16(&mut out, ino.uid);
    push_u16(&mut out, ino.gid);
    push_u32(&mut out, ino.size);
    push_u32(&mut out, ino.atime);
    push_u32(&mut out, ino.mtime);
    push_u32(&mut out, ino.ctime);
    assert(forall|i: int| 0 <= i < 24 ==> out@[i] == inode_enc_byte(ino@, i));
    let mut j: usize = 0;
    while j < 10
        invariant
            j <= 10,
            out@.len() == 24 + 4 * j,
            forall|i: int| 0 <= i < 24 + 4 * j ==> out@[i] == inode_enc_byte(ino@, i),
        decreases 10 - j,
    {
        push_u32(&mut out, ino.zones[j]);
        proof {
            assert forall|m: int| 0 <= m < 4 implies #[trigger] out@[24 + 4 * (j as int) + m]
                == inode_enc_byte(ino@, 24 + 4 * (j as int) + m) by {
                vstd::arithmetic::div_mod::lemma_fundamental_div_mod_converse(
                    4 * (j as int) + m,
                    4,
                    j as int,
                    m,
                );
            }
        }
        j += 1;
    }
    proof {
        assert(out@ =~= inode_enc(ino@));
    }
    out
}

/// Two disks that agree on the 64 bytes of a record decode it alike.
pub proof fn lemma_inode_dec_congr(d: Seq<u8>, d2: Seq<u8>, base: int)
    requires
        forall|t: int| 0 <= t < 64 ==> #[trigger] d2[base + t] == d[base + t],
    ensures
        inode_dec(d2, base) == inode_dec(d, base),
{
    assert forall|a: int| base <= a < base + 64 implies #[trigger] d2[a] == d[a] by {
        assert(d2[base + (a - base)] == d[base + (a - base)]);
    }
    assert forall|j: int| 0 <= j < 10 implies #[trigger] inode_dec(d2, base).zones[j]
        == inode_dec(d, base).zones[j] by {}
    assert(inode_dec(d2, base).zones =~= inode_dec(d, base).zones);
}

/// A persisted inode record reads back as written: splicing the 64-byte
/// encoding of `v` into a disk at `base` and decoding the record there
/// yields `v` again.
pub proof fn lemma_inode_enc_dec(d: Seq<u8>, base: int, v: InodeView)
    requires
        0 <= base,
        base + 64 <= d.len(),
        v.zones.len() == 10,
    ensures
        inode_dec(range_replace(d, base, inode_enc(v)), base) == v,
{
    let d2 = range_replace(d, base, inode_enc(v));
    assert forall|t: int| 0 <= t < 64 implies #[trigger] d2[base + t] == inode_enc_byte(v, t) by {}
    lemma_le16_roundtrip(v.mode);
    lemma_le16_roundtrip(v.nlinks);
    lemma_le16_roundtrip(v.uid);
    lemma_le16_roundtrip(v.gid);
    lemma_le32_roundtrip(v.size);
    lemma_le32_roundtrip(v.atime);
    lemma_le32_roundtrip(v.mtime);
    lemma_le32_roundtrip(v.ctime);
    assert forall|j: int| 0 <= j < 10 implies #[trigger] inode_dec(d2, base).zones[j]
        == v.zones[j] by {
        assert(d2[base + (24 + 4 * j)] == inode_enc_byte(v, 24 + 4 * j));
        assert(d2[base + (24 + 4 * j + 1)] == inode_enc_byte(v, 24 + 4 * j + 1));
        assert(d2[base + (24 + 4 * j + 2)] == inode_enc_byte(v, 24 + 4 * j + 2));
        assert(d2[base + (24 + 4 * j + 3)] == inode_enc_byte(v, 24 + 4 * j + 3));
        vstd::arithmetic::div_mod::lemma_fundamental_div_mod_converse(4 * j, 4, j, 0);
        vstd::arithmetic::div_mod::lemma_fundamental_div_mod_converse(4 * j + 1, 4, j, 1);
        vstd::arithmetic::div_mod::lemma_fundamental_div_mod_converse(4 * j + 2, 4, j, 2);
        vstd::arithmetic::div_mod::lemma_fundamental_div_mod_converse(4 * j + 3, 4, j, 3);
        lemma_le32_roundtrip(v.zones[j]);
    }
    assert(inode_dec(d2, base).zones =~= v.zones);
}

/// A directory entry: a 32-bit inode number followed by a 60-byte
/// NUL-padded name. An inode number of 0 marks a deleted, reusable slot.
#[derive(Debug, Clone, Copy, PartialEq, Eq)]
pub struct DirEntry {
    pub inode: u32,
    pub name: [u8; 60],
}

/// Byte `i` of the 64-byte encoding of a directory entry with inode
/// number `n` and name `name` (truncated to 60 bytes, NUL-padded).
pub open spec fn dirent_enc(n: u32, name: Seq<u8>) -> Seq<u8> {
    Seq::new(
        64,
        |i: int|
            if i < 4 {
                le32_byte(n, i)
            } else if i - 4 < name.len() && i < 64 {
                name[i - 4]
            } else {
                0u8
            },
    )
}

/// Decodes the 64-byte directory entry at `buf[base..base + 64]`.
pub fn parse_dirent(buf: &Vec<u8>, base: usize) -> (e: DirEntry)
    requires
        base + 64 <= buf.len(),
    ensures
        e.inode == le32(buf@, base as int),
        e.name@ == buf@.subrange(base + 4, base + 64),
{
    let inode = read_u32(buf, base);
    let mut name: [u8; 60] = [0u8; 60];
    let mut j: usize = 0;
    while j < 60
        invariant
            j <= 60,
            base + 64 <= buf.len(),
            forall|k: int| 0 <= k < j ==> name@[k] == buf@[base + 4 + k],
        decreases 60 - j,
    {
        name[j] = buf[base + 4 + j];
        j += 1;
    }
    proof {
        assert(name@ =~= buf@.subrange(base + 4, base + 64));
    }
    DirEntry { inode, name }
}

/// Encodes a directory entry from an inode number and a name; names longer
/// than 60 bytes are truncated, shorter ones NUL-padded.
pub fn encode_dirent(n: u32, name: &[u8]) -> (r: Vec<u8>)
    ensures
        r@ == dirent_enc(n, name@.take(if name@.len() < 60 { name@.len() as int } else { 60 })),
{
    let mut out: Vec<u8> = Vec::new();
    push_u32(&mut out, n);
    let mut j: usize = 0;
    let name_len = name.len();
    while j < 60
        invariant
            j <= 60,
            name_len == name@.len(),
            out@.len() == 4 + j,
            forall|i: int| 0 <= i < 4 ==> out@[i] == le32_byte(n, i),
            forall|i: int|
                4 <= i < 4 + j ==> out@[i] == (if i - 4 < name@.len() {
                    name@[i - 4]
                } else {
                    0u8
                }),
        decreases 60 - j,
    {
        if j < name_len {
            out.push(name[j]);
        } else {
            out.push(0u8);
        }
        j += 1;
    }
    proof {
        let cap = if name@.len() < 60 { name@.len() as int } else { 60 };
        assert(out@ =~= dirent_enc(n, name@.take(cap)));
    }
    out
}

/// A spliced directory entry reads back as written: after putting
/// `dirent_enc(n, name)` at `base`, the entry's inode field decodes to
/// `n` and its NUL-padded name field decodes to `name`, provided the
/// name is at most 60 bytes and free of NUL bytes.
pub proof fn lemma_dirent_enc_dec(d: Seq<u8>, base: int, n: u32, name: Seq<u8>)
    requires
        0 <= base,
        base + 64 <= d.len(),
        name.len() <= 60,
        forall|i: int| 0 <= i < name.len() ==> name[i] != 0,
    ensures
        ({
            let d2 = range_replace(d, base, dirent_enc(n, name));
            &&& le32(d2, base) == n
            &&& name_of(d2.subrange(base + 4, base + 64)) == name
        }),
{
    let d2 = range_replace(d, base, dirent_enc(n, name));
    assert forall|t: int| 0 <= t < 64 implies #[trigger] d2[base + t] == dirent_enc(n, name)[t] by {}
    lemma_le32_roundtrip(n);
    let field = d2.subrange(base + 4, base + 64);
    assert(forall|t: int| 0 <= t < 60 ==> #[trigger] field[t] == dirent_enc(n, name)[4 + t]);
    lemma_first_nul_is(field, name.len() as int);
    assert(name_of(field) =~= name);
}

/// The index of the first NUL byte of `s`, or `s.len()` if there is none.
pub open spec fn first_nul(s: Seq<u8>) -> int
    decreases s.len(),
{
    if s.len() == 0 {
        0
    } else if s[0] == 0 {
        0
    } else {
        1 + first_nul(s.drop_first())
    }
}

/// The name carried by a 60-byte name field: its bytes up to the first
/// NUL, or all 60 when there is none.
pub open spec fn name_of(s: Seq<u8>) -> Seq<u8> {
    s.take(first_nul(s))
}

/// `first_nul` is the index of the first NUL: everything before it is
/// nonzero, and it points at a NUL unless the whole field is nonzero.
pub proof fn lemma_first_nul_is(s: Seq<u8>, i: int)
    requires
        0 <= i <= s.len(),
        forall|k: int| 0 <= k < i ==> s[k] != 0,
        i < s.len() ==> s[i] == 0,
    ensures
        first_nul(s) == i,
    decreases i,
{
    if s.len() == 0 {
    } else if i == 0 {
    } else {
        lemma_first_nul_is(s.drop_first(), i - 1);
    }
}

/// Extracts the name of a directory entry: the bytes of its name field up
/// to the first NUL.
pub fn extract_name(e: &DirEntry) -> (r: Vec<u8>)
    ensures
        r@ == name_of(e.name@),
{
    let mut out: Vec<u8> = Vec::new();
    let mut j: usize = 0;
    while j < 60
        invariant
            j <= 60,
            out@ == e.name@.take(j as int),
            forall|k: int| 0 <= k < j ==> e.name@[k] != 0,
        decreases 60 - j,
    {
        let b = e.name[j];
        if b == 0 {
            proof {
                lemma_first_nul_is(e.name@, j as int);
            }
            return out;
        }
        out.push(b);
        proof {
            assert(out@ =~= e.name@.take(j + 1));
        }
        j += 1;
    }
    proof {
        lemma_first_nul_is(e.name@, 60);
        assert(out@ =~= e.name@.take(60));
    }
    out
}

/// File statistics reported by `stat`: the caller-relevant part of an
/// inode.
#[derive(Debug, Clone, Copy, PartialEq, Eq)]
pub struct Stat {
    pub mode: u16,
    pub size: u32,
    pub uid: u16,
    pub gid: u16,
}

/// The errors the file API surfaces to callers.
#[derive(Debug, Clone, Copy, PartialEq, Eq)]
pub enum FsError {
    Success,
    FileNotFound,
    Permission,
    IsFile,
    IsDirectory,
    FileExists,
}

} // verus!
