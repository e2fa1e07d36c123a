//! The zone walker: the logical byte stream of a file and its traversal.
//!
//! An inode carries ten zone pointers: seven direct, then one singly, one
//! doubly and one triply indirect. A pointer of 0 is skipped at every
//! level and does not consume a logical block position, so the logical
//! stream of a file is the concatenation of the 1024-byte blocks named by
//! the non-zero leaf pointers, in traversal order. `read` and `write`
//! move a byte window of that stream.

use crate::bio::{syc_read, syc_write};
use crate::device::BlockDevice;
use crate::fs::MinixFileSystem;
use crate::inode::{Inode, InodeView};
use crate::layout::{le32, range_replace, read_u32, zero_vec};
use vstd::prelude::*;

verus! {

/// The `j`-th 32-bit pointer of the pointer block in zone `z`.
pub open spec fn ptr_at(d: Seq<u8>, z: u32, j: int) -> u32 {
    le32(d, z * 1024 + 4 * j)
}

/// What a leaf pointer contributes to the zone list: nothing when it is 0.
pub open spec fn leaf_seq(z: u32) -> Seq<u32> {
    if z == 0 {
        Seq::empty()
    } else {
        seq![z]
    }
}

/// Leaf zones contributed by the first `j` pointers of the pointer block
/// in zone `z`.
pub open spec fn level1_upto(d: Seq<u8>, z: u32, j: int) -> Seq<u32>
    decreases j,
{
    if j <= 0 {
        Seq::empty()
    } else {
        level1_upto(d, z, j - 1) + leaf_seq(ptr_at(d, z, j - 1))
    }
}

/// Leaf zones reached through a singly indirect zone `z`.
pub open spec fn level1(d: Seq<u8>, z: u32) -> Seq<u32> {
    if z == 0 {
        Seq::empty()
    } else {
        level1_upto(d, z, 256)
    }
}

/// Leaf zones contributed by the first `j` pointers of a doubly indirect
/// pointer block.
pub open spec fn level2_upto(d: Seq<u8>, z: u32, j: int) -> Seq<u32>
    decreases j,
{
    if j <= 0 {
        Seq::empty()
    } else {
        level2_upto(d, z, j - 1) + level1(d, ptr_at(d, z, j - 1))
    }
}

/// Leaf zones reached through a doubly indirect zone `z`.
pub open spec fn level2(d: Seq<u8>, z: u32) -> Seq<u32> {
    if z == 0 {
        Seq::empty()
    } else {
        level2_upto(d, z, 256)
    }
}

/// Leaf zones contributed by the first `j` pointers of a triply indirect
/// pointer block.
pub open spec fn level3_upto(d: Seq<u8>, z: u32, j: int) -> Seq<u32>
    decreases j,
{
    if j <= 0 {
        Seq::empty()
    } else {
        level3_upto(d, z, j - 1) + level2(d, ptr_at(d, z, j - 1))
    }
}

/// Leaf zones reached through a triply indirect zone `z`.
pub open spec fn level3(d: Seq<u8>, z: u32) -> Seq<u32> {
    if z == 0 {
        Seq::empty()
    } else {
        level3_upto(d, z, 256)
    }
}

/// Leaf zones among the first `j` direct pointers.
pub open spec fn direct_upto(zs: Seq<u32>, j: int) -> Seq<u32>
    decreases j,
{
    if j <= 0 {
        Seq::empty()
    } else {
        direct_upto(zs, j - 1) + leaf_seq(zs[j - 1])
    }
}

/// The zone list of a file: every non-zero leaf zone, in traversal order —
/// direct pointers first, then the singly, doubly and triply indirect
/// trees. Holes (zero pointers) are compressed away.
pub open spec fn zone_list(d: Seq<u8>, v: InodeView) -> Seq<u32> {
    direct_upto(v.zones, 7) + level1(d, v.zones[7]) + level2(d, v.zones[8]) + level3(d, v.zones[9])
}

/// A zone that is either absent or lies wholly within the disk.
pub open spec fn zone_in_range(d: Seq<u8>, z: u32) -> bool {
    z != 0 ==> (z + 1) * 1024 <= d.len()
}

/// A singly indirect tree whose pointer block and leaves lie within the
/// disk.
pub open spec fn l1_ok(d: Seq<u8>, z: u32) -> bool {
    zone_in_range(d, z) && (z != 0 ==> forall|j: int|
        0 <= j < 256 ==> zone_in_range(d, #[trigger] ptr_at(d, z, j)))
}

/// A doubly indirect tree that lies within the disk at every level.
pub open spec fn l2_ok(d: Seq<u8>, z: u32) -> bool {
    zone_in_range(d, z) && (z != 0 ==> forall|j: int|
        0 <= j < 256 ==> l1_ok(d, #[trigger] ptr_at(d, z, j)))
}

/// A triply indirect tree that lies within the disk at every level.
pub open spec fn l3_ok(d: Seq<u8>, z: u32) -> bool {
    zone_in_range(d, z) && (z != 0 ==> forall|j: int|
        0 <= j < 256 ==> l2_ok(d, #[trigger] ptr_at(d, z, j)))
}

/// An intact zone chain: every pointer block and every leaf zone of the
/// inode lies within the disk.
pub open spec fn zones_intact(d: Seq<u8>, v: InodeView) -> bool {
    &&& v.zones.len() == 10
    &&& forall|i: int| 0 <= i < 7 ==> zone_in_range(d, #[trigger] v.zones[i])
    &&& l1_ok(d, v.zones[7])
    &&& l2_ok(d, v.zones[8])
    &&& l3_ok(d, v.zones[9])
}

/// A usable zone-list element: non-zero and wholly on the disk.
pub open spec fn elem_ok(d: Seq<u8>, e: u32) -> bool {
    e != 0 && (e + 1) * 1024 <= d.len()
}

/// Every element of `s` is a usable zone.
pub open spec fn all_elems_ok(d: Seq<u8>, s: Seq<u32>) -> bool {
    forall|k: int| 0 <= k < s.len() ==> elem_ok(d, #[trigger] s[k])
}

proof fn lemma_level1_elems(d: Seq<u8>, z: u32, j: int)
    requires
        z != 0,
        l1_ok(d, z),
        0 <= j <= 256,
    ensures
        all_elems_ok(d, level1_upto(d, z, j)),
    decreases j,
{
    if j > 0 {
        lemma_level1_elems(d, z, j - 1);
    }
}

proof fn lemma_level2_elems(d: Seq<u8>, z: u32, j: int)
    requires
        z != 0,
        l2_ok(d, z),
        0 <= j <= 256,
    ensures
        all_elems_ok(d, level2_upto(d, z, j)),
    decreases j,
{
    if j > 0 {
        lemma_level2_elems(d, z, j - 1);
        let p = ptr_at(d, z, j - 1);
        if p != 0 {
            lemma_level1_elems(d, p, 256);
        }
    }
}

proof fn lemma_level3_elems(d: Seq<u8>, z: u32, j: int)
    requires
        z != 0,
        l3_ok(d, z),
        0 <= j <= 256,
    ensures
        all_elems_ok(d, level3_upto(d, z, j)),
    decreases j,
{
    if j > 0 {
        lemma_level3_elems(d, z, j - 1);
        let p = ptr_at(d, z, j - 1);
        if p != 0 {
            lemma_level2_elems(d, p, 256);
        }
    }
}

proof fn lemma_direct_elems(d: Seq<u8>, zs: Seq<u32>, j: int)
    requires
        0 <= j <= zs.len(),
        forall|i: int| 0 <= i < j ==> zone_in_range(d, #[trigger] zs[i]),
    ensures
        all_elems_ok(d, direct_upto(zs, j)),
    decreases j,
{
    if j > 0 {
        lemma_direct_elems(d, zs, j - 1);
    }
}

/// On an intact chain, every zone-list element is non-zero and wholly on
/// the disk.
pub proof fn lemma_zone_list_elems(d: Seq<u8>, v: InodeView)
    requires
        zones_intact(d, v),
    ensures
        all_elems_ok(d, zone_list(d, v)),
{
    lemma_direct_elems(d, v.zones, 7);
    if v.zones[7] != 0 {
        lemma_level1_elems(d, v.zones[7], 256);
    }
    if v.zones[8] != 0 {
        lemma_level2_elems(d, v.zones[8], 256);
    }
    if v.zones[9] != 0 {
        lemma_level3_elems(d, v.zones[9], 256);
    }
}

proof fn lemma_level1_len(d: Seq<u8>, z: u32, j: int)
    requires
        0 <= j,
    ensures
        level1_upto(d, z, j).len() <= j,
    decreases j,
{
    if j > 0 {
        lemma_level1_len(d, z, j - 1);
    }
}

proof fn lemma_level2_len(d: Seq<u8>, z: u32, j: int)
    requires
        0 <= j,
    ensures
        level2_upto(d, z, j).len() <= 256 * j,
    decreases j,
{
    if j > 0 {
        lemma_level2_len(d, z, j - 1);
        let p = ptr_at(d, z, j - 1);
        if p != 0 {
            lemma_level1_len(d, p, 256);
        }
    }
}

proof fn lemma_level3_len(d: Seq<u8>, z: u32, j: int)
    requires
        0 <= j,
    ensures
        level3_upto(d, z, j).len() <= 65536 * j,
    decreases j,
{
    if j > 0 {
        lemma_level3_len(d, z, j - 1);
        let p = ptr_at(d, z, j - 1);
        if p != 0 {
            lemma_level2_len(d, p, 256);
        }
    }
}

proof fn lemma_direct_len(zs: Seq<u32>, j: int)
    requires
        0 <= j,
    ensures
        direct_upto(zs, j).len() <= j,
    decreases j,
{
    if j > 0 {
        lemma_direct_len(zs, j - 1);
    }
}

/// A zone list never exceeds what the ten pointers can address: seven
/// direct zones plus one, two and three levels of 256-way indirection.
pub proof fn lemma_zone_list_len(d: Seq<u8>, v: InodeView)
    ensures
        zone_list(d, v).len() <= 7 + 256 + 65536 + 16777216,
{
    lemma_direct_len(v.zones, 7);
    if v.zones[7] != 0 {
        lemma_level1_len(d, v.zones[7], 256);
    }
    if v.zones[8] != 0 {
        lemma_level2_len(d, v.zones[8], 256);
    }
    if v.zones[9] != 0 {
        lemma_level3_len(d, v.zones[9], 256);
    }
}

/// The 1024 bytes of zone `z`.
pub open spec fn block_of(d: Seq<u8>, z: u32) -> Seq<u8> {
    Seq::new(1024, |i: int| d[z * 1024 + i])
}

/// The concatenation of the blocks named by `zl`, in order.
pub open spec fn stream_of(d: Seq<u8>, zl: Seq<u32>) -> Seq<u8>
    decreases zl.len(),
{
    if zl.len() == 0 {
        Seq::empty()
    } else {
        stream_of(d, zl.drop_last()) + block_of(d, zl.last())
    }
}

/// The logical byte stream of a file: its non-zero zones, concatenated in
/// traversal order.
pub open spec fn stream(d: Seq<u8>, v: InodeView) -> Seq<u8> {
    stream_of(d, zone_list(d, v))
}

/// The length of the logical stream: 1024 bytes per non-zero zone.
pub open spec fn stream_len(d: Seq<u8>, v: InodeView) -> int {
    1024 * zone_list(d, v).len() as int
}

pub proof fn lemma_stream_of_len(d: Seq<u8>, zl: Seq<u32>)
    ensures
        stream_of(d, zl).len() == 1024 * zl.len(),
    decreases zl.len(),
{
    if zl.len() > 0 {
        lemma_stream_of_len(d, zl.drop_last());
    }
}

/// Byte `1024 * b + j` of the stream is byte `j` of the `b`-th listed
/// zone.
pub proof fn lemma_stream_of_index(d: Seq<u8>, zl: Seq<u32>, b: int, j: int)
    requires
        0 <= b < zl.len(),
        0 <= j < 1024,
        all_elems_ok(d, zl),
    ensures
        stream_of(d, zl)[1024 * b + j] == d[zl[b] * 1024 + j],
    decreases zl.len(),
{
    lemma_stream_of_len(d, zl.drop_last());
    if b == zl.len() - 1 {
        assert(block_of(d, zl.last())[j] == d[zl.last() * 1024 + j]);
    } else {
        assert(all_elems_ok(d, zl.drop_last()));
        lemma_stream_of_index(d, zl.drop_last(), b, j);
    }
}

/// Two disks that agree on every listed zone's bytes carry the same
/// stream over that zone list.
pub proof fn lemma_stream_of_congr(d: Seq<u8>, d2: Seq<u8>, zl: Seq<u32>)
    requires
        forall|k: int, j: int|
            0 <= k < zl.len() && 0 <= j < 1024 ==> #[trigger] d2[zl[k] * 1024 + j] == d[zl[k]
                * 1024 + j],
    ensures
        stream_of(d2, zl) == stream_of(d, zl),
    decreases zl.len(),
{
    if zl.len() > 0 {
        lemma_stream_of_congr(d, d2, zl.drop_last());
        assert(block_of(d2, zl.last()) =~= block_of(d, zl.last()));
    }
}

/// `a - b`, floored at zero.
pub open spec fn sat_sub(a: int, b: int) -> int {
    if a >= b {
        a - b
    } else {
        0
    }
}

/// The smaller of two integers.
pub open spec fn min_int(a: int, b: int) -> int {
    if a < b {
        a
    } else {
        b
    }
}

/// How many bytes a read of `size` bytes at `offset` returns: the request
/// clamped to the bytes of the file past `offset`, and to the bytes the
/// zone list actually backs.
pub open spec fn read_count(d: Seq<u8>, v: InodeView, size: u32, offset: u32) -> int {
    min_int(
        min_int(size as int, sat_sub(v.size as int, offset as int)),
        sat_sub(stream_len(d, v), offset as int),
    )
}

/// How many bytes a write of `size` bytes at `offset` persists: the
/// request clamped to the bytes the zone list backs — no end-of-file
/// clamp, but nothing is allocated either.
pub open spec fn write_count(d: Seq<u8>, v: InodeView, size: u32, offset: u32) -> int {
    min_int(size as int, sat_sub(stream_len(d, v), offset as int))
}

/// The absolute disk address of byte `i` of the logical stream backed by
/// zone list `zl`.
pub open spec fn stream_pos(zl: Seq<u32>, i: int) -> int {
    zl[i / 1024] * 1024 + i % 1024
}

/// The disk after writing `data[0..n]` to stream bytes `[off, off + n)` of
/// the stream backed by `zl`, one byte at a time in stream order.
pub open spec fn written_disk(d: Seq<u8>, zl: Seq<u32>, data: Seq<u8>, off: int, n: int) -> Seq<u8>
    decreases n,
{
    if n <= 0 {
        d
    } else {
        written_disk(d, zl, data, off, n - 1).update(stream_pos(zl, off + n - 1), data[n - 1])
    }
}

/// True when some stream byte of `[off, off + n)` lives at disk address
/// `a`.
pub open spec fn in_written_range(zl: Seq<u32>, off: int, n: int, a: int) -> bool {
    exists|i: int| off <= i < off + n && stream_pos(zl, i) == a
}

/// A zone list without repeated zones.
pub open spec fn distinct_seq(zl: Seq<u32>) -> bool {
    forall|i: int, j: int| 0 <= i < j < zl.len() ==> zl[i] != zl[j]
}

/// A stream position of a usable zone list is a valid disk address inside
/// its zone's block.
pub proof fn lemma_stream_pos_range(d: Seq<u8>, zl: Seq<u32>, i: int)
    requires
        all_elems_ok(d, zl),
        0 <= i < 1024 * zl.len(),
    ensures
        0 <= i / 1024 < zl.len(),
        zl[i / 1024] * 1024 <= stream_pos(zl, i) < zl[i / 1024] * 1024 + 1024,
        0 <= stream_pos(zl, i) < d.len(),
{
    vstd::arithmetic::div_mod::lemma_fundamental_div_mod(i, 1024);
    assert(elem_ok(d, zl[i / 1024]));
}

/// Distinct zones give each stream byte its own disk address.
pub proof fn lemma_stream_pos_inj(zl: Seq<u32>, i: int, j: int)
    requires
        distinct_seq(zl),
        0 <= i < 1024 * zl.len(),
        0 <= j < 1024 * zl.len(),
        i != j,
    ensures
        stream_pos(zl, i) != stream_pos(zl, j),
{
    vstd::arithmetic::div_mod::lemma_fundamental_div_mod(i, 1024);
    vstd::arithmetic::div_mod::lemma_fundamental_div_mod(j, 1024);
    if i / 1024 == j / 1024 {
    } else {
        assert(zl[i / 1024] != zl[j / 1024]);
    }
}

/// Writing changes nothing outside the written stream bytes, and keeps the
/// disk's length.
pub proof fn lemma_written_disk_frame(d: Seq<u8>, zl: Seq<u32>, data: Seq<u8>, off: int, n: int)
    requires
        all_elems_ok(d, zl),
        0 <= off,
        0 <= n,
        off + n <= 1024 * zl.len(),
        n <= data.len(),
    ensures
        written_disk(d, zl, data, off, n).len() == d.len(),
        forall|a: int|
            0 <= a < d.len() && !in_written_range(zl, off, n, a) ==> #[trigger] written_disk(
                d,
                zl,
                data,
                off,
                n,
            )[a] == d[a],
    decreases n,
{
    if n > 0 {
        lemma_written_disk_frame(d, zl, data, off, n - 1);
        lemma_stream_pos_range(d, zl, off + n - 1);
        assert forall|a: int|
            0 <= a < d.len() && !in_written_range(zl, off, n, a) implies #[trigger] written_disk(
            d,
            zl,
            data,
            off,
            n,
        )[a] == d[a] by {
            assert(!in_written_range(zl, off, n - 1, a));
            assert(stream_pos(zl, off + n - 1) != a);
        }
    }
}

/// With distinct zones, each written stream byte carries its datum.
pub proof fn lemma_written_disk_at(
    d: Seq<u8>,
    zl: Seq<u32>,
    data: Seq<u8>,
    off: int,
    n: int,
    i: int,
)
    requires
        all_elems_ok(d, zl),
        distinct_seq(zl),
        0 <= off,
        off + n <= 1024 * zl.len(),
        n <= data.len(),
        off <= i < off + n,
    ensures
        written_disk(d, zl, data, off, n)[stream_pos(zl, i)] == data[i - off],
    decreases n,
{
    lemma_stream_pos_range(d, zl, i);
    if i == off + n - 1 {
        lemma_written_disk_frame(d, zl, data, off, n - 1);
    } else {
        lemma_written_disk_at(d, zl, data, off, n - 1, i);
        lemma_stream_pos_inj(zl, i, off + n - 1);
        lemma_written_disk_frame(d, zl, data, off, n - 1);
        lemma_stream_pos_range(d, zl, off + n - 1);
    }
}

/// `written_disk` reads only the first `n` data bytes: equal prefixes
/// give equal results.
pub proof fn lemma_written_disk_data(
    d: Seq<u8>,
    zl: Seq<u32>,
    a: Seq<u8>,
    b: Seq<u8>,
    off: int,
    n: int,
)
    requires
        forall|i: int| 0 <= i < n ==> a[i] == b[i],
    ensures
        written_disk(d, zl, a, off, n) == written_disk(d, zl, b, off, n),
    decreases n,
{
    if n > 0 {
        lemma_written_disk_data(d, zl, a, b, off, n - 1);
    }
}

/// Extending a write by `c` bytes that stay within one zone equals
/// splicing those bytes in at the chunk's disk address.
proof fn lemma_written_disk_chunk(
    d: Seq<u8>,
    zl: Seq<u32>,
    data: Seq<u8>,
    off: int,
    n: int,
    c: int,
)
    requires
        all_elems_ok(d, zl),
        0 <= off,
        0 <= n,
        0 < c,
        off + n + c <= 1024 * zl.len(),
        n + c <= data.len(),
        (off + n) / 1024 == (off + n + c - 1) / 1024,
    ensures
        written_disk(d, zl, data, off, n + c) == range_replace(
            written_disk(d, zl, data, off, n),
            stream_pos(zl, off + n),
            data.subrange(n, n + c),
        ),
    decreases c,
{
    vstd::arithmetic::div_mod::lemma_fundamental_div_mod(off + n, 1024);
    vstd::arithmetic::div_mod::lemma_fundamental_div_mod(off + n + c - 1, 1024);
    lemma_written_disk_frame(d, zl, data, off, n);
    lemma_stream_pos_range(d, zl, off + n);
    lemma_stream_pos_range(d, zl, off + n + c - 1);
    if c == 1 {
        assert(written_disk(d, zl, data, off, n + 1) =~= range_replace(
            written_disk(d, zl, data, off, n),
            stream_pos(zl, off + n),
            data.subrange(n, n + 1),
        ));
    } else {
        vstd::arithmetic::div_mod::lemma_fundamental_div_mod(off + n + c - 2, 1024);
        vstd::arithmetic::div_mod::lemma_div_is_ordered(off + n, off + n + c - 2, 1024);
        vstd::arithmetic::div_mod::lemma_div_is_ordered(off + n + c - 2, off + n + c - 1, 1024);
        lemma_written_disk_chunk(d, zl, data, off, n, c - 1);
        assert(stream_pos(zl, off + n + c - 1) == stream_pos(zl, off + n) + (c - 1));
        assert(written_disk(d, zl, data, off, n + c) =~= range_replace(
            written_disk(d, zl, data, off, n),
            stream_pos(zl, off + n),
            data.subrange(n, n + c),
        ));
    }
}

/// The file size recorded after a write that delivered `r` bytes at
/// `offset`: grown to cover the written window, never shrunk, and capped
/// at the largest representable size.
pub open spec fn grown_size(old_size: u32, offset: u32, r: int) -> u32 {
    if r > 0 && offset + r > old_size {
        if offset + r > 0xffff_ffff {
            0xffff_ffffu32
        } else {
            (offset + r) as u32
        }
    } else {
        old_size
    }
}

/// A read that starts at the beginning of a file whose zone list covers
/// its size returns `min(size, file size)`.
pub proof fn lemma_read_full_prefix(d: Seq<u8>, v: InodeView, size: u32)
    requires
        v.size <= stream_len(d, v),
    ensures
        read_count(d, v, size, 0) == min_int(size as int, v.size as int),
{
}

/// A read at or past the end of the file returns nothing.
pub proof fn lemma_read_past_eof(d: Seq<u8>, v: InodeView, size: u32, offset: u32)
    requires
        offset >= v.size,
    ensures
        read_count(d, v, size, offset) == 0,
{
}

/// A window that lies wholly inside a file whose zone list covers its
/// size is delivered whole: the count is exactly `size`, and `read`'s own
/// contract then says the delivered bytes are the stream bytes
/// `[offset, offset + size)`.
pub proof fn lemma_read_window_exact(d: Seq<u8>, v: InodeView, size: u32, offset: u32)
    requires
        offset + size <= v.size,
        v.size <= stream_len(d, v),
    ensures
        read_count(d, v, size, offset) == size as int,
{
}

/// `d2` agrees with `d` on every byte of zone `w`.
pub open spec fn agree_on_block(d: Seq<u8>, d2: Seq<u8>, w: u32) -> bool {
    forall|m: int| 0 <= m < 1024 ==> #[trigger] d2[w * 1024 + m] == d[w * 1024 + m]
}

/// Zone `w` holds one of the pointer blocks of the inode's indirect
/// trees.
pub open spec fn is_pblock(d: Seq<u8>, v: InodeView, w: u32) -> bool {
    ||| (w != 0 && w == v.zones[7])
    ||| (w != 0 && w == v.zones[8])
    ||| (w != 0 && w == v.zones[9])
    ||| (w != 0 && v.zones[8] != 0 && exists|j: int|
        0 <= j < 256 && w == ptr_at(d, v.zones[8], j))
    ||| (w != 0 && v.zones[9] != 0 && exists|j: int|
        0 <= j < 256 && w == ptr_at(d, v.zones[9], j))
    ||| (w != 0 && v.zones[9] != 0 && exists|j: int, k: int|
        0 <= j < 256 && 0 <= k < 256 && ptr_at(d, v.zones[9], j) != 0 && w == ptr_at(
            d,
            ptr_at(d, v.zones[9], j),
            k,
        ))
}

/// Two disks that agree on a pointer block hold the same pointers there.
proof fn lemma_ptr_same(d: Seq<u8>, d2: Seq<u8>, z: u32, j: int)
    requires
        agree_on_block(d, d2, z),
        0 <= j < 256,
    ensures
        ptr_at(d2, z, j) == ptr_at(d, z, j),
{
    let base = 4 * j;
    assert(d2[z * 1024 + base] == d[z * 1024 + base]);
    assert(d2[z * 1024 + (base + 1)] == d[z * 1024 + (base + 1)]);
    assert(d2[z * 1024 + (base + 2)] == d[z * 1024 + (base + 2)]);
    assert(d2[z * 1024 + (base + 3)] == d[z * 1024 + (base + 3)]);
}

proof fn lemma_level1_same(d: Seq<u8>, d2: Seq<u8>, z: u32, j: int)
    requires
        z != 0,
        agree_on_block(d, d2, z),
        0 <= j <= 256,
    ensures
        level1_upto(d2, z, j) == level1_upto(d, z, j),
    decreases j,
{
    if j > 0 {
        lemma_level1_same(d, d2, z, j - 1);
        lemma_ptr_same(d, d2, z, j - 1);
    }
}

proof fn lemma_level2_same(d: Seq<u8>, d2: Seq<u8>, z: u32, j: int)
    requires
        z != 0,
        agree_on_block(d, d2, z),
        forall|i: int|
            0 <= i < 256 && ptr_at(d, z, i) != 0 ==> agree_on_block(
                d,
                d2,
                #[trigger] ptr_at(d, z, i),
            ),
        0 <= j <= 256,
    ensures
        level2_upto(d2, z, j) == level2_upto(d, z, j),
    decreases j,
{
    if j > 0 {
        lemma_level2_same(d, d2, z, j - 1);
        lemma_ptr_same(d, d2, z, j - 1);
        let p = ptr_at(d, z, j - 1);
        if p != 0 {
            lemma_level1_same(d, d2, p, 256);
        }
    }
}

proof fn lemma_level3_same(d: Seq<u8>, d2: Seq<u8>, z: u32, j: int)
    requires
        z != 0,
        agree_on_block(d, d2, z),
        forall|i: int|
            0 <= i < 256 && ptr_at(d, z, i) != 0 ==> agree_on_block(
                d,
                d2,
                #[trigger] ptr_at(d, z, i),
            ),
        forall|i: int, k: int|
            0 <= i < 256 && 0 <= k < 256 && ptr_at(d, z, i) != 0 && ptr_at(
                d,
                ptr_at(d, z, i),
                k,
            ) != 0 ==> agree_on_block(d, d2, #[trigger] ptr_at(d, ptr_at(d, z, i), k)),
        0 <= j <= 256,
    ensures
        level3_upto(d2, z, j) == level3_upto(d, z, j),
    decreases j,
{
    if j > 0 {
        lemma_level3_same(d, d2, z, j - 1);
        lemma_ptr_same(d, d2, z, j - 1);
        let p = ptr_at(d, z, j - 1);
        if p != 0 {
            lemma_level2_same(d, d2, p, 256);
        }
    }
}

/// A disk change that leaves every pointer block alone leaves the zone
/// list, and the intactness of the chain, alone.
pub proof fn lemma_zone_structure_same(d: Seq<u8>, d2: Seq<u8>, v: InodeView)
    requires
        zones_intact(d, v),
        d2.len() == d.len(),
        forall|w: u32| is_pblock(d, v, w) ==> #[trigger] agree_on_block(d, d2, w),
    ensures
        zone_list(d2, v) == zone_list(d, v),
        zones_intact(d2, v),
{
    let z7 = v.zones[7];
    let z8 = v.zones[8];
    let z9 = v.zones[9];
    if z7 != 0 {
        assert(is_pblock(d, v, z7));
        lemma_level1_same(d, d2, z7, 256);
        assert forall|j: int| 0 <= j < 256 implies zone_in_range(
            d2,
            #[trigger] ptr_at(d2, z7, j),
        ) by {
            lemma_ptr_same(d, d2, z7, j);
        }
    }
    if z8 != 0 {
        assert(is_pblock(d, v, z8));
        assert forall|i: int|
            0 <= i < 256 && ptr_at(d, z8, i) != 0 implies agree_on_block(
            d,
            d2,
            #[trigger] ptr_at(d, z8, i),
        ) by {
            assert(is_pblock(d, v, ptr_at(d, z8, i)));
        }
        lemma_level2_same(d, d2, z8, 256);
        assert forall|j: int| 0 <= j < 256 implies l1_ok(d2, #[trigger] ptr_at(d2, z8, j)) by {
            lemma_ptr_same(d, d2, z8, j);
            let p = ptr_at(d, z8, j);
            if p != 0 {
                assert(is_pblock(d, v, p));
                assert forall|k: int| 0 <= k < 256 implies zone_in_range(
                    d2,
                    #[trigger] ptr_at(d2, p, k),
                ) by {
                    lemma_ptr_same(d, d2, p, k);
                }
            }
        }
    }
    if z9 != 0 {
        assert(is_pblock(d, v, z9));
        assert forall|i: int|
            0 <= i < 256 && ptr_at(d, z9, i) != 0 implies agree_on_block(
            d,
            d2,
            #[trigger] ptr_at(d, z9, i),
        ) by {
            assert(is_pblock(d, v, ptr_at(d, z9, i)));
        }
        assert forall|i: int, k: int|
            0 <= i < 256 && 0 <= k < 256 && ptr_at(d, z9, i) != 0 && ptr_at(
                d,
                ptr_at(d, z9, i),
                k,
            ) != 0 implies agree_on_block(d, d2, #[trigger] ptr_at(d, ptr_at(d, z9, i), k)) by {
            assert(is_pblock(d, v, ptr_at(d, ptr_at(d, z9, i), k)));
        }
        lemma_level3_same(d, d2, z9, 256);
        assert forall|j: int| 0 <= j < 256 implies l2_ok(d2, #[trigger] ptr_at(d2, z9, j)) by {
            lemma_ptr_same(d, d2, z9, j);
            let p = ptr_at(d, z9, j);
            if p != 0 {
                assert(is_pblock(d, v, p));
                assert forall|k: int| 0 <= k < 256 implies l1_ok(
                    d2,
                    #[trigger] ptr_at(d2, p, k),
                ) by {
                    lemma_ptr_same(d, d2, p, k);
                    let q = ptr_at(d, p, k);
                    if q != 0 {
                        assert(is_pblock(d, v, q));
                        assert forall|m: int| 0 <= m < 256 implies zone_in_range(
                            d2,
                            #[trigger] ptr_at(d2, q, m),
                        ) by {
                            lemma_ptr_same(d, d2, q, m);
                        }
                    }
                }
            }
        }
    }
}

/// A well-formed file: an intact zone chain whose data zones are all
/// distinct and none of which doubles as a pointer block.
pub open spec fn wf_file(d: Seq<u8>, v: InodeView) -> bool {
    &&& zones_intact(d, v)
    &&& distinct_seq(zone_list(d, v))
    &&& forall|k: int|
        0 <= k < zone_list(d, v).len() ==> !is_pblock(d, v, #[trigger] zone_list(d, v)[k])
}

/// Round trip: writing `n` bytes at byte `offset` of a well-formed file
/// whose allocated zones cover the window, then reading the same window
/// back, yields the written bytes. The write leaves the zone structure
/// untouched, the grown in-memory inode still reaches the window, and a
/// read of `(n, offset)` on the written disk returns `n` bytes equal to
/// the data.
#[verifier::rlimit(100)]
pub proof fn lemma_write_read_roundtrip(
    d: Seq<u8>,
    v: InodeView,
    data: Seq<u8>,
    n: u32,
    off: u32,
)
    requires
        wf_file(d, v),
        0 < n,
        off + n <= stream_len(d, v),
        off + n <= 0xffff_ffff,
        n <= data.len(),
    ensures
        ({
            let zl = zone_list(d, v);
            let d2 = written_disk(d, zl, data, off as int, n as int);
            let v2 = InodeView { size: grown_size(v.size, off, n as int), ..v };
            &&& zone_list(d2, v2) == zl
            &&& zones_intact(d2, v2)
            &&& d2.len() == d.len()
            &&& read_count(d2, v2, n, off) == n
            &&& stream(d2, v2) == range_replace(stream(d, v), off as int, data.take(n as int))
            &&& forall|w: u32| #[trigger] is_pblock(d, v, w) ==> agree_on_block(d, d2, w)
        }),
{
    let zl = zone_list(d, v);
    let d2 = written_disk(d, zl, data, off as int, n as int);
    let v2 = InodeView { size: grown_size(v.size, off, n as int), ..v };
    lemma_zone_list_elems(d, v);
    lemma_written_disk_frame(d, zl, data, off as int, n as int);
    assert forall|w: u32| is_pblock(d, v, w) implies #[trigger] agree_on_block(d, d2, w) by {
        assert(zone_in_range(d, w)) by {
            if w == v.zones[7] || w == v.zones[8] || w == v.zones[9] {
            } else if v.zones[8] != 0 && (exists|j: int|
                0 <= j < 256 && w == ptr_at(d, v.zones[8], j)) {
                let j = choose|j: int| 0 <= j < 256 && w == ptr_at(d, v.zones[8], j);
                assert(l1_ok(d, ptr_at(d, v.zones[8], j)));
            } else if v.zones[9] != 0 && (exists|j: int|
                0 <= j < 256 && w == ptr_at(d, v.zones[9], j)) {
                let j = choose|j: int| 0 <= j < 256 && w == ptr_at(d, v.zones[9], j);
                assert(l2_ok(d, ptr_at(d, v.zones[9], j)));
            } else {
                let (j, k) = choose|j: int, k: int|
                    0 <= j < 256 && 0 <= k < 256 && ptr_at(d, v.zones[9], j) != 0 && w == ptr_at(
                        d,
                        ptr_at(d, v.zones[9], j),
                        k,
                    );
                assert(l2_ok(d, ptr_at(d, v.zones[9], j)));
                assert(l1_ok(d, ptr_at(d, ptr_at(d, v.zones[9], j), k)));
            }
        }
        assert forall|m: int| 0 <= m < 1024 implies #[trigger] d2[w * 1024 + m] == d[w * 1024
            + m] by {
            let a = w * 1024 + m;
            if in_written_range(zl, off as int, n as int, a) {
                let i = choose|i: int|
                    off <= i < off + n && stream_pos(zl, i) == a;
                lemma_stream_pos_range(d, zl, i);
                let b = i / 1024;
                assert(zl[b] * 1024 <= a < zl[b] * 1024 + 1024);
                assert(zl[b] == w);
                assert(is_pblock(d, v, zl[b]));
                assert(false);
            }
        }
    }
    lemma_zone_structure_same(d, d2, v);
    lemma_stream_of_len(d2, zl);
    assert(zone_list(d2, v2) == zone_list(d2, v));
    lemma_stream_of_len(d, zl);
    assert forall|i: int| 0 <= i < 1024 * zl.len() implies #[trigger] stream(d2, v2)[i]
        == range_replace(stream(d, v), off as int, data.take(n as int))[i] by {
        vstd::arithmetic::div_mod::lemma_fundamental_div_mod(i, 1024);
        let b = i / 1024;
        let j = i % 1024;
        lemma_stream_pos_range(d, zl, i);
        lemma_stream_of_index(d2, zl, b, j);
        lemma_stream_of_index(d, zl, b, j);
        assert(stream_of(d2, zl)[1024 * b + j] == d2[zl[b] * 1024 + j]);
        assert(1024 * b + j == i);
        if off <= i < off + n {
            lemma_written_disk_at(d, zl, data, off as int, n as int, i);
        } else {
            lemma_written_disk_frame(d, zl, data, off as int, n as int);
            assert(!in_written_range(zl, off as int, n as int, stream_pos(zl, i))) by {
                if in_written_range(zl, off as int, n as int, stream_pos(zl, i)) {
                    let t = choose|t: int|
                        off <= t < off + n && stream_pos(zl, t) == stream_pos(zl, i);
                    lemma_stream_pos_inj(zl, t, i);
                }
            }
        }
    }
    assert(stream(d2, v2) =~= range_replace(stream(d, v), off as int, data.take(n as int)));
}

/// The number of bytes the file's zone list backs: the length of its
/// logical stream. This is what a write can reach — callers use it to
/// check, before mutating, that a window lies within the allocated
/// zones.
pub fn allocated_stream_len(dev: &BlockDevice, inode: &Inode) -> (r: u64)
    requires
        dev.wf(),
        zones_intact(dev@, inode@),
    ensures
        r == stream_len(dev@, inode@),
{
    let zl = collect_zones(dev, inode);
    proof {
        lemma_zone_list_len(dev@, inode@);
    }
    (zl.len() as u64) * 1024
}

/// Reads the 256 pointers of the pointer block in zone `z`.
fn read_ptr_block(dev: &BlockDevice, z: u32) -> (ptrs: Vec<u32>)
    requires
        dev.wf(),
        z != 0,
        (z + 1) * 1024 <= dev@.len(),
    ensures
        ptrs.len() == 256,
        forall|j: int| 0 <= j < 256 ==> ptrs@[j] == ptr_at(dev@, z, j),
{
    let mut buf = zero_vec(1024);
    let st = syc_read(dev, &mut buf, 1024, z * 1024);
    proof {
        assert(st == 0);
    }
    let mut ptrs: Vec<u32> = Vec::new();
    let mut j: usize = 0;
    while j < 256
        invariant
            j <= 256,
            buf.len() == 1024,
            (z + 1) * 1024 <= dev@.len(),
            forall|k: int| 0 <= k < 1024 ==> buf@[k] == dev@[z * 1024 + k],
            ptrs.len() == j,
            forall|k: int| 0 <= k < j ==> ptrs@[k] == ptr_at(dev@, z, k),
        decreases 256 - j,
    {
        let p = read_u32(&buf, 4 * j);
        ptrs.push(p);
        j += 1;
    }
    ptrs
}

/// Appends the leaf zones of the singly indirect tree at `z` to `out`.
fn collect_level1(dev: &BlockDevice, z: u32, out: &mut Vec<u32>)
    requires
        dev.wf(),
        l1_ok(dev@, z),
    ensures
        final(out)@ == old(out)@ + level1(dev@, z),
{
    if z == 0 {
        proof {
            assert(out@ =~= out@ + level1(dev@, z));
        }
        return;
    }
    let ptrs = read_ptr_block(dev, z);
    let mut j: usize = 0;
    while j < 256
        invariant
            j <= 256,
            z != 0,
            ptrs.len() == 256,
            forall|k: int| 0 <= k < 256 ==> ptrs@[k] == ptr_at(dev@, z, k),
            out@ == old(out)@ + level1_upto(dev@, z, j as int),
        decreases 256 - j,
    {
        let p = ptrs[j];
        if p != 0 {
            out.push(p);
        }
        proof {
            assert(out@ =~= old(out)@ + level1_upto(dev@, z, j as int + 1));
        }
        j += 1;
    }
}

/// Appends the leaf zones of the doubly indirect tree at `z` to `out`.
fn collect_level2(dev: &BlockDevice, z: u32, out: &mut Vec<u32>)
    requires
        dev.wf(),
        l2_ok(dev@, z),
    ensures
        final(out)@ == old(out)@ + level2(dev@, z),
{
    if z == 0 {
        proof {
            assert(out@ =~= out@ + level2(dev@, z));
        }
        return;
    }
    let ptrs = read_ptr_block(dev, z);
    let mut j: usize = 0;
    while j < 256
        invariant
            j <= 256,
            z != 0,
            dev.wf(),
            l2_ok(dev@, z),
            ptrs.len() == 256,
            forall|k: int| 0 <= k < 256 ==> ptrs@[k] == ptr_at(dev@, z, k),
            out@ == old(out)@ + level2_upto(dev@, z, j as int),
        decreases 256 - j,
    {
        let p = ptrs[j];
        collect_level1(dev, p, out);
        proof {
            assert(out@ =~= old(out)@ + level2_upto(dev@, z, j as int + 1));
        }
        j += 1;
    }
}

/// Appends the leaf zones of the triply indirect tree at `z` to `out`.
fn collect_level3(dev: &BlockDevice, z: u32, out: &mut Vec<u32>)
    requires
        dev.wf(),
        l3_ok(dev@, z),
    ensures
        final(out)@ == old(out)@ + level3(dev@, z),
{
    if z == 0 {
        proof {
            assert(out@ =~= out@ + level3(dev@, z));
        }
        return;
    }
    let ptrs = read_ptr_block(dev, z);
    let mut j: usize = 0;
    while j < 256
        invariant
            j <= 256,
            z != 0,
            dev.wf(),
            l3_ok(dev@, z),
            ptrs.len() == 256,
            forall|k: int| 0 <= k < 256 ==> ptrs@[k] == ptr_at(dev@, z, k),
            out@ == old(out)@ + level3_upto(dev@, z, j as int),
        decreases 256 - j,
    {
        let p = ptrs[j];
        collect_level2(dev, p, out);
        proof {
            assert(out@ =~= old(out)@ + level3_upto(dev@, z, j as int + 1));
        }
        j += 1;
    }
}

/// Collects the zone list of an inode: every non-zero leaf zone in
/// traversal order.
pub(crate) fn collect_zones(dev: &BlockDevice, inode: &Inode) -> (zl: Vec<u32>)
    requires
        dev.wf(),
        zones_intact(dev@, inode@),
    ensures
        zl@ == zone_list(dev@, inode@),
        all_elems_ok(dev@, zl@),
{
    let mut out: Vec<u32> = Vec::new();
    let mut i: usize = 0;
    while i < 7
        invariant
            i <= 7,
            out@ == direct_upto(inode@.zones, i as int),
        decreases 7 - i,
    {
        let z = inode.zones[i];
        if z != 0 {
            out.push(z);
        }
        proof {
            assert(out@ =~= direct_upto(inode@.zones, i as int + 1));
        }
        i += 1;
    }
    collect_level1(dev, inode.zones[7], &mut out);
    collect_level2(dev, inode.zones[8], &mut out);
    collect_level3(dev, inode.zones[9], &mut out);
    proof {
        assert(out@ =~= zone_list(dev@, inode@));
        lemma_zone_list_elems(dev@, inode@);
    }
    out
}

impl MinixFileSystem {
    /// Reads up to `size` bytes of the file at byte `offset` of its
    /// logical stream into `buffer[0..]`, returning the number of bytes
    /// delivered: the request clamped to the bytes of the file past
    /// `offset` and to the bytes its zone list backs. A read at or past
    /// the end of the file returns 0. Bytes of `buffer` past the returned
    /// count keep their old values.
    pub fn read(dev: &BlockDevice, inode: &Inode, buffer: &mut Vec<u8>, size: u32, offset: u32) -> (r: u32)
        requires
            dev.wf(),
            zones_intact(dev@, inode@),
            size <= old(buffer).len(),
        ensures
            r == read_count(dev@, inode@, size, offset),
            final(buffer)@.len() == old(buffer)@.len(),
            forall|i: int| 0 <= i < r ==> final(buffer)@[i] == stream(dev@, inode@)[offset + i],
            forall|i: int| r <= i < old(buffer)@.len() ==> final(buffer)@[i] == old(buffer)@[i],
    {
        if size == 0 || offset >= inode.size {
            return 0;
        }
        let mut bytes_left: u32 = if size > inode.size - offset {
            inode.size - offset
        } else {
            size
        };
        let ghost cap = bytes_left as int;
        let zl = collect_zones(dev, inode);
        proof {
            lemma_stream_of_len(dev@, zl@);
            vstd::arithmetic::div_mod::lemma_fundamental_div_mod(offset as int, 1024);
        }
        let mut b: usize = (offset / 1024) as usize;
        let mut off_b: u32 = offset % 1024;
        let mut done: u32 = 0;
        let mut block_buf = zero_vec(1024);
        while b < zl.len() && bytes_left > 0
            invariant
                dev.wf(),
                zl@ == zone_list(dev@, inode@),
                all_elems_ok(dev@, zl@),
                block_buf.len() == 1024,
                buffer@.len() == old(buffer)@.len(),
                size <= buffer@.len(),
                off_b < 1024,
                done + bytes_left == cap,
                cap == min_int(size as int, sat_sub(inode@.size as int, offset as int)),
                0 < cap <= size,
                bytes_left > 0 ==> offset + done == 1024 * b + off_b,
                bytes_left == 0 ==> off_b == 0 && offset + done <= 1024 * b,
                done > 0 ==> off_b == 0,
                done > 0 ==> b <= zl.len(),
                forall|i: int| 0 <= i < done ==> buffer@[i] == stream_of(dev@, zl@)[offset + i],
                forall|i: int| done <= i < buffer@.len() ==> buffer@[i] == old(buffer)@[i],
            decreases zl.len() - b,
        {
            let z = zl[b];
            let st = syc_read(dev, &mut block_buf, 1024, z * 1024);
            proof {
                assert(st == 0);
            }
            let chunk: u32 = if 1024 - off_b > bytes_left {
                bytes_left
            } else {
                1024 - off_b
            };
            let ghost done0 = done as int;
            let mut t: u32 = 0;
            while t < chunk
                invariant
                    t <= chunk,
                    0 < chunk <= 1024 - off_b,
                    chunk <= bytes_left,
                    done == done0,
                    done + bytes_left == cap,
                    cap <= size,
                    size <= buffer@.len(),
                    buffer@.len() == old(buffer)@.len(),
                    block_buf.len() == 1024,
                    forall|k: int| 0 <= k < 1024 ==> block_buf@[k] == dev@[z * 1024 + k],
                    forall|i: int| 0 <= i < done ==> buffer@[i] == stream_of(dev@, zl@)[offset + i],
                    forall|i: int|
                        0 <= i < t ==> #[trigger] buffer@[done + i] == block_buf@[off_b + i],
                    forall|i: int|
                        done + t <= i < buffer@.len() ==> buffer@[i] == old(buffer)@[i],
                decreases chunk - t,
            {
                let v = block_buf[(off_b + t) as usize];
                buffer.set((done + t) as usize, v);
                t += 1;
            }
            proof {
                assert forall|i: int| done <= i < done + chunk implies #[trigger] buffer@[i]
                    == stream_of(dev@, zl@)[offset + i] by {
                    let k = i - done0;
                    assert(buffer@[done0 + k] == block_buf@[off_b + k]);
                    lemma_stream_of_index(dev@, zl@, b as int, off_b + k);
                    assert(stream_of(dev@, zl@)[1024 * b + (off_b + k)] == dev@[zl@[b as int]
                        * 1024 + (off_b + k)]);
                    assert(1024 * b + (off_b + k) == offset + i);
                }
            }
            done += chunk;
            bytes_left -= chunk;
            off_b = 0;
            b += 1;
        }
        proof {
            lemma_stream_of_len(dev@, zl@);
        }
        done
    }

    /// Writes up to `size` bytes from `buffer[0..size]` into the file's
    /// logical stream at byte `offset`, returning how many bytes were
    /// persisted: the request clamped to the bytes the zone list backs —
    /// nothing is allocated, so a write past the allocated zones stops
    /// there. The device afterwards holds exactly the old image with the
    /// written stream bytes replaced, and the in-memory inode's size is
    /// grown (never shrunk) to cover the written window; the inode record
    /// on disk is not updated.
    pub fn write(
        dev: &mut BlockDevice,
        inode: &mut Inode,
        buffer: &Vec<u8>,
        size: u32,
        offset: u32,
    ) -> (r: u32)
        requires
            old(dev).wf(),
            zones_intact(old(dev)@, old(inode)@),
            size <= buffer.len(),
        ensures
            final(dev).wf(),
            final(dev)@.len() == old(dev)@.len(),
            r == write_count(old(dev)@, old(inode)@, size, offset),
            final(dev)@ == written_disk(
                old(dev)@,
                zone_list(old(dev)@, old(inode)@),
                buffer@,
                offset as int,
                r as int,
            ),
            final(inode)@ == (InodeView {
                size: grown_size(old(inode).size, offset, r as int),
                ..old(inode)@
            }),
    {
        let ghost d0 = old(dev)@;
        let ghost v0 = old(inode)@;
        if size == 0 {
            return 0;
        }
        let zl = collect_zones(dev, inode);
        proof {
            vstd::arithmetic::div_mod::lemma_fundamental_div_mod(offset as int, 1024);
        }
        let mut bytes_left: u32 = size;
        let mut b: usize = (offset / 1024) as usize;
        let mut off_b: u32 = offset % 1024;
        let mut done: u32 = 0;
        while b < zl.len() && bytes_left > 0
            invariant
                dev.wf(),
                dev@.len() == d0.len(),
                inode@ == v0,
                zl@ == zone_list(d0, v0),
                all_elems_ok(d0, zl@),
                size <= buffer.len(),
                size > 0,
                off_b < 1024,
                done + bytes_left == size,
                bytes_left > 0 ==> offset + done == 1024 * b + off_b,
                bytes_left == 0 ==> off_b == 0 && offset + done <= 1024 * b,
                done > 0 ==> off_b == 0,
                done > 0 ==> b <= zl.len(),
                dev@ == written_disk(d0, zl@, buffer@, offset as int, done as int),
            decreases zl.len() - b,
        {
            let z = zl[b];
            let chunk: u32 = if 1024 - off_b > bytes_left {
                bytes_left
            } else {
                1024 - off_b
            };
            let mut tmp: Vec<u8> = Vec::new();
            let mut t: u32 = 0;
            while t < chunk
                invariant
                    t <= chunk,
                    done + chunk <= size,
                    size <= buffer.len(),
                    tmp.len() == t,
                    forall|i: int| 0 <= i < t ==> tmp@[i] == buffer@[done + i],
                decreases chunk - t,
            {
                let v = buffer[(done + t) as usize];
                tmp.push(v);
                t += 1;
            }
            proof {
                assert(tmp@ =~= buffer@.subrange(done as int, done as int + chunk as int));
                assert(elem_ok(d0, zl@[b as int]));
            }
            let st = syc_write(dev, tmp.as_slice(), chunk, z * 1024 + off_b);
            proof {
                assert(st == 0);
                vstd::arithmetic::div_mod::lemma_fundamental_div_mod_converse(
                    offset + done,
                    1024,
                    b as int,
                    off_b as int,
                );
                vstd::arithmetic::div_mod::lemma_fundamental_div_mod_converse(
                    offset + done + chunk - 1,
                    1024,
                    b as int,
                    off_b + chunk - 1,
                );
                assert(stream_pos(zl@, offset + done) == z * 1024 + off_b);
                lemma_written_disk_chunk(
                    d0,
                    zl@,
                    buffer@,
                    offset as int,
                    done as int,
                    chunk as int,
                );
                assert(tmp@.take(chunk as int) =~= buffer@.subrange(
                    done as int,
                    done as int + chunk as int,
                ));
                assert(dev@ =~= written_disk(d0, zl@, buffer@, offset as int, done + chunk));
            }
            done += chunk;
            bytes_left -= chunk;
            off_b = 0;
            b += 1;
        }
        let new_size64: u64 = offset as u64 + done as u64;
        if done > 0 && new_size64 > inode.size as u64 {
            if new_size64 > 0xffff_ffff {
                inode.size = 0xffff_ffff;
            } else {
                inode.size = new_size64 as u32;
            }
        }
        done
    }
}


/// Checks at run time that the singly indirect tree at `z` lies within
/// the disk.
fn l1_check(dev: &BlockDevice, z: u32) -> (b: bool)
    requires
        dev.wf(),
    ensures
        b == l1_ok(dev@, z),
{
    if z == 0 {
        return true;
    }
    if (z as u64 + 1) * 1024 > dev.size() as u64 {
        return false;
    }
    let ptrs = read_ptr_block(dev, z);
    let mut j: usize = 0;
    while j < 256
        invariant
            j <= 256,
            z != 0,
            dev.wf(),
            (z + 1) * 1024 <= dev@.len(),
            ptrs.len() == 256,
            forall|k: int| 0 <= k < 256 ==> ptrs@[k] == ptr_at(dev@, z, k),
            forall|k: int| 0 <= k < j ==> zone_in_range(dev@, #[trigger] ptr_at(dev@, z, k)),
        decreases 256 - j,
    {
        let p = ptrs[j];
        if p != 0 && (p as u64 + 1) * 1024 > dev.size() as u64 {
            return false;
        }
        j += 1;
    }
    true
}

/// Checks at run time that the doubly indirect tree at `z` lies within
/// the disk.
fn l2_check(dev: &BlockDevice, z: u32) -> (b: bool)
    requires
        dev.wf(),
    ensures
        b == l2_ok(dev@, z),
{
    if z == 0 {
        return true;
    }
    if (z as u64 + 1) * 1024 > dev.size() as u64 {
        return false;
    }
    let ptrs = read_ptr_block(dev, z);
    let mut j: usize = 0;
    while j < 256
        invariant
            j <= 256,
            z != 0,
            dev.wf(),
            (z + 1) * 1024 <= dev@.len(),
            ptrs.len() == 256,
            forall|k: int| 0 <= k < 256 ==> ptrs@[k] == ptr_at(dev@, z, k),
            forall|k: int| 0 <= k < j ==> l1_ok(dev@, #[trigger] ptr_at(dev@, z, k)),
        decreases 256 - j,
    {
        let p = ptrs[j];
        if !l1_check(dev, p) {
            return false;
        }
        j += 1;
    }
    true
}

/// Checks at run time that the triply indirect tree at `z` lies within
/// the disk.
fn l3_check(dev: &BlockDevice, z: u32) -> (b: bool)
    requires
        dev.wf(),
    ensures
        b == l3_ok(dev@, z),
{
    if z == 0 {
        return true;
    }
    if (z as u64 + 1) * 1024 > dev.size() as u64 {
        return false;
    }
    let ptrs = read_ptr_block(dev, z);
    let mut j: usize = 0;
    while j < 256
        invariant
            j <= 256,
            z != 0,
            dev.wf(),
            (z + 1) * 1024 <= dev@.len(),
            ptrs.len() == 256,
            forall|k: int| 0 <= k < 256 ==> ptrs@[k] == ptr_at(dev@, z, k),
            forall|k: int| 0 <= k < j ==> l2_ok(dev@, #[trigger] ptr_at(dev@, z, k)),
        decreases 256 - j,
    {
        let p = ptrs[j];
        if !l2_check(dev, p) {
            return false;
        }
        j += 1;
    }
    true
}

/// Checks at run time that an inode's whole zone chain lies within the
/// disk.
pub fn zones_intact_check(dev: &BlockDevice, inode: &Inode) -> (b: bool)
    requires
        dev.wf(),
    ensures
        b == zones_intact(dev@, inode@),
{
    let mut i: usize = 0;
    while i < 7
        invariant
            i <= 7,
            dev.wf(),
            forall|k: int| 0 <= k < i ==> zone_in_range(dev@, #[trigger] inode@.zones[k]),
        decreases 7 - i,
    {
        let z = inode.zones[i];
        if z != 0 && (z as u64 + 1) * 1024 > dev.size() as u64 {
            return false;
        }
        i += 1;
    }
    l1_check(dev, inode.zones[7]) && l2_check(dev, inode.zones[8]) && l3_check(
        dev,
        inode.zones[9],
    )
}

} // verus!
