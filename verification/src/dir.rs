//! The directory manipulator: creating a file under the root directory
//! and deleting one, with the bitmap and inode-table updates each needs.
//! Both work relative to the root directory (inode 1), whose entry stream
//! they rewrite through the zone walker.

use crate::bio::{syc_read, syc_write};
use crate::bmap::{
    clear_bit, free_inode_opt, imap_bit, imap_bits_total, imap_in_range, lemma_free_inode_props,
    set_bit,
};
use crate::device::BlockDevice;
use crate::fs::{
    cache_depth, child_path, dirent_count, dirent_ino, dirent_name, files_under, files_upto,
    lemma_traversal_sees_file, root_path, MinixFileSystem,
};
use crate::inode::{
    dirent_enc, encode_dirent, encode_inode, inode_dec, inode_enc, inode_group_byte,
    inode_in_range, inode_opt,
    inode_slot_byte, lemma_dirent_enc_dec, lemma_inode_dec_congr, lemma_inode_enc_dec,
    parse_dirent, sb_spec, FsError, Inode, InodeView,
};
use crate::layout::{range_replace, zero_vec};
use crate::zones::{
    agree_on_block, allocated_stream_len, grown_size, in_written_range, is_pblock,
    elem_ok, lemma_stream_of_congr, lemma_stream_of_len, lemma_stream_pos_range,
    lemma_write_read_roundtrip, stream_of,
    lemma_written_disk_data, lemma_written_disk_frame, lemma_zone_list_elems,
    lemma_zone_structure_same, min_int, stream, stream_len, stream_pos, wf_file, written_disk,
    zone_list, zones_intact, zones_intact_check,
};
use vstd::prelude::*;

verus! {

/// The first directory-entry slot in `[2, cnt)` whose inode field holds
/// `k`.
pub open spec fn first_match_from(
    d: Seq<u8>,
    v: InodeView,
    k: u32,
    i: int,
    cnt: int,
) -> Option<int>
    decreases cnt - i,
{
    if !(2 <= i < cnt) {
        None
    } else if dirent_ino(d, v, i) == k {
        Some(i)
    } else {
        first_match_from(d, v, k, i + 1, cnt)
    }
}

/// The readable directory stream with the inode field of entry `i`
/// zeroed: what `delete` writes back.
pub open spec fn zeroed_dir_bytes(d: Seq<u8>, v: InodeView, sz: int, i: int) -> Seq<u8> {
    Seq::new(
        sz as nat,
        |t: int|
            if 64 * i <= t < 64 * i + 4 {
                0u8
            } else {
                stream(d, v)[t]
            },
    )
}

/// Byte offset of the imap byte carrying the bit of inode `k`.
pub open spec fn imap_byte_off(k: u32) -> int {
    2048 + (k - 1) / 8
}

/// The disk after clearing the imap bit of inode `k`.
pub open spec fn imap_cleared(d: Seq<u8>, k: u32) -> Seq<u8> {
    range_replace(
        d,
        imap_byte_off(k),
        seq![(d[imap_byte_off(k)] & !(1u8 << (((k - 1) % 8) as u8)))],
    )
}

/// The disk after setting the imap bit of inode `k`.
pub open spec fn imap_set(d: Seq<u8>, k: u32) -> Seq<u8> {
    range_replace(
        d,
        imap_byte_off(k),
        seq![(d[imap_byte_off(k)] | (1u8 << (((k - 1) % 8) as u8)))],
    )
}

/// What `delete` does to the disk when a cache is present: if the root
/// directory can be read, the first root entry naming inode `k` has its
/// inode field zeroed (if there is one) and the imap bit of `k` is
/// cleared; a disk without a readable, intact root is left alone.
pub open spec fn delete_disk_spec(d: Seq<u8>, k: u32) -> Seq<u8> {
    match inode_opt(d, 1) {
        None => d,
        Some(root) => if !zones_intact(d, root) {
            d
        } else {
            let sz = min_int(root.size as int, stream_len(d, root));
            let cnt = sz / 64;
            let d1 = match first_match_from(d, root, k, 2, cnt) {
                None => d,
                Some(i) => written_disk(
                    d,
                    zone_list(d, root),
                    zeroed_dir_bytes(d, root, sz, i),
                    0,
                    sz,
                ),
            };
            imap_cleared(d1, k)
        },
    }
}

/// What delete needs of the disk so that nothing it touches can run off
/// the device: the root's zone chain intact and the imap byte of `k` on
/// the disk, whenever the root can be read at all.
pub open spec fn delete_pre(d: Seq<u8>, k: u32) -> bool {
    inode_opt(d, 1) matches Some(root) ==> {
        &&& zones_intact(d, root)
        &&& imap_byte_off(k) + 1 <= d.len()
    }
}


/// `first_match_from` answers within its scan range and only at an
/// entry that names `k`.
proof fn lemma_first_match_props(d: Seq<u8>, v: InodeView, k: u32, j: int, cnt: int)
    requires
        2 <= j,
    ensures
        first_match_from(d, v, k, j, cnt) matches Some(i) ==> j <= i < cnt && dirent_ino(d, v, i)
            == k,
    decreases cnt - j,
{
    if 2 <= j < cnt && dirent_ino(d, v, j) != k {
        lemma_first_match_props(d, v, k, j + 1, cnt);
    }
}

/// The geometry under which a deleted entry is provably gone from the
/// directory afterwards: the root is well formed with its contents
/// wholly backed by its zones, the freed inode's imap byte sits in the
/// imap proper, and the root's data zones and pointer blocks lie at or
/// beyond `min_data`, past the superblock, the imap and the root's own
/// record.
pub open spec fn delete_wf(d: Seq<u8>, root: InodeView, k: u32, min_data: int) -> bool {
    &&& inode_opt(d, 1) == Some(root)
    &&& wf_file(d, root)
    &&& 0 < root.size
    &&& root.size as int <= stream_len(d, root)
    &&& 1 <= k
    &&& k <= imap_bits_total(d)
    &&& 1536 <= min_data
    &&& inode_slot_byte(sb_spec(d), 1) + 64 <= min_data
    &&& 2048 + sb_spec(d).imap_blocks * 1024 <= min_data
    &&& (forall|kk: int|
        0 <= kk < zone_list(d, root).len() ==> #[trigger] zone_list(d, root)[kk] * 1024
            >= min_data)
    &&& (forall|w: u32| #[trigger] is_pblock(d, root, w) ==> w * 1024 >= min_data)
}

/// The disk-level half of what deleting achieves, shared by the entry
/// conclusions below: superblock, root record, zone structure and
/// stream length survive, the stream bytes change only in the matched
/// entry's inode field, and the freed imap bit is clear.
#[verifier::rlimit(100)]
proof fn lemma_delete_disk_core(d: Seq<u8>, root: InodeView, k: u32, min_data: int)
    requires
        delete_wf(d, root, k, min_data),
    ensures
        ({
            let d2 = delete_disk_spec(d, k);
            let cnt = dirent_count(d, root);
            let fm = first_match_from(d, root, k, 2, cnt);
            &&& d2.len() == d.len()
            &&& sb_spec(d2) == sb_spec(d)
            &&& inode_opt(d2, 1) == Some(root)
            &&& zones_intact(d2, root)
            &&& zone_list(d2, root) == zone_list(d, root)
            &&& (fm matches Some(i) ==> 2 <= i < cnt)
            &&& forall|t: int|
                0 <= t < root.size ==> #[trigger] stream(d2, root)[t] == (match fm {
                    Some(i) => if 64 * i <= t < 64 * i + 4 {
                        0u8
                    } else {
                        stream(d, root)[t]
                    },
                    None => stream(d, root)[t],
                })
            &&& forall|a: int|
                0 <= a < d.len() && a < min_data && a != imap_byte_off(k) ==> #[trigger] d2[a]
                    == d[a]
            &&& !imap_bit(d2, k - 1)
        }),
{
    let sb = sb_spec(d);
    let zl = zone_list(d, root);
    let sz = root.size as int;
    let cnt = dirent_count(d, root);
    let fm = first_match_from(d, root, k, 2, cnt);
    let slot1 = inode_slot_byte(sb, 1);
    let ib = imap_byte_off(k);
    let jbit: u8 = ((k - 1) % 8) as u8;
    lemma_zone_list_elems(d, root);
    lemma_stream_of_len(d, zl);
    lemma_first_match_props(d, root, k, 2, cnt);
    vstd::arithmetic::div_mod::lemma_fundamental_div_mod(sz, 64);

    // region arithmetic: the imap byte sits below the root's record
    let imap = sb.imap_blocks as int;
    assert(imap >= 1) by {
        assert(k <= imap_bits_total(d));
    }
    assert(ib < 2048 + imap * 1024) by {
        vstd::arithmetic::div_mod::lemma_div_is_ordered(k - 1, 8192 * imap - 1, 8);
        vstd::arithmetic::div_mod::lemma_fundamental_div_mod_converse(
            8192 * imap - 1,
            8,
            1024 * imap - 1,
            7,
        );
    }
    assert(slot1 == (2 + sb.imap_blocks + sb.zmap_blocks) * 1024);
    assert(ib < slot1);
    assert(slot1 + 64 <= d.len());

    // the directory rewrite (when an entry matched)
    let d1 = (match fm {
        None => d,
        Some(i) => written_disk(d, zl, zeroed_dir_bytes(d, root, sz, i), 0, sz),
    });
    if fm is Some {
        let i = fm->0;
        let zd = zeroed_dir_bytes(d, root, sz, i);
        lemma_write_read_roundtrip(d, root, zd, root.size, 0);
        assert((InodeView { size: grown_size(root.size, 0, sz), ..root }) == root);
        lemma_written_disk_frame(d, zl, zd, 0, sz);
        assert forall|a: int| 0 <= a < d.len() && a < min_data implies #[trigger] d1[a]
            == d[a] by {
            if in_written_range(zl, 0, sz, a) {
                let t = choose|t: int| 0 <= t < sz && stream_pos(zl, t) == a;
                lemma_stream_pos_range(d, zl, t);
                assert(zl[t / 1024] * 1024 >= min_data);
                assert(false);
            }
        }
        assert(zd.take(sz) =~= zd);
        assert(stream(d1, root) == range_replace(stream(d, root), 0, zd));
    } else {
        assert(d1 == d);
    }
    assert forall|w: u32| #[trigger] is_pblock(d, root, w) implies agree_on_block(
        d,
        d1,
        w,
    ) by {}
    assert(d1.len() == d.len());
    assert(zones_intact(d1, root));
    assert(zone_list(d1, root) == zl);

    // the imap clear touches one byte below everything else
    let d2 = imap_cleared(d1, k);
    assert(d2 == delete_disk_spec(d, k));
    assert(d2.len() == d.len());
    assert forall|a: int| 0 <= a < d.len() && a != ib implies #[trigger] d2[a] == d1[a] by {}
    assert forall|a: int| 0 <= a < 1536 implies #[trigger] d2[a] == d[a] by {}
    assert(sb_spec(d2) == sb_spec(d));

    // the root record is untouched
    assert forall|t: int| 0 <= t < 64 implies #[trigger] d2[slot1 + t] == d[slot1 + t] by {}
    lemma_inode_dec_congr(d, d2, slot1);
    assert(inode_opt(d2, 1) == Some(root));

    // zone structure and stream carry over the one-byte change
    assert forall|w: u32| #[trigger] is_pblock(d, root, w) implies agree_on_block(
        d,
        d2,
        w,
    ) by {
        assert forall|m: int| 0 <= m < 1024 implies #[trigger] d2[w * 1024 + m] == d[w * 1024
            + m] by {
            assert(d1[w * 1024 + m] == d[w * 1024 + m]);
            assert(w * 1024 + m >= min_data);
        }
    }
    lemma_zone_structure_same(d, d2, root);
    assert forall|kk: int, j: int|
        0 <= kk < zl.len() && 0 <= j < 1024 implies #[trigger] d2[zl[kk] * 1024 + j] == d1[zl[kk]
        * 1024 + j] by {
        assert(zl[kk] * 1024 >= min_data);
        assert(elem_ok(d, zl[kk]));
    }
    lemma_stream_of_congr(d1, d2, zl);
    assert(stream(d2, root) == stream_of(d1, zl));
    assert(stream(d1, root) == stream_of(d1, zl));
    assert forall|t: int| 0 <= t < root.size implies #[trigger] stream(d2, root)[t] == (match fm {
        Some(i) => if 64 * i <= t < 64 * i + 4 {
            0u8
        } else {
            stream(d, root)[t]
        },
        None => stream(d, root)[t],
    }) by {}

    // the freed bit is clear
    let b0 = d1[ib];
    assert(d2[ib] == (b0 & !(1u8 << jbit)));
    assert(((b0 & !(1u8 << jbit)) >> jbit) & 1 == 0) by (bit_vector)
        requires
            jbit < 8,
    ;
    assert(!imap_bit(d2, k - 1));
}

/// Entry fields survive a stream change that only zeroes one entry's
/// inode field: stated over an abstract written disk so that callers
/// can instantiate it cheaply.
proof fn lemma_dirent_fields_carry(d: Seq<u8>, d2: Seq<u8>, root: InodeView, fm: Option<int>)
    requires
        zone_list(d2, root) == zone_list(d, root),
        root.size as int <= stream_len(d, root),
        forall|t: int|
            0 <= t < root.size ==> #[trigger] stream(d2, root)[t] == (match fm {
                Some(i) => if 64 * i <= t < 64 * i + 4 {
                    0u8
                } else {
                    stream(d, root)[t]
                },
                None => stream(d, root)[t],
            }),
    ensures
        dirent_count(d2, root) == dirent_count(d, root),
        (fm matches Some(i) ==> (0 <= i < dirent_count(d, root) ==> dirent_ino(d2, root, i)
            == 0)),
        forall|j: int|
            0 <= j < dirent_count(d, root) && fm != Some(j) ==> #[trigger] dirent_ino(d2, root, j)
                == dirent_ino(d, root, j),
        forall|j: int|
            0 <= j < dirent_count(d, root) ==> #[trigger] dirent_name(d2, root, j) == dirent_name(
                d,
                root,
                j,
            ),
{
    let sz = root.size as int;
    let cnt = dirent_count(d, root);
    lemma_stream_of_len(d, zone_list(d, root));
    lemma_stream_of_len(d2, zone_list(d2, root));
    vstd::arithmetic::div_mod::lemma_fundamental_div_mod(sz, 64);
    assert(dirent_count(d2, root) == cnt);
    let s2 = stream(d2, root);
    if fm is Some {
        let i = fm->0;
        if 0 <= i < cnt {
            assert(64 * i + 64 <= sz);
            assert(dirent_ino(d2, root, i) == 0);
        }
    }
    assert forall|j: int|
        0 <= j < cnt && fm != Some(j) implies #[trigger] dirent_ino(d2, root, j) == dirent_ino(
        d,
        root,
        j,
    ) by {
        assert(64 * j + 64 <= sz);
        assert(s2[64 * j] == stream(d, root)[64 * j]);
        assert(s2[64 * j + 1] == stream(d, root)[64 * j + 1]);
        assert(s2[64 * j + 2] == stream(d, root)[64 * j + 2]);
        assert(s2[64 * j + 3] == stream(d, root)[64 * j + 3]);
    }
    assert forall|j: int| 0 <= j < cnt implies #[trigger] dirent_name(d2, root, j) == dirent_name(
        d,
        root,
        j,
    ) by {
        assert(64 * j + 64 <= sz);
        assert(s2.subrange(64 * j + 4, 64 * j + 64) =~= stream(d, root).subrange(
            64 * j + 4,
            64 * j + 64,
        ));
    }
}

/// What deleting makes true of the directory: under `delete_wf` the
/// written image still carries the superblock and the unchanged root
/// record, the zone structure and entry count stand, the matched
/// entry's inode field reads 0, every other entry survives verbatim,
/// and the freed inode's imap bit is clear.
#[verifier::rlimit(100)]
pub proof fn lemma_delete_disk_shape(d: Seq<u8>, root: InodeView, k: u32, min_data: int)
    requires
        delete_wf(d, root, k, min_data),
    ensures
        ({
            let d2 = delete_disk_spec(d, k);
            let cnt = dirent_count(d, root);
            let fm = first_match_from(d, root, k, 2, cnt);
            &&& d2.len() == d.len()
            &&& sb_spec(d2) == sb_spec(d)
            &&& inode_opt(d2, 1) == Some(root)
            &&& zones_intact(d2, root)
            &&& zone_list(d2, root) == zone_list(d, root)
            &&& dirent_count(d2, root) == cnt
            &&& (fm matches Some(i) ==> dirent_ino(d2, root, i) == 0)
            &&& (forall|j: int|
                0 <= j < cnt && fm != Some(j) ==> #[trigger] dirent_ino(d2, root, j)
                    == dirent_ino(d, root, j))
            &&& (forall|j: int|
                0 <= j < cnt ==> #[trigger] dirent_name(d2, root, j) == dirent_name(d, root, j))
            &&& !imap_bit(d2, k - 1)
        }),
{
    let cnt = dirent_count(d, root);
    let fm = first_match_from(d, root, k, 2, cnt);
    lemma_delete_disk_core(d, root, k, min_data);
    lemma_first_match_props(d, root, k, 2, cnt);
    lemma_dirent_fields_carry(d, delete_disk_spec(d, k), root, fm);
}

/// The inode record of a freshly created file: a zero-size regular file
/// with one link and mode 0o644.
pub open spec fn blank_file_inode() -> InodeView {
    InodeView {
        mode: 0o644,
        nlinks: 1,
        uid: 0,
        gid: 0,
        size: 0,
        atime: 0,
        mtime: 0,
        ctime: 0,
        zones: Seq::new(10, |j: int| 0u32),
    }
}

/// The truncation `create` applies to a file name: at most 60 bytes.
pub open spec fn trunc60(name: Seq<u8>) -> Seq<u8> {
    name.take(
        if name.len() < 60 {
            name.len() as int
        } else {
            60
        },
    )
}

/// What `create` does to the disk when the root directory is readable
/// and a free inode exists: a directory entry naming the free inode is
/// appended to the root's entry stream at the first whole slot past its
/// readable entries, the root inode is persisted with its size grown to
/// cover the new entry, the free inode's imap bit is set, and a blank
/// file record is written to the free inode's table slot.
pub open spec fn create_disk_spec(d: Seq<u8>, filename: Seq<u8>) -> Seq<u8> {
    match (inode_opt(d, 1), free_inode_opt(d)) {
        (Some(root), Some(n)) => {
            let sb = sb_spec(d);
            let off = 64 * dirent_count(d, root);
            let d1 = written_disk(
                d,
                zone_list(d, root),
                dirent_enc(n, trunc60(filename)),
                off,
                64,
            );
            let root2 = InodeView { size: grown_size(root.size, off as u32, 64), ..root };
            let d2 = range_replace(d1, inode_slot_byte(sb, 1), inode_enc(root2));
            let d3 = imap_set(d2, n);
            range_replace(d3, inode_slot_byte(sb, n), inode_enc(blank_file_inode()))
        },
        _ => d,
    }
}

/// What create needs of the disk when asked to create under the root:
/// an intact root directory with room for one more entry in its
/// allocated zones, a free inode whose table slot and imap byte lie on
/// the disk, and an imap that the superblock places on the disk.
/// `create_allowed` checks all of it at run time.
pub open spec fn create_pre(d: Seq<u8>, cwd: Seq<u8>) -> bool {
    &&& imap_in_range(d)
    &&& ((cwd == root_path() && inode_opt(d, 1) is Some) ==> (match (
        inode_opt(d, 1),
        free_inode_opt(d),
    ) {
        (Some(root), Some(n)) => {
            &&& zones_intact(d, root)
            &&& 64 * dirent_count(d, root) + 64 <= stream_len(d, root)
            &&& inode_in_range(d, n)
            &&& n <= imap_bits_total(d)
        },
        _ => false,
    }))
}

/// Deleting one file leaves every inode record alone: with the whole
/// readable inode table below `min_data`, any inode of the written disk
/// reads as it did before.
proof fn lemma_delete_preserves_inode(
    d: Seq<u8>,
    root: InodeView,
    k: u32,
    min_data: int,
    m: u32,
)
    requires
        delete_wf(d, root, k, min_data),
        1 <= m,
        inode_in_range(d, m) ==> inode_slot_byte(sb_spec(d), m) + 64 <= min_data,
    ensures
        inode_opt(delete_disk_spec(d, k), m) == inode_opt(d, m),
{
    let d2 = delete_disk_spec(d, k);
    let sb = sb_spec(d);
    lemma_delete_disk_core(d, root, k, min_data);
    if inode_in_range(d, m) {
        let slot = inode_slot_byte(sb, m);
        let ib = imap_byte_off(k);
        let imap = sb.imap_blocks as int;
        assert(imap >= 1) by {
            assert(k <= imap_bits_total(d));
        }
        assert(ib < 2048 + imap * 1024) by {
            vstd::arithmetic::div_mod::lemma_div_is_ordered(k - 1, 8192 * imap - 1, 8);
            vstd::arithmetic::div_mod::lemma_fundamental_div_mod_converse(
                8192 * imap - 1,
                8,
                1024 * imap - 1,
                7,
            );
        }
        assert(ib < slot);
        assert(slot + 64 <= d.len());
        assert forall|t: int| 0 <= t < 64 implies #[trigger] d2[slot + t] == d[slot + t] by {}
        lemma_inode_dec_congr(d, d2, slot);
    }
}

/// The traversal-level step of hiding a deleted file, over an abstract
/// written disk: with the matched entry zeroed, every other entry
/// intact, and every surviving entry a uniquely-named regular file, the
/// traversal map lacks the deleted path.
proof fn lemma_flat_scan_transfer(
    d: Seq<u8>,
    d2: Seq<u8>,
    root: InodeView,
    depth: int,
    i: int,
    p: Seq<u8>,
)
    requires
        1 <= depth,
        inode_opt(d2, 1) == Some(root),
        zones_intact(d2, root),
        dirent_count(d2, root) == dirent_count(d, root),
        dirent_ino(d2, root, i) == 0,
        forall|j: int|
            2 <= j < dirent_count(d, root) && j != i ==> #[trigger] dirent_ino(d2, root, j)
                == dirent_ino(d, root, j),
        forall|j: int|
            2 <= j < dirent_count(d, root) && j != i ==> #[trigger] dirent_name(d2, root, j)
                == dirent_name(d, root, j),
        forall|e: u32| 1 <= e ==> #[trigger] inode_opt(d2, e) == inode_opt(d, e),
        p == child_path(root_path(), 1, dirent_name(d, root, i)),
        forall|j: int|
            2 <= j < dirent_count(d, root) && j != i && (#[trigger] dirent_ino(d, root, j)) != 0
                ==> (match inode_opt(d, dirent_ino(d, root, j)) {
                Some(c) => c.mode & crate::layout::S_IFDIR == 0,
                None => true,
            }),
        forall|j: int|
            2 <= j < dirent_count(d, root) && j != i ==> #[trigger] dirent_name(d, root, j)
                != dirent_name(d, root, i),
    ensures
        !files_under(d2, 1, root_path(), depth).contains_key(p),
{
    let cnt = dirent_count(d, root);
    assert forall|t: int|
        2 <= t < cnt implies ((#[trigger] dirent_ino(d2, root, t)) != 0 ==> (match inode_opt(
        d2,
        dirent_ino(d2, root, t),
    ) {
        Some(c) => c.mode & crate::layout::S_IFDIR == 0 && child_path(
            root_path(),
            1,
            dirent_name(d2, root, t),
        ) != p,
        None => true,
    })) by {
        if t != i && dirent_ino(d2, root, t) != 0 {
            assert(dirent_ino(d2, root, t) == dirent_ino(d, root, t));
            assert(dirent_name(d2, root, t) == dirent_name(d, root, t));
            assert(inode_opt(d2, dirent_ino(d, root, t)) == inode_opt(d, dirent_ino(d, root, t)));
            if child_path(root_path(), 1, dirent_name(d2, root, t)) == p {
                assert(dirent_name(d, root, t) =~= dirent_name(d, root, i)) by {
                    let a = root_path() + dirent_name(d, root, t);
                    let b = root_path() + dirent_name(d, root, i);
                    assert(a == b);
                    assert(root_path().len() == 1);
                    assert(a.len() == 1 + dirent_name(d, root, t).len());
                    assert(b.len() == 1 + dirent_name(d, root, i).len());
                    assert(dirent_name(d, root, t).len() == dirent_name(d, root, i).len());
                    assert forall|q: int|
                        0 <= q < dirent_name(d, root, t).len() implies #[trigger] dirent_name(
                        d,
                        root,
                        t,
                    )[q] == dirent_name(d, root, i)[q] by {
                        assert(a[q + 1] == dirent_name(d, root, t)[q]);
                        assert(b[q + 1] == dirent_name(d, root, i)[q]);
                        assert(a[q + 1] == b[q + 1]);
                    }
                }
                assert(false);
            }
        }
    }
    crate::fs::lemma_flat_scan_misses(d2, 1, root, root_path(), depth, cnt, p);
    assert(files_under(d2, 1, root_path(), depth) == files_upto(
        d2,
        1,
        root,
        root_path(),
        depth,
        cnt,
    ));
}

/// After `delete`, the deleted file is gone from a flat root directory:
/// when the matched entry's name is borne by no other entry and every
/// surviving entry is a regular file, the traversal map of the written
/// disk — what `refresh` rebuilds the cache to — lacks the deleted
/// absolute path.
#[verifier::rlimit(100)]
pub proof fn lemma_delete_hides_path(
    d: Seq<u8>,
    root: InodeView,
    k: u32,
    min_data: int,
    depth: int,
    i: int,
)
    requires
        delete_wf(d, root, k, min_data),
        first_match_from(d, root, k, 2, dirent_count(d, root)) == Some(i),
        1 <= depth,
        forall|m: u32|
            #[trigger] inode_in_range(d, m) ==> inode_slot_byte(sb_spec(d), m) + 64 <= min_data,
        forall|j: int|
            2 <= j < dirent_count(d, root) && j != i && (#[trigger] dirent_ino(d, root, j)) != 0
                ==> (match inode_opt(d, dirent_ino(d, root, j)) {
                Some(c) => c.mode & crate::layout::S_IFDIR == 0,
                None => true,
            }),
        forall|j: int|
            2 <= j < dirent_count(d, root) && j != i ==> #[trigger] dirent_name(d, root, j)
                != dirent_name(d, root, i),
    ensures
        !files_under(delete_disk_spec(d, k), 1, root_path(), depth).contains_key(
            child_path(root_path(), 1, dirent_name(d, root, i)),
        ),
{
    let d2 = delete_disk_spec(d, k);
    lemma_delete_disk_shape(d, root, k, min_data);
    assert forall|e: u32| 1 <= e implies #[trigger] inode_opt(d2, e) == inode_opt(d, e) by {
        lemma_delete_preserves_inode(d, root, k, min_data, e);
    }
    lemma_flat_scan_transfer(
        d,
        d2,
        root,
        depth,
        i,
        child_path(root_path(), 1, dirent_name(d, root, i)),
    );
}

/// The geometry under which a created file is provably visible/// The geometry under which a created file is provably visible to
/// traversal afterwards: the root is a well-formed directory with
/// NUL-free 64-byte-aligned contents and room for one entry, the free
/// inode is a real slot distinct from the root's, and everything the
/// root's zone list or pointer blocks occupy lies at or beyond
/// `min_data`, past the superblock, the imap and both touched inode
/// records. On a sanely formatted disk `min_data` is the first data
/// zone's byte offset.
pub open spec fn create_wf(
    d: Seq<u8>,
    root: InodeView,
    n: u32,
    filename: Seq<u8>,
    min_data: int,
) -> bool {
    &&& inode_opt(d, 1) == Some(root)
    &&& free_inode_opt(d) == Some(n)
    &&& 2 <= n
    &&& wf_file(d, root)
    &&& root.size % 64 == 0
    &&& 128 <= root.size
    &&& root.size + 64 <= stream_len(d, root)
    &&& root.size + 64 <= 0xffff_ffff
    &&& inode_in_range(d, n)
    &&& filename.len() <= 60
    &&& (forall|i: int| 0 <= i < filename.len() ==> filename[i] != 0)
    &&& 1536 <= min_data
    &&& inode_slot_byte(sb_spec(d), 1) + 64 <= min_data
    &&& inode_slot_byte(sb_spec(d), n) + 64 <= min_data
    &&& 2048 + sb_spec(d).imap_blocks * 1024 <= min_data
    &&& (forall|k: int|
        0 <= k < zone_list(d, root).len() ==> #[trigger] zone_list(d, root)[k] * 1024
            >= min_data)
    &&& (forall|w: u32| #[trigger] is_pblock(d, root, w) ==> w * 1024 >= min_data)
}

/// What creating a file makes true of the disk: under `create_wf`, the
/// written image still carries the superblock, the root decodes to its
/// grown self with the same zone structure, the appended entry decodes
/// back to the new inode number and name, and the blank file record
/// decodes at the new inode's slot.
#[verifier::rlimit(100)]
proof fn lemma_create_disk_shape(
    d: Seq<u8>,
    root: InodeView,
    n: u32,
    filename: Seq<u8>,
    min_data: int,
)
    requires
        create_wf(d, root, n, filename, min_data),
    ensures
        ({
            let d4 = create_disk_spec(d, filename);
            let root2 = InodeView {
                size: grown_size(root.size, (64 * dirent_count(d, root)) as u32, 64),
                ..root
            };
            let cnt = dirent_count(d, root);
            &&& d4.len() == d.len()
            &&& sb_spec(d4) == sb_spec(d)
            &&& inode_opt(d4, 1) == Some(root2)
            &&& zones_intact(d4, root2)
            &&& zone_list(d4, root2) == zone_list(d, root)
            &&& dirent_count(d4, root2) == cnt + 1
            &&& dirent_ino(d4, root2, cnt) == n
            &&& dirent_name(d4, root2, cnt) == filename
            &&& inode_opt(d4, n) == Some(blank_file_inode())
        }),
{
    let sb = sb_spec(d);
    let zl = zone_list(d, root);
    let cnt = dirent_count(d, root);
    let off = 64 * cnt;
    let entry = dirent_enc(n, trunc60(filename));
    let root2 = InodeView { size: grown_size(root.size, off as u32, 64), ..root };
    let blank = blank_file_inode();
    let slot1 = inode_slot_byte(sb, 1);
    let slotn = inode_slot_byte(sb, n);
    let ib = imap_byte_off(n);
    lemma_zone_list_elems(d, root);
    lemma_stream_of_len(d, zl);
    lemma_free_inode_props(d);

    // the append lands exactly at the end of the root's contents
    vstd::arithmetic::div_mod::lemma_fundamental_div_mod(root.size as int, 64);
    assert(off == root.size);
    assert(trunc60(filename) =~= filename);

    // region arithmetic: the imap byte and both inode slots sit below
    // every data zone and pointer block, and apart from each other
    let imap = sb.imap_blocks as int;
    assert(imap >= 1) by {
        assert(n <= imap_bits_total(d));
    }
    assert(ib < 2048 + imap * 1024) by {
        vstd::arithmetic::div_mod::lemma_div_is_ordered(n - 1, 8192 * imap - 1, 8);
        vstd::arithmetic::div_mod::lemma_fundamental_div_mod_converse(
            8192 * imap - 1,
            8,
            1024 * imap - 1,
            7,
        );
    }
    assert(slot1 == (2 + sb.imap_blocks + sb.zmap_blocks) * 1024);
    assert(ib < slot1);
    assert(slot1 + 64 <= slotn) by {
        vstd::arithmetic::div_mod::lemma_fundamental_div_mod(n - 1, 16);
        if (n - 1) / 16 == 0 {
            assert((n - 1) % 16 == n - 1);
        }
    }
    assert(slotn + 64 <= inode_group_byte(sb, n) + 1024);
    assert(slot1 + 64 <= d.len());
    assert(slotn + 64 <= d.len());

    // the append itself: stream spliced, structure kept
    assert(64 <= entry.len());
    lemma_write_read_roundtrip(d, root, entry, 64, off as u32);
    let d1 = written_disk(d, zl, entry, off, 64);
    lemma_written_disk_frame(d, zl, entry, off, 64);
    assert forall|a: int| 0 <= a < d.len() && a < min_data implies #[trigger] d1[a] == d[a] by {
        if in_written_range(zl, off, 64, a) {
            let i = choose|i: int| off <= i < off + 64 && stream_pos(zl, i) == a;
            lemma_stream_pos_range(d, zl, i);
            assert(zl[i / 1024] * 1024 >= min_data);
            assert(false);
        }
    }
    let d2 = range_replace(d1, slot1, inode_enc(root2));
    let d3 = imap_set(d2, n);
    let d4 = range_replace(d3, slotn, inode_enc(blank));
    assert(d4 == create_disk_spec(d, filename));
    assert(d4.len() == d.len());

    // the three metadata writes all land below min_data
    assert forall|a: int| min_data <= a < d.len() implies #[trigger] d4[a] == d1[a] by {}
    assert forall|a: int| 0 <= a < 1536 implies #[trigger] d4[a] == d[a] by {}
    assert(sb_spec(d4) == sb_spec(d));

    // the root record reads back as the grown root
    lemma_inode_enc_dec(d1, slot1, root2);
    assert forall|t: int| 0 <= t < 64 implies #[trigger] d4[slot1 + t] == d2[slot1 + t] by {}
    lemma_inode_dec_congr(d2, d4, slot1);
    assert(inode_opt(d4, 1) == Some(root2));

    // pointer blocks and data zones are untouched by the metadata writes
    assert forall|w: u32| #[trigger] is_pblock(d, root2, w) implies agree_on_block(
        d,
        d4,
        w,
    ) by {
        assert(is_pblock(d, root, w));
        assert(agree_on_block(d, d1, w));
        assert forall|m: int| 0 <= m < 1024 implies #[trigger] d4[w * 1024 + m] == d[w * 1024
            + m] by {
            assert(d1[w * 1024 + m] == d[w * 1024 + m]);
            assert(w * 1024 + m >= min_data);
        }
    }
    lemma_zone_structure_same(d, d4, root2);
    assert(zone_list(d4, root2) == zl);
    assert(zones_intact(d4, root2));

    // the stream of the written disk is the old stream with the entry
    // spliced in at the end
    assert forall|k: int, j: int|
        0 <= k < zl.len() && 0 <= j < 1024 implies #[trigger] d4[zl[k] * 1024 + j] == d1[zl[k]
        * 1024 + j] by {
        assert(zl[k] * 1024 >= min_data);
        assert(elem_ok(d, zl[k]));
    }
    lemma_stream_of_congr(d1, d4, zl);
    assert(stream(d4, root2) == range_replace(stream(d, root), off, entry.take(64)));

    // entry count and the new entry's decode
    assert(root2.size == off + 64);
    assert(dirent_count(d4, root2) == cnt + 1) by {
        vstd::arithmetic::div_mod::lemma_fundamental_div_mod_converse(
            64 * (cnt + 1),
            64,
            cnt + 1,
            0,
        );
    }
    assert(entry.take(64) =~= entry);
    lemma_dirent_enc_dec(stream(d, root), off, n, filename);
    assert(dirent_enc(n, trunc60(filename)) == dirent_enc(n, filename));
    assert(dirent_ino(d4, root2, cnt) == n);
    assert(stream(d4, root2).subrange(64 * cnt + 4, 64 * cnt + 64) =~= range_replace(
        stream(d, root),
        off,
        dirent_enc(n, filename),
    ).subrange(off + 4, off + 64));
    assert(dirent_name(d4, root2, cnt) == filename);

    // the blank record reads back at the new inode's slot
    lemma_inode_enc_dec(d3, slotn, blank);
    assert(inode_opt(d4, n) == Some(blank));
}

/// After `create`, the new file is visible: the traversal map of the
/// written disk — which is what `refresh` rebuilds the cache to — holds
/// the new absolute path, bound to the blank zero-size file inode.
pub proof fn lemma_create_makes_file_visible(
    d: Seq<u8>,
    root: InodeView,
    n: u32,
    filename: Seq<u8>,
    min_data: int,
    depth: int,
)
    requires
        create_wf(d, root, n, filename, min_data),
        1 <= depth,
    ensures
        ({
            let d4 = create_disk_spec(d, filename);
            let p = child_path(root_path(), 1, filename);
            &&& files_under(d4, 1, root_path(), depth).contains_key(p)
            &&& files_under(d4, 1, root_path(), depth)[p] == blank_file_inode()
        }),
{
    let d4 = create_disk_spec(d, filename);
    let cnt = dirent_count(d, root);
    let root2 = InodeView { size: grown_size(root.size, (64 * cnt) as u32, 64), ..root };
    lemma_create_disk_shape(d, root, n, filename, min_data);
    assert(0o644u16 & 0o040_000u16 == 0) by (bit_vector);
    assert(blank_file_inode().mode & crate::layout::S_IFDIR == 0);
    lemma_traversal_sees_file(
        d4,
        1,
        root_path(),
        depth,
        cnt,
        root2,
        blank_file_inode(),
    );
    assert(files_under(d4, 1, root_path(), depth) == files_upto(
        d4,
        1,
        root2,
        root_path(),
        depth,
        cnt + 1,
    ));
}

impl MinixFileSystem {

    /// Checks `create`'s footing at run time, so that a caller can test
    /// before mutating: the imap region on the disk and — when `cwd` is
    /// the root and the root inode is readable — an intact root chain, a
    /// free inode with its table slot on the disk, and room in the
    /// root's allocated zones for one more entry.
    pub fn create_allowed(dev: &BlockDevice, cwd: &[u8]) -> (b: bool)
        requires
            dev.wf(),
        ensures
            b == create_pre(dev@, cwd@),
    {
        let ghost d = dev@;
        if !Self::imap_region_ok(dev) {
            return false;
        }
        let is_root = cwd.len() == 1 && cwd[0] == 47;
        proof {
            if is_root {
                assert(cwd@ =~= root_path());
            }
        }
        if !is_root {
            return true;
        }
        let root = match Self::get_inode(dev, 1) {
            Some(r) => r,
            None => {
                return true;
            },
        };
        if !zones_intact_check(dev, &root) {
            return false;
        }
        let n = match Self::find_free_inode(dev) {
            Some(n) => n,
            None => {
                return false;
            },
        };
        if Self::get_inode(dev, n).is_none() {
            return false;
        }
        let mut buf = zero_vec(root.size as usize);
        let sz = Self::read(dev, &root, &mut buf, root.size, 0);
        let cnt: u32 = sz / 64;
        proof {
            vstd::arithmetic::div_mod::lemma_fundamental_div_mod(sz as int, 64);
            assert(cnt == dirent_count(d, root@));
        }
        let backed = allocated_stream_len(dev, &root);
        64 * (cnt as u64) + 64 <= backed
    }

    /// Checks `delete`'s footing at run time: whenever the root inode is
    /// readable, its zone chain must be intact and the imap byte of
    /// `inode_num` must lie on the disk.
    pub fn delete_allowed(dev: &BlockDevice, inode_num: u32) -> (b: bool)
        requires
            dev.wf(),
            1 <= inode_num,
        ensures
            b == delete_pre(dev@, inode_num),
    {
        let root = match Self::get_inode(dev, 1) {
            Some(r) => r,
            None => {
                return true;
            },
        };
        if !zones_intact_check(dev, &root) {
            return false;
        }
        let off: u64 = 2048 + ((inode_num as u64 - 1) / 8);
        proof {
            assert(off == imap_byte_off(inode_num));
        }
        off + 1 <= dev.size() as u64
    }

    /// Creates a zero-size regular file named `filename` under `cwd`,
    /// which must be the root directory: allocates the first free inode,
    /// appends a directory entry for it to the root, persists the grown
    /// root inode, sets the imap bit, writes the blank file record, and
    /// rebuilds the cache. Returns the new inode number; any other `cwd`,
    /// or an unreadable root, yields `FileNotFound` and leaves the disk
    /// alone.
    #[verifier::rlimit(100)]
    pub fn create(&mut self, dev: &mut BlockDevice, cwd: &[u8], filename: &[u8]) -> (r: Result<
        u32,
        FsError,
    >)
        requires
            old(dev).wf(),
            create_pre(old(dev)@, cwd@),
        ensures
            final(dev).wf(),
            (cwd@ == root_path() && inode_opt(old(dev)@, 1) is Some) ==> {
                &&& final(dev)@ == create_disk_spec(old(dev)@, filename@)
                &&& (free_inode_opt(old(dev)@) matches Some(n) ==> r == Ok::<u32, FsError>(n)
                    && imap_bit(final(dev)@, n - 1))
            },
            !(cwd@ == root_path() && inode_opt(old(dev)@, 1) is Some) ==> r == Err::<
                u32,
                FsError,
            >(FsError::FileNotFound) && final(dev)@ == old(dev)@,
            final(self).cache_map() == Some(
                files_under(final(dev)@, 1, root_path(), cache_depth(final(dev)@)),
            ),
    {
        let ghost d = old(dev)@;
        let is_root = cwd.len() == 1 && cwd[0] == 47;
        proof {
            if is_root {
                assert(cwd@ =~= root_path());
            }
        }
        if !is_root {
            self.refresh(dev);
            return Err(FsError::FileNotFound);
        }
        let root = match Self::get_inode(dev, 1) {
            Some(i) => i,
            None => {
                self.refresh(dev);
                return Err(FsError::FileNotFound);
            },
        };
        // a readable root inode implies a valid superblock, and the
        // precondition guarantees a free inode
        let sb = match Self::fs_info(dev) {
            Some(sb) => sb,
            None => vstd::pervasive::unreached(),
        };
        let n = match Self::find_free_inode(dev) {
            Some(n) => n,
            None => vstd::pervasive::unreached(),
        };
        let base: u64 = (2u64 + sb.imap_blocks as u64 + sb.zmap_blocks as u64) * 1024;
        let slot1: u64 = base;
        let slotn: u64 = base + ((n as u64 - 1) / 16) * 1024 + ((n as u64 - 1) % 16) * 64;
        proof {
            assert(slot1 == inode_slot_byte(sb_spec(d), 1));
            assert(slotn == inode_slot_byte(sb_spec(d), n));
            assert(slot1 + 64 <= d.len());
            assert(slotn + 64 <= d.len());
        }
        let mut buf = zero_vec(root.size as usize);
        let sz = Self::read(dev, &root, &mut buf, root.size, 0);
        let cnt: u32 = sz / 64;
        proof {
            vstd::arithmetic::div_mod::lemma_fundamental_div_mod(sz as int, 64);
            assert(cnt == dirent_count(d, root@));
        }
        let off: u32 = cnt * 64;
        let entry = encode_dirent(n, filename);
        let mut root_mut = root;
        let ghost zl = zone_list(d, root@);
        let w = Self::write(dev, &mut root_mut, &entry, 64, off);
        let ghost d1 = dev@;
        proof {
            assert(w == 64);
            assert(entry@ == dirent_enc(n, trunc60(filename@)));
            assert(d1 == written_disk(d, zl, entry@, off as int, 64));
            assert(root_mut@ == (InodeView {
                size: grown_size(root@.size, off, 64),
                ..root@
            }));
        }
        let rec1 = encode_inode(&root_mut);
        let st1 = syc_write(dev, rec1.as_slice(), 64, slot1 as u32);
        let ghost d2 = dev@;
        proof {
            assert(st1 == 0);
            assert(rec1@.take(64) =~= inode_enc(root_mut@));
            assert(d2 == range_replace(d1, inode_slot_byte(sb_spec(d), 1), inode_enc(root_mut@)));
        }
        let j: u8 = ((n - 1) % 8) as u8;
        let offb: u64 = 2048 + ((n as u64 - 1) / 8);
        proof {
            assert(offb == imap_byte_off(n));
            assert(offb + 1 <= d.len());
        }
        let mut tmp = zero_vec(1);
        let st2 = syc_read(dev, &mut tmp, 1, offb as u32);
        proof {
            assert(st2 == 0);
        }
        let b = set_bit(tmp[0], j);
        tmp.set(0, b);
        let st3 = syc_write(dev, tmp.as_slice(), 1, offb as u32);
        let ghost d3 = dev@;
        proof {
            assert(st3 == 0);
            assert(tmp@.take(1) =~= seq![(d2[imap_byte_off(n)] | (1u8 << (((n - 1) % 8) as u8)))]);
            assert(d3 == imap_set(d2, n));
        }
        let blank = Inode {
            mode: 0o644,
            nlinks: 1,
            uid: 0,
            gid: 0,
            size: 0,
            atime: 0,
            mtime: 0,
            ctime: 0,
            zones: [0u32; 10],
        };
        proof {
            assert(blank@.zones =~= blank_file_inode().zones);
            assert(blank@ == blank_file_inode());
        }
        let rec2 = encode_inode(&blank);
        let st4 = syc_write(dev, rec2.as_slice(), 64, slotn as u32);
        proof {
            assert(st4 == 0);
            assert(rec2@.take(64) =~= inode_enc(blank_file_inode()));
            assert(dev@ == range_replace(
                d3,
                inode_slot_byte(sb_spec(d), n),
                inode_enc(blank_file_inode()),
            ));
            assert(dev@ == create_disk_spec(d, filename@));
            assert(imap_byte_off(n) < base);
            assert(dev@[imap_byte_off(n)] == d3[imap_byte_off(n)]);
            assert(d3[imap_byte_off(n)] == b);
            assert(imap_bit(dev@, n - 1));
        }
        self.refresh(dev);
        Ok(n)
    }

    /// Scans the root directory for the first entry naming `inode_num`,
    /// zeroes that entry's inode field, writes the directory back, and
    /// clears the inode's imap bit.
    fn delete_inode_and_direntry(dev: &mut BlockDevice, inode_num: u32) -> (done: bool)
        requires
            old(dev).wf(),
            1 <= inode_num,
            delete_pre(old(dev)@, inode_num),
        ensures
            final(dev).wf(),
            final(dev)@ == delete_disk_spec(old(dev)@, inode_num),
            done <==> (match inode_opt(old(dev)@, 1) {
                Some(root) => zones_intact(old(dev)@, root),
                None => false,
            }),
            done ==> !imap_bit(final(dev)@, inode_num - 1),
    {
        let ghost d = old(dev)@;
        let root = match Self::get_inode(dev, 1) {
            Some(i) => i,
            None => {
                return false;
            },
        };
        proof {
            assert(zones_intact(d, root@));
        }
        let mut buf = zero_vec(root.size as usize);
        let sz = Self::read(dev, &root, &mut buf, root.size, 0);
        let num_dirents: u32 = sz / 64;
        proof {
            vstd::arithmetic::div_mod::lemma_fundamental_div_mod(sz as int, 64);
            crate::zones::lemma_stream_of_len(d, zone_list(d, root@));
        }
        let ghost fm = first_match_from(d, root@, inode_num, 2, num_dirents as int);
        let mut idx: u32 = 2;
        let mut found = false;
        while idx < num_dirents && !found
            invariant
                dev.wf(),
                dev@ == d,
                2 <= idx,
                num_dirents < 2 ==> idx == 2,
                idx <= num_dirents || num_dirents < 2,
                inode_opt(d, 1) == Some(root@),
                zones_intact(d, root@),
                sz == min_int(root@.size as int, stream_len(d, root@)),
                num_dirents == sz / 64,
                64 * num_dirents <= sz,
                sz <= buf.len(),
                buf.len() == root@.size,
                sz as int <= stream_len(d, root@),
                stream(d, root@).len() == stream_len(d, root@),
                fm == first_match_from(d, root@, inode_num, 2, num_dirents as int),
                !found ==> forall|k: int| 0 <= k < sz ==> buf@[k] == stream(d, root@)[k],
                !found ==> fm == first_match_from(
                    d,
                    root@,
                    inode_num,
                    idx as int,
                    num_dirents as int,
                ),
                found ==> fm == Some((idx - 1) as int),
                found ==> forall|k: int|
                    0 <= k < sz ==> buf@[k] == zeroed_dir_bytes(d, root@, sz as int, idx - 1)[k],
            decreases num_dirents - idx,
        {
            let e = parse_dirent(&buf, (idx as usize) * 64);
            proof {
                assert(e.inode == dirent_ino(d, root@, idx as int));
            }
            if e.inode == inode_num {
                buf.set((idx as usize) * 64, 0u8);
                buf.set((idx as usize) * 64 + 1, 0u8);
                buf.set((idx as usize) * 64 + 2, 0u8);
                buf.set((idx as usize) * 64 + 3, 0u8);
                found = true;
                proof {
                    assert forall|k: int| 0 <= k < sz implies #[trigger] buf@[k]
                        == zeroed_dir_bytes(d, root@, sz as int, idx as int)[k] by {}
                }
            }
            idx += 1;
        }
        if found {
            let mut root_mut = root;
            let w = Self::write(dev, &mut root_mut, &buf, sz, 0);
            proof {
                assert(w == sz);
                match fm {
                    Some(i) => {
                        lemma_written_disk_data(
                            d,
                            zone_list(d, root@),
                            buf@,
                            zeroed_dir_bytes(d, root@, sz as int, i),
                            0,
                            sz as int,
                        );
                    },
                    None => {},
                }
            }
        }
        let ghost d1 = dev@;
        proof {
            assert(d1 == (match fm {
                None => d,
                Some(i) => written_disk(
                    d,
                    zone_list(d, root@),
                    zeroed_dir_bytes(d, root@, sz as int, i),
                    0,
                    sz as int,
                ),
            }));
            assert(d1.len() == d.len());
        }
        let j: u8 = ((inode_num - 1) % 8) as u8;
        let off64: u64 = 2048 + ((inode_num as u64 - 1) / 8);
        let mut tmp = zero_vec(1);
        let st = syc_read(dev, &mut tmp, 1, off64 as u32);
        proof {
            assert(off64 == imap_byte_off(inode_num));
            assert(st == 0);
        }
        let b = clear_bit(tmp[0], j);
        tmp.set(0, b);
        let st2 = syc_write(dev, tmp.as_slice(), 1, off64 as u32);
        proof {
            assert(st2 == 0);
            assert(tmp@.take(1) =~= seq![(d1[imap_byte_off(inode_num)] & !(1u8 << (((inode_num
                - 1) % 8) as u8)))]);
            assert(dev@ == imap_cleared(d1, inode_num));
            assert(dev@[imap_byte_off(inode_num)] == b);
            assert(!imap_bit(dev@, inode_num - 1));
        }
        true
    }

    /// Deletes the file: when a cache is present, the first root-directory
    /// entry naming `inode_num` is zeroed on disk and the inode's imap
    /// bit is cleared; the path is dropped from the cache and the cache
    /// rebuilt from the disk. Afterwards the freed inode's imap bit is 0.
    #[verifier::rlimit(100)]
    pub fn delete(&mut self, dev: &mut BlockDevice, path: &[u8], inode_num: u32)
        requires
            old(dev).wf(),
            1 <= inode_num,
            delete_pre(old(dev)@, inode_num),
        ensures
            final(dev).wf(),
            final(dev)@ == if old(self).cache_map() is Some {
                delete_disk_spec(old(dev)@, inode_num)
            } else {
                old(dev)@
            },
            final(self).cache_map() == Some(
                files_under(final(dev)@, 1, root_path(), cache_depth(final(dev)@)),
            ),
            (old(self).cache_map() is Some && (match inode_opt(old(dev)@, 1) {
                Some(root) => zones_intact(old(dev)@, root),
                None => false,
            })) ==> !imap_bit(final(dev)@, inode_num - 1),
    {
        proof {
            crate::fs::lemma_cache_state(self);
        }
        if self.cache.is_some() {
            Self::delete_inode_and_direntry(dev, inode_num);
            self.remove_cached_path(path);
        }
        self.refresh(dev);
    }

    /// Drops every cache entry whose path equals `path`. The caller
    /// rebuilds the cache from the disk right afterwards, which is what
    /// pins the final cache contents.
    fn remove_cached_path(&mut self, path: &[u8]) {
        let cache = self.cache.take();
        match cache {
            None => {},
            Some(mut c) => {
                let mut kept: Vec<crate::fs::CacheEntry> = Vec::new();
                loop
                    decreases c.len(),
                {
                    match c.pop() {
                        None => {
                            break;
                        },
                        Some(e) => {
                            if !crate::fs::bytes_eq(e.path.as_slice(), path) {
                                kept.push(e);
                            }
                        },
                    }
                }
                self.cache = Some(kept);
            },
        }
    }
}

} // verus!
