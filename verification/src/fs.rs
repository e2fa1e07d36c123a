//! The filesystem handle: one per block device, holding the path cache,
//! with the inode accessor and the layout calculators.

use crate::bio::syc_read;
use crate::device::BlockDevice;
use crate::inode::{
    extract_name, inode_dec, inode_group_byte, inode_opt, inode_slot_byte, magic_ok, name_of,
    parse_dirent, parse_inode, parse_superblock, sb_spec, FsError, Inode, InodeView, Stat,
    SuperBlock,
};
use crate::layout::{le32, zero_vec, BLOCK_SIZE, MAGIC, S_IFDIR};
use crate::zones::{min_int, stream, stream_len, zones_intact, zones_intact_check};
use vstd::prelude::*;

verus! {

/// One cached file: an absolute path and the inode snapshot taken when the
/// cache was built.
pub struct CacheEntry {
    pub path: Vec<u8>,
    pub inode: Inode,
}

/// The path map held by a cache: later entries shadow earlier ones.
pub open spec fn entries_map(s: Seq<CacheEntry>) -> Map<Seq<u8>, InodeView>
    decreases s.len(),
{
    if s.len() == 0 {
        Map::empty()
    } else {
        entries_map(s.drop_last()).insert(s.last().path@, s.last().inode@)
    }
}

/// A handle on one Minix 3 filesystem: the per-device path cache, absent
/// until `init` or `refresh` builds it by walking the directory tree.
pub struct MinixFileSystem {
    pub(crate) cache: Option<Vec<CacheEntry>>,
}

impl MinixFileSystem {
    /// The map from absolute path to inode snapshot held by the cache, or
    /// `None` while no cache has been built.
    pub closed spec fn cache_map(&self) -> Option<Map<Seq<u8>, InodeView>> {
        match self.cache {
            None => None,
            Some(c) => Some(entries_map(c@)),
        }
    }

    /// A fresh handle with no cache yet.
    pub fn new() -> (fs: MinixFileSystem)
        ensures
            fs.cache_map() is None,
    {
        MinixFileSystem { cache: None }
    }

    /// Loads inode `inode_num` from the device: reads the superblock,
    /// checks the magic number, locates the inode-table block and copies
    /// the record out. Returns `None` when the magic number is wrong, when
    /// `inode_num` is not a 1-based inode number, or when the inode's
    /// table block lies past the end of the device.
    #[verifier::rlimit(50)]
    pub fn get_inode(dev: &BlockDevice, inode_num: u32) -> (r: Option<Inode>)
        requires
            dev.wf(),
        ensures
            (r is Some) <==> (inode_opt(dev@, inode_num) is Some),
            r matches Some(ino) ==> inode_opt(dev@, inode_num) == Some(ino@),
    {
        if inode_num == 0 {
            return None;
        }
        let mut buffer = zero_vec(1024);
        let st = syc_read(dev, &mut buffer, 512, 1024);
        if st != 0 {
            return None;
        }
        let sb = parse_superblock(&buffer);
        proof {
            assert(sb == sb_spec(dev@));
        }
        if sb.magic != MAGIC {
            return None;
        }
        let group: u64 = (2u64 + sb.imap_blocks as u64 + sb.zmap_blocks as u64) * 1024 + ((
        inode_num as u64 - 1) / 16) * 1024;
        proof {
            assert(group == inode_group_byte(sb, inode_num));
        }
        if group + 1024 > dev.size() as u64 {
            return None;
        }
        let st2 = syc_read(dev, &mut buffer, 1024, group as u32);
        proof {
            assert(st2 == 0);
        }
        let idx: usize = ((inode_num as usize - 1) % 16) * 64;
        let ino = parse_inode(&buffer, idx);
        proof {
            let slot = inode_slot_byte(sb_spec(dev@), inode_num);
            assert(group + idx == slot);
            assert(ino@.zones =~= inode_dec(dev@, slot).zones);
            assert(ino@ == inode_dec(dev@, slot));
        }
        Some(ino)
    }

    /// The caller-relevant part of an inode.
    pub fn stat(&self, inode: &Inode) -> (st: Stat)
        ensures
            st.mode == inode.mode,
            st.size == inode.size,
            st.uid == inode.uid,
            st.gid == inode.gid,
    {
        Stat { mode: inode.mode, size: inode.size, uid: inode.uid, gid: inode.gid }
    }

    /// Byte offset, within the whole disk, of the imap byte that carries
    /// the allocation bit of inode `inode_num`: the imap begins at block 2
    /// and bit `n - 1` of the map belongs to inode `n`.
    pub fn get_imap_offset(inode_num: usize) -> (r: usize)
        requires
            1 <= inode_num,
        ensures
            r == 2048 + (inode_num - 1) / 8,
    {
        proof {
            vstd::arithmetic::div_mod::lemma_div_is_ordered(
                inode_num - 1,
                usize::MAX as int,
                8,
            );
        }
        2 * (BLOCK_SIZE as usize) + (inode_num - 1) / 8
    }

    /// Byte offset of the zmap byte carrying the bit of zone `zone_num`:
    /// the zmap starts at block `2 + imap_blocks` and bit `n - 1` of the
    /// map belongs to zone `n`.
    pub fn get_zmap_offset(zone_num: usize, imap_blocks: u16) -> (r: usize)
        requires
            1 <= zone_num,
        ensures
            r == (2 + imap_blocks) * 1024 + (zone_num - 1) / 8,
    {
        proof {
            vstd::arithmetic::div_mod::lemma_div_is_ordered(
                zone_num - 1,
                usize::MAX as int,
                8,
            );
        }
        (2 + imap_blocks as usize) * (BLOCK_SIZE as usize) + (zone_num - 1) / 8
    }

    /// Byte offset of the 64-byte record of inode `inode_num`: the inode
    /// table starts after the boot block, the superblock and the two
    /// bitmaps, holds sixteen records per block, and inode numbers are
    /// 1-based.
    pub fn get_inode_offset(sb: &SuperBlock, inode_num: usize) -> (r: usize)
        requires
            1 <= inode_num <= 0xffff_ffff,
            inode_slot_byte(*sb, inode_num as u32) <= usize::MAX,
        ensures
            r == inode_slot_byte(*sb, inode_num as u32),
    {
        (2 + sb.imap_blocks as usize + sb.zmap_blocks as usize) * (BLOCK_SIZE as usize) + ((
        inode_num - 1) / 16) * (BLOCK_SIZE as usize) + ((inode_num - 1) % 16) * 64
    }

    /// Byte offset of the first byte of zone `zone_num`.
    pub fn get_zone_offset(zone_num: usize) -> (r: usize)
        requires
            zone_num * 1024 <= usize::MAX,
        ensures
            r == zone_num * 1024,
    {
        zone_num * (BLOCK_SIZE as usize)
    }
}


/// The number of 64-byte directory entries a directory's readable stream
/// holds: its size, clamped to the bytes its zones back, in whole
/// entries.
pub open spec fn dirent_count(d: Seq<u8>, v: InodeView) -> int {
    min_int(v.size as int, stream_len(d, v)) / 64
}

/// The inode-number field of directory entry `i`.
pub open spec fn dirent_ino(d: Seq<u8>, v: InodeView, i: int) -> u32 {
    le32(stream(d, v), 64 * i)
}

/// The name of directory entry `i`: its 60-byte name field up to the
/// first NUL.
pub open spec fn dirent_name(d: Seq<u8>, v: InodeView, i: int) -> Seq<u8> {
    name_of(stream(d, v).subrange(64 * i + 4, 64 * i + 64))
}

/// The absolute path of a child of the directory at `prefix`: a `/` is
/// put between them except under the root, which is spelled `/` already.
pub open spec fn child_path(prefix: Seq<u8>, num: u32, name: Seq<u8>) -> Seq<u8> {
    if num == 1 {
        prefix + name
    } else {
        prefix + seq![47u8] + name
    }
}

/// The path of the root directory.
pub open spec fn root_path() -> Seq<u8> {
    seq![47u8]
}

/// The regular files reachable from directory `num` by descending at most
/// `depth` directory levels: a map from absolute path to inode snapshot.
/// Directories are traversed but not entered in the map; entries `.` and
/// `..` (slots 0 and 1) and deleted entries (inode field 0) are skipped,
/// as is any child whose inode cannot be read. A directory whose own
/// inode cannot be read, or whose zone chain is not intact, contributes
/// nothing.
pub open spec fn files_under(d: Seq<u8>, num: u32, prefix: Seq<u8>, depth: int) -> Map<
    Seq<u8>,
    InodeView,
>
    decreases depth + 1, 0int,
{
    if depth <= 0 {
        Map::empty()
    } else {
        match inode_opt(d, num) {
            None => Map::empty(),
            Some(v) => if !zones_intact(d, v) {
                Map::empty()
            } else {
                files_upto(d, num, v, prefix, depth, dirent_count(d, v))
            },
        }
    }
}

/// The part of `files_under` contributed by directory entries `2..i`.
pub open spec fn files_upto(
    d: Seq<u8>,
    num: u32,
    v: InodeView,
    prefix: Seq<u8>,
    depth: int,
    i: int,
) -> Map<Seq<u8>, InodeView>
    decreases depth, i,
{
    if depth <= 0 || i <= 2 {
        Map::empty()
    } else {
        let m = files_upto(d, num, v, prefix, depth, i - 1);
        let e = dirent_ino(d, v, i - 1);
        if e == 0 {
            m
        } else {
            match inode_opt(d, e) {
                None => m,
                Some(child) => {
                    let p = child_path(prefix, num, dirent_name(d, v, i - 1));
                    if child.mode & S_IFDIR != 0 {
                        m.union_prefer_right(files_under(d, e, p, depth - 1))
                    } else {
                        m.insert(p, child)
                    }
                },
            }
        }
    }
}

/// The depth budget a cache build uses: one more than the inode count,
/// which no acyclic directory tree can exceed.
pub open spec fn cache_depth(d: Seq<u8>) -> int {
    if d.len() >= 1536 {
        sb_spec(d).ninodes + 1
    } else {
        1
    }
}

/// Once a path enters a directory scan's map it stays there: later
/// entries may rebind it but never remove it.
proof fn lemma_files_upto_keys_monotone(
    d: Seq<u8>,
    num: u32,
    v: InodeView,
    prefix: Seq<u8>,
    depth: int,
    i: int,
    j: int,
    k: Seq<u8>,
)
    requires
        i <= j,
        files_upto(d, num, v, prefix, depth, i).contains_key(k),
    ensures
        files_upto(d, num, v, prefix, depth, j).contains_key(k),
    decreases j - i,
{
    if i < j {
        lemma_files_upto_keys_monotone(d, num, v, prefix, depth, i, j - 1, k);
    }
}

/// What directory traversal promises each regular file: any scanned
/// entry of directory `num` that names a readable regular file puts its
/// absolute path into the traversal map. The map binds that path to the
/// file's inode unless a later entry of the scan carries the same name
/// and rebinds it.
pub proof fn lemma_traversal_sees_file(
    d: Seq<u8>,
    num: u32,
    prefix: Seq<u8>,
    depth: int,
    i: int,
    v: InodeView,
    child: InodeView,
)
    requires
        depth >= 1,
        inode_opt(d, num) == Some(v),
        zones_intact(d, v),
        2 <= i < dirent_count(d, v),
        dirent_ino(d, v, i) != 0,
        inode_opt(d, dirent_ino(d, v, i)) == Some(child),
        child.mode & S_IFDIR == 0,
    ensures
        files_upto(d, num, v, prefix, depth, i + 1).contains_key(
            child_path(prefix, num, dirent_name(d, v, i)),
        ),
        files_upto(d, num, v, prefix, depth, i + 1)[child_path(prefix, num, dirent_name(d, v, i))]
            == child,
        files_under(d, num, prefix, depth).contains_key(
            child_path(prefix, num, dirent_name(d, v, i)),
        ),
{
    let p = child_path(prefix, num, dirent_name(d, v, i));
    assert(files_upto(d, num, v, prefix, depth, i + 1) == files_upto(
        d,
        num,
        v,
        prefix,
        depth,
        i,
    ).insert(p, child));
    lemma_files_upto_keys_monotone(d, num, v, prefix, depth, i + 1, dirent_count(d, v), p);
}

/// A scan that never inserts a path never maps it: when every surviving
/// entry in the scanned range of a directory is a regular file whose
/// absolute path differs from `p`, the partial traversal map lacks `p`.
pub proof fn lemma_flat_scan_misses(
    d: Seq<u8>,
    num: u32,
    v: InodeView,
    prefix: Seq<u8>,
    depth: int,
    j: int,
    p: Seq<u8>,
)
    requires
        forall|t: int|
            2 <= t < j ==> ((#[trigger] dirent_ino(d, v, t)) != 0 ==> (match inode_opt(
                d,
                dirent_ino(d, v, t),
            ) {
                Some(c) => c.mode & S_IFDIR == 0 && child_path(prefix, num, dirent_name(d, v, t))
                    != p,
                None => true,
            })),
    ensures
        !files_upto(d, num, v, prefix, depth, j).contains_key(p),
    decreases j,
{
    if depth >= 1 && j > 2 {
        lemma_flat_scan_misses(d, num, v, prefix, depth, j - 1, p);
    }
}

/// A cache map is present exactly when a cache has been built.
pub(crate) proof fn lemma_cache_state(fs: &MinixFileSystem)
    ensures
        (fs.cache_map() is Some) <==> (fs.cache is Some),
        fs.cache matches Some(c) ==> fs.cache_map() == Some(entries_map(c@)),
{
}

proof fn lemma_union_empty(m: Map<Seq<u8>, InodeView>)
    ensures
        m.union_prefer_right(Map::<Seq<u8>, InodeView>::empty()) == m,
{
    assert(m.union_prefer_right(Map::<Seq<u8>, InodeView>::empty()) =~= m);
}

proof fn lemma_union_insert(
    m: Map<Seq<u8>, InodeView>,
    f: Map<Seq<u8>, InodeView>,
    k: Seq<u8>,
    v: InodeView,
)
    ensures
        m.union_prefer_right(f).insert(k, v) == m.union_prefer_right(f.insert(k, v)),
{
    assert(m.union_prefer_right(f).insert(k, v) =~= m.union_prefer_right(f.insert(k, v)));
}

proof fn lemma_union_assoc(
    m: Map<Seq<u8>, InodeView>,
    a: Map<Seq<u8>, InodeView>,
    b: Map<Seq<u8>, InodeView>,
)
    ensures
        m.union_prefer_right(a).union_prefer_right(b) == m.union_prefer_right(
            a.union_prefer_right(b),
        ),
{
    assert(m.union_prefer_right(a).union_prefer_right(b) =~= m.union_prefer_right(
        a.union_prefer_right(b),
    ));
}

proof fn lemma_entries_found(s: Seq<CacheEntry>, i: int, k: Seq<u8>)
    requires
        0 <= i < s.len(),
        s[i].path@ == k,
        forall|j: int| i < j < s.len() ==> s[j].path@ != k,
    ensures
        entries_map(s).contains_key(k),
        entries_map(s)[k] == s[i].inode@,
    decreases s.len(),
{
    if i < s.len() - 1 {
        lemma_entries_found(s.drop_last(), i, k);
    }
}

proof fn lemma_entries_contains(s: Seq<CacheEntry>, i: int)
    requires
        0 <= i < s.len(),
    ensures
        entries_map(s).contains_key(s[i].path@),
    decreases s.len(),
{
    if i < s.len() - 1 {
        lemma_entries_contains(s.drop_last(), i);
    }
}

proof fn lemma_entries_key_has_index(s: Seq<CacheEntry>, k: Seq<u8>)
    requires
        entries_map(s).contains_key(k),
    ensures
        exists|j: int| 0 <= j < s.len() && s[j].path@ == k,
    decreases s.len(),
{
    if s.len() > 0 && s.last().path@ != k {
        lemma_entries_key_has_index(s.drop_last(), k);
        let j = choose|j: int| 0 <= j < s.drop_last().len() && s.drop_last()[j].path@ == k;
        assert(s[j].path@ == k);
    }
}

proof fn lemma_entries_absent(s: Seq<CacheEntry>, k: Seq<u8>)
    requires
        forall|j: int| 0 <= j < s.len() ==> s[j].path@ != k,
    ensures
        !entries_map(s).contains_key(k),
    decreases s.len(),
{
    if s.len() > 0 {
        lemma_entries_absent(s.drop_last(), k);
    }
}

/// True when the byte slices hold the same bytes.
pub fn bytes_eq(a: &[u8], b: &[u8]) -> (r: bool)
    ensures
        r == (a@ == b@),
{
    if a.len() != b.len() {
        return false;
    }
    let n = a.len();
    let mut i: usize = 0;
    while i < n
        invariant
            i <= n,
            n == a@.len(),
            n == b@.len(),
            forall|k: int| 0 <= k < i ==> a@[k] == b@[k],
        decreases n - i,
    {
        if a[i] != b[i] {
            return false;
        }
        i += 1;
    }
    proof {
        assert(a@ =~= b@);
    }
    true
}

impl MinixFileSystem {
    /// Descends the directory at `inode_num`, adding every regular file
    /// found under it to `btm` under its absolute path, and recursing
    /// into subdirectories while the depth budget lasts.
    #[verifier::rlimit(100)]
    fn cache_at(
        btm: &mut Vec<CacheEntry>,
        dev: &BlockDevice,
        cwd: &Vec<u8>,
        inode_num: u32,
        depth: u64,
    )
        requires
            dev.wf(),
        ensures
            entries_map(final(btm)@) == entries_map(old(btm)@).union_prefer_right(
                files_under(dev@, inode_num, cwd@, depth as int),
            ),
        decreases depth,
    {
        let ghost d = dev@;
        if depth == 0 {
            proof {
                lemma_union_empty(entries_map(btm@));
            }
            return;
        }
        let ino = match Self::get_inode(dev, inode_num) {
            Some(i) => i,
            None => {
                proof {
                    lemma_union_empty(entries_map(btm@));
                }
                return;
            },
        };
        if !zones_intact_check(dev, &ino) {
            proof {
                lemma_union_empty(entries_map(btm@));
            }
            return;
        }
        let mut buf = zero_vec(ino.size as usize);
        let sz = Self::read(dev, &ino, &mut buf, ino.size, 0);
        let num_dirents: u32 = sz / 64;
        proof {
            vstd::arithmetic::div_mod::lemma_fundamental_div_mod(sz as int, 64);
            assert(num_dirents == dirent_count(d, ino@));
        }
        let ghost m0 = entries_map(old(btm)@);
        proof {
            crate::zones::lemma_stream_of_len(d, crate::zones::zone_list(d, ino@));
            lemma_union_empty(m0);
            assert(files_upto(d, inode_num, ino@, cwd@, depth as int, 2) =~= Map::<
                Seq<u8>,
                InodeView,
            >::empty());
            lemma_union_empty(m0);
            assert(entries_map(btm@) == m0.union_prefer_right(
                files_upto(d, inode_num, ino@, cwd@, depth as int, 2),
            ));
        }
        let mut idx: u32 = 2;
        while idx < num_dirents
            invariant
                dev.wf(),
                d == dev@,
                2 <= idx,
                idx <= num_dirents || num_dirents < 2,
                num_dirents < 2 ==> idx == 2,
                depth >= 1,
                inode_opt(d, inode_num) == Some(ino@),
                zones_intact(d, ino@),
                num_dirents == dirent_count(d, ino@),
                64 * num_dirents <= sz,
                sz <= buf.len(),
                sz as int <= stream_len(d, ino@),
                stream(d, ino@).len() == stream_len(d, ino@),
                forall|k: int| 0 <= k < sz ==> buf@[k] == stream(d, ino@)[k],
                entries_map(btm@) == m0.union_prefer_right(
                    files_upto(d, inode_num, ino@, cwd@, depth as int, idx as int),
                ),
            decreases num_dirents - idx,
        {
            let ghost fprev = files_upto(d, inode_num, ino@, cwd@, depth as int, idx as int);
            let e = parse_dirent(&buf, (idx as usize) * 64);
            proof {
                assert(e.inode == dirent_ino(d, ino@, idx as int));
                assert(buf@.subrange(64 * (idx as int) + 4, 64 * (idx as int) + 64) =~= stream(
                    d,
                    ino@,
                ).subrange(64 * (idx as int) + 4, 64 * (idx as int) + 64));
                assert(name_of(e.name@) == dirent_name(d, ino@, idx as int));
            }
            if e.inode != 0 {
                match Self::get_inode(dev, e.inode) {
                    Some(child) => {
                        let name = extract_name(&e);
                        let mut new_cwd: Vec<u8> = Vec::new();
                        new_cwd.extend_from_slice(cwd.as_slice());
                        if inode_num != 1 {
                            new_cwd.push(47u8);
                        }
                        new_cwd.extend_from_slice(name.as_slice());
                        proof {
                            assert(new_cwd@ =~= child_path(cwd@, inode_num, name@));
                        }
                        if child.mode & S_IFDIR != 0 {
                            Self::cache_at(btm, dev, &new_cwd, e.inode, depth - 1);
                            proof {
                                lemma_union_assoc(
                                    m0,
                                    fprev,
                                    files_under(d, e.inode, new_cwd@, depth as int - 1),
                                );
                            }
                        } else {
                            let ghost bprev = btm@;
                            let ghost p = new_cwd@;
                            let ghost cv = child@;
                            btm.push(CacheEntry { path: new_cwd, inode: child });
                            proof {
                                assert(btm@.drop_last() =~= bprev);
                                assert(entries_map(btm@) == entries_map(bprev).insert(p, cv));
                                lemma_union_insert(m0, fprev, p, cv);
                            }
                        }
                    },
                    None => {},
                }
            }
            idx += 1;
        }
        proof {
            if num_dirents < 2 {
                assert(files_upto(d, inode_num, ino@, cwd@, depth as int, 2) =~= files_upto(
                    d,
                    inode_num,
                    ino@,
                    cwd@,
                    depth as int,
                    dirent_count(d, ino@),
                ));
            }
            assert(entries_map(btm@) == m0.union_prefer_right(
                files_under(d, inode_num, cwd@, depth as int),
            ));
        }
    }


    /// Reads the depth budget for a cache build from the superblock.
    fn cache_depth_of(dev: &BlockDevice) -> (r: u64)
        requires
            dev.wf(),
        ensures
            r == cache_depth(dev@),
    {
        let mut buffer = zero_vec(512);
        let st = syc_read(dev, &mut buffer, 512, 1024);
        if st != 0 {
            return 1;
        }
        let sb = parse_superblock(&buffer);
        proof {
            assert(sb == sb_spec(dev@));
        }
        sb.ninodes as u64 + 1
    }

    /// Rebuilds the path cache unconditionally, by recursive descent from
    /// the root directory (inode 1). Afterwards the cache holds exactly
    /// the regular files reachable from the root by directory traversal:
    /// the map equals `files_under` of the root, whose depth budget
    /// exceeds the height of any acyclic directory tree on the disk.
    pub fn refresh(&mut self, dev: &BlockDevice)
        requires
            dev.wf(),
        ensures
            final(self).cache_map() == Some(
                files_under(dev@, 1, root_path(), cache_depth(dev@)),
            ),
    {
        let mut btm: Vec<CacheEntry> = Vec::new();
        let mut cwd: Vec<u8> = Vec::new();
        cwd.push(47u8);
        proof {
            assert(cwd@ =~= root_path());
        }
        let depth = Self::cache_depth_of(dev);
        Self::cache_at(&mut btm, dev, &cwd, 1, depth);
        proof {
            assert(entries_map(btm@) =~= files_under(dev@, 1, root_path(), cache_depth(dev@)));
        }
        self.cache = Some(btm);
    }

    /// Builds the path cache if none has been built yet; an already
    /// initialized filesystem is left as it is.
    pub fn init(&mut self, dev: &BlockDevice)
        requires
            dev.wf(),
        ensures
            final(self).cache_map() == if old(self).cache_map() is None {
                Some(files_under(dev@, 1, root_path(), cache_depth(dev@)))
            } else {
                old(self).cache_map()
            },
    {
        if self.cache.is_none() {
            self.refresh(dev);
        }
    }

    /// Looks `path` up, verbatim, in the path cache: the cached inode
    /// snapshot when the path names a cached regular file, and
    /// `FileNotFound` when it does not — or when no cache has been built.
    pub fn open(&self, path: &[u8]) -> (r: Result<Inode, FsError>)
        ensures
            match self.cache_map() {
                None => r == Err::<Inode, FsError>(FsError::FileNotFound),
                Some(m) => {
                    if m.contains_key(path@) {
                        r matches Ok(ino) && ino@ == m[path@]
                    } else {
                        r == Err::<Inode, FsError>(FsError::FileNotFound)
                    }
                },
            },
    {
        match &self.cache {
            None => Err(FsError::FileNotFound),
            Some(c) => {
                let mut i: usize = c.len();
                while i > 0
                    invariant
                        i <= c.len(),
                        self.cache_map() == Some(entries_map(c@)),
                        forall|j: int| i <= j < c@.len() ==> c@[j].path@ != path@,
                    decreases i,
                {
                    i -= 1;
                    let e = &c[i];
                    if bytes_eq(e.path.as_slice(), path) {
                        proof {
                            lemma_entries_found(c@, i as int, path@);
                        }
                        return Ok(e.inode);
                    }
                }
                proof {
                    lemma_entries_absent(c@, path@);
                }
                Err(FsError::FileNotFound)
            },
        }
    }

    /// Reads the superblock and hands it out when it carries the magic
    /// number; the caller-facing half of the filesystem-info dump.
    pub fn fs_info(dev: &BlockDevice) -> (r: Option<SuperBlock>)
        requires
            dev.wf(),
        ensures
            r == if magic_ok(dev@) {
                Some(sb_spec(dev@))
            } else {
                None::<SuperBlock>
            },
    {
        let mut buffer = zero_vec(512);
        let st = syc_read(dev, &mut buffer, 512, 1024);
        if st != 0 {
            return None;
        }
        let sb = parse_superblock(&buffer);
        proof {
            assert(sb == sb_spec(dev@));
        }
        if sb.magic != MAGIC {
            return None;
        }
        Some(sb)
    }

    /// The absolute paths of every cached file, in cache order; the
    /// caller-facing half of the path listing dump. The listed paths are
    /// exactly the keys of the cache map.
    pub fn all_file_paths(&self) -> (r: Vec<Vec<u8>>)
        ensures
            match self.cache_map() {
                None => r@.len() == 0,
                Some(m) => {
                    &&& forall|i: int| 0 <= i < r@.len() ==> m.contains_key(#[trigger] r@[i]@)
                    &&& forall|k: Seq<u8>|
                        m.contains_key(k) ==> exists|i: int| 0 <= i < r@.len() && #[trigger] r@[i]@
                            == k
                },
            },
    {
        let mut out: Vec<Vec<u8>> = Vec::new();
        match &self.cache {
            None => out,
            Some(c) => {
                let mut i: usize = 0;
                while i < c.len()
                    invariant
                        i <= c.len(),
                        out@.len() == i,
                        forall|j: int| 0 <= j < i ==> #[trigger] out@[j]@ == c@[j].path@,
                        forall|k: int|
                            0 <= k < out@.len() ==> entries_map(c@).contains_key(
                                #[trigger] out@[k]@,
                            ),
                    decreases c.len() - i,
                {
                    let e = &c[i];
                    let mut p: Vec<u8> = Vec::new();
                    p.extend_from_slice(e.path.as_slice());
                    proof {
                        assert(p@ =~= c@[i as int].path@);
                        lemma_entries_contains(c@, i as int);
                    }
                    out.push(p);
                    i += 1;
                }
                proof {
                    assert forall|k: Seq<u8>| entries_map(c@).contains_key(k) implies exists|
                        j: int,
                    | 0 <= j < out@.len() && #[trigger] out@[j]@ == k by {
                        lemma_entries_key_has_index(c@, k);
                        let j = choose|j: int| 0 <= j < c@.len() && c@[j].path@ == k;
                        assert(out@[j]@ == k);
                    }
                }
                out
            },
        }
    }
}

} // verus!
