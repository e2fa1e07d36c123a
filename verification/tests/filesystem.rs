use minixfs::bio::{syc_read, syc_write};
use minixfs::bridge::{process_read, process_write};
use minixfs::device::BlockDevice;
use minixfs::fs::MinixFileSystem;
use minixfs::inode::{FsError, SuperBlock};
use minixfs::zones::{allocated_stream_len, zones_intact_check};

// ---- synthetic disk images -------------------------------------------------
//
// Geometry used throughout: 1 MiB disk, block size 1024, one imap block
// (block 2), one zmap block (block 3), inode table from block 4.

const DISK_BYTES: usize = 1024 * 1024;

fn put_u16(d: &mut [u8], off: usize, v: u16) {
    d[off] = (v & 0xff) as u8;
    d[off + 1] = (v >> 8) as u8;
}

fn put_u32(d: &mut [u8], off: usize, v: u32) {
    d[off] = (v & 0xff) as u8;
    d[off + 1] = ((v >> 8) & 0xff) as u8;
    d[off + 2] = ((v >> 16) & 0xff) as u8;
    d[off + 3] = ((v >> 24) & 0xff) as u8;
}

fn blank_image() -> Vec<u8> {
    let mut d = vec![0u8; DISK_BYTES];
    put_u32(&mut d, 1024, 64); // ninodes
    put_u16(&mut d, 1030, 1); // imap_blocks
    put_u16(&mut d, 1032, 1); // zmap_blocks
    put_u16(&mut d, 1034, 10); // first_data_zone
    put_u32(&mut d, 1040, 0x7fff_ffff); // max_size
    put_u32(&mut d, 1044, 1024); // zones
    put_u16(&mut d, 1048, 0x4d5a); // magic
    put_u16(&mut d, 1052, 1024); // block_size
    d
}

fn inode_slot(n: u32) -> usize {
    4096 + (((n - 1) / 16) as usize) * 1024 + (((n - 1) % 16) as usize) * 64
}

fn put_inode(d: &mut [u8], n: u32, mode: u16, nlinks: u16, size: u32, zones: &[u32; 10]) {
    let s = inode_slot(n);
    put_u16(d, s, mode);
    put_u16(d, s + 2, nlinks);
    put_u32(d, s + 8, size);
    for (j, z) in zones.iter().enumerate() {
        put_u32(d, s + 24 + 4 * j, *z);
    }
}

fn set_imap_bit(d: &mut [u8], n: u32) {
    let byte = 2048 + ((n - 1) / 8) as usize;
    d[byte] |= 1 << ((n - 1) % 8);
}

fn put_dirent(d: &mut [u8], dir_zone: u32, slot: usize, ino: u32, name: &[u8]) {
    let base = (dir_zone as usize) * 1024 + slot * 64;
    put_u32(d, base, ino);
    for (i, b) in name.iter().enumerate() {
        d[base + 4 + i] = *b;
    }
    for i in name.len()..60 {
        d[base + 4 + i] = 0;
    }
}

/// Image with `/hello.txt` (inode 2, 8 bytes "Hello!\n\0" in zone 11) under
/// a root directory (inode 1, entries in zone 10).
fn hello_image() -> Vec<u8> {
    let mut d = blank_image();
    put_inode(&mut d, 1, 0o040_755, 2, 3 * 64, &[10, 0, 0, 0, 0, 0, 0, 0, 0, 0]);
    put_inode(&mut d, 2, 0o100_644, 1, 8, &[11, 0, 0, 0, 0, 0, 0, 0, 0, 0]);
    set_imap_bit(&mut d, 1);
    set_imap_bit(&mut d, 2);
    put_dirent(&mut d, 10, 0, 1, b".");
    put_dirent(&mut d, 10, 1, 1, b"..");
    put_dirent(&mut d, 10, 2, 2, b"hello.txt");
    let data = b"Hello!\n\0";
    d[11 * 1024..11 * 1024 + 8].copy_from_slice(data);
    d
}

fn device(image: Vec<u8>) -> BlockDevice {
    BlockDevice::new(image)
}

// ---- scenarios -------------------------------------------------------------

#[test]
fn open_and_read_hello() {
    let dev = device(hello_image());
    let mut fs = MinixFileSystem::new();
    fs.init(&dev);
    let ino = fs.open(b"/hello.txt").expect("hello.txt should be cached");
    assert_eq!(ino.size, 8);
    let mut buf = vec![0u8; 16];
    let n = MinixFileSystem::read(&dev, &ino, &mut buf, 8, 0);
    assert_eq!(n, 8);
    assert_eq!(&buf[0..8], b"Hello!\n\0");
}

#[test]
fn read_clamps_to_file_size() {
    // A read of more bytes than the file holds returns min(size, file size).
    let dev = device(hello_image());
    let ino = MinixFileSystem::get_inode(&dev, 2).unwrap();
    let mut buf = vec![0u8; 1024];
    let n = MinixFileSystem::read(&dev, &ino, &mut buf, 1024, 0);
    assert_eq!(n, 8);
    assert_eq!(&buf[0..8], b"Hello!\n\0");
}

#[test]
fn read_past_eof_returns_zero() {
    let dev = device(hello_image());
    let ino = MinixFileSystem::get_inode(&dev, 2).unwrap();
    let mut buf = vec![0u8; 16];
    assert_eq!(MinixFileSystem::read(&dev, &ino, &mut buf, 4, 8), 0);
    assert_eq!(MinixFileSystem::read(&dev, &ino, &mut buf, 4, 100), 0);
}

#[test]
fn read_inner_window_exact() {
    let dev = device(hello_image());
    let ino = MinixFileSystem::get_inode(&dev, 2).unwrap();
    let mut buf = vec![0u8; 4];
    let n = MinixFileSystem::read(&dev, &ino, &mut buf, 3, 2);
    assert_eq!(n, 3);
    assert_eq!(&buf[0..3], b"llo");
}

/// `/big.bin`: 7 direct zones + 3 singly-indirect zones, 10 * 1024 bytes of
/// the pattern `byte[i] = i % 251`.
fn big_image() -> Vec<u8> {
    let mut d = hello_image();
    let zones: [u32; 10] = [12, 13, 14, 15, 16, 17, 18, 20, 0, 0];
    put_inode(&mut d, 3, 0o100_644, 1, 10 * 1024, &zones);
    set_imap_bit(&mut d, 3);
    put_dirent(&mut d, 10, 3, 3, b"big.bin");
    put_inode(&mut d, 1, 0o040_755, 2, 4 * 64, &[10, 0, 0, 0, 0, 0, 0, 0, 0, 0]);
    // indirect block 20 lists the three tail zones
    put_u32(&mut d, 20 * 1024, 21);
    put_u32(&mut d, 20 * 1024 + 4, 22);
    put_u32(&mut d, 20 * 1024 + 8, 23);
    // pattern across the logical stream
    let stream_zones = [12u32, 13, 14, 15, 16, 17, 18, 21, 22, 23];
    for (b, z) in stream_zones.iter().enumerate() {
        for j in 0..1024usize {
            let i = b * 1024 + j;
            d[(*z as usize) * 1024 + j] = (i % 251) as u8;
        }
    }
    d
}

#[test]
fn big_file_through_indirect_zones() {
    let dev = device(big_image());
    let mut fs = MinixFileSystem::new();
    fs.init(&dev);
    let ino = fs.open(b"/big.bin").expect("big.bin should be cached");
    assert_eq!(ino.size, 10 * 1024);
    let mut buf = vec![0u8; 2048];
    let n = MinixFileSystem::read(&dev, &ino, &mut buf, 2048, 3000);
    assert_eq!(n, 2048);
    for k in 0..2048usize {
        assert_eq!(buf[k], ((3000 + k) % 251) as u8, "byte {} of the window", k);
    }
}

#[test]
fn hole_in_zone_list_compresses() {
    // zones[0] and zones[2] populated, zones[1] == 0: the logical stream is
    // 2 * 1024 bytes long and offset 1024 reads the second populated zone.
    let mut d = hello_image();
    put_inode(&mut d, 4, 0o100_644, 1, 2048, &[30, 0, 31, 0, 0, 0, 0, 0, 0, 0]);
    set_imap_bit(&mut d, 4);
    for j in 0..1024usize {
        d[30 * 1024 + j] = b'A';
        d[31 * 1024 + j] = b'B';
    }
    let dev = device(d);
    let ino = MinixFileSystem::get_inode(&dev, 4).unwrap();
    let mut buf = vec![0u8; 1024];
    let n = MinixFileSystem::read(&dev, &ino, &mut buf, 1024, 1024);
    assert_eq!(n, 1024);
    assert!(buf.iter().all(|b| *b == b'B'));
    let mut both = vec![0u8; 2048];
    assert_eq!(MinixFileSystem::read(&dev, &ino, &mut both, 2048, 0), 2048);
    assert!(both[0..1024].iter().all(|b| *b == b'A'));
    assert!(both[1024..].iter().all(|b| *b == b'B'));
}

#[test]
fn write_then_read_roundtrip() {
    let dev = &mut device(hello_image());
    let mut ino = MinixFileSystem::get_inode(dev, 2).unwrap();
    let data = b"do not look back in anger".to_vec();
    let n = MinixFileSystem::write(dev, &mut ino, &data, data.len() as u32, 0);
    assert_eq!(n, data.len() as u32);
    assert_eq!(ino.size, data.len() as u32);
    let mut buf = vec![0u8; data.len()];
    let m = MinixFileSystem::read(dev, &ino, &mut buf, data.len() as u32, 0);
    assert_eq!(m, data.len() as u32);
    assert_eq!(buf, data);
}

#[test]
fn write_at_offset_preserves_neighbours() {
    let dev = &mut device(hello_image());
    let mut ino = MinixFileSystem::get_inode(dev, 2).unwrap();
    let data = b"LL".to_vec();
    let n = MinixFileSystem::write(dev, &mut ino, &data, 2, 2);
    assert_eq!(n, 2);
    let mut buf = vec![0u8; 8];
    assert_eq!(MinixFileSystem::read(dev, &ino, &mut buf, 8, 0), 8);
    assert_eq!(&buf[..], b"HeLLo!\n\0");
}

#[test]
fn write_stops_at_allocated_zones() {
    // hello.txt has a single allocated zone: a write past 1024 bytes is cut.
    let dev = &mut device(hello_image());
    let mut ino = MinixFileSystem::get_inode(dev, 2).unwrap();
    let data = vec![7u8; 3000];
    let n = MinixFileSystem::write(dev, &mut ino, &data, 3000, 0);
    assert_eq!(n, 1024);
    assert_eq!(ino.size, 1024);
}

#[test]
fn bio_read_twice_is_identical() {
    let dev = device(hello_image());
    let mut b1 = vec![0u8; 100];
    let mut b2 = vec![0u8; 100];
    assert_eq!(syc_read(&dev, &mut b1, 100, 11 * 1024 - 50), 0);
    assert_eq!(syc_read(&dev, &mut b2, 100, 11 * 1024 - 50), 0);
    assert_eq!(b1, b2);
}

#[test]
fn bio_write_preserves_sector_neighbours() {
    let dev = &mut device(hello_image());
    let mut before = vec![0u8; 512];
    assert_eq!(syc_read(dev, &mut before, 512, 30 * 1024), 0);
    assert_eq!(syc_write(dev, b"xyz", 3, 30 * 1024 + 100), 0);
    let mut after = vec![0u8; 512];
    assert_eq!(syc_read(dev, &mut after, 512, 30 * 1024), 0);
    assert_eq!(&after[100..103], b"xyz");
    assert_eq!(&after[0..100], &before[0..100]);
    assert_eq!(&after[103..], &before[103..]);
}

#[test]
fn bio_rejects_out_of_range() {
    let dev = &mut device(hello_image());
    let mut buf = vec![0u8; 16];
    assert_ne!(syc_read(&*dev, &mut buf, 16, (DISK_BYTES - 8) as u32), 0);
    assert_ne!(syc_write(dev, b"abcdefgh", 8, (DISK_BYTES - 4) as u32), 0);
}

#[test]
fn find_free_inode_on_fresh_disk() {
    // Inodes 1 and 2 allocated: the lowest clear imap bit belongs to 3.
    let dev = device(hello_image());
    let n = MinixFileSystem::find_free_inode(&dev).unwrap();
    assert_eq!(n, 3);
    // its imap bit is clear
    assert_eq!(dev.image()[2048 + ((n - 1) / 8) as usize] & (1 << ((n - 1) % 8)), 0);
}

#[test]
fn find_free_inode_scans_bytewise_lsb_first() {
    let mut d = hello_image();
    // fill the low bits: inodes 1..=11 allocated, 12 free
    for n in 1..=11u32 {
        set_imap_bit(&mut d, n);
    }
    let dev = device(d);
    assert_eq!(MinixFileSystem::find_free_inode(&dev), Some(12));
}

#[test]
fn find_free_inode_full_map() {
    let mut d = hello_image();
    for b in 2048..3072 {
        d[b] = 0xff;
    }
    let dev = device(d);
    assert_eq!(MinixFileSystem::find_free_inode(&dev), None);
}

#[test]
fn open_missing_file() {
    let dev = device(hello_image());
    let mut fs = MinixFileSystem::new();
    fs.init(&dev);
    assert_eq!(fs.open(b"/nope.txt"), Err(FsError::FileNotFound));
}

#[test]
fn open_before_init() {
    let fs = MinixFileSystem::new();
    assert_eq!(fs.open(b"/hello.txt"), Err(FsError::FileNotFound));
}

#[test]
fn get_inode_needs_magic() {
    let mut d = hello_image();
    put_u16(&mut d, 1048, 0x1234);
    let dev = device(d);
    assert!(MinixFileSystem::get_inode(&dev, 1).is_none());
}

#[test]
fn cache_covers_subdirectories() {
    let mut d = hello_image();
    // /sub (inode 5, entries in zone 32) holding /sub/inner.txt (inode 6)
    put_inode(&mut d, 1, 0o040_755, 2, 4 * 64, &[10, 0, 0, 0, 0, 0, 0, 0, 0, 0]);
    put_dirent(&mut d, 10, 3, 5, b"sub");
    put_inode(&mut d, 5, 0o040_755, 2, 3 * 64, &[32, 0, 0, 0, 0, 0, 0, 0, 0, 0]);
    put_inode(&mut d, 6, 0o100_644, 1, 5, &[33, 0, 0, 0, 0, 0, 0, 0, 0, 0]);
    set_imap_bit(&mut d, 5);
    set_imap_bit(&mut d, 6);
    put_dirent(&mut d, 32, 0, 5, b".");
    put_dirent(&mut d, 32, 1, 1, b"..");
    put_dirent(&mut d, 32, 2, 6, b"inner.txt");
    d[33 * 1024..33 * 1024 + 5].copy_from_slice(b"abcde");
    let dev = device(d);
    let mut fs = MinixFileSystem::new();
    fs.refresh(&dev);
    let ino = fs.open(b"/sub/inner.txt").expect("nested file should be cached");
    assert_eq!(ino.size, 5);
    // directories are traversed, not cached
    assert_eq!(fs.open(b"/sub"), Err(FsError::FileNotFound));
    let paths = fs.all_file_paths();
    assert!(paths.iter().any(|p| p.as_slice() == b"/hello.txt"));
    assert!(paths.iter().any(|p| p.as_slice() == b"/sub/inner.txt"));
}

#[test]
fn create_then_open() {
    let dev = &mut device(hello_image());
    let mut fs = MinixFileSystem::new();
    fs.init(&*dev);
    let n = fs.create(dev, b"/", b"new.txt").expect("create under root");
    assert_eq!(n, 3);
    let ino = fs.open(b"/new.txt").expect("created file should be visible");
    assert_eq!(ino.size, 0);
    assert_eq!(ino.nlinks, 1);
    assert_eq!(ino.mode, 0o644);
    // the imap bit of the new inode is set
    assert_ne!(dev.image()[2048] & (1 << 2), 0);
    // the old file is still there
    assert!(fs.open(b"/hello.txt").is_ok());
}

#[test]
fn create_outside_root_fails() {
    let dev = &mut device(hello_image());
    let mut fs = MinixFileSystem::new();
    fs.init(&*dev);
    assert_eq!(fs.create(dev, b"/sub", b"new.txt"), Err(FsError::FileNotFound));
}

#[test]
fn delete_then_open() {
    let dev = &mut device(hello_image());
    let mut fs = MinixFileSystem::new();
    fs.init(&*dev);
    let n = fs.create(dev, b"/", b"new.txt").expect("create under root");
    assert!(fs.open(b"/new.txt").is_ok());
    fs.delete(dev, b"/new.txt", n);
    assert_eq!(fs.open(b"/new.txt"), Err(FsError::FileNotFound));
    // the freed imap bit is clear again
    assert_eq!(dev.image()[2048 + ((n - 1) / 8) as usize] & (1 << ((n - 1) % 8)), 0);
    // other files survive
    assert!(fs.open(b"/hello.txt").is_ok());
}

#[test]
fn stat_reports_inode_fields() {
    let dev = device(hello_image());
    let fs = MinixFileSystem::new();
    let ino = MinixFileSystem::get_inode(&dev, 2).unwrap();
    let st = fs.stat(&ino);
    assert_eq!(st.mode, 0o100_644);
    assert_eq!(st.size, 8);
    assert_eq!(st.uid, 0);
    assert_eq!(st.gid, 0);
}

#[test]
fn layout_offsets() {
    // imap at block 2; bit of inode n at byte (n - 1) / 8
    assert_eq!(MinixFileSystem::get_imap_offset(2), 2048);
    assert_eq!(MinixFileSystem::get_imap_offset(9), 2049);
    // zmap at block 2 + imap_blocks; bit of zone n at byte (n - 1) / 8
    assert_eq!(MinixFileSystem::get_zmap_offset(1, 1), 3072);
    assert_eq!(MinixFileSystem::get_zmap_offset(8, 2), 4096);
    assert_eq!(MinixFileSystem::get_zmap_offset(16, 2), 4097);
    // inode table after the boot block, the superblock and both bitmaps,
    // sixteen 64-byte records per block, 1-based numbering
    let sb = SuperBlock {
        ninodes: 64,
        pad0: 0,
        imap_blocks: 2,
        zmap_blocks: 4,
        first_data_zone: 10,
        log_zone_size: 0,
        pad1: 0,
        max_size: 0x7fff_ffff,
        zones: 1024,
        magic: 0x4d5a,
        pad2: 0,
        block_size: 1024,
        disk_version: 0,
    };
    assert_eq!(MinixFileSystem::get_inode_offset(&sb, 2), 0x2040);
    assert_eq!(MinixFileSystem::get_inode_offset(&sb, 3), 0x2080);
    let sb1 = SuperBlock { imap_blocks: 1, zmap_blocks: 1, ..sb };
    assert_eq!(MinixFileSystem::get_inode_offset(&sb1, 1), 4096);
    assert_eq!(MinixFileSystem::get_inode_offset(&sb1, 2), 4160);
    assert_eq!(MinixFileSystem::get_inode_offset(&sb1, 17), 5120);
    assert_eq!(MinixFileSystem::get_zone_offset(3), 3072);
}

#[test]
fn precondition_checkers() {
    let dev = device(hello_image());
    assert!(MinixFileSystem::imap_region_ok(&dev));
    assert!(MinixFileSystem::create_allowed(&dev, b"/"));
    // a cwd that is not the root has nothing create would touch
    assert!(MinixFileSystem::create_allowed(&dev, b"/sub"));
    assert!(MinixFileSystem::delete_allowed(&dev, 2));
    let root = MinixFileSystem::get_inode(&dev, 1).unwrap();
    assert!(zones_intact_check(&dev, &root));
    // a root directory whose single zone is full refuses create
    let mut full = hello_image();
    put_inode(&mut full, 1, 0o040_755, 2, 1024, &[10, 0, 0, 0, 0, 0, 0, 0, 0, 0]);
    assert!(!MinixFileSystem::create_allowed(&device(full), b"/"));
    // so does a full inode bitmap
    let mut nofree = hello_image();
    for b in 2048..3072 {
        nofree[b] = 0xff;
    }
    assert!(!MinixFileSystem::create_allowed(&device(nofree), b"/"));
}

#[test]
fn allocated_stream_len_counts_zones() {
    let dev = device(hello_image());
    let root = MinixFileSystem::get_inode(&dev, 1).unwrap();
    assert_eq!(allocated_stream_len(&dev, &root), 1024);
    let dev2 = device(big_image());
    let big = MinixFileSystem::get_inode(&dev2, 3).unwrap();
    assert_eq!(allocated_stream_len(&dev2, &big), 10 * 1024);
}

#[test]
fn fs_info_reads_superblock() {
    let dev = device(hello_image());
    let sb = MinixFileSystem::fs_info(&dev).expect("valid superblock");
    assert_eq!(sb.magic, 0x4d5a);
    assert_eq!(sb.imap_blocks, 1);
    assert_eq!(sb.zmap_blocks, 1);
    assert_eq!(sb.ninodes, 64);
    let mut bad = hello_image();
    put_u16(&mut bad, 1048, 0);
    assert!(MinixFileSystem::fs_info(&device(bad)).is_none());
}

#[test]
fn process_read_and_write_bridge() {
    let dev = &mut device(hello_image());
    let mut buf = vec![0u8; 8];
    let n = process_read(&*dev, 2, &mut buf, 8, 0);
    assert_eq!(n, 8);
    assert_eq!(&buf[..], b"Hello!\n\0");
    let data = b"Bye!!!!\0".to_vec();
    let w = process_write(dev, 2, &data, 8, 0);
    assert_eq!(w, 8);
    let mut buf2 = vec![0u8; 8];
    assert_eq!(process_read(&*dev, 2, &mut buf2, 8, 0), 8);
    assert_eq!(buf2, data);
    // an unreadable node moves nothing
    assert_eq!(process_read(&*dev, 0, &mut buf2, 8, 0), 0);
}
