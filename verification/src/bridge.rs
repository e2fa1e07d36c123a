//! The compute half of the process-gated I/O bridge: the work a kernel
//! worker does on behalf of a blocked syscall — look the inode up, move
//! the bytes — whose result is the count delivered back to the caller's
//! return register. Spawning the worker, parking and resuming the caller
//! are the kernel's side and stay outside the library.

use crate::device::BlockDevice;
use crate::fs::MinixFileSystem;
use crate::inode::inode_opt;
use crate::zones::{
    read_count, stream, write_count, written_disk, zone_list, zones_intact,
};
use vstd::prelude::*;

verus! {

/// The read issued for a syscall: looks up inode `node` and reads `size`
/// bytes at `offset` of its stream into `buffer`, returning the byte
/// count the worker deposits for the caller. A node that cannot be read
/// yields 0 and leaves the buffer untouched.
pub fn process_read(
    dev: &BlockDevice,
    node: u32,
    buffer: &mut Vec<u8>,
    size: u32,
    offset: u32,
) -> (r: u32)
    requires
        dev.wf(),
        size <= old(buffer).len(),
        inode_opt(dev@, node) matches Some(v) ==> zones_intact(dev@, v),
    ensures
        final(buffer)@.len() == old(buffer)@.len(),
        match inode_opt(dev@, node) {
            Some(v) => {
                &&& r == read_count(dev@, v, size, offset)
                &&& forall|i: int| 0 <= i < r ==> final(buffer)@[i] == stream(dev@, v)[offset + i]
                &&& forall|i: int|
                    r <= i < old(buffer)@.len() ==> final(buffer)@[i] == old(buffer)@[i]
            },
            None => r == 0 && final(buffer)@ == old(buffer)@,
        },
{
    match MinixFileSystem::get_inode(dev, node) {
        Some(ino) => MinixFileSystem::read(dev, &ino, buffer, size, offset),
        None => 0,
    }
}

/// The write issued for a syscall: looks up inode `node` and writes
/// `buffer[0..size]` at `offset` of its stream, returning the byte count
/// the worker deposits for the caller. The worker's inode snapshot is
/// transient, so the size it grows to is not kept anywhere. A node that
/// cannot be read yields 0 and leaves the device untouched.
pub fn process_write(
    dev: &mut BlockDevice,
    node: u32,
    buffer: &Vec<u8>,
    size: u32,
    offset: u32,
) -> (r: u32)
    requires
        old(dev).wf(),
        size <= buffer.len(),
        inode_opt(old(dev)@, node) matches Some(v) ==> zones_intact(old(dev)@, v),
    ensures
        final(dev).wf(),
        final(dev)@.len() == old(dev)@.len(),
        match inode_opt(old(dev)@, node) {
            Some(v) => {
                &&& r == write_count(old(dev)@, v, size, offset)
                &&& final(dev)@ == written_disk(
                    old(dev)@,
                    zone_list(old(dev)@, v),
                    buffer@,
                    offset as int,
                    r as int,
                )
            },
            None => r == 0 && final(dev)@ == old(dev)@,
        },
{
    match MinixFileSystem::get_inode(dev, node) {
        Some(ino) => {
            let mut snapshot = ino;
            MinixFileSystem::write(dev, &mut snapshot, buffer, size, offset)
        },
        None => 0,
    }
}

} // verus!
