//! An in-memory block device with the sector-granular interface the core
//! consumes: reads and writes of whole sectors, answered with a byte status
//! where 0 means success.

use crate::layout::range_replace;
use vstd::prelude::*;

verus! {

/// A block device holding a disk image. All transfers are sector-aligned;
/// the byte-granular shim sits above it in `bio`.
pub struct BlockDevice {
    data: Vec<u8>,
}

impl View for BlockDevice {
    type V = Seq<u8>;

    closed spec fn view(&self) -> Seq<u8> {
        self.data@
    }
}

impl BlockDevice {
    /// A device is well formed when it holds whole sectors and its byte
    /// offsets fit the 32-bit offsets used by the I/O shim.
    pub open spec fn wf(&self) -> bool {
        &&& self@.len() % 512 == 0
        &&& self@.len() <= 0xffff_ffff
    }

    /// Wraps a disk image. The image must consist of whole sectors and
    /// stay addressable with 32-bit byte offsets.
    pub fn new(data: Vec<u8>) -> (dev: BlockDevice)
        requires
            data@.len() % 512 == 0,
            data@.len() <= 0xffff_ffff,
        ensures
            dev@ == data@,
            dev.wf(),
    {
        BlockDevice { data }
    }

    /// The device capacity in bytes.
    pub fn size(&self) -> (n: usize)
        ensures
            n == self@.len(),
    {
        self.data.len()
    }

    /// The raw disk image.
    pub fn image(&self) -> (r: &Vec<u8>)
        ensures
            r@ == self@,
    {
        &self.data
    }

    /// Copies `size` bytes starting at byte `offset` of the device into
    /// `dst[0..size]`. Both `size` and `offset` must be whole sectors.
    /// Returns 0 on success; a request past the end of the device fails
    /// with a nonzero status and leaves `dst` untouched.
    pub fn read_sectors(&self, dst: &mut Vec<u8>, size: u64, offset: u64) -> (status: u8)
        requires
            size % 512 == 0,
            offset % 512 == 0,
            size <= old(dst)@.len(),
        ensures
            final(dst)@.len() == old(dst)@.len(),
            (status == 0) <==> (offset + size <= self@.len()),
            status == 0 ==> forall|i: int| 0 <= i < size ==> final(dst)@[i] == self@[offset + i],
            status == 0 ==> forall|i: int|
                size <= i < old(dst)@.len() ==> final(dst)@[i] == old(dst)@[i],
            status != 0 ==> final(dst)@ == old(dst)@,
    {
        if offset > self.data.len() as u64 || size > self.data.len() as u64 - offset {
            return 1;
        }
        let mut i: usize = 0;
        while i < size as usize
            invariant
                i <= size,
                offset + size <= self.data.len(),
                size <= dst@.len(),
                dst@.len() == old(dst)@.len(),
                forall|k: int| 0 <= k < i ==> dst@[k] == self@[offset + k],
                forall|k: int| i <= k < dst@.len() ==> dst@[k] == old(dst)@[k],
            decreases size - i,
        {
            let b = self.data[(offset as usize) + i];
            dst.set(i, b);
            i += 1;
        }
        0
    }

    /// Overwrites `size` bytes starting at byte `offset` of the device with
    /// `src[0..size]`. Both `size` and `offset` must be whole sectors.
    /// Returns 0 on success; a request past the end of the device fails
    /// with a nonzero status and leaves the device untouched.
    pub fn write_sectors(&mut self, src: &[u8], size: u64, offset: u64) -> (status: u8)
        requires
            size % 512 == 0,
            offset % 512 == 0,
            size <= src@.len(),
        ensures
            final(self)@.len() == old(self)@.len(),
            final(self).wf() == old(self).wf(),
            (status == 0) <==> (offset + size <= old(self)@.len()),
            status == 0 ==> final(self)@ == range_replace(
                old(self)@,
                offset as int,
                src@.take(size as int),
            ),
            status != 0 ==> final(self)@ == old(self)@,
    {
        if offset > self.data.len() as u64 || size > self.data.len() as u64 - offset {
            return 1;
        }
        let mut i: usize = 0;
        while i < size as usize
            invariant
                i <= size,
                offset + size <= self.data.len(),
                size <= src@.len(),
                self.data@.len() == old(self)@.len(),
                forall|k: int|
                    offset <= k < offset + i ==> self.data@[k] == src@[k - offset],
                forall|k: int|
                    0 <= k < self.data@.len() && !(offset <= k < offset + i) ==> self.data@[k]
                        == old(self)@[k],
            decreases size - i,
        {
            let b = src[i];
            self.data.set((offset as usize) + i, b);
            i += 1;
        }
        proof {
            assert(self.data@ =~= range_replace(old(self)@, offset as int, src@.take(size as int)));
        }
        0
    }
}

} // verus!
