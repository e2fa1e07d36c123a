//! Byte-granular reads and writes over the sector-granular device.
//!
//! Neither the size nor the offset of a transfer needs to be sector-aligned:
//! the shim widens the request to whole sectors, moves the data through a
//! bounce buffer, and, for writes, first reads the covering sectors back so
//! that the untouched bytes of the first and last sector are preserved.

use crate::device::BlockDevice;
use crate::layout::{range_replace, zero_vec};
use vstd::arithmetic::div_mod::{lemma_div_is_ordered, lemma_fundamental_div_mod};
use vstd::prelude::*;

verus! {

/// Reads `size` bytes at byte `offset` of the device into `buffer[0..size]`.
/// Returns 0 on success. A request that reaches past the end of the device
/// fails with a nonzero status and leaves `buffer` untouched.
pub fn syc_read(dev: &BlockDevice, buffer: &mut Vec<u8>, size: u32, offset: u32) -> (status: u8)
    requires
        dev.wf(),
        size <= old(buffer).len(),
    ensures
        final(buffer)@.len() == old(buffer)@.len(),
        (status == 0) <==> (offset + size <= dev@.len()),
        status == 0 ==> forall|i: int| 0 <= i < size ==> final(buffer)@[i] == dev@[offset + i],
        status == 0 ==> forall|i: int|
            size <= i < old(buffer)@.len() ==> final(buffer)@[i] == old(buffer)@[i],
        status != 0 ==> final(buffer)@ == old(buffer)@,
{
    if offset as u64 + size as u64 > dev.size() as u64 {
        return 1;
    }
    let block_start: u64 = offset as u64 / 512;
    let block_end: u64 = (offset as u64 + size as u64 + 511) / 512;
    let aligned: u64 = (block_end - block_start) * 512;
    proof {
        lemma_bio_alignment(offset as int, size as int, dev@.len() as int);
    }
    let mut bounce: Vec<u8> = zero_vec(aligned as usize);
    let st = dev.read_sectors(&mut bounce, aligned, block_start * 512);
    proof {
        assert(st == 0);
    }
    let internal: usize = (offset % 512) as usize;
    let mut i: usize = 0;
    while i < size as usize
        invariant
            i <= size,
            size <= buffer@.len(),
            buffer@.len() == old(buffer)@.len(),
            internal == offset as int % 512,
            offset + size <= dev@.len(),
            bounce@.len() == aligned,
            internal + size <= aligned,
            aligned <= 0xffff_ffff,
            forall|k: int| 0 <= k < aligned ==> bounce@[k] == dev@[block_start * 512 + k],
            block_start == offset as int / 512,
            forall|k: int| 0 <= k < i ==> buffer@[k] == dev@[offset + k],
            forall|k: int| i <= k < buffer@.len() ==> buffer@[k] == old(buffer)@[k],
        decreases size - i,
    {
        let b = bounce[internal + i];
        proof {
            lemma_fundamental_div_mod(offset as int, 512);
        }
        buffer.set(i, b);
        i += 1;
    }
    0
}

/// Writes `buffer[0..size]` to the device at byte `offset`, preserving every
/// byte outside that range by reading the covering sectors first, splicing
/// the new bytes in, and writing the sectors back. Returns 0 on success.
/// A request that reaches past the end of the device fails with a nonzero
/// status and leaves the device untouched.
pub fn syc_write(dev: &mut BlockDevice, src: &[u8], size: u32, offset: u32) -> (status: u8)
    requires
        old(dev).wf(),
        size <= src@.len(),
    ensures
        final(dev).wf(),
        final(dev)@.len() == old(dev)@.len(),
        (status == 0) <==> (offset + size <= old(dev)@.len()),
        status == 0 ==> final(dev)@ == range_replace(
            old(dev)@,
            offset as int,
            src@.take(size as int),
        ),
        status != 0 ==> final(dev)@ == old(dev)@,
{
    if offset as u64 + size as u64 > dev.size() as u64 {
        return 1;
    }
    let block_start: u64 = offset as u64 / 512;
    let block_end: u64 = (offset as u64 + size as u64 + 511) / 512;
    let aligned: u64 = (block_end - block_start) * 512;
    proof {
        lemma_bio_alignment(offset as int, size as int, old(dev)@.len() as int);
    }
    let mut bounce: Vec<u8> = zero_vec(aligned as usize);
    let st = dev.read_sectors(&mut bounce, aligned, block_start * 512);
    proof {
        assert(st == 0);
    }
    let internal: usize = (offset % 512) as usize;
    proof {
        lemma_fundamental_div_mod(offset as int, 512);
    }
    let mut i: usize = 0;
    while i < size as usize
        invariant
            i <= size,
            size <= src@.len(),
            internal == offset as int % 512,
            offset + size <= dev@.len(),
            dev@ == old(dev)@,
            dev.wf(),
            bounce@.len() == aligned,
            internal + size <= aligned,
            aligned <= 0xffff_ffff,
            block_start == offset as int / 512,
            block_start * 512 + internal == offset,
            forall|k: int|
                internal <= k < internal + i ==> bounce@[k] == src@[k - internal],
            forall|k: int|
                0 <= k < aligned && !(internal <= k < internal + i) ==> bounce@[k] == dev@[
                    block_start * 512 + k],
        decreases size - i,
    {
        let b = src[i];
        bounce.set(internal + i, b);
        i += 1;
    }
    let st2 = dev.write_sectors(bounce.as_slice(), aligned, block_start * 512);
    proof {
        assert(st2 == 0);
        assert(dev@ =~= range_replace(old(dev)@, offset as int, src@.take(size as int)));
    }
    st2
}

/// Arithmetic facts about widening a byte range to whole sectors: the
/// widened range starts at or before the request, covers it, and (on a
/// device holding whole sectors) fits the device exactly when the request
/// does.
proof fn lemma_bio_alignment(offset: int, size: int, len: int)
    requires
        0 <= offset,
        0 <= size,
        0 <= len,
        len % 512 == 0,
    ensures
        ({
            let bs = offset / 512;
            let be = (offset + size + 511) / 512;
            &&& bs * 512 <= offset
            &&& bs * 512 == offset - offset % 512
            &&& offset + size <= be * 512
            &&& be * 512 <= offset + size + 511
            &&& bs <= be
            &&& ((be * 512 <= len) <==> (offset + size <= len))
        }),
{
    let bs = offset / 512;
    let be = (offset + size + 511) / 512;
    lemma_fundamental_div_mod(offset, 512);
    lemma_fundamental_div_mod(offset + size + 511, 512);
    lemma_div_is_ordered(offset, offset + size + 511, 512);
    if offset + size <= len {
        lemma_div_is_ordered(offset + size + 511, len + 511, 512);
        lemma_fundamental_div_mod(len, 512);
        lemma_fundamental_div_mod(len + 511, 512);
        assert((len + 511) / 512 == len / 512) by {
            lemma_fundamental_div_mod(len, 512);
            vstd::arithmetic::div_mod::lemma_hoist_over_denominator(511, len / 512, 512);
        };
    }
}

/// Reading the same byte range twice, with no intervening write, yields the
/// same bytes: what `syc_read` delivers is a function of the device
/// contents, the size and the offset alone.
pub proof fn lemma_read_idempotent(d: Seq<u8>, b1: Seq<u8>, b2: Seq<u8>, size: u32, offset: u32)
    requires
        offset + size <= d.len(),
        size <= b1.len(),
        size <= b2.len(),
        forall|i: int| 0 <= i < size ==> b1[i] == d[offset + i],
        forall|i: int| 0 <= i < size ==> b2[i] == d[offset + i],
    ensures
        b1.take(size as int) == b2.take(size as int),
{
    assert(b1.take(size as int) =~= b2.take(size as int));
}

} // verus!
