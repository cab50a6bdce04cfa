//! The allocation bitmap of an image: runs of free data sectors are searched bitmap sector by
//! bitmap sector, and sectors are taken and given back bit by bit.

use vstd::prelude::*;
use crate::fs::hashtable::drive::StorageDrive;
use super::ImageError;
use super::io::{read_lba, write_lba};
use crate::fs::lemonfs::bitmap::{set_range, trailing_free, lemma_block_index};
use crate::fs::lemonfs::disk::{BitmapBlock, byte_bit};
use super::disk::SuperBlock;

verus! {

/// The 4096 bits of a bitmap sector; `true` means used.
pub open spec fn sector_bits(s: Seq<u8>) -> Seq<bool> {
    Seq::new(4096, |i: int| byte_bit(s[i / 8], i % 8))
}

/// The bits of the `nblocks` bitmap sectors from `bstart`, one per data sector; a bitmap
/// sector past the end of the drive reads as free.
pub open spec fn image_bits(sectors: Seq<[u8; 512]>, bstart: int, nblocks: int) -> Seq<bool> {
    Seq::new((nblocks * 4096) as nat, |i: int|
        bstart + i / 4096 < sectors.len() && sector_bits(sectors[bstart + i / 4096]@)[i % 4096])
}

/// The drive went from `old` to `new` changing at most the `nblocks` bitmap sectors from
/// `bstart`.
pub open spec fn only_bitmap_changed(old: Seq<[u8; 512]>, new: Seq<[u8; 512]>, bstart: int, nblocks: int) -> bool {
    &&& new.len() == old.len()
    &&& forall|l: int| 0 <= l < old.len() && !(bstart <= l < bstart + nblocks) ==> #[trigger] new[l] == old[l]
}

/// The drive went from `old` to `new` by setting the bits `[st, st + count)` of the bitmap to
/// `v`, and nothing else.
pub open spec fn bits_changed(old: Seq<[u8; 512]>, new: Seq<[u8; 512]>, bstart: int, nblocks: int, st: int, count: int, v: bool) -> bool {
    &&& only_bitmap_changed(old, new, bstart, nblocks)
    &&& image_bits(new, bstart, nblocks) == set_range(image_bits(old, bstart, nblocks), st, count, v)
}

/// The start of the first run of `count` free bits among the first `n` bits of `b`, looking
/// from bit `k` on: the run that completes first.
pub open spec fn first_run(b: Seq<bool>, n: int, count: int, k: int) -> Option<int>
    decreases n - k,
{
    if k >= n || k < 0 {
        None
    } else if trailing_free(b, k + 1) >= count {
        Some(k + 1 - count)
    } else {
        first_run(b, n, count, k + 1)
    }
}

/// Where the allocator places `count` sectors, searching bitmap sector `blk` on: a run must
/// lie within one bitmap sector, among the bits that stand for data sectors.
pub open spec fn alloc_search(sectors: Seq<[u8; 512]>, bstart: int, nblocks: int, total_data: int, count: int, blk: int) -> Option<int>
    decreases nblocks - blk,
{
    if blk >= nblocks || blk < 0 {
        None
    } else {
        let n = if total_data - blk * 4096 >= 4096 { 4096 } else if total_data - blk * 4096 > 0 { total_data - blk * 4096 } else { 0 };
        match first_run(sector_bits(sectors[bstart + blk]@), n, count, 0) {
            Some(st) => Some(blk * 4096 + st),
            None => alloc_search(sectors, bstart, nblocks, total_data, count, blk + 1),
        }
    }
}

/// The image's superblock describes a bitmap and a data area whose sector numbers, and bit
/// numbers, fit in 64 bits.
pub open spec fn layout_ok(sb: SuperBlock) -> bool {
    &&& sb.spec_data_start() <= sb.total_blocks
    &&& sb.total_blocks <= usize::MAX
    &&& (sb.bitmap_size + 1) * 4096 <= usize::MAX
    &&& sb.spec_data_start() + sb.bitmap_size * 4096 <= u64::MAX
}

proof fn lemma_trailing_step(b: Seq<bool>, k: int)
    requires
        0 <= k < b.len(),
    ensures
        trailing_free(b, k + 1) == if b[k] { 0 } else { trailing_free(b, k) + 1 },
{
}

/// Sets (or clears) the bits `[lo, hi)` of bitmap sector `lba`.
fn change_bits<D: StorageDrive>(drive: &mut D, lba: u64, lo: usize, hi: usize, v: bool) -> (r: Result<(), ImageError>)
    requires
        lo <= hi <= 4096,
    ensures
        r is Ok ==> {
            &&& lba < old(drive).sectors().len()
            &&& final(drive).sectors().len() == old(drive).sectors().len()
            &&& forall|l: int| 0 <= l < old(drive).sectors().len() && l != lba ==> #[trigger] final(drive).sectors()[l] == old(drive).sectors()[l]
            &&& sector_bits(final(drive).sectors()[lba as int]@) == set_range(sector_bits(old(drive).sectors()[lba as int]@), lo as int, hi - lo, v)
        },
        r is Err ==> final(drive).sectors() == old(drive).sectors(),
        r matches Err(e) ==> e == ImageError::Io,
        D::answers_all() && lba < old(drive).sectors().len() ==> r is Ok,
{
    let sector = read_lba(drive, lba)?;
    let mut block = BitmapBlock(sector);
    let ghost bits0 = block.bits();
    assert(bits0 =~= sector_bits(old(drive).sectors()[lba as int]@));
    let mut b = lo;
    while b < hi
        invariant
            lo <= b <= hi,
            hi <= 4096,
            block.bits() == set_range(bits0, lo as int, b - lo, v),
            bits0.len() == 4096,
        decreases hi - b,
    {
        if v { block.set(b) } else { block.clear(b) }
        b = b + 1;
        assert(block.bits() =~= set_range(bits0, lo as int, b - lo, v));
    }
    let r = write_lba(drive, lba, &block.0);
    proof {
        if r is Ok {
            assert(sector_bits(block.0@) =~= block.bits());
        }
    }
    r
}

/// Sets (or clears) the bits `[start, start + count)` of the bitmap, bitmap sector by bitmap
/// sector.
fn change_range<D: StorageDrive>(drive: &mut D, bstart: u64, nblocks: u64, start: usize, count: usize, v: bool) -> (r: Result<(), ImageError>)
    requires
        count > 0,
        start + count <= nblocks * 4096,
        bstart + nblocks <= u64::MAX,
        (nblocks + 1) * 4096 <= usize::MAX,
    ensures
        r is Ok ==> bits_changed(old(drive).sectors(), final(drive).sectors(), bstart as int, nblocks as int,
            start as int, count as int, v),
        only_bitmap_changed(old(drive).sectors(), final(drive).sectors(), bstart as int, nblocks as int),
        r matches Err(e) ==> e == ImageError::Io,
        D::answers_all() && bstart + nblocks <= old(drive).sectors().len() ==> r is Ok,
{
    let end = start + count;
    let first = start / 4096;
    let last = (end - 1) / 4096;
    let ghost s0 = drive.sectors();
    let ghost bits0 = image_bits(s0, bstart as int, nblocks as int);
    let mut block_idx = first;
    while block_idx <= last
        invariant
            first == start / 4096,
            last == (end - 1) / 4096,
            end == start + count,
            count > 0,
            end <= nblocks * 4096,
            (nblocks + 1) * 4096 <= usize::MAX,
            bstart + nblocks <= u64::MAX,
            first <= block_idx <= last + 1,
            s0 == old(drive).sectors(),
            bits0 == image_bits(s0, bstart as int, nblocks as int),
            drive.sectors().len() == s0.len(),
            forall|l: int| 0 <= l < s0.len() && !(bstart + first <= l < bstart + block_idx) ==> #[trigger] drive.sectors()[l] == s0[l],
            forall|i: int| 0 <= i < nblocks * 4096 ==> #[trigger] image_bits(drive.sectors(), bstart as int, nblocks as int)[i]
                == (if start <= i < end && i < block_idx * 4096 { v } else { bits0[i] }),
        decreases last + 1 - block_idx,
    {
        let lo = if start > block_idx * 4096 { start - block_idx * 4096 } else { 0 };
        let hi = if 4096 < end - block_idx * 4096 { 4096 } else { end - block_idx * 4096 };
        proof {
            vstd::arithmetic::div_mod::lemma_fundamental_div_mod(end - 1, 4096);
            vstd::arithmetic::div_mod::lemma_fundamental_div_mod(start as int, 4096);
            assert(block_idx < nblocks);
        }
        let ghost before = drive.sectors();
        change_bits(drive, bstart + block_idx as u64, lo, hi, v)?;
        proof {
            let lba = bstart + block_idx;
            assert forall|i: int| 0 <= i < nblocks * 4096 implies #[trigger] image_bits(drive.sectors(), bstart as int, nblocks as int)[i]
                == (if start <= i < end && i < (block_idx + 1) * 4096 { v } else { bits0[i] }) by {
                let bi = i / 4096;
                let k = i % 4096;
                lemma_block_index(bi, k);
                assert(i == bi * 4096 + k);
                if bi == block_idx {
                    assert(lba < before.len());
                    assert(image_bits(drive.sectors(), bstart as int, nblocks as int)[i] == sector_bits(drive.sectors()[lba as int]@)[k]);
                    assert(image_bits(before, bstart as int, nblocks as int)[i] == sector_bits(before[lba as int]@)[k]);
                } else if bstart + bi < before.len() {
                    assert(drive.sectors()[bstart + bi] == before[bstart + bi]);
                    assert(image_bits(drive.sectors(), bstart as int, nblocks as int)[i] == image_bits(before, bstart as int, nblocks as int)[i]);
                }
            }
        }
        block_idx = block_idx + 1;
    }
    proof {
        assert(image_bits(drive.sectors(), bstart as int, nblocks as int) =~= set_range(bits0, start as int, count as int, v));
    }
    Ok(())
}

/// Allocates `count` consecutive data sectors at the first run that one bitmap sector holds
/// (see [`alloc_search`]) and returns the first; `count == 0` takes nothing and returns the
/// first data sector. No run is `DiskFull`.
pub fn alloc_blocks<D: StorageDrive>(drive: &mut D, sb: &SuperBlock, count: u64) -> (r: Result<u64, ImageError>)
    requires
        layout_ok(*sb),
    ensures
        count == 0 ==> r == Ok::<u64, ImageError>(sb.spec_data_start() as u64) && final(drive).sectors() == old(drive).sectors(),
        r matches Ok(lba) ==> lba >= sb.spec_data_start(),
        count > 0 ==> ({
            let found = alloc_search(old(drive).sectors(), sb.spec_bitmap_start(), sb.bitmap_size as int,
                sb.total_blocks - sb.spec_data_start(), count as int, 0);
            &&& r matches Ok(lba) ==> found matches Some(st) && lba == sb.spec_data_start() + st
                && bits_changed(old(drive).sectors(), final(drive).sectors(), sb.spec_bitmap_start(), sb.bitmap_size as int, st, count as int, true)
            &&& found is None ==> r is Err
            &&& r matches Err(e) ==> e == ImageError::Io || (e == ImageError::DiskFull && found is None)
            &&& D::answers_all() && sb.spec_data_start() <= old(drive).sectors().len() && found is Some ==> r is Ok
        }),
        only_bitmap_changed(old(drive).sectors(), final(drive).sectors(), sb.spec_bitmap_start(), sb.bitmap_size as int),
{
    let data_start = sb.data_start();
    if count == 0 {
        return Ok(data_start);
    }
    let bitmap_start = sb.bitmap_start();
    let total_data = (sb.total_blocks - data_start) as usize;
    let ghost s0 = drive.sectors();
    let mut block_idx: u64 = 0;
    while block_idx < sb.bitmap_size
        invariant
            layout_ok(*sb),
            data_start == sb.spec_data_start(),
            bitmap_start == sb.spec_bitmap_start(),
            total_data == sb.total_blocks - sb.spec_data_start(),
            count > 0,
            drive.sectors() == s0,
            s0 == old(drive).sectors(),
            block_idx <= sb.bitmap_size,
            alloc_search(s0, bitmap_start as int, sb.bitmap_size as int, total_data as int, count as int, 0)
                == alloc_search(s0, bitmap_start as int, sb.bitmap_size as int, total_data as int, count as int, block_idx as int),
        decreases sb.bitmap_size - block_idx,
    {
        let sector = read_lba(drive, bitmap_start + block_idx)?;
        let block = BitmapBlock(sector);
        let ghost bb = sector_bits(s0[bitmap_start + block_idx]@);
        assert(block.bits() =~= bb);
        let used = block_idx as usize * 4096;
        let bits = if total_data > used { if total_data - used < 4096 { total_data - used } else { 4096 } } else { 0 };
        let mut consecutive: u64 = 0;
        let mut run_start: usize = 0;
        let mut bit: usize = 0;
        while bit < bits
            invariant
                bits <= 4096,
                bb.len() == 4096,
                block.bits() == bb,
                bit <= bits,
                count > 0,
                consecutive < count,
                consecutive == trailing_free(bb, bit as int),
                consecutive > 0 ==> run_start == used + bit - consecutive,
                used == block_idx * 4096,
                layout_ok(*sb),
                data_start == sb.spec_data_start(),
                bitmap_start == sb.spec_bitmap_start(),
                total_data == sb.total_blocks - sb.spec_data_start(),
                bits == (if total_data - used >= 4096 { 4096 } else if total_data - used > 0 { total_data - used } else { 0int }),
                drive.sectors() == s0,
                s0 == old(drive).sectors(),
                bb == sector_bits(s0[bitmap_start + block_idx]@),
                alloc_search(s0, bitmap_start as int, sb.bitmap_size as int, total_data as int, count as int, 0)
                    == alloc_search(s0, bitmap_start as int, sb.bitmap_size as int, total_data as int, count as int, block_idx as int),
                (sb.bitmap_size + 1) * 4096 <= usize::MAX,
                block_idx < sb.bitmap_size,
                first_run(bb, bits as int, count as int, 0) == first_run(bb, bits as int, count as int, bit as int),
            decreases bits - bit,
        {
            proof { lemma_trailing_step(bb, bit as int); }
            let is_set = block.get(bit);
            if !is_set {
                if consecutive == 0 {
                    run_start = used + bit;
                }
                consecutive = consecutive + 1;
                if consecutive == count {
                    proof {
                        assert(first_run(bb, bits as int, count as int, bit as int) == Some(bit + 1 - count));
                        assert((block_idx + 1) * 4096 <= sb.bitmap_size * 4096) by (nonlinear_arith)
                            requires block_idx < sb.bitmap_size;
                    }
                    let r = alloc_commit(drive, sb, run_start, count as usize);
                    return r;
                }
            } else {
                consecutive = 0;
            }
            bit = bit + 1;
        }
        block_idx = block_idx + 1;
    }
    Err(ImageError::DiskFull)
}

/// Marks the data sectors `[start_bit, start_bit + count)` used and returns the first one.
pub fn alloc_commit<D: StorageDrive>(drive: &mut D, sb: &SuperBlock, start_bit: usize, count: usize) -> (r: Result<u64, ImageError>)
    requires
        layout_ok(*sb),
        count > 0,
        start_bit + count <= sb.bitmap_size * 4096,
    ensures
        r matches Ok(lba) ==> lba >= sb.spec_data_start(),
        r matches Ok(lba) ==> lba == sb.spec_data_start() + start_bit
            && bits_changed(old(drive).sectors(), final(drive).sectors(), sb.spec_bitmap_start(), sb.bitmap_size as int, start_bit as int, count as int, true),
        only_bitmap_changed(old(drive).sectors(), final(drive).sectors(), sb.spec_bitmap_start(), sb.bitmap_size as int),
        r matches Err(e) ==> e == ImageError::Io,
        D::answers_all() && sb.spec_data_start() <= old(drive).sectors().len() ==> r is Ok,
{
    let data_start = sb.data_start();
    let bitmap_start = sb.bitmap_start();
    change_range(drive, bitmap_start, sb.bitmap_size, start_bit, count, true)?;
    Ok(data_start + start_bit as u64)
}

/// The data sectors `[start_lba, start_lba + count)` lie in the area the bitmap covers.
pub open spec fn in_bitmap(sb: SuperBlock, start_lba: int, count: int) -> bool {
    sb.spec_data_start() <= start_lba && start_lba - sb.spec_data_start() + count <= sb.bitmap_size * 4096
}

/// Marks the data sectors `[start_lba, start_lba + count)` free. A non-empty range outside
/// the area the bitmap covers is `Corrupt` and changes nothing.
pub fn free_blocks<D: StorageDrive>(drive: &mut D, sb: &SuperBlock, start_lba: u64, count: u64) -> (r: Result<(), ImageError>)
    requires
        layout_ok(*sb),
    ensures
        count == 0 ==> r is Ok && final(drive).sectors() == old(drive).sectors(),
        count > 0 && !in_bitmap(*sb, start_lba as int, count as int)
            ==> r == Err::<(), ImageError>(ImageError::Corrupt) && final(drive).sectors() == old(drive).sectors(),
        count > 0 && r is Ok ==> bits_changed(old(drive).sectors(), final(drive).sectors(), sb.spec_bitmap_start(),
            sb.bitmap_size as int, start_lba - sb.spec_data_start(), count as int, false),
        only_bitmap_changed(old(drive).sectors(), final(drive).sectors(), sb.spec_bitmap_start(), sb.bitmap_size as int),
        r matches Err(e) ==> e == ImageError::Io || (e == ImageError::Corrupt && count > 0 && !in_bitmap(*sb, start_lba as int, count as int)),
        D::answers_all() && sb.spec_data_start() <= old(drive).sectors().len() && (count == 0 || in_bitmap(*sb, start_lba as int, count as int))
            ==> r is Ok,
{
    if count == 0 {
        return Ok(());
    }
    let data_start = sb.data_start();
    let bitmap_start = sb.bitmap_start();
    let bits: u64 = sb.bitmap_size * 4096;
    if start_lba < data_start || count > bits || start_lba - data_start > bits - count {
        return Err(ImageError::Corrupt);
    }
    let start_bit = (start_lba - data_start) as usize;
    change_range(drive, bitmap_start, sb.bitmap_size, start_bit, count as usize, false)
}

/// A free run never reaches past the start, nor over a first bit that is used.
proof fn lemma_trailing_bound(b: Seq<bool>, end: int)
    requires
        0 <= end <= b.len(),
    ensures
        trailing_free(b, end) <= end,
        end >= 1 && b[0] ==> trailing_free(b, end) <= end - 1,
    decreases end,
{
    if end > 0 && !b[end - 1] {
        lemma_trailing_bound(b, end - 1);
    }
}

/// A run that the first-fit search finds starts within the bits, and after the first bit
/// when that bit is used.
proof fn lemma_first_run_start(b: Seq<bool>, n: int, count: int, k: int)
    requires
        count >= 1,
        k >= 0,
        n <= b.len(),
    ensures
        first_run(b, n, count, k) matches Some(x) ==> x >= 0 && (b[0] ==> x >= 1),
    decreases n - k,
{
    if 0 <= k < n {
        if trailing_free(b, k + 1) >= count {
            lemma_trailing_bound(b, k + 1);
        } else {
            lemma_first_run_start(b, n, count, k + 1);
        }
    }
}

/// A run that `first_run` finds ends within the bits it searches.
proof fn lemma_first_run_fits(b: Seq<bool>, n: int, count: int, k: int)
    requires
        count >= 1,
    ensures
        first_run(b, n, count, k) matches Some(x) ==> x + count <= n,
    decreases n - k,
{
    if 0 <= k < n && trailing_free(b, k + 1) < count {
        lemma_first_run_fits(b, n, count, k + 1);
    }
}

/// A run that the allocator finds lies among the data sectors: it ends within `total_data`.
pub proof fn lemma_alloc_search_fits(s: Seq<[u8; 512]>, bs: int, nb: int, td: int, count: int, blk: int)
    requires
        count >= 1,
    ensures
        alloc_search(s, bs, nb, td, count, blk) matches Some(x) ==> x + count <= td,
    decreases nb - blk,
{
    if 0 <= blk < nb {
        let n = if td - blk * 4096 >= 4096 { 4096 } else if td - blk * 4096 > 0 { td - blk * 4096 } else { 0 };
        let b = sector_bits(s[bs + blk]@);
        lemma_first_run_fits(b, n, count, 0);
        match first_run(b, n, count, 0) {
            Some(st) => {
                assert(n > 0) by {
                    if n <= 0 {
                        assert(first_run(b, n, count, 0) is None);
                    }
                }
            },
            None => {
                lemma_alloc_search_fits(s, bs, nb, td, count, blk + 1);
            },
        }
    }
}

/// The allocator never places a run over the first data sector when the bitmap marks it used.
pub proof fn lemma_alloc_skips_first(s: Seq<[u8; 512]>, bs: int, nb: int, td: int, count: int, blk: int)
    requires
        count >= 1,
        blk >= 0,
        blk == 0 ==> sector_bits(s[bs]@)[0],
    ensures
        alloc_search(s, bs, nb, td, count, blk) matches Some(x) ==> x >= 1,
    decreases nb - blk,
{
    if 0 <= blk < nb {
        let n = if td - blk * 4096 >= 4096 { 4096 } else if td - blk * 4096 > 0 { td - blk * 4096 } else { 0 };
        let b = sector_bits(s[bs + blk]@);
        lemma_first_run_start(b, n, count, 0);
        if blk == 0 {
            assert(s[bs + blk] == s[bs]);
        }
        match first_run(b, n, count, 0) {
            Some(st) => {
                assert(blk * 4096 + st >= 1) by (nonlinear_arith)
                    requires blk >= 0, st >= 0, blk == 0 ==> st >= 1;
            }
            None => {
                lemma_alloc_skips_first(s, bs, nb, td, count, blk + 1);
            }
        }
    }
}

} // verus!
