//! Sector I/O of a LemonFS partition, and the link chains and directory blocks read through it.
//! A chain that visits more blocks than the partition has sectors loops, and reads as an I/O
//! error; so does a pointer that leaves the area the bitmap covers.

use vstd::prelude::*;
use crate::fs::FSError;
use crate::fs::hashtable::drive::StorageDrive;
use super::bitmap::BitmapAllocator;
use super::disk::{DirBlock, LinkBlock, LinkPointer};
use super::links::direct_slots;

verus! {

/// A sector of zeros.
pub open spec fn zeros() -> Seq<u8> {
    Seq::new(512, |i: int| 0u8)
}

/// Reads sector `lba`.
pub fn read_sector<D: StorageDrive>(drive: &mut D, lba: u64) -> (r: Result<[u8; 512], FSError>)
    ensures
        final(drive).sectors() == old(drive).sectors(),
        r matches Ok(b) ==> lba < old(drive).sectors().len() && b == old(drive).sectors()[lba as int],
        r matches Err(e) ==> e == FSError::IOError,
        lba >= old(drive).sectors().len() ==> r is Err,
{
    match drive.read_sector(lba) {
        Ok(b) => Ok(b),
        Err(_) => Err(FSError::IOError),
    }
}

/// Writes sector `lba`; a failed write changes nothing.
pub fn write_sector<D: StorageDrive>(drive: &mut D, lba: u64, data: &[u8; 512]) -> (r: Result<(), FSError>)
    ensures
        r is Ok ==> lba < old(drive).sectors().len() && final(drive).sectors() == old(drive).sectors().update(lba as int, *data),
        r is Err ==> final(drive).sectors() == old(drive).sectors(),
        r matches Err(e) ==> e == FSError::IOError,
        lba >= old(drive).sectors().len() ==> r is Err,
{
    match drive.write_sector(lba, data) {
        Ok(()) => Ok(()),
        Err(_) => Err(FSError::IOError),
    }
}

/// The sector that holds the 512 bytes of `v`.
pub fn sector_of(v: &Vec<u8>) -> (r: [u8; 512])
    requires
        v@.len() == 512,
    ensures
        r@ == v@,
{
    let mut b = [0u8; 512];
    let mut i: usize = 0;
    while i < 512
        invariant
            v@.len() == 512,
            i <= 512,
            forall|j: int| 0 <= j < i ==> b@[j] == v@[j],
        decreases 512 - i,
    {
        b[i] = v[i];
        i = i + 1;
    }
    assert(b@ =~= v@);
    b
}

/// Writes zeros over sectors `[start, start + count)`.
pub fn zero_sectors<D: StorageDrive>(drive: &mut D, start: u64, count: u64) -> (r: Result<(), FSError>)
    ensures
        final(drive).sectors().len() == old(drive).sectors().len(),
        forall|l: int| 0 <= l < old(drive).sectors().len() && !(start <= l < start + count)
            ==> #[trigger] final(drive).sectors()[l] == old(drive).sectors()[l],
        r is Ok ==> forall|l: int| start <= l < start + count ==> #[trigger] final(drive).sectors()[l]@ == zeros(),
        r is Ok ==> start + count <= old(drive).sectors().len() || count == 0,
        r matches Err(e) ==> e == FSError::IOError,
{
    let zero = [0u8; 512];
    assert(zero@ =~= zeros());
    let mut i: u64 = 0;
    while i < count
        invariant
            i <= count,
            start + i <= old(drive).sectors().len() || i == 0,
            zero@ == zeros(),
            drive.sectors().len() == old(drive).sectors().len(),
            forall|l: int| 0 <= l < old(drive).sectors().len() && !(start <= l < start + i)
                ==> #[trigger] drive.sectors()[l] == old(drive).sectors()[l],
            forall|l: int| start <= l < start + i ==> #[trigger] drive.sectors()[l]@ == zeros(),
        decreases count - i,
    {
        if start > u64::MAX - i {
            return Err(FSError::IOError);
        }
        write_sector(drive, start + i, &zero)?;
        i = i + 1;
    }
    Ok(())
}

/// Reads the directory block at `lba`.
pub fn read_dir_block<D: StorageDrive>(drive: &mut D, lba: u64) -> (r: Result<DirBlock, FSError>)
    ensures
        final(drive).sectors() == old(drive).sectors(),
        r matches Ok(b) ==> lba < old(drive).sectors().len() && b.image() == old(drive).sectors()[lba as int]@,
        r matches Err(e) ==> e == FSError::IOError,
{
    let b = read_sector(drive, lba)?;
    Ok(DirBlock::from_bytes(&b))
}

/// Writes the directory block `b` at `lba`.
pub fn write_dir_block<D: StorageDrive>(drive: &mut D, lba: u64, b: &DirBlock) -> (r: Result<(), FSError>)
    ensures
        final(drive).sectors().len() == old(drive).sectors().len(),
        r is Ok ==> lba < old(drive).sectors().len() && final(drive).sectors()[lba as int]@ == b.image()
            && forall|l: int| 0 <= l < old(drive).sectors().len() && l != lba ==> #[trigger] final(drive).sectors()[l] == old(drive).sectors()[l],
        r is Err ==> final(drive).sectors() == old(drive).sectors(),
        r matches Err(e) ==> e == FSError::IOError,
{
    let bytes = b.to_bytes();
    let s = sector_of(&bytes);
    write_sector(drive, lba, &s)
}

/// Reads the link block at `lba`.
pub fn read_link_block<D: StorageDrive>(drive: &mut D, lba: u64) -> (r: Result<LinkBlock, FSError>)
    ensures
        final(drive).sectors() == old(drive).sectors(),
        r matches Ok(b) ==> lba < old(drive).sectors().len() && b.image() == old(drive).sectors()[lba as int]@,
        r matches Err(e) ==> e == FSError::IOError,
{
    let b = read_sector(drive, lba)?;
    Ok(LinkBlock::from_bytes(&b))
}

/// Writes the link block `b` at `lba`.
pub fn write_link_block<D: StorageDrive>(drive: &mut D, lba: u64, b: &LinkBlock) -> (r: Result<(), FSError>)
    ensures
        final(drive).sectors().len() == old(drive).sectors().len(),
        r is Ok ==> lba < old(drive).sectors().len() && final(drive).sectors()[lba as int]@ == b.image()
            && forall|l: int| 0 <= l < old(drive).sectors().len() && l != lba ==> #[trigger] final(drive).sectors()[l] == old(drive).sectors()[l],
        r is Err ==> final(drive).sectors() == old(drive).sectors(),
        r matches Err(e) ==> e == FSError::IOError,
{
    let bytes = b.to_bytes();
    proof {
        assert(b.image().len() == 512);
    }
    let s = sector_of(&bytes);
    write_sector(drive, lba, &s)
}

/// A data pointer: valid and direct.
pub open spec fn is_data(p: LinkPointer) -> bool {
    p.start != 0 && p.size != 0
}

/// The link block that sector `lba` of `s` holds.
pub open spec fn link_block_at(s: Seq<[u8; 512]>, lba: int) -> LinkBlock {
    choose|b: LinkBlock| b.image() == s[lba]@
}

/// The link block read from a sector is the one the sector holds.
proof fn lemma_link_block_at(s: Seq<[u8; 512]>, lba: int, b: LinkBlock)
    requires
        b.image() == s[lba]@,
    ensures
        link_block_at(s, lba) == b,
{
    let c = link_block_at(s, lba);
    assert(c.image() == s[lba]@);
    super::disk::lemma_link_block_reads_back(b, c);
}

/// The pointers one step of resolution gives from the link block at `p`: its data pointers
/// among the first 31 slots, then the last slot if it is valid.
pub open spec fn step_links(s: Seq<[u8; 512]>, p: LinkPointer) -> Seq<LinkPointer> {
    let b = link_block_at(s, p.start as int);
    if b.0@[31].start != 0 {
        direct_slots(b.0@.subrange(0, 31)).push(b.0@[31])
    } else {
        direct_slots(b.0@.subrange(0, 31))
    }
}

/// The data pointers that the chain from `p` reaches, visiting at most `fuel` link blocks: a
/// data pointer is its own chain, an invalid pointer has none, and a link block gives its data
/// pointers among its first 31 slots, the chain going on through its last slot. A chain that
/// needs more link blocks, or leaves the partition, has none (`None`).
pub open spec fn chain_links(s: Seq<[u8; 512]>, p: LinkPointer, fuel: nat) -> Option<Seq<LinkPointer>>
    decreases fuel,
{
    if p.start == 0 {
        Some(Seq::empty())
    } else if p.size != 0 {
        Some(seq![p])
    } else if fuel == 0 || p.start >= s.len() {
        None
    } else {
        let b = link_block_at(s, p.start as int);
        match chain_links(s, b.0@[31], (fuel - 1) as nat) {
            Some(rest) => Some(direct_slots(b.0@.subrange(0, 31)) + rest),
            None => None,
        }
    }
}

/// The data pointers of the chain from `p` in the partition `s`, with as many link blocks as
/// the partition has sectors.
pub open spec fn file_links(s: Seq<[u8; 512]>, p: LinkPointer) -> Option<Seq<LinkPointer>> {
    chain_links(s, p, s.len())
}

/// The link blocks that the chain from `p` visits, in order, with at most `fuel` of them (see
/// [`chain_links`]); `None` where the chain has no data pointers either.
pub open spec fn chain_blocks(s: Seq<[u8; 512]>, p: LinkPointer, fuel: nat) -> Option<Seq<LinkPointer>>
    decreases fuel,
{
    if p.start == 0 || p.size != 0 {
        Some(Seq::empty())
    } else if fuel == 0 || p.start >= s.len() {
        None
    } else {
        let b = link_block_at(s, p.start as int);
        match chain_blocks(s, b.0@[31], (fuel - 1) as nat) {
            Some(rest) => Some(seq![p] + rest),
            None => None,
        }
    }
}

/// The link blocks of the chain from `p` in the partition `s` (see [`file_links`]).
pub open spec fn file_blocks(s: Seq<[u8; 512]>, p: LinkPointer) -> Option<Seq<LinkPointer>> {
    chain_blocks(s, p, s.len())
}

/// Appending to the front of a chain's result is associative.
proof fn lemma_after_after(a: Seq<LinkPointer>, b: Seq<LinkPointer>, x: Option<Seq<LinkPointer>>)
    ensures
        after(a, after(b, x)) == after(a + b, x),
        after(Seq::<LinkPointer>::empty(), x) == x,
{
    if let Some(r) = x {
        assert(a + (b + r) =~= (a + b) + r);
        assert(Seq::<LinkPointer>::empty() + r =~= r);
    }
}

/// The pointers a link resolves to one level down: none for an invalid link, the link itself
/// for a data pointer, else the data pointers among the first 31 slots of its block and, if
/// valid, the last slot.
pub fn resolve_link<D: StorageDrive>(drive: &mut D, link: LinkPointer) -> (r: Result<Vec<LinkPointer>, FSError>)
    ensures
        final(drive).sectors() == old(drive).sectors(),
        link.start == 0 ==> (r matches Ok(v) && v@.len() == 0),
        is_data(link) ==> (r matches Ok(v) && v@ == seq![link]),
        link.start != 0 && link.size == 0 ==> (r matches Ok(v) ==> link.start < old(drive).sectors().len()
            && v@ == step_links(old(drive).sectors(), link)),
        link.start != 0 && link.size == 0 && link.start >= old(drive).sectors().len() ==> r is Err,
        r matches Ok(v) ==> (forall|i: int| 0 <= i < v@.len() - 1 ==> is_data(#[trigger] v@[i]))
            && (v@.len() > 0 ==> v@.last().start != 0),
        r matches Err(e) ==> e == FSError::IOError,
{
    if !link.is_valid() {
        return Ok(Vec::new());
    }
    if link.is_direct() {
        let mut v = Vec::new();
        v.push(link);
        return Ok(v);
    }
    let block = read_link_block(drive, link.start)?;
    let r = block.resolve();
    proof {
        lemma_direct_slots_data(block.0@.subrange(0, 31));
        lemma_link_block_at(old(drive).sectors(), link.start as int, block);
    }
    Ok(r)
}

/// The pointers `direct_slots` keeps are data pointers.
pub proof fn lemma_direct_slots_data(slots: Seq<LinkPointer>)
    ensures
        forall|i: int| 0 <= i < direct_slots(slots).len() ==> is_data(#[trigger] direct_slots(slots)[i]),
    decreases slots.len(),
{
    if slots.len() > 0 {
        lemma_direct_slots_data(slots.drop_last());
        let rest = direct_slots(slots.drop_last());
        let p = slots.last();
        if p.start != 0 && p.size != 0 {
            assert forall|i: int| 0 <= i < rest.push(p).len() implies is_data(#[trigger] rest.push(p)[i]) by {
                if i < rest.len() {
                    assert(rest.push(p)[i] == rest[i]);
                }
            }
        }
    }
}

/// The chain continued by `rest` after the pointers `prefix`.
pub open spec fn after(prefix: Seq<LinkPointer>, rest: Option<Seq<LinkPointer>>) -> Option<Seq<LinkPointer>> {
    match rest {
        Some(r) => Some(prefix + r),
        None => None,
    }
}

/// Follows the chain from `start` and returns the data pointers it reaches (see
/// [`file_links`]): a data pointer is its own chain, an invalid one has none, and a link block
/// gives its data pointers, the chain going on through its last slot. A chain that visits more
/// link blocks than the partition has sectors is an I/O error.
pub fn resolve_links<D: StorageDrive>(drive: &mut D, start: LinkPointer) -> (r: Result<Vec<LinkPointer>, FSError>)
    ensures
        final(drive).sectors() == old(drive).sectors(),
        start.start == 0 ==> (r matches Ok(v) && v@.len() == 0),
        is_data(start) ==> (r matches Ok(v) && v@ == seq![start]),
        r matches Ok(v) ==> file_links(old(drive).sectors(), start) == Some(v@),
        file_links(old(drive).sectors(), start) is None ==> r is Err,
        r matches Ok(v) ==> forall|i: int| 0 <= i < v@.len() ==> is_data(#[trigger] v@[i]),
        r matches Err(e) ==> e == FSError::IOError,
{
    let mut stack: Vec<LinkPointer> = Vec::new();
    stack.push(start);
    let mut fuel: u64 = drive.sector_count();
    let ghost s = drive.sectors();
    proof {
        assert(stack@.drop_last() =~= Seq::<LinkPointer>::empty());
        assert(after(Seq::<LinkPointer>::empty(), chain_links(s, start, fuel as nat)) =~= chain_links(s, start, fuel as nat));
    }
    loop
        invariant
            drive.sectors() == s,
            s == old(drive).sectors(),
            stack@.len() > 0,
            forall|i: int| 0 <= i < stack@.len() - 1 ==> is_data(#[trigger] stack@[i]),
            stack@.len() > 1 ==> stack@.last().start != 0,
            stack@.len() == 1 && !(stack@[0] == start) ==> stack@[0].start != 0,
            start.start == 0 || is_data(start) ==> stack@ == seq![start],
            file_links(s, start) == after(stack@.drop_last(), chain_links(s, stack@.last(), fuel as nat)),
        decreases fuel,
    {
        let ghost st = stack@;
        let link = stack.pop().unwrap();
        proof {
            assert(stack@ == st.drop_last());
        }
        if !link.is_valid() {
            proof {
                assert(stack@ + Seq::<LinkPointer>::empty() =~= stack@);
            }
            return Ok(stack);
        }
        if link.is_direct() {
            stack.push(link);
            proof {
                assert(st.drop_last() + seq![link] =~= stack@);
            }
            return Ok(stack);
        }
        if fuel == 0 {
            return Err(FSError::IOError);
        }
        let more = resolve_link(drive, link)?;
        let ghost before = stack@;
        let ghost b = link_block_at(s, link.start as int);
        let mut i: usize = 0;
        while i < more.len()
            invariant
                i <= more@.len(),
                stack@ == before + more@.subrange(0, i as int),
                forall|j: int| 0 <= j < before.len() ==> is_data(#[trigger] before[j]),
                forall|j: int| 0 <= j < more@.len() - 1 ==> is_data(#[trigger] more@[j]),
            decreases more@.len() - i,
        {
            stack.push(more[i]);
            i = i + 1;
        }
        assert(more@.subrange(0, more@.len() as int) =~= more@);
        proof {
            let d = direct_slots(b.0@.subrange(0, 31));
            let last = b.0@[31];
            assert(more@ == step_links(s, link));
            assert(chain_links(s, link, fuel as nat) == after(d, chain_links(s, last, (fuel - 1) as nat)));
            lemma_direct_slots_data(b.0@.subrange(0, 31));
            if last.start == 0 {
                assert(more@ == d);
                assert(chain_links(s, last, (fuel - 1) as nat) == Some(Seq::<LinkPointer>::empty()));
                assert(d + Seq::<LinkPointer>::empty() =~= d);
            }
        }
        if stack.len() == 0 {
            proof {
                assert(before.len() == 0 && more@.len() == 0);
                assert(b.0@[31].start == 0);
            }
            return Ok(stack);
        }
        proof {
            assert forall|j: int| 0 <= j < stack@.len() - 1 implies is_data(#[trigger] stack@[j]) by {
                if j >= before.len() {
                    assert(stack@[j] == more@[j - before.len()]);
                }
            }
            let d = direct_slots(b.0@.subrange(0, 31));
            let last = b.0@[31];
            if more@.len() > 0 {
                assert(stack@.last() == more@.last());
            } else {
                assert(stack@ =~= before);
            }
            // The chain from the new top of the stack, after the rest of the stack, is the
            // chain from the expanded link block after what was below it.
            if last.start != 0 {
                assert(more@ == d.push(last));
                assert(stack@.drop_last() =~= before + d);
                assert(stack@.last() == last);
                assert(after(before, after(d, chain_links(s, last, (fuel - 1) as nat)))
                    =~= after(before + d, chain_links(s, last, (fuel - 1) as nat)));
            } else if d.len() > 0 {
                assert(stack@.last() == d.last());
                assert(stack@.drop_last() =~= before + d.drop_last());
                assert(is_data(d.last()));
                assert(chain_links(s, d.last(), (fuel - 1) as nat) == Some(seq![d.last()]));
                assert(d.drop_last() + seq![d.last()] =~= d);
                assert((before + d.drop_last()) + seq![d.last()] =~= before + d);
            } else {
                assert(stack@ =~= before);
                assert(is_data(before.last()));
                assert(chain_links(s, before.last(), (fuel - 1) as nat) == Some(seq![before.last()]));
                assert(before.drop_last() + seq![before.last()] =~= before);
                assert(d =~= Seq::<LinkPointer>::empty());
                assert(before + Seq::<LinkPointer>::empty() =~= before);
            }
        }
        fuel = fuel - 1;
    }
}

/// Follows the chain from `start` and returns its data pointers and, apart, its link blocks,
/// in chain order.
pub fn trace<D: StorageDrive>(drive: &mut D, start: LinkPointer) -> (r: Result<(Vec<LinkPointer>, Vec<LinkPointer>), FSError>)
    ensures
        final(drive).sectors() == old(drive).sectors(),
        start.start == 0 ==> (r matches Ok((d, ind)) && d@.len() == 0 && ind@.len() == 0),
        is_data(start) ==> (r matches Ok((d, ind)) && d@ == seq![start] && ind@.len() == 0),
        r matches Ok((d, ind)) ==> (forall|i: int| 0 <= i < d@.len() ==> is_data(#[trigger] d@[i]))
            && forall|i: int| 0 <= i < ind@.len() ==> (#[trigger] ind@[i]).start != 0 && ind@[i].size == 0,
        r matches Ok((d, ind)) ==> file_links(old(drive).sectors(), start) == Some(d@)
            && file_blocks(old(drive).sectors(), start) == Some(ind@),
        r matches Err(e) ==> e == FSError::IOError,
{
    let mut direct: Vec<LinkPointer> = Vec::new();
    let mut indirect: Vec<LinkPointer> = Vec::new();
    let mut ptr = start;
    let mut fuel: u64 = drive.sector_count();
    let ghost s = drive.sectors();
    let ghost mut first = true;
    proof {
        lemma_after_after(Seq::empty(), Seq::empty(), chain_links(s, start, fuel as nat));
        lemma_after_after(Seq::empty(), Seq::empty(), chain_blocks(s, start, fuel as nat));
    }
    while ptr.is_valid()
        invariant
            drive.sectors() == s,
            s == old(drive).sectors(),
            file_links(s, start) == after(direct@, chain_links(s, ptr, fuel as nat)),
            file_blocks(s, start) == after(indirect@, chain_blocks(s, ptr, fuel as nat)),
            forall|i: int| 0 <= i < direct@.len() ==> is_data(#[trigger] direct@[i]),
            forall|i: int| 0 <= i < indirect@.len() ==> (#[trigger] indirect@[i]).start != 0 && indirect@[i].size == 0,
            first ==> ptr == start && direct@.len() == 0 && indirect@.len() == 0,
            !first ==> start.start != 0 && start.size == 0,
        decreases fuel,
    {
        if ptr.is_direct() {
            proof {
                lemma_after_after(direct@, seq![ptr], Some(Seq::empty()));
                lemma_after_after(indirect@, Seq::empty(), Some(Seq::empty()));
                assert(direct@ + seq![ptr] + Seq::<LinkPointer>::empty() =~= direct@.push(ptr));
                assert(indirect@ + Seq::<LinkPointer>::empty() + Seq::<LinkPointer>::empty() =~= indirect@);
            }
            direct.push(ptr);
            return Ok((direct, indirect));
        }
        if fuel == 0 {
            return Err(FSError::IOError);
        }
        let block = read_link_block(drive, ptr.start)?;
        let ds = block.direct_pointers();
        proof {
            lemma_direct_slots_data(block.0@.subrange(0, 31));
        }
        let ghost before = direct@;
        let mut i: usize = 0;
        while i < ds.len()
            invariant
                i <= ds@.len(),
                direct@ == before + ds@.subrange(0, i as int),
                forall|j: int| 0 <= j < before.len() ==> is_data(#[trigger] before[j]),
                forall|j: int| 0 <= j < ds@.len() ==> is_data(#[trigger] ds@[j]),
            decreases ds@.len() - i,
        {
            direct.push(ds[i]);
            i = i + 1;
        }
        proof {
            assert forall|j: int| 0 <= j < direct@.len() implies is_data(#[trigger] direct@[j]) by {
                if j >= before.len() {
                    assert(direct@[j] == ds@[j - before.len()]);
                }
            }
        }
        proof {
            lemma_link_block_at(s, ptr.start as int, block);
            lemma_after_after(before, ds@, chain_links(s, block.0@[31], (fuel - 1) as nat));
            lemma_after_after(indirect@, seq![ptr], chain_blocks(s, block.0@[31], (fuel - 1) as nat));
            assert(ds@.subrange(0, ds@.len() as int) =~= ds@);
        }
        indirect.push(ptr);
        ptr = block.0[31];
        proof { first = false; }
        fuel = fuel - 1;
    }
    proof {
        assert(direct@ + Seq::<LinkPointer>::empty() =~= direct@);
        assert(indirect@ + Seq::<LinkPointer>::empty() =~= indirect@);
    }
    Ok((direct, indirect))
}

/// Every sector of `[start, start + count)` is covered by the bitmap `bitmap`.
pub open spec fn in_area(bitmap: BitmapAllocator, start: u64, count: u64) -> bool {
    start >= bitmap.base() && (count == 0 || start - bitmap.base() + count <= bitmap.bits().len())
}

/// Whether the bitmap covers `[start, start + count)` (see [`in_area`]).
pub fn covers(bitmap: &BitmapAllocator, start: u64, count: u64) -> (r: bool)
    requires
        bitmap.wf(),
    ensures
        r == in_area(*bitmap, start, count),
{
    let base = bitmap.base_lba();
    let len = bitmap.bit_count();
    start >= base && (count == 0 || (start - base <= len && count <= len - (start - base)))
}

} // verus!
