//! Files and directories as they are read from, written to and removed from a partition.

use vstd::prelude::*;
use crate::fs::FSError;
use crate::fs::hashtable::drive::StorageDrive;
use crate::fs::hashtable::headers::{div_ceil, u64_div_ceil};
use super::bitmap::BitmapAllocator;
use super::directory::{Directory, DirectoryEntry};
use super::dir_sync::{plan_dir_sync, sync_plan, planned_writes};
use super::disk::{DirBlock, DirEntry, Filename, LinkPointer, DIR_IS_DIR, DIR_IS_SYMLINK, ENTRIES_PER_DIRENTRY};
use super::file::{File, links_size};
use super::io::{read_dir_block, write_dir_block, resolve_links, trace, zero_sectors, is_data, covers, in_area, file_links, file_blocks, zeros};
use super::bitmap::set_range;

verus! {

/// The sum of the sizes of `links`, unless it overflows 64 bits.
pub fn checked_total(links: &Vec<LinkPointer>) -> (r: Option<u64>)
    ensures
        r matches Some(t) ==> t == links_size(links@),
        r is None ==> links_size(links@) > u64::MAX,
{
    let mut sum: u64 = 0;
    let mut i: usize = 0;
    while i < links.len()
        invariant
            i <= links@.len(),
            sum == links_size(links@.subrange(0, i as int)),
        decreases links@.len() - i,
    {
        assert(links@.subrange(0, i + 1).drop_last() =~= links@.subrange(0, i as int));
        match sum.checked_add(links[i].size) {
            Some(t) => { sum = t; }
            None => {
                proof { super::file::lemma_links_size_prefix(links@, i + 1); }
                return None;
            }
        }
        i = i + 1;
    }
    assert(links@.subrange(0, links@.len() as int) =~= links@);
    Some(sum)
}

/// The flags of an on-disk entry mark a directory or a symbolic link.
pub open spec fn not_a_file(dentry: DirEntry) -> bool {
    dentry.flags.bits & DIR_IS_DIR == DIR_IS_DIR || dentry.flags.bits & DIR_IS_SYMLINK == DIR_IS_SYMLINK
}

/// Every sector of `[start, start + count)` lies in the partition `s` and in the area of an
/// allocator whose bits are `bits` and whose bit 0 stands for LBA `base`, is free there and
/// holds zeros.
pub open spec fn released(bits: Seq<bool>, base: int, s: Seq<[u8; 512]>, start: int, count: int) -> bool {
    forall|l: int| start <= l < start + count ==> #[trigger] released_at(bits, base, s, l)
}

/// Sector `l` lies in the partition `s` and in the allocator's area, is free there and holds
/// zeros.
pub open spec fn released_at(bits: Seq<bool>, base: int, s: Seq<[u8; 512]>, l: int) -> bool {
    0 <= l < s.len() && base <= l && l - base < bits.len() && s[l]@ == zeros() && !bits[l - base]
}

/// The allocator bits went from `b0` to `b1` by freeing only: no block became taken.
pub open spec fn only_freed(b0: Seq<bool>, b1: Seq<bool>) -> bool {
    b1.len() == b0.len() && forall|i: int| 0 <= i < b1.len() && #[trigger] b1[i] ==> b0[i]
}

/// Freeing only, twice, is freeing only.
proof fn lemma_only_freed_trans(b0: Seq<bool>, b1: Seq<bool>, b2: Seq<bool>)
    requires
        only_freed(b0, b1),
        only_freed(b1, b2),
    ensures
        only_freed(b0, b2),
{
    assert forall|i: int| 0 <= i < b2.len() && #[trigger] b2[i] implies b0[i] by {
        assert(b1[i]);
    }
}

/// Freeing `[start, start + count)` and zeroing it keeps a range that was released released.
proof fn lemma_release_keeps(
    b0: Seq<bool>, b1: Seq<bool>, s0: Seq<[u8; 512]>, s1: Seq<[u8; 512]>,
    base: int, start: int, count: int, a: int, c: int,
)
    requires
        released(b0, base, s0, a, c),
        b1 == set_range(b0, start - base, count, false),
        s1.len() == s0.len(),
        forall|l: int| 0 <= l < s0.len() && !(start <= l < start + count) ==> #[trigger] s1[l] == s0[l],
        forall|l: int| start <= l < start + count ==> #[trigger] s1[l]@ == zeros(),
    ensures
        released(b1, base, s1, a, c),
        only_freed(b0, b1),
{
    assert forall|l: int| a <= l < a + c implies #[trigger] released_at(b1, base, s1, l) by {
        assert(released_at(b0, base, s0, l));
        if !(start <= l < start + count) {
            assert(s1[l] == s0[l]);
        }
    }
}

/// Freeing `[start, start + count)` inside the allocator's area and zeroing it releases it.
proof fn lemma_release_new(
    b0: Seq<bool>, b1: Seq<bool>, s0: Seq<[u8; 512]>, s1: Seq<[u8; 512]>,
    base: int, start: int, count: int,
)
    requires
        start >= base,
        base >= 0,
        count == 0 || start - base + count <= b0.len(),
        start + count <= s0.len() || count == 0,
        b1 == set_range(b0, start - base, count, false),
        s1.len() == s0.len(),
        forall|l: int| start <= l < start + count ==> #[trigger] s1[l]@ == zeros(),
    ensures
        released(b1, base, s1, start, count),
        only_freed(b0, b1),
{
}

/// The directory block that sector `lba` of `s` holds.
pub open spec fn dir_block_at(s: Seq<[u8; 512]>, lba: int) -> DirBlock {
    choose|b: DirBlock| b.image() == s[lba]@
}

/// The directory block read from a sector is the one the sector holds.
proof fn lemma_dir_block_at(s: Seq<[u8; 512]>, lba: int, b: DirBlock)
    requires
        b.image() == s[lba]@,
    ensures
        dir_block_at(s, lba) == b,
{
    let c = dir_block_at(s, lba);
    assert(c.image() == s[lba]@);
    super::disk::lemma_dir_block_reads_back(b, c);
}

/// The LBAs of the directory blocks of the chain from `p` in `s`, each block's `next` leading to
/// the following one, with at most `fuel` blocks: the chain ends at a pointer of size zero, or,
/// where `stops_at_zero`, at one that starts at LBA 0. A chain that needs more blocks, or
/// leaves the partition, has none (`None`).
pub open spec fn dir_chain(s: Seq<[u8; 512]>, p: LinkPointer, fuel: nat, stops_at_zero: bool) -> Option<Seq<u64>>
    decreases fuel,
{
    if p.size == 0 || (stops_at_zero && p.start == 0) {
        Some(Seq::empty())
    } else if fuel == 0 || p.start >= s.len() {
        None
    } else {
        match dir_chain(s, dir_block_at(s, p.start as int).next, (fuel - 1) as nat, stops_at_zero) {
            Some(rest) => Some(seq![p.start] + rest),
            None => None,
        }
    }
}

/// The chain continued by `rest` after the LBAs `prefix`.
pub open spec fn after_lbas(prefix: Seq<u64>, rest: Option<Seq<u64>>) -> Option<Seq<u64>> {
    match rest {
        Some(r) => Some(prefix + r),
        None => None,
    }
}

proof fn lemma_after_lbas(a: Seq<u64>, b: Seq<u64>, x: Option<Seq<u64>>)
    ensures
        after_lbas(a, after_lbas(b, x)) == after_lbas(a + b, x),
        after_lbas(Seq::<u64>::empty(), x) == x,
{
    if let Some(r) = x {
        assert(a + (b + r) =~= (a + b) + r);
        assert(Seq::<u64>::empty() + r =~= r);
    }
}

/// The position in `w` of the last block written at LBA `l`, if any.
pub open spec fn last_write<T>(w: Seq<(u64, T)>, l: int) -> Option<int>
    decreases w.len(),
{
    if w.len() == 0 {
        None
    } else if w.last().0 == l {
        Some(w.len() - 1)
    } else {
        last_write(w.drop_last(), l)
    }
}

/// Writing the blocks `w` in order took the partition from `s0` to `s1`: each sector holds the
/// last block written to it, and the sectors not written are unchanged.
pub open spec fn writes_applied(s0: Seq<[u8; 512]>, s1: Seq<[u8; 512]>, w: Seq<(u64, DirBlock)>) -> bool {
    &&& s1.len() == s0.len()
    &&& forall|l: int| 0 <= l < s0.len() ==> match last_write(w, l) {
        Some(k) => (#[trigger] s1[l])@ == w[k].1.image(),
        None => s1[l] == s0[l],
    }
}

pub proof fn lemma_last_write_bound<T>(w: Seq<(u64, T)>, l: int)
    ensures
        last_write(w, l) matches Some(k) ==> 0 <= k < w.len() && w[k].0 == l,
    decreases w.len(),
{
    if w.len() > 0 && w.last().0 != l {
        lemma_last_write_bound(w.drop_last(), l);
    }
}

/// Writing one more block keeps the record of what was written.
proof fn lemma_writes_applied_push(s0: Seq<[u8; 512]>, s1: Seq<[u8; 512]>, s2: Seq<[u8; 512]>, w: Seq<(u64, DirBlock)>, x: (u64, DirBlock))
    requires
        writes_applied(s0, s1, w),
        x.0 < s1.len(),
        s2.len() == s1.len(),
        s2[x.0 as int]@ == x.1.image(),
        forall|l: int| 0 <= l < s1.len() && l != x.0 ==> #[trigger] s2[l] == s1[l],
    ensures
        writes_applied(s0, s2, w.push(x)),
{
    let w2 = w.push(x);
    assert(w2.drop_last() =~= w);
    assert forall|l: int| 0 <= l < s0.len() implies match last_write(w2, l) {
        Some(k) => (#[trigger] s2[l])@ == w2[k].1.image(),
        None => s2[l] == s0[l],
    } by {
        lemma_last_write_bound(w, l);
        if l != x.0 {
            assert(s2[l] == s1[l]);
            if let Some(k) = last_write(w, l) {
                assert(w2[k] == w[k]);
            }
        }
    }
}

impl File {
    /// The file that an on-disk entry describes: its data pointers are those its chain
    /// resolves to, and its size their sum. An entry of a directory or a symbolic link is
    /// `BadFileType`.
    pub fn from_dir_entry<D: StorageDrive>(drive: &mut D, dentry: DirEntry) -> (r: Result<File, FSError>)
        ensures
            final(drive).sectors() == old(drive).sectors(),
            not_a_file(dentry) ==> r == Err::<File, FSError>(FSError::BadFileType),
            !not_a_file(dentry) ==> r != Err::<File, FSError>(FSError::BadFileType),
            r matches Ok(f) ==> f.name == dentry.name && f.head == dentry.link && f.size == links_size(f.links@)
                && file_links(old(drive).sectors(), dentry.link) == Some(f.links@)
                && forall|i: int| 0 <= i < f.links@.len() ==> is_data(#[trigger] f.links@[i]),
            !not_a_file(dentry) && (file_links(old(drive).sectors(), dentry.link) matches Some(v) ==> links_size(v) > u64::MAX)
                ==> r == Err::<File, FSError>(FSError::IOError),
            r matches Err(e) ==> e == FSError::BadFileType || e == FSError::IOError,
    {
        if dentry.flags.contains(DIR_IS_DIR) || dentry.flags.contains(DIR_IS_SYMLINK) {
            return Err(FSError::BadFileType);
        }
        let links = resolve_links(drive, dentry.link)?;
        if checked_total(&links).is_none() {
            return Err(FSError::IOError);
        }
        Ok(File::from_links(dentry.name, dentry.link, links))
    }

    /// Frees and zeroes the sectors of the file: those of its data pointers, then its link
    /// blocks. A pointer outside the area the bitmap covers is an I/O error.
    pub fn delete<D: StorageDrive>(self, drive: &mut D, bitmap: &mut BitmapAllocator) -> (r: Result<(), FSError>)
        requires
            old(bitmap).wf(),
        ensures
            final(bitmap).wf(),
            final(bitmap).base() == old(bitmap).base(),
            final(bitmap).num_blocks() == old(bitmap).num_blocks(),
            final(drive).sectors().len() == old(drive).sectors().len(),
            only_freed(old(bitmap).bits(), final(bitmap).bits()),
            r is Ok ==> (file_links(old(drive).sectors(), self.head) matches Some(v)
                && forall|k: int| 0 <= k < v.len() ==> released(final(bitmap).bits(), old(bitmap).base() as int,
                    final(drive).sectors(), (#[trigger] v[k]).start as int, div_ceil(v[k].size as int, 512))),
            r is Ok ==> (file_blocks(old(drive).sectors(), self.head) matches Some(ib)
                && forall|k: int| 0 <= k < ib.len() ==> released(final(bitmap).bits(), old(bitmap).base() as int,
                    final(drive).sectors(), (#[trigger] ib[k]).start as int, 1)),
            r matches Err(e) ==> e == FSError::IOError,
    {
        let ghost base = bitmap.base() as int;
        let (direct, indirect) = trace(drive, self.head)?;
        let mut i: usize = 0;
        while i < direct.len()
            invariant
                bitmap.wf(),
                bitmap.base() == old(bitmap).base(),
                base == bitmap.base(),
                bitmap.num_blocks() == old(bitmap).num_blocks(),
                drive.sectors().len() == old(drive).sectors().len(),
                i <= direct@.len(),
                only_freed(old(bitmap).bits(), bitmap.bits()),
                forall|k: int| 0 <= k < i ==> released(bitmap.bits(), base, drive.sectors(),
                    (#[trigger] direct@[k]).start as int, div_ceil(direct@[k].size as int, 512)),
            decreases direct@.len() - i,
        {
            let link = direct[i];
            let blocks = u64_div_ceil(link.size, 512);
            if !covers(bitmap, link.start, blocks) {
                return Err(FSError::IOError);
            }
            let ghost b0 = bitmap.bits();
            let ghost s0 = drive.sectors();
            bitmap.free(link.start, blocks);
            zero_sectors(drive, link.start, blocks)?;
            proof {
                assert forall|k: int| 0 <= k < i + 1 implies released(bitmap.bits(), base, drive.sectors(),
                    (#[trigger] direct@[k]).start as int, div_ceil(direct@[k].size as int, 512)) by {
                    if k < i {
                        lemma_release_keeps(b0, bitmap.bits(), s0, drive.sectors(), base, link.start as int, blocks as int,
                            direct@[k].start as int, div_ceil(direct@[k].size as int, 512));
                    } else {
                        lemma_release_new(b0, bitmap.bits(), s0, drive.sectors(), base, link.start as int, blocks as int);
                    }
                }
                lemma_release_new(b0, bitmap.bits(), s0, drive.sectors(), base, link.start as int, blocks as int);
            }
            i = i + 1;
        }
        let mut j: usize = 0;
        while j < indirect.len()
            invariant
                bitmap.wf(),
                bitmap.base() == old(bitmap).base(),
                base == bitmap.base(),
                bitmap.num_blocks() == old(bitmap).num_blocks(),
                drive.sectors().len() == old(drive).sectors().len(),
                j <= indirect@.len(),
                only_freed(old(bitmap).bits(), bitmap.bits()),
                forall|k: int| 0 <= k < direct@.len() ==> released(bitmap.bits(), base, drive.sectors(),
                    (#[trigger] direct@[k]).start as int, div_ceil(direct@[k].size as int, 512)),
                forall|k: int| 0 <= k < j ==> released(bitmap.bits(), base, drive.sectors(),
                    (#[trigger] indirect@[k]).start as int, 1),
            decreases indirect@.len() - j,
        {
            let link = indirect[j];
            if !covers(bitmap, link.start, 1) {
                return Err(FSError::IOError);
            }
            let ghost b0 = bitmap.bits();
            let ghost s0 = drive.sectors();
            bitmap.free(link.start, 1);
            zero_sectors(drive, link.start, 1)?;
            proof {
                assert forall|k: int| 0 <= k < direct@.len() implies released(bitmap.bits(), base, drive.sectors(),
                    (#[trigger] direct@[k]).start as int, div_ceil(direct@[k].size as int, 512)) by {
                    lemma_release_keeps(b0, bitmap.bits(), s0, drive.sectors(), base, link.start as int, 1,
                        direct@[k].start as int, div_ceil(direct@[k].size as int, 512));
                }
                assert forall|k: int| 0 <= k < j + 1 implies released(bitmap.bits(), base, drive.sectors(),
                    (#[trigger] indirect@[k]).start as int, 1) by {
                    if k < j {
                        lemma_release_keeps(b0, bitmap.bits(), s0, drive.sectors(), base, link.start as int, 1,
                            indirect@[k].start as int, 1);
                    } else {
                        lemma_release_new(b0, bitmap.bits(), s0, drive.sectors(), base, link.start as int, 1);
                    }
                }
                lemma_release_new(b0, bitmap.bits(), s0, drive.sectors(), base, link.start as int, 1);
            }
            j = j + 1;
        }
        Ok(())
    }
}

impl DirectoryEntry {
    /// The entry that an on-disk entry describes: a symbolic link, a directory, or a file
    /// read through its chain (see [`File::from_dir_entry`]).
    pub fn from_dir_entry<D: StorageDrive>(drive: &mut D, dentry: DirEntry) -> (r: Result<Self, FSError>)
        ensures
            final(drive).sectors() == old(drive).sectors(),
            dentry.flags.bits & DIR_IS_SYMLINK == DIR_IS_SYMLINK
                ==> r == Ok::<Self, FSError>(DirectoryEntry::SymLink { name: dentry.name, dest: dentry.link }),
            dentry.flags.bits & DIR_IS_SYMLINK != DIR_IS_SYMLINK && dentry.flags.bits & DIR_IS_DIR == DIR_IS_DIR
                ==> r == Ok::<Self, FSError>(DirectoryEntry::Directory { name: dentry.name, link: dentry.link }),
            !not_a_file(dentry) ==> (r matches Ok(e) ==> (e matches DirectoryEntry::File(f) && f.name == dentry.name && f.head == dentry.link
                && f.size == links_size(f.links@) && file_links(old(drive).sectors(), dentry.link) == Some(f.links@))),
            r matches Err(e) ==> e == FSError::IOError,
    {
        if dentry.flags.contains(DIR_IS_SYMLINK) {
            Ok(Self::SymLink { name: dentry.name, dest: dentry.link })
        } else if dentry.flags.contains(DIR_IS_DIR) {
            Ok(Self::Directory { name: dentry.name, link: dentry.link })
        } else {
            let f = File::from_dir_entry(drive, dentry)?;
            Ok(Self::File(f))
        }
    }
}

/// The entry of a directory or a symbolic link that an on-disk entry stands for.
pub open spec fn non_file_entry(d: DirEntry) -> DirectoryEntry {
    if d.flags.bits & DIR_IS_SYMLINK == DIR_IS_SYMLINK {
        DirectoryEntry::SymLink { name: d.name, dest: d.link }
    } else {
        DirectoryEntry::Directory { name: d.name, link: d.link }
    }
}

/// `e` is the file that the on-disk entry `d` describes, its data pointers read from `s`.
pub open spec fn file_read_as(s: Seq<[u8; 512]>, d: DirEntry, e: DirectoryEntry) -> bool {
    e matches DirectoryEntry::File(f) && f.name == d.name && f.head == d.link
        && f.size == links_size(f.links@) && file_links(s, d.link) == Some(f.links@)
}

/// Every byte of the entry's name is zero: the slot is unused.
pub open spec fn unnamed(d: DirEntry) -> bool {
    forall|i: int| 0 <= i < 36 ==> d.name.0@[i] == 0u8
}

/// `out` is what reading the on-disk entries `ds` of a partition `s` gives, in order: nothing
/// for an unused slot, the entry of a directory or a symbolic link, and for a file either the
/// file read through its chain or nothing (a file that cannot be read is skipped).
pub open spec fn read_children(s: Seq<[u8; 512]>, ds: Seq<DirEntry>, out: Seq<DirectoryEntry>) -> bool
    decreases ds.len(),
{
    if ds.len() == 0 {
        out.len() == 0
    } else {
        let d = ds.last();
        if unnamed(d) {
            read_children(s, ds.drop_last(), out)
        } else if not_a_file(d) {
            out.len() > 0 && out.last() == non_file_entry(d) && read_children(s, ds.drop_last(), out.drop_last())
        } else {
            ||| read_children(s, ds.drop_last(), out)
            ||| (out.len() > 0 && file_read_as(s, d, out.last()) && read_children(s, ds.drop_last(), out.drop_last()))
        }
    }
}

/// `children` are what reading the directory whose chain starts at `head` on `s` gives: the
/// entries of its directory blocks (see [`read_children`]).
pub open spec fn loaded_from(s: Seq<[u8; 512]>, head: LinkPointer, children: Seq<DirectoryEntry>) -> bool {
    dir_chain(s, head, s.len(), false) matches Some(lbas) && read_children(s, chain_dentries(s, lbas), children)
}

/// The on-disk entries of the directory blocks at `lbas` of `s`, block after block.
pub open spec fn chain_dentries(s: Seq<[u8; 512]>, lbas: Seq<u64>) -> Seq<DirEntry>
    decreases lbas.len(),
{
    if lbas.len() == 0 {
        Seq::empty()
    } else {
        chain_dentries(s, lbas.drop_last()) + dir_block_at(s, lbas.last() as int).entries@
    }
}

/// Appends to `children` the entries of the directory blocks of the chain from `start`: every
/// entry with a name, in block order, except one whose file cannot be read, which is skipped.
pub fn add_children_from_link<D: StorageDrive>(drive: &mut D, children: &mut Vec<DirectoryEntry>, start: LinkPointer) -> (r: Result<(), FSError>)
    ensures
        final(drive).sectors() == old(drive).sectors(),
        final(children)@.len() >= old(children)@.len(),
        final(children)@.subrange(0, old(children)@.len() as int) == old(children)@,
        r is Ok ==> (dir_chain(old(drive).sectors(), start, old(drive).sectors().len(), false) matches Some(lbas)
            && read_children(old(drive).sectors(), chain_dentries(old(drive).sectors(), lbas),
                final(children)@.subrange(old(children)@.len() as int, final(children)@.len() as int))),
        r matches Err(e) ==> e == FSError::IOError,
{
    let ghost c0 = children@;
    let ghost s = drive.sectors();
    let ghost mut visited: Seq<u64> = Seq::empty();
    let mut ptr = start;
    let mut fuel: u64 = drive.sector_count();
    proof {
        lemma_after_lbas(Seq::empty(), Seq::empty(), dir_chain(s, start, fuel as nat, false));
        assert(children@.subrange(c0.len() as int, children@.len() as int) =~= Seq::<DirectoryEntry>::empty());
    }
    while ptr.is_direct()
        invariant
            drive.sectors() == old(drive).sectors(),
            s == old(drive).sectors(),
            c0 == old(children)@,
            children@.len() >= c0.len(),
            children@.subrange(0, c0.len() as int) == c0,
            dir_chain(s, start, s.len(), false) == after_lbas(visited, dir_chain(s, ptr, fuel as nat, false)),
            read_children(s, chain_dentries(s, visited), children@.subrange(c0.len() as int, children@.len() as int)),
        decreases fuel,
    {
        if fuel == 0 {
            return Err(FSError::IOError);
        }
        let block = read_dir_block(drive, ptr.start)?;
        proof {
            lemma_dir_block_at(s, ptr.start as int, block);
            assert(block.entries@.subrange(0, 0) =~= Seq::<DirEntry>::empty());
            assert(chain_dentries(s, visited) + block.entries@.subrange(0, 0) =~= chain_dentries(s, visited));
        }
        let mut i: usize = 0;
        while i < ENTRIES_PER_DIRENTRY
            invariant
                i <= ENTRIES_PER_DIRENTRY,
                drive.sectors() == old(drive).sectors(),
                s == old(drive).sectors(),
                children@.len() >= c0.len(),
                children@.subrange(0, c0.len() as int) == c0,
                read_children(s, chain_dentries(s, visited) + block.entries@.subrange(0, i as int),
                    children@.subrange(c0.len() as int, children@.len() as int)),
            decreases ENTRIES_PER_DIRENTRY - i,
        {
            let e = block.entries[i];
            let ghost ds = chain_dentries(s, visited) + block.entries@.subrange(0, i as int);
            let ghost ds2 = chain_dentries(s, visited) + block.entries@.subrange(0, i + 1);
            let ghost out = children@.subrange(c0.len() as int, children@.len() as int);
            proof {
                assert(ds2.drop_last() =~= ds);
                assert(ds2.last() == e);
            }
            if !e.name.is_empty() {
                match DirectoryEntry::from_dir_entry(drive, e) {
                    Ok(child) => {
                        let ghost before = children@;
                        children.push(child);
                        assert(children@.subrange(0, c0.len() as int) =~= before.subrange(0, c0.len() as int));
                        proof {
                            let out2 = children@.subrange(c0.len() as int, children@.len() as int);
                            assert(out2.drop_last() =~= out);
                            assert(out2.last() == child);
                            if not_a_file(e) {
                                assert(child == non_file_entry(e));
                            } else {
                                assert(file_read_as(s, e, child));
                            }
                        }
                    }
                    Err(_) => {
                        assert(!not_a_file(e));
                    }
                }
            }
            i = i + 1;
        }
        proof {
            assert(block.entries@.subrange(0, 8) =~= block.entries@);
            let v2 = visited.push(ptr.start);
            assert(v2.drop_last() =~= visited);
            lemma_after_lbas(visited, seq![ptr.start], dir_chain(s, block.next, (fuel - 1) as nat, false));
            assert(visited + seq![ptr.start] =~= v2);
            visited = v2;
        }
        ptr = block.next;
        fuel = fuel - 1;
    }
    proof {
        assert(visited + Seq::<u64>::empty() =~= visited);
    }
    Ok(())
}

impl Directory {
    /// The directory that an on-disk entry describes, with `parent` as its parent. An entry
    /// that is not a directory, or is a symbolic link, is `BadFileType`.
    pub fn from_dir_entry<D: StorageDrive>(drive: &mut D, dentry: DirEntry, parent: u64) -> (r: Result<Self, FSError>)
        ensures
            final(drive).sectors() == old(drive).sectors(),
            (dentry.flags.bits & DIR_IS_DIR != DIR_IS_DIR || dentry.flags.bits & DIR_IS_SYMLINK == DIR_IS_SYMLINK)
                ==> r == Err::<Self, FSError>(FSError::BadFileType),
            r matches Ok(d) ==> d.name == dentry.name && d.parent == parent && d.head == dentry.link,
            r matches Err(e) ==> e == FSError::BadFileType || e == FSError::IOError,
    {
        let flags = dentry.flags;
        if !flags.contains(DIR_IS_DIR) || flags.contains(DIR_IS_SYMLINK) {
            return Err(FSError::BadFileType);
        }
        let mut children = Vec::new();
        add_children_from_link(drive, &mut children, dentry.link)?;
        Ok(Self { name: dentry.name, parent, children, head: dentry.link })
    }

    /// The directory that a directory entry names, read from its first block. An entry that
    /// is not a directory is `BadFileType`.
    pub fn from_directory_entry<D: StorageDrive>(drive: &mut D, dentry: &DirectoryEntry) -> (r: Result<Self, FSError>)
        ensures
            final(drive).sectors() == old(drive).sectors(),
            !(*dentry matches DirectoryEntry::Directory { .. }) ==> r == Err::<Self, FSError>(FSError::BadFileType),
            r matches Ok(d) ==> (*dentry matches DirectoryEntry::Directory { name, link } && d.name == name && d.head == link
                && loaded_from(old(drive).sectors(), link, d.children@)),
            r matches Err(e) ==> e == FSError::BadFileType || e == FSError::IOError,
            *dentry is Directory ==> (r matches Err(e) ==> e == FSError::IOError),
    {
        let (name, link) = match dentry {
            DirectoryEntry::Directory { name, link } => (*name, *link),
            _ => return Err(FSError::BadFileType),
        };
        let dir_block = read_dir_block(drive, link.start)?;
        Self::from_dir_block(drive, &dir_block, name, link)
    }

    /// The directory whose first block is `dir_block`, named `name`, whose chain starts at
    /// `head`.
    pub fn from_dir_block<D: StorageDrive>(drive: &mut D, dir_block: &DirBlock, name: Filename, head: LinkPointer) -> (r: Result<Self, FSError>)
        ensures
            final(drive).sectors() == old(drive).sectors(),
            r matches Ok(d) ==> d.name == name && d.parent == dir_block.parent && d.head == head
                && loaded_from(old(drive).sectors(), head, d.children@),
            r matches Err(e) ==> e == FSError::IOError,
    {
        let mut children = Vec::new();
        add_children_from_link(drive, &mut children, head)?;
        assert(children@.subrange(0, children@.len() as int) =~= children@);
        Ok(Self { name, parent: dir_block.parent, children, head })
    }

    /// Adds `child` to the directory and writes it back (see [`Self::sync`]).
    pub fn give_child<D: StorageDrive>(&mut self, drive: &mut D, bitmap: &mut BitmapAllocator, child: DirectoryEntry) -> (r: Result<(), FSError>)
        requires
            old(bitmap).wf(),
        ensures
            final(self).children@ == old(self).children@.push(child),
            final(self).name == old(self).name,
            final(self).parent == old(self).parent,
            final(self).head == old(self).head,
            final(bitmap).wf(),
            final(bitmap).base() == old(bitmap).base(),
            final(bitmap).num_blocks() == old(bitmap).num_blocks(),
            final(drive).sectors().len() == old(drive).sectors().len(),
            r matches Err(e) ==> e == FSError::IOError || e == FSError::NoSpace,
    {
        self.children.push(child);
        self.sync(drive, bitmap)
    }

    /// Removes every child (files are deleted, directories removed in turn, symbolic links
    /// dropped), then frees and zeroes the directory's blocks. Directories nested deeper than
    /// the partition has sectors are an I/O error.
    pub fn delete<D: StorageDrive>(self, drive: &mut D, bitmap: &mut BitmapAllocator) -> (r: Result<(), FSError>)
        requires
            old(bitmap).wf(),
        ensures
            final(bitmap).wf(),
            final(bitmap).base() == old(bitmap).base(),
            final(bitmap).num_blocks() == old(bitmap).num_blocks(),
            final(drive).sectors().len() == old(drive).sectors().len(),
            only_freed(old(bitmap).bits(), final(bitmap).bits()),
            r is Ok && self.head.start != 0 && self.head.size != 0
                ==> released(final(bitmap).bits(), old(bitmap).base() as int, final(drive).sectors(), self.head.start as int, 1),
            r matches Err(e) ==> e == FSError::IOError,
    {
        let depth = drive.sector_count();
        self.delete_within(drive, bitmap, depth)
    }

    /// [`Self::delete`], with at most `depth` levels of directories below this one.
    fn delete_within<D: StorageDrive>(self, drive: &mut D, bitmap: &mut BitmapAllocator, depth: u64) -> (r: Result<(), FSError>)
        requires
            old(bitmap).wf(),
        ensures
            final(bitmap).wf(),
            final(bitmap).base() == old(bitmap).base(),
            final(bitmap).num_blocks() == old(bitmap).num_blocks(),
            final(drive).sectors().len() == old(drive).sectors().len(),
            only_freed(old(bitmap).bits(), final(bitmap).bits()),
            r is Ok && self.head.start != 0 && self.head.size != 0
                ==> released(final(bitmap).bits(), old(bitmap).base() as int, final(drive).sectors(), self.head.start as int, 1),
            r matches Err(e) ==> e == FSError::IOError,
        decreases depth,
    {
        let ghost base = bitmap.base() as int;
        let n = self.children.len();
        let mut i: usize = 0;
        while i < n
            invariant
                n == self.children@.len(),
                bitmap.wf(),
                bitmap.base() == old(bitmap).base(),
                base == bitmap.base(),
                bitmap.num_blocks() == old(bitmap).num_blocks(),
                drive.sectors().len() == old(drive).sectors().len(),
                only_freed(old(bitmap).bits(), bitmap.bits()),
            decreases n - i,
        {
            let ghost b_prev = bitmap.bits();
            match &self.children[i] {
                DirectoryEntry::File(f) => {
                    let f = f.clone();
                    f.delete(drive, bitmap)?;
                }
                DirectoryEntry::Directory { name: _, link } => {
                    if depth == 0 {
                        return Err(FSError::IOError);
                    }
                    let link = *link;
                    let block = read_dir_block(drive, link.start)?;
                    let empty_name = Filename([0u8; 36]);
                    let dir = match Self::from_dir_block(drive, &block, empty_name, link) {
                        Ok(d) => d,
                        Err(e) => return Err(e),
                    };
                    dir.delete_within(drive, bitmap, depth - 1)?;
                }
                DirectoryEntry::SymLink { name: _, dest: _ } => {}
            }
            proof { lemma_only_freed_trans(old(bitmap).bits(), b_prev, bitmap.bits()); }
            i = i + 1;
        }
        let mut ptr = self.head;
        let mut fuel: u64 = drive.sector_count();
        let ghost mut head_freed = false;
        while ptr.is_valid() && ptr.is_direct()
            invariant
                bitmap.wf(),
                bitmap.base() == old(bitmap).base(),
                base == bitmap.base(),
                bitmap.num_blocks() == old(bitmap).num_blocks(),
                drive.sectors().len() == old(drive).sectors().len(),
                only_freed(old(bitmap).bits(), bitmap.bits()),
                !head_freed ==> ptr == self.head,
                head_freed ==> released(bitmap.bits(), base, drive.sectors(), self.head.start as int, 1),
            decreases fuel,
        {
            if fuel == 0 {
                return Err(FSError::IOError);
            }
            let block = read_dir_block(drive, ptr.start)?;
            if !covers(bitmap, ptr.start, 1) {
                return Err(FSError::IOError);
            }
            let ghost b0 = bitmap.bits();
            let ghost s0 = drive.sectors();
            bitmap.free(ptr.start, 1);
            zero_sectors(drive, ptr.start, 1)?;
            proof {
                if head_freed {
                    lemma_release_keeps(b0, bitmap.bits(), s0, drive.sectors(), base, ptr.start as int, 1, self.head.start as int, 1);
                }
                lemma_release_new(b0, bitmap.bits(), s0, drive.sectors(), base, ptr.start as int, 1);
                lemma_only_freed_trans(old(bitmap).bits(), b0, bitmap.bits());
                head_freed = true;
            }
            ptr = block.next;
            fuel = fuel - 1;
        }
        Ok(())
    }

    /// Writes the directory back: its chain is collected, and the blocks its entries need are
    /// planned (see [`plan_dir_sync`]) and written. A chain block outside the area the bitmap
    /// covers is an I/O error.
    pub fn sync<D: StorageDrive>(&self, drive: &mut D, bitmap: &mut BitmapAllocator) -> (r: Result<(), FSError>)
        requires
            old(bitmap).wf(),
        ensures
            final(bitmap).wf(),
            final(bitmap).base() == old(bitmap).base(),
            final(bitmap).num_blocks() == old(bitmap).num_blocks(),
            final(drive).sectors().len() == old(drive).sectors().len(),
            self.children@.len() + 8 > usize::MAX ==> r == Err::<(), FSError>(FSError::NoSpace),
            r is Ok ==> (dir_chain(old(drive).sectors(), self.head, old(drive).sectors().len(), true) matches Some(collected)
                && sync_plan(*self, collected, old(bitmap).bits(), old(bitmap).base(), old(bitmap).num_blocks() as int).2
                && final(bitmap).bits() == sync_plan(*self, collected, old(bitmap).bits(), old(bitmap).base(), old(bitmap).num_blocks() as int).1
                && exists|w: Seq<(u64, DirBlock)>| #[trigger] planned_writes(*self,
                    sync_plan(*self, collected, old(bitmap).bits(), old(bitmap).base(), old(bitmap).num_blocks() as int).0, w)
                    && writes_applied(old(drive).sectors(), final(drive).sectors(), w)),
            r matches Err(e) ==> e == FSError::IOError || e == FSError::NoSpace,
    {
        if self.children.len() > usize::MAX - 8 {
            return Err(FSError::NoSpace);
        }
        let ghost s = drive.sectors();
        let mut collected: Vec<u64> = Vec::new();
        let mut ptr = self.head;
        let mut fuel: u64 = drive.sector_count();
        proof {
            lemma_after_lbas(Seq::empty(), Seq::empty(), dir_chain(s, self.head, fuel as nat, true));
        }
        while ptr.is_direct() && ptr.is_valid()
            invariant
                drive.sectors() == old(drive).sectors(),
                s == old(drive).sectors(),
                self.children@.len() + 8 <= usize::MAX,
                bitmap.wf(),
                *bitmap == *old(bitmap),
                forall|k: int| 0 <= k < collected@.len() ==> bitmap.base() <= #[trigger] collected@[k]
                    && collected@[k] - bitmap.base() < bitmap.bits().len(),
                dir_chain(s, self.head, s.len(), true) == after_lbas(collected@, dir_chain(s, ptr, fuel as nat, true)),
            decreases fuel,
        {
            if fuel == 0 {
                return Err(FSError::IOError);
            }
            if !covers(bitmap, ptr.start, 1) {
                return Err(FSError::IOError);
            }
            let ghost before = collected@;
            collected.push(ptr.start);
            let block = read_dir_block(drive, ptr.start)?;
            proof {
                lemma_dir_block_at(s, ptr.start as int, block);
                lemma_after_lbas(before, seq![ptr.start], dir_chain(s, block.next, (fuel - 1) as nat, true));
                assert(before + seq![ptr.start] =~= collected@);
            }
            ptr = block.next;
            fuel = fuel - 1;
        }
        proof {
            assert(collected@ + Seq::<u64>::empty() =~= collected@);
        }
        let writes = plan_dir_sync(self, collected.as_slice(), bitmap)?;
        let ghost chain = sync_plan(*self, collected@, old(bitmap).bits(), old(bitmap).base(), old(bitmap).num_blocks() as int).0;
        proof {
            assert(planned_writes(*self, chain, writes@));
            assert(writes@.subrange(0, 0) =~= Seq::<(u64, DirBlock)>::empty());
        }
        let mut i: usize = 0;
        while i < writes.len()
            invariant
                drive.sectors().len() == old(drive).sectors().len(),
                bitmap.wf(),
                bitmap.base() == old(bitmap).base(),
                bitmap.num_blocks() == old(bitmap).num_blocks(),
                i <= writes@.len(),
                self.children@.len() + 8 <= usize::MAX,
                writes_applied(old(drive).sectors(), drive.sectors(), writes@.subrange(0, i as int)),
            decreases writes@.len() - i,
        {
            let (lba, ref block) = writes[i];
            let ghost s1 = drive.sectors();
            write_dir_block(drive, lba, block)?;
            proof {
                lemma_writes_applied_push(old(drive).sectors(), s1, drive.sectors(), writes@.subrange(0, i as int), writes@[i as int]);
                assert(writes@.subrange(0, i as int).push(writes@[i as int]) =~= writes@.subrange(0, i + 1));
            }
            i = i + 1;
        }
        proof {
            assert(writes@.subrange(0, writes@.len() as int) =~= writes@);
        }
        Ok(())
    }
}

} // verus!
